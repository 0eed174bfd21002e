//! Aggregation over entry sequences: the distinct currencies, per-currency
//! totals split into inflow and outflow, and EUR-normalized totals through a
//! conversion table. All sums are exact rationals.

use crate::db::{Currency, Entry};
use crate::dec::{
    dec_pair, lemma_norm_pair_value, lemma_rat_add_congruence, lemma_rat_add_congruence_right,
    lemma_ratio_trans, norm_fits, norm_pair, rat_add, rat_mul, ratio_eq, Decimal,
};
use vstd::prelude::*;

verus! {

/// Some entry of `s` carries the currency `c`.
pub open spec fn currency_present(s: Seq<Entry>, c: Seq<u8>) -> bool {
    exists|k: int| 0 <= k < s.len() && s[k].currency@ == c
}

/// Every entry of `s` is well-formed.
pub open spec fn entries_wf(s: Seq<Entry>) -> bool {
    forall|k: int| 0 <= k < s.len() ==> (#[trigger] s[k]).wf()
}

/// The exact sum of the non-negative amounts among entries of currency `c`.
pub open spec fn sum_pos(s: Seq<Entry>, c: Seq<u8>) -> (int, int)
    decreases s.len(),
{
    if s.len() == 0 {
        (0, 1)
    } else {
        let rest = sum_pos(s.drop_last(), c);
        let e = s.last();
        if e.currency@ == c && e.value.n() >= 0 {
            rat_add(rest, dec_pair(e.value))
        } else {
            rest
        }
    }
}

/// The exact sum of the negative amounts among entries of currency `c`.
pub open spec fn sum_neg(s: Seq<Entry>, c: Seq<u8>) -> (int, int)
    decreases s.len(),
{
    if s.len() == 0 {
        (0, 1)
    } else {
        let rest = sum_neg(s.drop_last(), c);
        let e = s.last();
        if e.currency@ == c && e.value.n() < 0 {
            rat_add(rest, dec_pair(e.value))
        } else {
            rest
        }
    }
}

/// The reduced accumulator the computation of `sum_pos` carries, `None` once
/// a reduced intermediate no longer fits the representation.
pub open spec fn acc_pos(s: Seq<Entry>, c: Seq<u8>) -> Option<(int, int)>
    decreases s.len(),
{
    if s.len() == 0 {
        Some((0, 1))
    } else {
        match acc_pos(s.drop_last(), c) {
            None => None,
            Some(a) => {
                let e = s.last();
                if e.currency@ == c && e.value.n() >= 0 {
                    let sum = rat_add(a, dec_pair(e.value));
                    if norm_fits(sum.0, sum.1) {
                        Some(norm_pair(sum))
                    } else {
                        None
                    }
                } else {
                    Some(a)
                }
            },
        }
    }
}

/// The reduced accumulator for the negative side.
pub open spec fn acc_neg(s: Seq<Entry>, c: Seq<u8>) -> Option<(int, int)>
    decreases s.len(),
{
    if s.len() == 0 {
        Some((0, 1))
    } else {
        match acc_neg(s.drop_last(), c) {
            None => None,
            Some(a) => {
                let e = s.last();
                if e.currency@ == c && e.value.n() < 0 {
                    let sum = rat_add(a, dec_pair(e.value));
                    if norm_fits(sum.0, sum.1) {
                        Some(norm_pair(sum))
                    } else {
                        None
                    }
                } else {
                    Some(a)
                }
            },
        }
    }
}

/// A currency that appears nowhere accumulates exactly zero.
pub proof fn lemma_acc_absent(s: Seq<Entry>, c: Seq<u8>)
    requires
        !currency_present(s, c),
    ensures
        acc_pos(s, c) == Some((0int, 1int)),
        acc_neg(s, c) == Some((0int, 1int)),
    decreases s.len(),
{
    if s.len() > 0 {
        assert(!currency_present(s.drop_last(), c)) by {
            if currency_present(s.drop_last(), c) {
                let k = choose|k: int|
                    0 <= k < s.drop_last().len() && s.drop_last()[k].currency@ == c;
                assert(s[k].currency@ == c);
            }
        }
        lemma_acc_absent(s.drop_last(), c);
        assert(s.last().currency@ != c) by {
            if s.last().currency@ == c {
                assert(s[s.len() - 1].currency@ == c);
            }
        }
    }
}

/// Once an accumulator has overflowed on a prefix, it stays overflowed.
pub proof fn lemma_acc_none_extends(s: Seq<Entry>, c: Seq<u8>, i: int)
    requires
        0 <= i <= s.len(),
        acc_pos(s.subrange(0, i), c) is None || acc_neg(s.subrange(0, i), c) is None,
    ensures
        acc_pos(s, c) is None || acc_neg(s, c) is None,
    decreases s.len() - i,
{
    if i == s.len() {
        assert(s.subrange(0, i) =~= s);
    } else {
        assert(s.subrange(0, i + 1).drop_last() =~= s.subrange(0, i));
        assert(s.subrange(0, i + 1).last() == s[i]);
        lemma_acc_none_extends(s, c, i + 1);
    }
}

/// What the accumulators hold, when they hold anything, is the exact sum by
/// value.
pub proof fn lemma_acc_value(s: Seq<Entry>, c: Seq<u8>)
    requires
        entries_wf(s),
    ensures
        sum_pos(s, c).1 >= 1,
        sum_neg(s, c).1 >= 1,
        match acc_pos(s, c) {
            Some(a) => a.1 >= 1 && ratio_eq(a.0, a.1, sum_pos(s, c).0, sum_pos(s, c).1),
            None => true,
        },
        match acc_neg(s, c) {
            Some(a) => a.1 >= 1 && ratio_eq(a.0, a.1, sum_neg(s, c).0, sum_neg(s, c).1),
            None => true,
        },
    decreases s.len(),
{
    if s.len() == 0 {
    } else {
        let t = s.drop_last();
        assert(entries_wf(t)) by {
            assert(forall|k: int| 0 <= k < t.len() ==> t[k] == s[k]);
        }
        lemma_acc_value(t, c);
        let e = s.last();
        assert(e.wf());
        let v = dec_pair(e.value);
        assert(v.1 >= 1);
        // positive side
        assert(sum_pos(s, c).1 >= 1) by {
            if e.currency@ == c && e.value.n() >= 0 {
                assert(sum_pos(s, c).1 == sum_pos(t, c).1 * v.1);
                assert(sum_pos(t, c).1 * v.1 >= 1) by (nonlinear_arith)
                    requires
                        sum_pos(t, c).1 >= 1,
                        v.1 >= 1,
                ;
            }
        }
        assert(sum_neg(s, c).1 >= 1) by {
            if e.currency@ == c && e.value.n() < 0 {
                assert(sum_neg(s, c).1 == sum_neg(t, c).1 * v.1);
                assert(sum_neg(t, c).1 * v.1 >= 1) by (nonlinear_arith)
                    requires
                        sum_neg(t, c).1 >= 1,
                        v.1 >= 1,
                ;
            }
        }
        if acc_pos(s, c) is Some {
            let a = acc_pos(t, c)->Some_0;
            if e.currency@ == c && e.value.n() >= 0 {
                let sum = rat_add(a, v);
                lemma_rat_add_congruence(a, sum_pos(t, c), v);
                lemma_norm_pair_value(sum);
                lemma_ratio_trans(
                    norm_pair(sum).0,
                    norm_pair(sum).1,
                    sum.0,
                    sum.1,
                    sum_pos(s, c).0,
                    sum_pos(s, c).1,
                );
            }
        }
        if acc_neg(s, c) is Some {
            let a = acc_neg(t, c)->Some_0;
            if e.currency@ == c && e.value.n() < 0 {
                let sum = rat_add(a, v);
                lemma_rat_add_congruence(a, sum_neg(t, c), v);
                lemma_norm_pair_value(sum);
                lemma_ratio_trans(
                    norm_pair(sum).0,
                    norm_pair(sum).1,
                    sum.0,
                    sum.1,
                    sum_neg(s, c).0,
                    sum_neg(s, c).1,
                );
            }
        }
    }
}

/// Every rate in the table is well-formed.
pub open spec fn rates_wf(conv: Seq<Currency>) -> bool {
    forall|k: int| 0 <= k < conv.len() ==> (#[trigger] conv[k]).wf()
}

/// The first index at or after `i` whose entry names `c`, or the length.
pub open spec fn cur_find(conv: Seq<Currency>, c: Seq<u8>, i: int) -> int
    decreases conv.len() - i,
    when 0 <= i <= conv.len()
{
    if i >= conv.len() {
        conv.len() as int
    } else if conv[i].name@ == c {
        i
    } else {
        cur_find(conv, c, i + 1)
    }
}

pub proof fn lemma_cur_find(conv: Seq<Currency>, c: Seq<u8>, i: int)
    requires
        0 <= i <= conv.len(),
    ensures
        i <= cur_find(conv, c, i) <= conv.len(),
        cur_find(conv, c, i) < conv.len() ==> conv[cur_find(conv, c, i)].name@ == c,
        forall|j: int| i <= j < cur_find(conv, c, i) ==> conv[j].name@ != c,
    decreases conv.len() - i,
{
    if i < conv.len() && conv[i].name@ != c {
        lemma_cur_find(conv, c, i + 1);
    }
}

/// The rate of the first table entry for `c`, if there is one.
pub open spec fn rate_of(conv: Seq<Currency>, c: Seq<u8>) -> Option<Decimal> {
    let i = cur_find(conv, c, 0);
    if i < conv.len() {
        Some(conv[i].to_eur)
    } else {
        None
    }
}

/// One entry's contribution in EUR: its amount times its currency's rate.
pub open spec fn conv_term(e: Entry, rt: Decimal) -> (int, int) {
    rat_mul(dec_pair(e.value), dec_pair(rt))
}

/// The exact EUR sum of the non-negative amounts; entries without a rate
/// contribute nothing (the computation fails on them first).
pub open spec fn conv_sum_pos(s: Seq<Entry>, conv: Seq<Currency>) -> (int, int)
    decreases s.len(),
{
    if s.len() == 0 {
        (0, 1)
    } else {
        let rest = conv_sum_pos(s.drop_last(), conv);
        let e = s.last();
        match rate_of(conv, e.currency@) {
            None => rest,
            Some(rt) => if e.value.n() >= 0 {
                rat_add(rest, conv_term(e, rt))
            } else {
                rest
            },
        }
    }
}

/// The exact EUR sum of the negative amounts.
pub open spec fn conv_sum_neg(s: Seq<Entry>, conv: Seq<Currency>) -> (int, int)
    decreases s.len(),
{
    if s.len() == 0 {
        (0, 1)
    } else {
        let rest = conv_sum_neg(s.drop_last(), conv);
        let e = s.last();
        match rate_of(conv, e.currency@) {
            None => rest,
            Some(rt) => if e.value.n() < 0 {
                rat_add(rest, conv_term(e, rt))
            } else {
                rest
            },
        }
    }
}

/// The reduced accumulator pair the conversion total carries: `None` once a
/// rate is missing or a reduced intermediate does not fit.
pub open spec fn conv_acc(s: Seq<Entry>, conv: Seq<Currency>) -> Option<((int, int), (int, int))>
    decreases s.len(),
{
    if s.len() == 0 {
        Some(((0, 1), (0, 1)))
    } else {
        match conv_acc(s.drop_last(), conv) {
            None => None,
            Some((p, q)) => {
                let e = s.last();
                match rate_of(conv, e.currency@) {
                    None => None,
                    Some(rt) => {
                        let t = conv_term(e, rt);
                        if !norm_fits(t.0, t.1) {
                            None
                        } else {
                            let tn = norm_pair(t);
                            if e.value.n() >= 0 {
                                let sum = rat_add(p, tn);
                                if norm_fits(sum.0, sum.1) {
                                    Some((norm_pair(sum), q))
                                } else {
                                    None
                                }
                            } else {
                                let sum = rat_add(q, tn);
                                if norm_fits(sum.0, sum.1) {
                                    Some((p, norm_pair(sum)))
                                } else {
                                    None
                                }
                            }
                        }
                    },
                }
            },
        }
    }
}

/// Once the conversion accumulator has failed on a prefix, it stays failed.
pub proof fn lemma_conv_acc_none_extends(s: Seq<Entry>, conv: Seq<Currency>, i: int)
    requires
        0 <= i <= s.len(),
        conv_acc(s.subrange(0, i), conv) is None,
    ensures
        conv_acc(s, conv) is None,
    decreases s.len() - i,
{
    if i == s.len() {
        assert(s.subrange(0, i) =~= s);
    } else {
        assert(s.subrange(0, i + 1).drop_last() =~= s.subrange(0, i));
        lemma_conv_acc_none_extends(s, conv, i + 1);
    }
}

/// The overflow of an accumulator window survives extending the window.
pub proof fn lemma_conv_acc_none_range(
    s: Seq<Entry>,
    conv: Seq<Currency>,
    from: int,
    i: int,
    to: int,
)
    requires
        0 <= from <= i <= to <= s.len(),
        conv_acc(s.subrange(from, i), conv) is None,
    ensures
        conv_acc(s.subrange(from, to), conv) is None,
    decreases to - i,
{
    if i < to {
        assert(s.subrange(from, i + 1).drop_last() =~= s.subrange(from, i));
        lemma_conv_acc_none_range(s, conv, from, i + 1, to);
    }
}

/// What the conversion accumulators hold, when they hold anything, is the
/// exact EUR sum by value.
pub proof fn lemma_conv_acc_value(s: Seq<Entry>, conv: Seq<Currency>)
    requires
        entries_wf(s),
        rates_wf(conv),
    ensures
        conv_sum_pos(s, conv).1 >= 1,
        conv_sum_neg(s, conv).1 >= 1,
        match conv_acc(s, conv) {
            Some(a) => a.0.1 >= 1 && a.1.1 >= 1 && ratio_eq(
                a.0.0,
                a.0.1,
                conv_sum_pos(s, conv).0,
                conv_sum_pos(s, conv).1,
            ) && ratio_eq(a.1.0, a.1.1, conv_sum_neg(s, conv).0, conv_sum_neg(s, conv).1),
            None => true,
        },
    decreases s.len(),
{
    if s.len() > 0 {
        let t = s.drop_last();
        assert(entries_wf(t)) by {
            assert(forall|k: int| 0 <= k < t.len() ==> t[k] == s[k]);
        }
        lemma_conv_acc_value(t, conv);
        let e = s.last();
        assert(e.wf());
        match rate_of(conv, e.currency@) {
            None => {},
            Some(rt) => {
                lemma_cur_find(conv, e.currency@, 0);
                assert(rt.wf());
                let tm = conv_term(e, rt);
                assert(tm.1 >= 1) by (nonlinear_arith)
                    requires
                        tm.1 == e.value.d() * rt.d(),
                        e.value.d() >= 1,
                        rt.d() >= 1,
                ;
                // denominators of the exact sums stay positive
                assert(conv_sum_pos(s, conv).1 >= 1) by {
                    if e.value.n() >= 0 {
                        assert(conv_sum_pos(s, conv).1 == conv_sum_pos(t, conv).1 * tm.1);
                        assert(conv_sum_pos(t, conv).1 * tm.1 >= 1) by (nonlinear_arith)
                            requires
                                conv_sum_pos(t, conv).1 >= 1,
                                tm.1 >= 1,
                        ;
                    }
                }
                assert(conv_sum_neg(s, conv).1 >= 1) by {
                    if e.value.n() < 0 {
                        assert(conv_sum_neg(s, conv).1 == conv_sum_neg(t, conv).1 * tm.1);
                        assert(conv_sum_neg(t, conv).1 * tm.1 >= 1) by (nonlinear_arith)
                            requires
                                conv_sum_neg(t, conv).1 >= 1,
                                tm.1 >= 1,
                        ;
                    }
                }
                if conv_acc(s, conv) is Some {
                    let (p, q) = conv_acc(t, conv)->Some_0;
                    lemma_norm_pair_value(tm);
                    let tn = norm_pair(tm);
                    if e.value.n() >= 0 {
                        let sum = rat_add(p, tn);
                        let exact = rat_add(conv_sum_pos(t, conv), tm);
                        lemma_rat_add_congruence(p, conv_sum_pos(t, conv), tn);
                        lemma_rat_add_congruence_right(conv_sum_pos(t, conv), tn, tm);
                        lemma_ratio_trans(
                            sum.0,
                            sum.1,
                            rat_add(conv_sum_pos(t, conv), tn).0,
                            rat_add(conv_sum_pos(t, conv), tn).1,
                            exact.0,
                            exact.1,
                        );
                        lemma_norm_pair_value(sum);
                        lemma_ratio_trans(
                            norm_pair(sum).0,
                            norm_pair(sum).1,
                            sum.0,
                            sum.1,
                            exact.0,
                            exact.1,
                        );
                    } else {
                        let sum = rat_add(q, tn);
                        let exact = rat_add(conv_sum_neg(t, conv), tm);
                        lemma_rat_add_congruence(q, conv_sum_neg(t, conv), tn);
                        lemma_rat_add_congruence_right(conv_sum_neg(t, conv), tn, tm);
                        lemma_ratio_trans(
                            sum.0,
                            sum.1,
                            rat_add(conv_sum_neg(t, conv), tn).0,
                            rat_add(conv_sum_neg(t, conv), tn).1,
                            exact.0,
                            exact.1,
                        );
                        lemma_norm_pair_value(sum);
                        lemma_ratio_trans(
                            norm_pair(sum).0,
                            norm_pair(sum).1,
                            sum.0,
                            sum.1,
                            exact.0,
                            exact.1,
                        );
                    }
                }
            },
        }
    }
}

/// Looks up the first rate for `c` in the table.
pub fn lookup_rate(conv: &Vec<Currency>, c: &[u8; 3]) -> (r: Option<Decimal>)
    ensures
        r == rate_of(conv@, c@),
{
    let n = conv.len();
    let mut k: usize = 0;
    while k < n
        invariant
            k <= n,
            n == conv@.len(),
            cur_find(conv@, c@, 0) == cur_find(conv@, c@, k as int),
        decreases n - k,
    {
        if cur_eq(&conv[k].name, c) {
            return Some(conv[k].to_eur);
        }
        k = k + 1;
    }
    None
}

/// The failure of a conversion total: a currency with no rate, or an
/// intermediate value the representation cannot hold.
#[derive(Debug, PartialEq)]
pub enum TotalError {
    MissingCurrency([u8; 3]),
    Overflow,
}

/// Three-byte currency codes are equal.
pub fn cur_eq(a: &[u8; 3], b: &[u8; 3]) -> (r: bool)
    ensures
        r <==> a@ == b@,
{
    let r = a[0] == b[0] && a[1] == b[1] && a[2] == b[2];
    proof {
        if r {
            assert(a@ =~= b@);
        }
    }
    r
}

impl Entry {
    /// The distinct currency codes among `v`: each exactly once, whatever
    /// the repetition or order.
    pub fn unique_currencies(v: &Vec<Entry>) -> (r: Vec<[u8; 3]>)
        ensures
            forall|i: int, j: int| 0 <= i < j < r@.len() ==> r@[i]@ != r@[j]@,
            forall|i: int| 0 <= i < r@.len() ==> currency_present(v@, #[trigger] r@[i]@),
            forall|c: Seq<u8>| currency_present(v@, c) ==> exists|i: int|
                0 <= i < r@.len() && r@[i]@ == c,
    {
        let mut r: Vec<[u8; 3]> = Vec::new();
        let n = v.len();
        let mut i: usize = 0;
        while i < n
            invariant
                i <= n,
                n == v@.len(),
                forall|a: int, b: int| 0 <= a < b < r@.len() ==> r@[a]@ != r@[b]@,
                forall|a: int| 0 <= a < r@.len() ==> currency_present(v@, #[trigger] r@[a]@),
                forall|c: Seq<u8>| currency_present(v@.subrange(0, i as int), c) ==> exists|a: int|
                    0 <= a < r@.len() && r@[a]@ == c,
            decreases n - i,
        {
            let ghost r_old = r@;
            let mut found = false;
            let m = r.len();
            let mut k: usize = 0;
            while k < m
                invariant
                    k <= m,
                    m == r@.len(),
                    i < n,
                    n == v@.len(),
                    found == exists|a: int| 0 <= a < k && r@[a]@ == v@[i as int].currency@,
                decreases m - k,
            {
                if cur_eq(&r[k], &v[i].currency) {
                    found = true;
                    k = m;
                } else {
                    k = k + 1;
                }
            }
            if !found {
                r.push(v[i].currency);
            }
            proof {
                let cur = v@[i as int].currency@;
                assert(currency_present(v@, cur));
                assert forall|c: Seq<u8>| #[trigger]
                    currency_present(v@.subrange(0, i + 1 as int), c) implies exists|a: int|
                    0 <= a < r@.len() && r@[a]@ == c by {
                    let kk = choose|kk: int|
                        0 <= kk < i + 1 && (#[trigger] v@.subrange(0, i + 1 as int)[kk]).currency@
                            == c;
                    if kk < i {
                        assert(v@.subrange(0, i as int)[kk].currency@ == c);
                        assert(currency_present(v@.subrange(0, i as int), c));
                        let a = choose|a: int| 0 <= a < r_old.len() && r_old[a]@ == c;
                        assert(r@[a]@ == c);
                    } else {
                        assert(c == cur);
                        if found {
                            let a = choose|a: int| 0 <= a < m && r_old[a]@ == cur;
                            assert(r@[a]@ == c);
                        } else {
                            assert(r@[r@.len() - 1]@ == c);
                        }
                    }
                }
            }
            i = i + 1;
        }
        proof {
            assert(v@.subrange(0, n as int) =~= v@);
        }
        r
    }
}

impl Entry {
    /// Per-currency totals: for each currency appearing in `entries`, the
    /// exact sum of its non-negative amounts and the exact sum of its
    /// negative amounts. `None` only when a reduced intermediate sum cannot
    /// be represented.
    pub fn total(entries: &Vec<Entry>) -> (r: Option<Vec<([u8; 3], Decimal, Decimal)>>)
        requires
            entries_wf(entries@),
        ensures
            match r {
                Some(v) => {
                    &&& forall|a: int, b: int| 0 <= a < b < v@.len() ==> v@[a].0@ != v@[b].0@
                    &&& forall|a: int|
                        0 <= a < v@.len() ==> currency_present(entries@, #[trigger] v@[a].0@)
                    &&& forall|c: Seq<u8>|
                        currency_present(entries@, c) ==> exists|a: int|
                            0 <= a < v@.len() && v@[a].0@ == c
                    &&& forall|a: int|
                        0 <= a < v@.len() ==> (#[trigger] v@[a]).1.wf() && v@[a].2.wf()
                            && acc_pos(entries@, v@[a].0@) == Some(dec_pair(v@[a].1)) && acc_neg(
                            entries@,
                            v@[a].0@,
                        ) == Some(dec_pair(v@[a].2))
                },
                None => exists|c: Seq<u8>|
                    acc_pos(entries@, c) is None || acc_neg(entries@, c) is None,
            },
    {
        let mut v: Vec<([u8; 3], Decimal, Decimal)> = Vec::new();
        let n = entries.len();
        let mut i: usize = 0;
        while i < n
            invariant
                i <= n,
                n == entries@.len(),
                entries_wf(entries@),
                forall|a: int, b: int| 0 <= a < b < v@.len() ==> v@[a].0@ != v@[b].0@,
                forall|a: int|
                    0 <= a < v@.len() ==> currency_present(
                        entries@.subrange(0, i as int),
                        #[trigger] v@[a].0@,
                    ),
                forall|c: Seq<u8>| #[trigger]
                    currency_present(entries@.subrange(0, i as int), c) ==> exists|a: int|
                        0 <= a < v@.len() && v@[a].0@ == c,
                forall|a: int|
                    0 <= a < v@.len() ==> (#[trigger] v@[a]).1.wf() && v@[a].2.wf() && acc_pos(
                        entries@.subrange(0, i as int),
                        v@[a].0@,
                    ) == Some(dec_pair(v@[a].1)) && acc_neg(
                        entries@.subrange(0, i as int),
                        v@[a].0@,
                    ) == Some(dec_pair(v@[a].2)),
            decreases n - i,
        {
            let ghost pre = entries@.subrange(0, i as int);
            let ghost post = entries@.subrange(0, i + 1 as int);
            let ghost v_entry = v@;
            proof {
                assert(post.drop_last() =~= pre);
                assert(post.last() == entries@[i as int]);
                assert(entries@[i as int].wf());
            }
            let cur: [u8; 3] = entries[i].currency;
            // Find the slot of this currency, creating it at zero if new.
            let mut found = false;
            let m = v.len();
            let mut k: usize = 0;
            while k < m
                invariant
                    k <= m,
                    m == v@.len(),
                    found ==> k < m && v@[k as int].0@ == cur@,
                    !found ==> forall|a: int| 0 <= a < k ==> v@[a].0@ != cur@,
                ensures
                    found ==> k < m && v@[k as int].0@ == cur@,
                    !found ==> forall|a: int| 0 <= a < m ==> v@[a].0@ != cur@,
                decreases m + 1 - k,
            {
                if cur_eq(&v[k].0, &cur) {
                    found = true;
                    break ;
                }
                k = k + 1;
            }
            if !found {
                proof {
                    if currency_present(pre, cur@) {
                        let a = choose|a: int| 0 <= a < v@.len() && v@[a].0@ == cur@;
                        assert(v@[a].0@ != cur@);
                        assert(false);
                    }
                    lemma_acc_absent(pre, cur@);
                }
                v.push((cur, Decimal::zero(), Decimal::zero()));
            }
            let k = if found {
                k
            } else {
                v.len() - 1
            };
            let ghost v_mid = v@;
            let slot = v[k];
            proof {
                assert(v@[k as int].0@ == cur@);
                assert(acc_pos(pre, cur@) == Some(dec_pair(slot.1)));
                assert(acc_neg(pre, cur@) == Some(dec_pair(slot.2)));
                assert(forall|a: int, b: int| 0 <= a < b < v_mid.len() ==> v_mid[a].0@ != v_mid[b].0@);
            }
            let e_val = entries[i].value;
            if !e_val.is_negative() {
                let np = match slot.1.checked_add(&e_val) {
                    Some(x) => x,
                    None => {
                        proof {
                            assert(acc_pos(post, cur@) is None);
                            lemma_acc_none_extends(entries@, cur@, i + 1 as int);
                        }
                        return None;
                    },
                };
                v.set(k, (slot.0, np, slot.2));
                proof {
                    assert(acc_pos(post, cur@) == Some(dec_pair(np)));
                    assert(acc_neg(post, cur@) == Some(dec_pair(slot.2)));
                }
            } else {
                let nn = match slot.2.checked_add(&e_val) {
                    Some(x) => x,
                    None => {
                        proof {
                            assert(acc_neg(post, cur@) is None);
                            lemma_acc_none_extends(entries@, cur@, i + 1 as int);
                        }
                        return None;
                    },
                };
                v.set(k, (slot.0, slot.1, nn));
                proof {
                    assert(acc_neg(post, cur@) == Some(dec_pair(nn)));
                    assert(acc_pos(post, cur@) == Some(dec_pair(slot.1)));
                }
            }
            proof {
                assert(v@.len() == v_mid.len());
                assert(forall|a: int| 0 <= a < v@.len() && a != k ==> v@[a] == v_mid[a]);
                assert(v@[k as int].0 == v_mid[k as int].0);
                assert(forall|a: int| 0 <= a < v_entry.len() ==> v_mid[a] == v_entry[a]);
                assert forall|a: int|
                    0 <= a < v@.len() && a != k implies acc_pos(post, #[trigger] v@[a].0@)
                    == acc_pos(pre, v@[a].0@) && acc_neg(post, v@[a].0@) == acc_neg(
                    pre,
                    v@[a].0@,
                ) by {
                    assert(post.last().currency@ == cur@);
                    assert(v@[a].0@ != v@[k as int].0@);
                    assert(v@[a].0@ != cur@);
                }
                assert forall|c: Seq<u8>| #[trigger]
                    currency_present(post, c) implies exists|a: int|
                    0 <= a < v@.len() && v@[a].0@ == c by {
                    let kk = choose|kk: int|
                        0 <= kk < post.len() && (#[trigger] post[kk]).currency@ == c;
                    if kk < i {
                        assert(pre[kk].currency@ == c);
                        assert(currency_present(pre, c));
                        let a = choose|a: int| 0 <= a < v_entry.len() && v_entry[a].0@ == c;
                        assert(v@[a].0 == v_entry[a].0);
                        assert(v@[a].0@ == c);
                    } else {
                        assert(c == cur@);
                        assert(v@[k as int].0@ == c);
                    }
                }
                assert forall|a: int| 0 <= a < v@.len() implies currency_present(
                    post,
                    #[trigger] v@[a].0@,
                ) by {
                    if a < v_entry.len() {
                        assert(v@[a].0 == v_entry[a].0);
                        assert(currency_present(pre, v_entry[a].0@));
                        let kk = choose|kk: int|
                            0 <= kk < pre.len() && (#[trigger] pre[kk]).currency@ == v_entry[a].0@;
                        assert(post[kk].currency@ == v@[a].0@);
                    } else {
                        assert(a == k);
                        assert(v@[a].0@ == cur@);
                        assert(post[i as int].currency@ == cur@);
                    }
                }
            }
            i = i + 1;
        }
        proof {
            assert(entries@.subrange(0, n as int) =~= entries@);
        }
        Some(v)
    }

    /// EUR-normalized totals over the entries `[from, to)`: the exact sums
    /// of the non-negative and of the negative amounts, each amount
    /// multiplied by its currency's rate. Fails on the first currency
    /// without a rate, or on overflow.
    pub fn total_with_conversion_range(
        entries: &Vec<Entry>,
        conv: &Vec<Currency>,
        from: usize,
        to: usize,
    ) -> (r: Result<(Decimal, Decimal), TotalError>)
        requires
            entries_wf(entries@),
            rates_wf(conv@),
            from <= to <= entries@.len(),
        ensures
            ({
                let s = entries@.subrange(from as int, to as int);
                match r {
                    Ok(pq) => pq.0.wf() && pq.1.wf() && conv_acc(s, conv@) == Some(
                        (dec_pair(pq.0), dec_pair(pq.1)),
                    ),
                    Err(e) => conv_acc(s, conv@) is None && match e {
                        TotalError::MissingCurrency(c) => currency_present(s, c@) && rate_of(
                            conv@,
                            c@,
                        ) is None,
                        TotalError::Overflow => true,
                    },
                }
            }),
    {
        let mut pos = Decimal::zero();
        let mut neg = Decimal::zero();
        let mut i: usize = from;
        proof {
            assert(entries@.subrange(from as int, from as int) =~= Seq::<Entry>::empty());
        }
        while i < to
            invariant
                from <= i <= to <= entries@.len(),
                entries_wf(entries@),
                rates_wf(conv@),
                pos.wf(),
                neg.wf(),
                conv_acc(entries@.subrange(from as int, i as int), conv@) == Some(
                    (dec_pair(pos), dec_pair(neg)),
                ),
            decreases to - i,
        {
            let ghost pre = entries@.subrange(from as int, i as int);
            let ghost post = entries@.subrange(from as int, i + 1 as int);
            proof {
                assert(post.drop_last() =~= pre);
                assert(post.last() == entries@[i as int]);
                assert(entries@[i as int].wf());
            }
            let e_cur = entries[i].currency;
            let e_val = entries[i].value;
            let rt = match lookup_rate(conv, &e_cur) {
                Some(x) => x,
                None => {
                    proof {
                        assert(conv_acc(post, conv@) is None);
                        lemma_conv_acc_none_range(entries@, conv@, from as int, i + 1, to as int);
                        assert(entries@.subrange(from as int, to as int)[i - from].currency@
                            == e_cur@);
                    }
                    return Err(TotalError::MissingCurrency(e_cur));
                },
            };
            proof {
                lemma_cur_find(conv@, e_cur@, 0);
                assert(rt.wf());
            }
            let term = match e_val.checked_mul(&rt) {
                Some(x) => x,
                None => {
                    proof {
                        assert(conv_acc(post, conv@) is None);
                        lemma_conv_acc_none_range(entries@, conv@, from as int, i + 1, to as int);
                    }
                    return Err(TotalError::Overflow);
                },
            };
            if !e_val.is_negative() {
                pos = match pos.checked_add(&term) {
                    Some(x) => x,
                    None => {
                        proof {
                            assert(conv_acc(post, conv@) is None);
                            lemma_conv_acc_none_range(entries@, conv@, from as int, i + 1, to as int);
                        }
                        return Err(TotalError::Overflow);
                    },
                };
            } else {
                neg = match neg.checked_add(&term) {
                    Some(x) => x,
                    None => {
                        proof {
                            assert(conv_acc(post, conv@) is None);
                            lemma_conv_acc_none_range(entries@, conv@, from as int, i + 1, to as int);
                        }
                        return Err(TotalError::Overflow);
                    },
                };
            }
            proof {
                assert(conv_acc(post, conv@) == Some((dec_pair(pos), dec_pair(neg))));
            }
            i = i + 1;
        }
        Ok((pos, neg))
    }

    /// EUR-normalized totals over all entries.
    pub fn total_with_conversion(entries: &Vec<Entry>, conv: &Vec<Currency>) -> (r: Result<
        (Decimal, Decimal),
        TotalError,
    >)
        requires
            entries_wf(entries@),
            rates_wf(conv@),
        ensures
            match r {
                Ok(pq) => pq.0.wf() && pq.1.wf() && conv_acc(entries@, conv@) == Some(
                    (dec_pair(pq.0), dec_pair(pq.1)),
                ),
                Err(e) => conv_acc(entries@, conv@) is None && match e {
                    TotalError::MissingCurrency(c) => currency_present(entries@, c@) && rate_of(
                        conv@,
                        c@,
                    ) is None,
                    TotalError::Overflow => true,
                },
            },
    {
        let r = Entry::total_with_conversion_range(entries, conv, 0, entries.len());
        proof {
            assert(entries@.subrange(0, entries@.len() as int) =~= entries@);
        }
        r
    }
}

} // verus!
