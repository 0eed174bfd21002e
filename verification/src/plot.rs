//! The monthly time series: one row per calendar month from the month of the
//! first entry through the month of the end date, each row carrying the
//! exact EUR inflow, outflow, net and running cumulative sum, and its
//! rendering as line-oriented text.

use crate::agg::{conv_acc, currency_present, entries_wf, rate_of, rates_wf, TotalError};
use crate::date::Date;
use crate::db::{Currency, Entry};
use crate::dec::{dec_pair, fmt2_spec, norm_fits, norm_pair, rat_add, Decimal};
use crate::digits::{dec_digits, push_bytes_range, push_digits, two_digits};
use vstd::prelude::*;

verus! {

/// Entries are in chronologically non-decreasing order.
pub open spec fn sorted_by_date(s: Seq<Entry>) -> bool {
    forall|a: int, b: int| 0 <= a <= b < s.len() ==> s[a].date.le_spec(s[b].date)
}

/// Adjacent order gives global order.
pub proof fn lemma_sorted_adjacent(s: Seq<Entry>, a: int, b: int)
    requires
        forall|i: int| 0 <= i < s.len() - 1 ==> (#[trigger] s[i]).date.le_spec(s[i + 1].date),
        0 <= a <= b < s.len(),
    ensures
        s[a].date.le_spec(s[b].date),
    decreases b - a,
{
    if a < b {
        lemma_sorted_adjacent(s, a, b - 1);
        assert(s[b - 1].date.le_spec(s[b - 1 + 1].date));
    }
}

/// Whether the entries are sorted, checked pair by pair.
pub fn is_sorted_by_date(entries: &Vec<Entry>) -> (r: bool)
    ensures
        r <==> sorted_by_date(entries@),
{
    let n = entries.len();
    if n == 0 {
        return true;
    }
    let mut i: usize = 0;
    while i < n - 1
        invariant
            1 <= n == entries@.len(),
            i <= n - 1,
            forall|k: int| 0 <= k < i ==> (#[trigger] entries@[k]).date.le_spec(entries@[k + 1].date),
        decreases n - i,
    {
        if !entries[i].date.le(&entries[i + 1].date) {
            return false;
        }
        i = i + 1;
    }
    proof {
        assert forall|a: int, b: int| 0 <= a <= b < entries@.len() implies entries@[a].date.le_spec(
            entries@[b].date,
        ) by {
            lemma_sorted_adjacent(entries@, a, b);
        }
    }
    true
}

/// An earlier date is in the same or an earlier calendar month.
pub proof fn lemma_le_month(d1: Date, d2: Date)
    requires
        d1.wf(),
        d2.wf(),
        d1.le_spec(d2),
    ensures
        d1.month_index() <= d2.month_index(),
{
}

/// The number of entries dated before the calendar month `mi`.
pub open spec fn cnt_lt(s: Seq<Entry>, mi: int) -> int
    decreases s.len(),
{
    if s.len() == 0 {
        0
    } else {
        cnt_lt(s.drop_last(), mi) + if s.last().date.month_index() < mi {
            1int
        } else {
            0int
        }
    }
}

/// In a sorted sequence the entries before month `mi` are exactly the first
/// `cnt_lt` ones.
pub proof fn lemma_cnt_lt_sorted(s: Seq<Entry>, mi: int)
    requires
        sorted_by_date(s),
        entries_wf(s),
    ensures
        0 <= cnt_lt(s, mi) <= s.len(),
        forall|idx: int| 0 <= idx < cnt_lt(s, mi) ==> (#[trigger] s[idx]).date.month_index() < mi,
        forall|idx: int|
            cnt_lt(s, mi) <= idx < s.len() ==> (#[trigger] s[idx]).date.month_index() >= mi,
    decreases s.len(),
{
    if s.len() > 0 {
        let t = s.drop_last();
        assert(sorted_by_date(t) && entries_wf(t)) by {
            assert(forall|k: int| 0 <= k < t.len() ==> t[k] == s[k]);
        }
        lemma_cnt_lt_sorted(t, mi);
        let c = cnt_lt(t, mi);
        let last = s.last();
        assert(last.wf());
        assert(forall|k: int| 0 <= k < t.len() ==> t[k] == s[k]);
        if last.date.month_index() < mi {
            assert forall|idx: int| 0 <= idx < t.len() implies (#[trigger] t[idx]).date.month_index()
                < mi by {
                assert(s[idx].date.le_spec(s[s.len() - 1].date));
                lemma_le_month(s[idx].date, last.date);
            }
            if c < t.len() {
                assert(t[c].date.month_index() >= mi);
                assert(false);
            }
            assert(cnt_lt(s, mi) == s.len());
            assert forall|idx: int| 0 <= idx < cnt_lt(s, mi) implies (#[trigger] s[idx]).date.month_index()
                < mi by {
                if idx < t.len() {
                    assert(t[idx].date.month_index() < mi);
                }
            }
        } else {
            assert(cnt_lt(s, mi) == c);
            assert forall|idx: int| 0 <= idx < cnt_lt(s, mi) implies (#[trigger] s[idx]).date.month_index()
                < mi by {
                assert(t[idx].date.month_index() < mi);
            }
            assert forall|idx: int| cnt_lt(s, mi) <= idx < s.len() implies (#[trigger] s[idx]).date.month_index()
                >= mi by {
                if idx < t.len() {
                    assert(t[idx].date.month_index() >= mi);
                }
            }
        }
    }
}

/// One row of the monthly series.
#[derive(Debug, Clone, Copy, PartialEq)]
pub struct MonthRow {
    pub year: u16,
    pub month: u8,
    pub pos: Decimal,
    pub neg: Decimal,
    pub net: Decimal,
    pub cum: Decimal,
}

impl MonthRow {
    pub open spec fn month_index(self) -> int {
        self.year as int * 12 + self.month as int - 1
    }

    pub open spec fn wf(self) -> bool {
        &&& self.year <= 9999
        &&& 1 <= self.month <= 12
        &&& self.pos.wf()
        &&& self.neg.wf()
        &&& self.net.wf()
        &&& self.cum.wf()
    }
}

/// One row of the series is right: it is the month `mi0 + r`, its inflow
/// and outflow are the reduced exact EUR sums over precisely the entries of
/// that month, its net is their sum, and its cumulative value continues the
/// running sum of the nets.
pub open spec fn row_fact(
    s: Seq<Entry>,
    conv: Seq<Currency>,
    mi0: int,
    rows: Seq<MonthRow>,
    r: int,
) -> bool {
    &&& rows[r].wf()
    &&& rows[r].month_index() == mi0 + r
    &&& conv_acc(s.subrange(cnt_lt(s, mi0 + r), cnt_lt(s, mi0 + r + 1)), conv) == Some(
        (dec_pair(rows[r].pos), dec_pair(rows[r].neg)),
    )
    &&& dec_pair(rows[r].net) == norm_pair(rat_add(dec_pair(rows[r].pos), dec_pair(rows[r].neg)))
    &&& dec_pair(rows[r].cum) == norm_pair(
        rat_add(
            if r == 0 {
                (0int, 1int)
            } else {
                dec_pair(rows[r - 1].cum)
            },
            dec_pair(rows[r].net),
        ),
    )
}

/// `rows` is the monthly series of `s` through the end date: one right row
/// per month from the month of the first entry through the month of `end`.
pub open spec fn series_ok(s: Seq<Entry>, conv: Seq<Currency>, end: Date, rows: Seq<MonthRow>) -> bool {
    if s.len() == 0 || !s[0].date.le_spec(end) {
        rows.len() == 0
    } else {
        let mi0 = s[0].date.month_index();
        &&& rows.len() == end.month_index() - mi0 + 1
        &&& forall|r: int| 0 <= r < rows.len() ==> #[trigger] row_fact(s, conv, mi0, rows, r)
    }
}

/// The running cumulative value over the months `mi..=me`, `None` once a
/// month's sums cannot be computed or a reduced net or cumulative value no
/// longer fits.
#[verifier::opaque]
pub open spec fn cum_build(
    s: Seq<Entry>,
    conv: Seq<Currency>,
    mi: int,
    me: int,
    cum: (int, int),
) -> Option<(int, int)>
    decreases me - mi + 1,
    when mi <= me + 1
{
    if mi > me {
        Some(cum)
    } else {
        match conv_acc(s.subrange(cnt_lt(s, mi), cnt_lt(s, mi + 1)), conv) {
            None => None,
            Some((p, q)) => {
                let sum = rat_add(p, q);
                if !norm_fits(sum.0, sum.1) {
                    None
                } else {
                    let c2 = rat_add(cum, norm_pair(sum));
                    if !norm_fits(c2.0, c2.1) {
                        None
                    } else {
                        cum_build(s, conv, mi + 1, me, norm_pair(c2))
                    }
                }
            },
        }
    }
}

pub proof fn lemma_cum_build_stop(s: Seq<Entry>, conv: Seq<Currency>, mi: int, me: int, cum: (int, int))
    requires
        mi == me + 1,
    ensures
        cum_build(s, conv, mi, me, cum) == Some(cum),
{
    reveal(cum_build);
}

pub proof fn lemma_cum_build_fail(s: Seq<Entry>, conv: Seq<Currency>, mi: int, me: int, cum: (int, int))
    requires
        mi <= me,
        ({
            let w = conv_acc(s.subrange(cnt_lt(s, mi), cnt_lt(s, mi + 1)), conv);
            match w {
                None => true,
                Some((p, q)) => {
                    let sum = rat_add(p, q);
                    !norm_fits(sum.0, sum.1) || {
                        let c2 = rat_add(cum, norm_pair(sum));
                        !norm_fits(c2.0, c2.1)
                    }
                },
            }
        }),
    ensures
        cum_build(s, conv, mi, me, cum) is None,
{
    reveal(cum_build);
}

pub proof fn lemma_cum_build_step(
    s: Seq<Entry>,
    conv: Seq<Currency>,
    mi: int,
    me: int,
    cum: (int, int),
    p: (int, int),
    q: (int, int),
)
    requires
        mi <= me,
        conv_acc(s.subrange(cnt_lt(s, mi), cnt_lt(s, mi + 1)), conv) == Some((p, q)),
        norm_fits(rat_add(p, q).0, rat_add(p, q).1),
        norm_fits(
            rat_add(cum, norm_pair(rat_add(p, q))).0,
            rat_add(cum, norm_pair(rat_add(p, q))).1,
        ),
    ensures
        cum_build(s, conv, mi, me, cum) == cum_build(
            s,
            conv,
            mi + 1,
            me,
            norm_pair(rat_add(cum, norm_pair(rat_add(p, q)))),
        ),
{
    reveal(cum_build);
}

impl Entry {
    /// Builds the monthly series over a chronologically sorted entry
    /// sequence. Fails exactly when a month's sums cannot be computed — a
    /// currency without a rate, or an intermediate value the representation
    /// cannot hold — and returns no partial series then.
    #[verifier::rlimit(100)]
    #[verifier::spinoff_prover]
    pub fn month_series(entries: &Vec<Entry>, conv: &Vec<Currency>, end: &Date) -> (r: Result<
        Vec<MonthRow>,
        TotalError,
    >)
        requires
            entries_wf(entries@),
            rates_wf(conv@),
            sorted_by_date(entries@),
            end.wf(),
        ensures
            match r {
                Ok(rows) => series_ok(entries@, conv@, *end, rows@),
                Err(e) => {
                    &&& entries@.len() > 0
                    &&& entries@[0].date.le_spec(*end)
                    &&& cum_build(
                        entries@,
                        conv@,
                        entries@[0].date.month_index(),
                        end.month_index(),
                        (0int, 1int),
                    ) is None
                    &&& match e {
                        TotalError::MissingCurrency(c) => currency_present(entries@, c@)
                            && rate_of(conv@, c@) is None,
                        TotalError::Overflow => true,
                    }
                },
            },
    {
        let ghost s = entries@;
        let n = entries.len();
        let mut rows: Vec<MonthRow> = Vec::new();
        if n == 0 {
            return Ok(rows);
        }
        let first = entries[0].date;
        if !first.le(end) {
            return Ok(rows);
        }
        proof {
            assert(entries@[0].wf());
        }
        let ghost mi0 = first.month_index();
        let mut d = first;
        let mut j: usize = 0;
        let mut cum = Decimal::zero();
        let mut more = true;
        proof {
            lemma_cnt_lt_sorted(s, mi0);
            assert forall|idx: int| 0 <= idx < s.len() implies (#[trigger] s[idx]).date.month_index()
                >= mi0 by {
                assert(s[0].date.le_spec(s[idx].date));
                lemma_le_month(s[0].date, s[idx].date);
            }
            if cnt_lt(s, mi0) > 0 {
                assert(s[0].date.month_index() < mi0);
            }
            assert(cnt_lt(s, mi0) == 0);
            lemma_le_month(first, *end);
        }
        while more
            invariant
                s == entries@,
                n == s.len(),
                entries_wf(s),
                rates_wf(conv@),
                sorted_by_date(s),
                end.wf(),
                d.wf(),
                s.len() > 0,
                s[0].date.le_spec(*end),
                s[0].date.month_index() == mi0,
                more ==> d.month_index() <= end.month_index(),
                more ==> rows@.len() == d.month_index() - mi0,
                !more ==> rows@.len() == end.month_index() - mi0 + 1,
                j == cnt_lt(s, if more {
                    d.month_index()
                } else {
                    end.month_index() + 1
                }),
                more ==> cum_build(s, conv@, mi0, end.month_index(), (0int, 1int)) == cum_build(
                    s,
                    conv@,
                    d.month_index(),
                    end.month_index(),
                    dec_pair(cum),
                ),
                j <= n,
                cum.wf(),
                dec_pair(cum) == if rows@.len() == 0 {
                    (0int, 1int)
                } else {
                    dec_pair(rows@[rows@.len() - 1].cum)
                },
                forall|r: int| 0 <= r < rows@.len() ==> #[trigger] row_fact(s, conv@, mi0, rows@, r),
            decreases end.month_index() - d.month_index() + 1 + (if more {
                1int
            } else {
                0int
            }),
        {
            let ghost mi = d.month_index();
            let j0 = j;
            proof {
                lemma_cnt_lt_sorted(s, mi);
            }
            while j < n
                invariant
                    s == entries@,
                    n == s.len(),
                    entries_wf(s),
                    d.wf(),
                    mi == d.month_index(),
                    j0 <= j <= n,
                    forall|idx: int|
                        j0 <= idx < j ==> (#[trigger] s[idx]).date.month_index() == mi,
                ensures
                    j0 <= j <= n,
                    forall|idx: int|
                        j0 <= idx < j ==> (#[trigger] s[idx]).date.month_index() == mi,
                    j == n || s[j as int].date.month_index() != mi,
                decreases n - j,
            {
                proof {
                    assert(s[j as int].wf());
                }
                if !entries[j].date.same_month(&d) {
                    break ;
                }
                j = j + 1;
            }
            proof {
                // The scanned run ends exactly where the next month begins.
                lemma_cnt_lt_sorted(s, mi + 1);
                let c1 = cnt_lt(s, mi + 1);
                assert forall|idx: int| 0 <= idx < j implies (#[trigger] s[idx]).date.month_index()
                    < mi + 1 by {
                    if idx < j0 {
                        assert(s[idx].date.month_index() < mi);
                    }
                }
                if c1 < j {
                    assert(s[c1].date.month_index() >= mi + 1);
                    assert(false);
                }
                if c1 > j {
                    assert(j < n);
                    assert(s[j as int].date.month_index() < mi + 1);
                    assert(s[j as int].date.month_index() >= mi);
                    assert(false);
                }
                assert(j == cnt_lt(s, mi + 1));
            }
            let (pos, neg) = match Entry::total_with_conversion_range(entries, conv, j0, j) {
                Ok(x) => x,
                Err(e) => {
                    proof {
                        if let TotalError::MissingCurrency(c) = e {
                            let w = s.subrange(j0 as int, j as int);
                            let idx = choose|idx: int| 0 <= idx < w.len() && w[idx].currency@ == c@;
                            assert(s[j0 + idx].currency@ == c@);
                        }
                        lemma_cum_build_fail(s, conv@, mi, end.month_index(), dec_pair(cum));
                    }
                    return Err(e);
                },
            };
            let net = match pos.checked_add(&neg) {
                Some(x) => x,
                None => {
                    proof {
                        lemma_cum_build_fail(s, conv@, mi, end.month_index(), dec_pair(cum));
                    }
                    return Err(TotalError::Overflow);
                },
            };
            let new_cum = match cum.checked_add(&net) {
                Some(x) => x,
                None => {
                    proof {
                        lemma_cum_build_fail(s, conv@, mi, end.month_index(), dec_pair(cum));
                    }
                    return Err(TotalError::Overflow);
                },
            };
            let ghost slot_cum_before = cum;
            cum = new_cum;
            let ghost rows_old = rows@;
            rows.push(MonthRow { year: d.year, month: d.month, pos, neg, net, cum });
            proof {
                assert(forall|r: int| 0 <= r < rows_old.len() ==> rows@[r] == rows_old[r]);
                assert(rows@[rows@.len() - 1] == (MonthRow {
                    year: d.year,
                    month: d.month,
                    pos,
                    neg,
                    net,
                    cum,
                }));
                assert forall|r: int| 0 <= r < rows@.len() implies #[trigger] row_fact(
                    s,
                    conv@,
                    mi0,
                    rows@,
                    r,
                ) by {
                    if r < rows_old.len() {
                        assert(row_fact(s, conv@, mi0, rows_old, r));
                        if r > 0 {
                            assert(rows@[r - 1] == rows_old[r - 1]);
                        }
                    } else {
                        assert(rows@[r].month_index() == mi);
                    }
                }
            }
            proof {
                lemma_cum_build_step(
                    s,
                    conv@,
                    mi,
                    end.month_index(),
                    dec_pair(slot_cum_before),
                    dec_pair(pos),
                    dec_pair(neg),
                );
            }
            if d.year == 9999 && d.month == 12 {
                more = false;
                proof {
                    assert(d.month_index() == end.month_index());
                    lemma_cum_build_stop(s, conv@, mi + 1, end.month_index(), dec_pair(cum));
                }
            } else {
                let nd = d.next_month();
                if !nd.le(end) {
                    more = false;
                    proof {
                        lemma_le_month(*end, *end);
                        if nd.month_index() <= end.month_index() {
                            assert(nd.day == 1);
                            assert(nd.le_spec(*end));
                        }
                        assert(d.month_index() == end.month_index());
                    }
                } else {
                    proof {
                        lemma_le_month(nd, *end);
                    }
                    d = nd;
                }
            }
        }
        Ok(rows)
    }
}

/// The text of one row: `<year>-<MM> <pos> <neg> <net> <cum>` and a line
/// break, the amounts with two fraction digits.
pub open spec fn row_render(row: MonthRow) -> Seq<u8> {
    dec_digits(row.year as nat) + seq![45u8] + two_digits(row.month as int) + seq![32u8]
        + fmt2_spec(row.pos.n(), row.pos.d()) + seq![32u8] + fmt2_spec(row.neg.n(), row.neg.d())
        + seq![32u8] + fmt2_spec(row.net.n(), row.net.d()) + seq![32u8] + fmt2_spec(
        row.cum.n(),
        row.cum.d(),
    ) + seq![10u8]
}

/// The rows rendered one after the other.
pub open spec fn render_rows(rows: Seq<MonthRow>) -> Seq<u8>
    decreases rows.len(),
{
    if rows.len() == 0 {
        Seq::<u8>::empty()
    } else {
        render_rows(rows.drop_last()) + row_render(rows.last())
    }
}

/// Renders series rows as the line-oriented text the plot collaborator
/// consumes.
#[verifier::rlimit(100)]
pub fn render_series(rows: &Vec<MonthRow>) -> (r: Vec<u8>)
    requires
        forall|i: int| 0 <= i < rows@.len() ==> (#[trigger] rows@[i]).wf(),
    ensures
        r@ == render_rows(rows@),
{
    let mut out: Vec<u8> = Vec::new();
    let n = rows.len();
    let mut i: usize = 0;
    proof {
        assert(out@ =~= render_rows(rows@.subrange(0, 0)));
    }
    while i < n
        invariant
            i <= n,
            n == rows@.len(),
            forall|k: int| 0 <= k < rows@.len() ==> (#[trigger] rows@[k]).wf(),
            out@ == render_rows(rows@.subrange(0, i as int)),
        decreases n - i,
    {
        let row = rows[i];
        proof {
            vstd::arithmetic::div_mod::lemma_div_is_ordered(row.year as int, 9999, 1000);
        }
        push_digits(row.year as u64, &mut out);
        out.push(45);
        out.push(48 + row.month / 10);
        out.push(48 + row.month % 10);
        out.push(32);
        let f = row.pos.format2();
        push_bytes_range(&mut out, f.as_slice(), 0, f.len());
        out.push(32);
        let f = row.neg.format2();
        push_bytes_range(&mut out, f.as_slice(), 0, f.len());
        out.push(32);
        let f = row.net.format2();
        push_bytes_range(&mut out, f.as_slice(), 0, f.len());
        out.push(32);
        let f = row.cum.format2();
        push_bytes_range(&mut out, f.as_slice(), 0, f.len());
        out.push(10);
        proof {
            assert(rows@.subrange(0, i + 1 as int).drop_last() =~= rows@.subrange(0, i as int));
            assert(rows@.subrange(0, i + 1 as int).last() == rows@[i as int]);
            assert(out@ =~= render_rows(rows@.subrange(0, i as int)) + row_render(rows@[i as int]));
        }
        i = i + 1;
    }
    proof {
        assert(rows@.subrange(0, n as int) =~= rows@);
    }
    out
}

impl Entry {
    /// The monthly series rendered as text, one line per month.
    pub fn gen_data(entries: &Vec<Entry>, conv: &Vec<Currency>, end: &Date) -> (r: Result<
        Vec<u8>,
        TotalError,
    >)
        requires
            entries_wf(entries@),
            rates_wf(conv@),
            sorted_by_date(entries@),
            end.wf(),
        ensures
            match r {
                Ok(out) => exists|rows: Seq<MonthRow>|
                    #[trigger] series_ok(entries@, conv@, *end, rows) && out@ == render_rows(rows),
                Err(e) => {
                    &&& entries@.len() > 0
                    &&& entries@[0].date.le_spec(*end)
                    &&& cum_build(
                        entries@,
                        conv@,
                        entries@[0].date.month_index(),
                        end.month_index(),
                        (0int, 1int),
                    ) is None
                    &&& match e {
                        TotalError::MissingCurrency(c) => currency_present(entries@, c@)
                            && rate_of(conv@, c@) is None,
                        TotalError::Overflow => true,
                    }
                },
            },
    {
        match Entry::month_series(entries, conv, end) {
            Ok(rows) => {
                proof {
                    assert forall|i: int| 0 <= i < rows@.len() implies (#[trigger] rows@[i]).wf() by {
                        if entries@.len() == 0 || !entries@[0].date.le_spec(*end) {
                            assert(rows@.len() == 0);
                        } else {
                            assert(row_fact(
                                entries@,
                                conv@,
                                entries@[0].date.month_index(),
                                rows@,
                                i,
                            ));
                        }
                    }
                }
                let out = render_series(&rows);
                proof {
                    assert(series_ok(entries@, conv@, *end, rows@) && out@ == render_rows(rows@));
                }
                Ok(out)
            },
            Err(e) => Err(e),
        }
    }
}

} // verus!
