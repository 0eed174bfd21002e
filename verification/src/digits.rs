//! Decimal digit strings: the value a run of ASCII digits denotes, rendering a
//! number as digits, and a bounded digit-run parser.

use vstd::prelude::*;

verus! {

/// `b` is an ASCII decimal digit.
pub open spec fn is_digit(b: u8) -> bool {
    48 <= b <= 57
}

/// Every byte of `s` is an ASCII decimal digit.
pub open spec fn all_digits(s: Seq<u8>) -> bool {
    forall|i: int| 0 <= i < s.len() ==> is_digit(s[i])
}

/// The number that the digit string `s` denotes in base 10 (0 for the empty
/// string, leading zeros allowed).
pub open spec fn digits_val(s: Seq<u8>) -> int
    decreases s.len(),
{
    if s.len() == 0 {
        0
    } else {
        digits_val(s.drop_last()) * 10 + (s.last() - 48)
    }
}

/// 10 to the power `k`.
pub open spec fn pow10(k: nat) -> int
    decreases k,
{
    if k == 0 {
        1
    } else {
        10 * pow10((k - 1) as nat)
    }
}

pub proof fn lemma_pow10_pos(k: nat)
    ensures
        pow10(k) >= 1,
    decreases k,
{
    if k > 0 {
        lemma_pow10_pos((k - 1) as nat);
    }
}

/// A digit string of length `n` denotes a value in `[0, 10^n)`.
pub proof fn lemma_digits_val_bounds(s: Seq<u8>)
    requires
        all_digits(s),
    ensures
        0 <= digits_val(s) < pow10(s.len()),
    decreases s.len(),
{
    if s.len() > 0 {
        lemma_digits_val_bounds(s.drop_last());
    }
}

/// Concatenating digit strings: the left part is shifted by the length of the
/// right part.
pub proof fn lemma_digits_val_append(a: Seq<u8>, b: Seq<u8>)
    ensures
        digits_val(a + b) == digits_val(a) * pow10(b.len()) + digits_val(b),
    decreases b.len(),
{
    if b.len() == 0 {
        assert(a + b =~= a);
    } else {
        lemma_digits_val_append(a, b.drop_last());
        assert((a + b).drop_last() =~= a + b.drop_last());
        assert((a + b).last() == b.last());
        assert(digits_val(a + b) == (digits_val(a) * pow10((b.len() - 1) as nat) + digits_val(
            b.drop_last(),
        )) * 10 + (b.last() - 48));
        assert(digits_val(a) * pow10((b.len() - 1) as nat) * 10 == digits_val(a) * pow10(b.len()))
            by (nonlinear_arith)
            requires
                pow10(b.len()) == 10 * pow10((b.len() - 1) as nat),
        ;
    }
}

/// The canonical base-10 rendering of `m`: at least one digit, no leading zero
/// except for `m == 0` itself.
pub open spec fn dec_digits(m: nat) -> Seq<u8>
    decreases m,
{
    if m < 10 {
        seq![(48 + m) as u8]
    } else {
        dec_digits(m / 10).push((48 + m % 10) as u8)
    }
}

/// Rendering then reading a number gives the number back.
pub proof fn lemma_dec_digits(m: nat)
    ensures
        dec_digits(m).len() >= 1,
        all_digits(dec_digits(m)),
        digits_val(dec_digits(m)) == m,
    decreases m,
{
    if m < 10 {
        assert(dec_digits(m).drop_last() =~= Seq::<u8>::empty());
        assert(digits_val(Seq::<u8>::empty()) == 0);
        assert(((48 + m) as u8) - 48 == m);
    } else {
        lemma_dec_digits(m / 10);
        assert(dec_digits(m).drop_last() =~= dec_digits(m / 10));
        assert(dec_digits(m).last() == (48 + m % 10) as u8);
        assert(((48 + m % 10) as u8) - 48 == m % 10);
        vstd::arithmetic::div_mod::lemma_fundamental_div_mod(m as int, 10);
        assert(digits_val(dec_digits(m)) == (m / 10) * 10 + m % 10);
    }
}

/// The index of the first occurrence of `b` in `t` at or after `i`, or
/// `t.len()` if there is none.
pub open spec fn find_from(t: Seq<u8>, b: u8, i: int) -> int
    decreases t.len() - i,
    when 0 <= i <= t.len()
{
    if i >= t.len() {
        t.len() as int
    } else if t[i] == b {
        i
    } else {
        find_from(t, b, i + 1)
    }
}

pub proof fn lemma_find_from(t: Seq<u8>, b: u8, i: int)
    requires
        0 <= i <= t.len(),
    ensures
        i <= find_from(t, b, i) <= t.len(),
        find_from(t, b, i) < t.len() ==> t[find_from(t, b, i)] == b,
        forall|j: int| i <= j < find_from(t, b, i) ==> t[j] != b,
    decreases t.len() - i,
{
    if i < t.len() && t[i] != b {
        lemma_find_from(t, b, i + 1);
    }
}

/// A position that holds `b`, with nothing but other bytes before it, is the
/// one the search finds.
pub proof fn lemma_find_pin(t: Seq<u8>, b: u8, i: int, p: int)
    requires
        0 <= i <= p < t.len(),
        t[p] == b,
        forall|j: int| i <= j < p ==> t[j] != b,
    ensures
        find_from(t, b, i) == p,
{
    lemma_find_from(t, b, i);
    let f = find_from(t, b, i);
    if f < p {
        assert(t[f] != b);
        assert(false);
    }
    if f > p {
        assert(t[p] != b);
        assert(false);
    }
}

/// The first occurrence of `b` in `s` at or after `from`, or the length.
pub fn find_byte(s: &[u8], from: usize, b: u8) -> (r: usize)
    requires
        from <= s@.len(),
    ensures
        r == find_from(s@, b, from as int),
{
    let n = s.len();
    let mut i = from;
    while i < n
        invariant
            from <= i <= n,
            n == s@.len(),
            find_from(s@, b, from as int) == find_from(s@, b, i as int),
        decreases n - i,
    {
        if s[i] == b {
            return i;
        }
        i = i + 1;
    }
    n
}

/// Monotonicity of powers of ten.
pub proof fn lemma_pow10_le(a: nat, b: nat)
    requires
        a <= b,
    ensures
        pow10(a) <= pow10(b),
    decreases b,
{
    if a < b {
        lemma_pow10_le(a, (b - 1) as nat);
        lemma_pow10_pos((b - 1) as nat);
    }
}

/// Concrete powers of ten up to the edge of the `i64` range.
pub proof fn lemma_pow10_vals()
    ensures
        pow10(0) == 1,
        pow10(1) == 10,
        pow10(2) == 100,
        pow10(18) == 0xde0b6b3a7640000,
        pow10(19) == 0x8ac7230489e80000,
{
    assert(pow10(0) == 1);
    assert(pow10(1) == 10);
    assert(pow10(2) == 100);
    assert(pow10(3) == 1000);
    assert(pow10(4) == 10000);
    assert(pow10(5) == 100000);
    assert(pow10(6) == 1000000);
    assert(pow10(7) == 10000000);
    assert(pow10(8) == 100000000);
    assert(pow10(9) == 1000000000);
    assert(pow10(10) == 10000000000);
    assert(pow10(11) == 100000000000);
    assert(pow10(12) == 1000000000000);
    assert(pow10(13) == 10000000000000);
    assert(pow10(14) == 100000000000000);
    assert(pow10(15) == 1000000000000000);
    assert(pow10(16) == 10000000000000000);
    assert(pow10(17) == 100000000000000000);
    assert(pow10(18) == 1000000000000000000);
    assert(pow10(19) == 10000000000000000000);
}

/// Computes ten to the power `k`.
pub fn pow10_u64(k: usize) -> (r: u64)
    requires
        k <= 18,
    ensures
        r as int == pow10(k as nat),
{
    proof {
        lemma_pow10_vals();
    }
    let mut r: u64 = 1;
    let mut i: usize = 0;
    while i < k
        invariant
            i <= k <= 18,
            r as int == pow10(i as nat),
        decreases k - i,
    {
        proof {
            lemma_pow10_le(i as nat, 17);
            lemma_pow10_vals();
        }
        r = r * 10;
        i = i + 1;
    }
    r
}

/// The two-digit zero-padded rendering of `x` in `[0, 100)`.
pub open spec fn two_digits(x: int) -> Seq<u8> {
    seq![(48 + x / 10) as u8, (48 + x % 10) as u8]
}

pub proof fn lemma_two_digits_val(x: int)
    requires
        0 <= x < 100,
    ensures
        two_digits(x).len() == 2,
        all_digits(two_digits(x)),
        digits_val(two_digits(x)) == x,
{
    let td = two_digits(x);
    assert(0 <= x / 10 <= 9);
    assert(td.drop_last() =~= seq![(48 + x / 10) as u8]);
    assert(seq![(48 + x / 10) as u8].drop_last() =~= Seq::<u8>::empty());
    assert(digits_val(Seq::<u8>::empty()) == 0);
    assert(digits_val(seq![(48 + x / 10) as u8]) == x / 10);
    assert(td.last() == (48 + x % 10) as u8);
    assert(digits_val(td) == (x / 10) * 10 + x % 10);
}

/// Appends the base-10 rendering of `m` to `out`.
pub fn push_digits(m: u64, out: &mut Vec<u8>)
    ensures
        final(out)@ == old(out)@ + dec_digits(m as nat),
    decreases m,
{
    if m < 10 {
        out.push(48 + m as u8);
        assert(out@ =~= old(out)@ + dec_digits(m as nat));
    } else {
        push_digits(m / 10, out);
        out.push(48 + (m % 10) as u8);
        assert(out@ =~= old(out)@ + dec_digits(m as nat));
    }
}

/// Appends the bytes `s[from..to]` to `out`.
pub fn push_bytes_range(out: &mut Vec<u8>, s: &[u8], from: usize, to: usize)
    requires
        from <= to <= s@.len(),
    ensures
        final(out)@ == old(out)@ + s@.subrange(from as int, to as int),
{
    let mut i = from;
    while i < to
        invariant
            from <= i <= to <= s@.len(),
            out@ == old(out)@ + s@.subrange(from as int, i as int),
        decreases to - i,
    {
        out.push(s[i]);
        i = i + 1;
        proof {
            assert(out@ =~= old(out)@ + s@.subrange(from as int, i as int));
        }
    }
    proof {
        assert(out@ =~= old(out)@ + s@.subrange(from as int, to as int));
    }
}

/// The fixed-width rendering of `x % 10^k` with exactly `k` digits, zero
/// padded.
pub open spec fn pad_k(x: int, k: nat) -> Seq<u8>
    decreases k,
{
    if k == 0 {
        Seq::<u8>::empty()
    } else {
        pad_k(x / 10, (k - 1) as nat).push((48 + x % 10) as u8)
    }
}

pub proof fn lemma_pad_k(x: int, k: nat)
    requires
        0 <= x < pow10(k),
    ensures
        pad_k(x, k).len() == k,
        all_digits(pad_k(x, k)),
        digits_val(pad_k(x, k)) == x,
    decreases k,
{
    if k > 0 {
        lemma_pow10_pos((k - 1) as nat);
        vstd::arithmetic::div_mod::lemma_fundamental_div_mod(x, 10);
        assert(x / 10 < pow10((k - 1) as nat)) by (nonlinear_arith)
            requires
                x < 10 * pow10((k - 1) as nat),
                x == 10 * (x / 10) + x % 10,
                0 <= x % 10 < 10,
                pow10((k - 1) as nat) >= 1,
        ;
        lemma_pad_k(x / 10, (k - 1) as nat);
        assert(pad_k(x, k).drop_last() =~= pad_k(x / 10, (k - 1) as nat));
        assert(pad_k(x, k).last() == (48 + x % 10) as u8);
    }
}

/// Appends exactly `k` digits of `x` to `out`, zero padded.
pub fn push_pad(x: u128, k: usize, out: &mut Vec<u8>)
    ensures
        final(out)@ == old(out)@ + pad_k(x as int, k as nat),
    decreases k,
{
    if k == 0 {
        proof {
            assert(out@ =~= old(out)@ + pad_k(x as int, 0));
        }
    } else {
        push_pad(x / 10, k - 1, out);
        out.push(48 + (x % 10) as u8);
        proof {
            assert(out@ =~= old(out)@ + pad_k(x as int, k as nat));
        }
    }
}

/// The views of a sequence of byte vectors.
pub open spec fn views(s: Seq<Vec<u8>>) -> Seq<Seq<u8>> {
    Seq::new(s.len(), |i: int| s[i]@)
}

/// The pieces of `b` from `i` on, cut at every occurrence of `sep`.
pub open spec fn split_from(b: Seq<u8>, sep: u8, i: int) -> Seq<Seq<u8>>
    decreases b.len() - i,
    when 0 <= i <= b.len()
    via split_from_decreases
{
    let p = find_from(b, sep, i);
    if p == b.len() {
        seq![b.subrange(i, p)]
    } else {
        seq![b.subrange(i, p)] + split_from(b, sep, p + 1)
    }
}

#[via_fn]
proof fn split_from_decreases(b: Seq<u8>, sep: u8, i: int) {
    lemma_find_from(b, sep, i);
}

/// Cuts `b` at every occurrence of `sep`; one more piece than separators,
/// pieces may be empty.
pub fn split_bytes(b: &[u8], sep: u8) -> (r: Vec<Vec<u8>>)
    ensures
        views(r@) == split_from(b@, sep, 0),
{
    let n = b.len();
    let mut out: Vec<Vec<u8>> = Vec::new();
    let mut pos: usize = 0;
    proof {
        assert(views(out@) + split_from(b@, sep, 0) =~= split_from(b@, sep, 0));
    }
    loop
        invariant_except_break
            split_from(b@, sep, 0) == views(out@) + split_from(b@, sep, pos as int),
        invariant
            pos <= n,
            n == b@.len(),
        ensures
            views(out@) == split_from(b@, sep, 0),
        decreases n + 1 - pos,
    {
        let p = find_byte(b, pos, sep);
        proof {
            lemma_find_from(b@, sep, pos as int);
        }
        let mut seg: Vec<u8> = Vec::new();
        push_bytes_range(&mut seg, b, pos, p);
        proof {
            assert(seg@ =~= b@.subrange(pos as int, p as int));
        }
        let ghost out_old = out@;
        out.push(seg);
        proof {
            assert(views(out@) =~= views(out_old).push(b@.subrange(pos as int, p as int)));
        }
        if p == n {
            proof {
                assert(split_from(b@, sep, pos as int) =~= seq![
                    b@.subrange(pos as int, p as int),
                ]);
                assert(views(out@) =~= split_from(b@, sep, 0));
            }
            break ;
        }
        proof {
            assert(split_from(b@, sep, pos as int) =~= seq![b@.subrange(pos as int, p as int)]
                + split_from(b@, sep, p + 1));
            assert(views(out@) + split_from(b@, sep, p + 1) =~= views(out_old) + split_from(
                b@,
                sep,
                pos as int,
            ));
            assert(split_from(b@, sep, 0) == views(out@) + split_from(b@, sep, p + 1));
        }
        pos = p + 1;
    }
    out
}

/// `b` counts as blank space when trimming a field.
pub open spec fn is_ws(b: u8) -> bool {
    b == 32 || b == 9 || b == 13 || b == 10
}

/// The first index at or after `i` holding something other than blank space.
pub open spec fn skip_ws(t: Seq<u8>, i: int) -> int
    decreases t.len() - i,
    when 0 <= i <= t.len()
{
    if i >= t.len() {
        t.len() as int
    } else if is_ws(t[i]) {
        skip_ws(t, i + 1)
    } else {
        i
    }
}

/// The index just after the last byte that is not blank space, before `j`.
pub open spec fn rskip_ws(t: Seq<u8>, j: int) -> int
    decreases j,
    when 0 <= j <= t.len()
{
    if j <= 0 {
        0
    } else if is_ws(t[j - 1]) {
        rskip_ws(t, j - 1)
    } else {
        j
    }
}

/// `t` without leading and trailing blank space.
pub open spec fn trim_of(t: Seq<u8>) -> Seq<u8> {
    let a = skip_ws(t, 0);
    let b = rskip_ws(t, t.len() as int);
    if a <= b {
        t.subrange(a, b)
    } else {
        Seq::<u8>::empty()
    }
}

/// Copies `t` without leading and trailing blank space.
pub fn trim_bytes(t: &[u8]) -> (r: Vec<u8>)
    ensures
        r@ == trim_of(t@),
{
    let n = t.len();
    let mut a: usize = 0;
    while a < n
        invariant
            a <= n,
            n == t@.len(),
            skip_ws(t@, 0) == skip_ws(t@, a as int),
        ensures
            a <= n,
            skip_ws(t@, 0) == a as int,
        decreases n - a,
    {
        let c = t[a];
        if !(c == 32 || c == 9 || c == 13 || c == 10) {
            break ;
        }
        a = a + 1;
    }
    let mut b: usize = n;
    while b > 0
        invariant
            b <= n,
            n == t@.len(),
            rskip_ws(t@, n as int) == rskip_ws(t@, b as int),
        ensures
            b <= n,
            rskip_ws(t@, n as int) == b as int,
        decreases b,
    {
        let c = t[b - 1];
        if !(c == 32 || c == 9 || c == 13 || c == 10) {
            break ;
        }
        b = b - 1;
    }
    proof {
        lemma_skip_ws(t@, 0);
        lemma_rskip_ws(t@, n as int);
    }
    let mut r: Vec<u8> = Vec::new();
    if a <= b {
        push_bytes_range(&mut r, t, a, b);
        proof {
            assert(r@ =~= trim_of(t@));
        }
    } else {
        proof {
            assert(r@ =~= trim_of(t@));
        }
    }
    r
}

pub proof fn lemma_skip_ws(t: Seq<u8>, i: int)
    requires
        0 <= i <= t.len(),
    ensures
        i <= skip_ws(t, i) <= t.len(),
        skip_ws(t, i) < t.len() ==> !is_ws(t[skip_ws(t, i)]),
        forall|j: int| i <= j < skip_ws(t, i) ==> is_ws(t[j]),
    decreases t.len() - i,
{
    if i < t.len() && is_ws(t[i]) {
        lemma_skip_ws(t, i + 1);
    }
}

pub proof fn lemma_rskip_ws(t: Seq<u8>, j: int)
    requires
        0 <= j <= t.len(),
    ensures
        0 <= rskip_ws(t, j) <= j,
        rskip_ws(t, j) > 0 ==> !is_ws(t[rskip_ws(t, j) - 1]),
        forall|k: int| rskip_ws(t, j) <= k < j ==> is_ws(t[k]),
    decreases j,
{
    if j > 0 && is_ws(t[j - 1]) {
        lemma_rskip_ws(t, j - 1);
    }
}

/// Reads the digit run `s[from..to]` as a base-10 number, refusing a run that
/// holds a non-digit or denotes more than `cap`.
pub fn parse_uint(s: &[u8], from: usize, to: usize, cap: u64) -> (r: Option<u64>)
    requires
        from <= to <= s@.len(),
    ensures
        match r {
            Some(v) => all_digits(s@.subrange(from as int, to as int)) && v == digits_val(
                s@.subrange(from as int, to as int),
            ) && v <= cap,
            None => !(all_digits(s@.subrange(from as int, to as int)) && digits_val(
                s@.subrange(from as int, to as int),
            ) <= cap),
        },
{
    let ghost whole = s@.subrange(from as int, to as int);
    let mut acc: u64 = 0;
    let mut i: usize = from;
    while i < to
        invariant
            from <= i <= to <= s@.len(),
            all_digits(s@.subrange(from as int, i as int)),
            acc == digits_val(s@.subrange(from as int, i as int)),
            acc <= cap,
            whole == s@.subrange(from as int, to as int),
        decreases to - i,
    {
        let b = s[i];
        let ghost prefix = s@.subrange(from as int, i as int);
        let ghost prefix1 = s@.subrange(from as int, i + 1 as int);
        assert(prefix1.drop_last() =~= prefix);
        assert(prefix1.last() == s@[i as int]);
        if b < 48 || b > 57 {
            assert(whole[i - from] == s@[i as int]);
            return None;
        }
        let d = (b - 48) as u64;
        assert(digits_val(prefix1) == acc * 10 + d);
        if acc as u128 * 10 + d as u128 > cap as u128 {
            proof {
                let rest = s@.subrange(i + 1 as int, to as int);
                assert(whole =~= prefix1 + rest);
                lemma_digits_val_append(prefix1, rest);
                if all_digits(whole) {
                    assert(all_digits(rest)) by {
                        assert(forall|j: int|
                            0 <= j < rest.len() ==> rest[j] == whole[j + (i + 1 - from)]);
                    }
                    lemma_digits_val_bounds(rest);
                    lemma_pow10_pos(rest.len());
                    assert(digits_val(prefix1) * pow10(rest.len()) >= digits_val(prefix1))
                        by (nonlinear_arith)
                        requires
                            digits_val(prefix1) >= 0,
                            pow10(rest.len()) >= 1,
                    ;
                    assert(digits_val(whole) > cap);
                }
            }
            return None;
        }
        acc = acc * 10 + d;
        i = i + 1;
        assert(forall|j: int|
            0 <= j < i - from ==> s@.subrange(from as int, i as int)[j] == s@[from + j]);
    }
    assert(whole =~= s@.subrange(from as int, i as int));
    Some(acc)
}

} // verus!

