//! Exact decimal amounts, represented as a signed rational `num / den` with
//! both parts held in `i64`. Arithmetic is exact: every operation reduces its
//! result by the greatest common divisor and reports `None` instead of losing
//! precision when the reduced result no longer fits.

use crate::digits::{
    all_digits, dec_digits, digits_val, is_digit, lemma_digits_val_bounds, lemma_find_from,
    lemma_pow10_le, lemma_pow10_pos, lemma_pow10_vals, lemma_two_digits_val, pow10, two_digits,
};
use vstd::arithmetic::div_mod::{lemma_fundamental_div_mod, lemma_mod_multiples_vanish};
use vstd::prelude::*;

verus! {

/// The rationals `n1/d1` and `n2/d2` denote the same value (for positive
/// denominators).
pub open spec fn ratio_eq(n1: int, d1: int, n2: int, d2: int) -> bool {
    n1 * d2 == n2 * d1
}

/// `n1/d1` is strictly below `n2/d2` (for positive denominators).
pub open spec fn ratio_lt(n1: int, d1: int, n2: int, d2: int) -> bool {
    n1 * d2 < n2 * d1
}

pub open spec fn abs1(n: int) -> int {
    if n >= 0 {
        n
    } else {
        -n
    }
}

/// Euclid's greatest common divisor.
pub open spec fn gcd(a: nat, b: nat) -> nat
    decreases b,
{
    if b == 0 {
        a
    } else {
        gcd(b, a % b)
    }
}

/// For a positive `b`, `gcd(a, b)` is positive and divides both arguments.
pub proof fn lemma_gcd(a: nat, b: nat)
    requires
        b >= 1,
    ensures
        gcd(a, b) >= 1,
        a % gcd(a, b) == 0,
        b % gcd(a, b) == 0,
    decreases b,
{
    let r = a % b;
    if r == 0 {
        assert(gcd(a, b) == gcd(b, 0));
        assert(gcd(b, 0) == b);
        assert(a % b == 0);
    } else {
        lemma_gcd(b, r);
        let g = gcd(b, r);
        assert(gcd(a, b) == g);
        lemma_fundamental_div_mod(a as int, b as int);
        lemma_fundamental_div_mod(b as int, g as int);
        let q = a as int / b as int;
        let e = b as int / g as int;
        assert(b == g * e);
        assert(a == b * q + r);
        assert(b * q == g * (e * q)) by (nonlinear_arith)
            requires
                b == g * e,
        ;
        assert(a == g * (e * q) + r);
        lemma_mod_multiples_vanish(e * q, r as int, g as int);
        assert(a as int % g as int == r as int % g as int);
    }
}

/// The common divisor by which a raw pair `(n, d)` is reduced.
pub open spec fn norm_g(n: int, d: int) -> int {
    gcd(abs1(n) as nat, d as nat) as int
}

/// The numerator of `(n, d)` in reduced form.
pub open spec fn norm_n(n: int, d: int) -> int {
    if n >= 0 {
        n / norm_g(n, d)
    } else {
        -((-n) / norm_g(n, d))
    }
}

/// The denominator of `(n, d)` in reduced form.
pub open spec fn norm_d(n: int, d: int) -> int {
    d / norm_g(n, d)
}

/// The reduced form of `(n, d)` fits the `Decimal` representation.
pub open spec fn norm_fits(n: int, d: int) -> bool {
    -(i64::MAX as int) <= norm_n(n, d) <= i64::MAX as int && norm_d(n, d) <= i64::MAX as int
}

/// Reduction keeps the denominator positive and does not change the value.
pub proof fn lemma_norm_value(n: int, d: int)
    requires
        d >= 1,
    ensures
        1 <= norm_d(n, d) <= d,
        ratio_eq(norm_n(n, d), norm_d(n, d), n, d),
        abs1(norm_n(n, d)) <= abs1(n),
{
    let a = abs1(n);
    let g = norm_g(n, d);
    lemma_gcd(a as nat, d as nat);
    lemma_fundamental_div_mod(a, g);
    lemma_fundamental_div_mod(d, g);
    let q = a / g;
    let e = d / g;
    assert(a == g * q);
    assert(d == g * e);
    assert(q >= 0 && e >= 1 && e <= d && q <= a) by (nonlinear_arith)
        requires
            a == g * q,
            d == g * e,
            g >= 1,
            d >= 1,
            a >= 0,
    ;
    if n >= 0 {
        assert(q * d == n * e) by (nonlinear_arith)
            requires
                n == g * q,
                d == g * e,
        ;
    } else {
        assert((-q) * d == n * e) by (nonlinear_arith)
            requires
                -n == g * q,
                d == g * e,
        ;
    }
}

/// The product of any two `i64` values fits an `i128`.
pub proof fn lemma_i64_mul_fits(x: int, y: int)
    requires
        i64::MIN as int <= x <= i64::MAX as int,
        i64::MIN as int <= y <= i64::MAX as int,
    ensures
        -0x40000000000000000000000000000000 <= x * y <= 0x40000000000000000000000000000000,
{
    assert(-0x40000000000000000000000000000000 <= x * y <= 0x40000000000000000000000000000000)
        by (nonlinear_arith)
        requires
            -0x8000000000000000 <= x <= 0x7fffffffffffffff,
            -0x8000000000000000 <= y <= 0x7fffffffffffffff,
    ;
}

/// Computes `gcd` of two machine words.
fn gcd_u128(a: u128, b: u128) -> (g: u128)
    ensures
        g == gcd(a as nat, b as nat),
{
    let mut x = a;
    let mut y = b;
    while y != 0
        invariant
            gcd(x as nat, y as nat) == gcd(a as nat, b as nat),
        decreases y,
    {
        let r = x % y;
        x = y;
        y = r;
    }
    x
}

/// An exact signed decimal amount, held as the rational `num / den`.
#[derive(Clone, Copy, Debug)]
pub struct Decimal {
    num: i64,
    den: i64,
}

impl Decimal {
    /// The numerator of the held rational.
    pub closed spec fn n(self) -> int {
        self.num as int
    }

    /// The (positive) denominator of the held rational.
    pub closed spec fn d(self) -> int {
        self.den as int
    }

    /// Well-formed: positive denominator, and the magnitude of either part
    /// leaves room to negate it.
    pub open spec fn wf(self) -> bool {
        &&& 1 <= self.d() <= i64::MAX as int
        &&& -(i64::MAX as int) <= self.n() <= i64::MAX as int
    }

    /// The value zero.
    pub fn zero() -> (r: Decimal)
        ensures
            r.wf(),
            r.n() == 0,
            r.d() == 1,
    {
        Decimal { num: 0, den: 1 }
    }

    /// The whole number `i`.
    pub fn from_int(i: i64) -> (r: Decimal)
        requires
            i != i64::MIN,
        ensures
            r.wf(),
            r.n() == i,
            r.d() == 1,
    {
        Decimal { num: i, den: 1 }
    }

    /// Builds the reduced decimal for the value `±mag / d`; `None` when the
    /// reduced parts overflow `i64`.
    fn build(neg: bool, mag: u128, d: u128) -> (r: Option<Decimal>)
        requires
            1 <= d,
        ensures
            ({
                let n0 = if neg {
                    -(mag as int)
                } else {
                    mag as int
                };
                match r {
                    Some(v) => v.wf() && norm_fits(n0, d as int) && v.n() == norm_n(n0, d as int)
                        && v.d() == norm_d(n0, d as int),
                    None => !norm_fits(n0, d as int),
                }
            }),
    {
        let ghost n0: int = if neg {
            -(mag as int)
        } else {
            mag as int
        };
        proof {
            assert(abs1(n0) == mag as int);
            lemma_gcd(mag as nat, d as nat);
        }
        let g = gcd_u128(mag, d);
        let q = mag / g;
        let e = d / g;
        proof {
            assert(norm_g(n0, d as int) == g as int);
            assert(q as int == mag as int / g as int);
            assert(e as int == d as int / g as int);
            lemma_norm_value(n0, d as int);
        }
        if q > i64::MAX as u128 || e > i64::MAX as u128 {
            assert(!norm_fits(n0, d as int));
            return None;
        }
        let num: i64 = if neg {
            -(q as i64)
        } else {
            q as i64
        };
        Some(Decimal { num, den: e as i64 })
    }

    /// Exact sum; `None` only when the reduced result overflows.
    pub fn checked_add(&self, o: &Decimal) -> (r: Option<Decimal>)
        requires
            self.wf(),
            o.wf(),
        ensures
            ({
                let sn = self.n() * o.d() + o.n() * self.d();
                let sd = self.d() * o.d();
                match r {
                    Some(v) => v.wf() && norm_fits(sn, sd) && v.n() == norm_n(sn, sd) && v.d()
                        == norm_d(sn, sd),
                    None => !norm_fits(sn, sd),
                }
            }),
    {
        proof {
            let m = i64::MAX as int;
            assert(-(m * m) <= self.n() * o.d() <= m * m && -(m * m) <= o.n() * self.d() <= m * m
                && 1 <= self.d() * o.d() <= m * m) by (nonlinear_arith)
                requires
                    -m <= self.n() <= m,
                    -m <= o.n() <= m,
                    1 <= self.d() <= m,
                    1 <= o.d() <= m,
            ;
        }
        let a = self.num as i128 * o.den as i128;
        let b = o.num as i128 * self.den as i128;
        let s = a + b;
        let sd = self.den as i128 * o.den as i128;
        if s < 0 {
            Self::build(true, (-s) as u128, sd as u128)
        } else {
            Self::build(false, s as u128, sd as u128)
        }
    }

    /// Exact difference; `None` only when the reduced result overflows.
    pub fn checked_sub(&self, o: &Decimal) -> (r: Option<Decimal>)
        requires
            self.wf(),
            o.wf(),
        ensures
            ({
                let sn = self.n() * o.d() - o.n() * self.d();
                let sd = self.d() * o.d();
                match r {
                    Some(v) => v.wf() && norm_fits(sn, sd) && v.n() == norm_n(sn, sd) && v.d()
                        == norm_d(sn, sd),
                    None => !norm_fits(sn, sd),
                }
            }),
    {
        proof {
            let m = i64::MAX as int;
            assert(-(m * m) <= self.n() * o.d() <= m * m && -(m * m) <= o.n() * self.d() <= m * m
                && 1 <= self.d() * o.d() <= m * m) by (nonlinear_arith)
                requires
                    -m <= self.n() <= m,
                    -m <= o.n() <= m,
                    1 <= self.d() <= m,
                    1 <= o.d() <= m,
            ;
        }
        let a = self.num as i128 * o.den as i128;
        let b = o.num as i128 * self.den as i128;
        let s = a - b;
        let sd = self.den as i128 * o.den as i128;
        if s < 0 {
            Self::build(true, (-s) as u128, sd as u128)
        } else {
            Self::build(false, s as u128, sd as u128)
        }
    }

    /// Exact product; `None` only when the reduced result overflows.
    pub fn checked_mul(&self, o: &Decimal) -> (r: Option<Decimal>)
        requires
            self.wf(),
            o.wf(),
        ensures
            ({
                let sn = self.n() * o.n();
                let sd = self.d() * o.d();
                match r {
                    Some(v) => v.wf() && norm_fits(sn, sd) && v.n() == norm_n(sn, sd) && v.d()
                        == norm_d(sn, sd),
                    None => !norm_fits(sn, sd),
                }
            }),
    {
        proof {
            let m = i64::MAX as int;
            assert(-(m * m) <= self.n() * o.n() <= m * m && 1 <= self.d() * o.d() <= m * m)
                by (nonlinear_arith)
                requires
                    -m <= self.n() <= m,
                    -m <= o.n() <= m,
                    1 <= self.d() <= m,
                    1 <= o.d() <= m,
            ;
        }
        let s = self.num as i128 * o.num as i128;
        let sd = self.den as i128 * o.den as i128;
        if s < 0 {
            Self::build(true, (-s) as u128, sd as u128)
        } else {
            Self::build(false, s as u128, sd as u128)
        }
    }

    /// Exact quotient by a nonzero divisor; `None` only when the reduced
    /// result overflows.
    pub fn checked_div(&self, o: &Decimal) -> (r: Option<Decimal>)
        requires
            self.wf(),
            o.wf(),
            o.n() != 0,
        ensures
            ({
                let sn = if o.n() >= 0 {
                    self.n() * o.d()
                } else {
                    -(self.n() * o.d())
                };
                let sd = self.d() * abs1(o.n());
                match r {
                    Some(v) => v.wf() && norm_fits(sn, sd) && v.n() == norm_n(sn, sd) && v.d()
                        == norm_d(sn, sd),
                    None => !norm_fits(sn, sd),
                }
            }),
    {
        proof {
            let m = i64::MAX as int;
            assert(-(m * m) <= self.n() * o.d() <= m * m && 1 <= self.d() * abs1(o.n()) <= m * m)
                by (nonlinear_arith)
                requires
                    -m <= self.n() <= m,
                    1 <= self.d() <= m,
                    1 <= o.d() <= m,
                    1 <= abs1(o.n()) <= m,
            ;
        }
        let a = self.num as i128 * o.den as i128;
        let ob = if o.num < 0 {
            -(o.num as i128)
        } else {
            o.num as i128
        };
        let sd = self.den as i128 * ob;
        let s = if o.num < 0 {
            -a
        } else {
            a
        };
        if s < 0 {
            Self::build(true, (-s) as u128, sd as u128)
        } else {
            Self::build(false, s as u128, sd as u128)
        }
    }

    /// Value comparison: `self < o`.
    pub fn lt(&self, o: &Decimal) -> (r: bool)
        requires
            self.wf(),
            o.wf(),
        ensures
            r <==> ratio_lt(self.n(), self.d(), o.n(), o.d()),
    {
        proof {
            lemma_i64_mul_fits(self.n(), o.d());
            lemma_i64_mul_fits(o.n(), self.d());
        }
        let lhs = self.num as i128 * o.den as i128;
        let rhs = o.num as i128 * self.den as i128;
        lhs < rhs
    }

    /// The value is strictly negative.
    pub fn is_negative(&self) -> (r: bool)
        requires
            self.wf(),
        ensures
            r <==> self.n() < 0,
    {
        self.num < 0
    }

}

/// The numeral starts with a minus sign.
pub open spec fn dec_neg(s: Seq<u8>) -> bool {
    s.len() > 0 && s[0] == 45
}

/// Index of the first byte after the optional minus sign.
pub open spec fn dec_start(s: Seq<u8>) -> int {
    if dec_neg(s) {
        1
    } else {
        0
    }
}

/// Index of the first decimal point, or the length if there is none.
pub open spec fn dec_dot(s: Seq<u8>) -> int {
    crate::digits::find_from(s, 46, dec_start(s))
}

/// `s` matches the numeral grammar: optional minus sign, one or more digits,
/// then optionally a point followed by one or more digits.
pub open spec fn dec_grammar_ok(s: Seq<u8>) -> bool {
    let a = dec_start(s);
    let p = dec_dot(s);
    &&& p > a
    &&& all_digits(s.subrange(a, p))
    &&& (p < s.len() ==> p + 1 < s.len() && all_digits(s.subrange(p + 1, s.len() as int)))
}

/// The number of digits after the point.
pub open spec fn dec_frac_len(s: Seq<u8>) -> int {
    if dec_dot(s) < s.len() {
        s.len() - dec_dot(s) - 1
    } else {
        0
    }
}

/// The magnitude scaled by `10^frac_len`: the digits with the point removed.
pub open spec fn dec_mant(s: Seq<u8>) -> int {
    let a = dec_start(s);
    let p = dec_dot(s);
    if p < s.len() {
        digits_val(s.subrange(a, p)) * pow10((s.len() - p - 1) as nat) + digits_val(
            s.subrange(p + 1, s.len() as int),
        )
    } else {
        digits_val(s.subrange(a, s.len() as int))
    }
}

/// `s` is a numeral whose exact value the representation can hold.
pub open spec fn dec_ok(s: Seq<u8>) -> bool {
    &&& dec_grammar_ok(s)
    &&& dec_mant(s) <= i64::MAX as int
    &&& pow10(dec_frac_len(s) as nat) <= i64::MAX as int
}

/// The signed numerator the numeral denotes.
pub open spec fn dec_num(s: Seq<u8>) -> int {
    if dec_neg(s) {
        -dec_mant(s)
    } else {
        dec_mant(s)
    }
}

/// The denominator the numeral denotes: ten to the number of fraction digits.
pub open spec fn dec_den(s: Seq<u8>) -> int {
    pow10(dec_frac_len(s) as nat)
}

impl Decimal {
    /// Reads a numeral `[-]digits[.digits]` as an exact decimal. `None` when
    /// the text does not match the grammar or the value does not fit.
    pub fn parse(s: &[u8]) -> (r: Option<Decimal>)
        ensures
            match r {
                Some(v) => dec_ok(s@) && v.wf() && v.n() == dec_num(s@) && v.d() == dec_den(s@),
                None => !dec_ok(s@),
            },
    {
        let n = s.len();
        let neg = n > 0 && s[0] == 45;
        let start: usize = if neg {
            1
        } else {
            0
        };
        let p = crate::digits::find_byte(s, start, 46);
        proof {
            lemma_find_from(s@, 46, start as int);
            lemma_pow10_vals();
        }
        if p == start {
            return None;
        }
        let ghost intpart = s@.subrange(start as int, p as int);
        let ip = match crate::digits::parse_uint(s, start, p, i64::MAX as u64) {
            Some(v) => v,
            None => {
                proof {
                    if dec_ok(s@) {
                        if p < s@.len() {
                            let frac = s@.subrange(p + 1, s@.len() as int);
                            lemma_digits_val_bounds(frac);
                            lemma_pow10_pos((s@.len() - p - 1) as nat);
                            assert(digits_val(intpart) * pow10((s@.len() - p - 1) as nat)
                                >= digits_val(intpart)) by (nonlinear_arith)
                                requires
                                    digits_val(intpart) >= 0,
                                    pow10((s@.len() - p - 1) as nat) >= 1,
                            ;
                        }
                        assert(digits_val(intpart) <= i64::MAX as int);
                        assert(false);
                    }
                }
                return None;
            },
        };
        if p == n {
            let num: i64 = if neg {
                -(ip as i64)
            } else {
                ip as i64
            };
            return Some(Decimal { num, den: 1 });
        }
        if p + 1 == n {
            return None;
        }
        let fl = n - p - 1;
        if fl > 18 {
            proof {
                lemma_pow10_le(19, fl as nat);
            }
            return None;
        }
        let ghost frac = s@.subrange(p + 1, s@.len() as int);
        let fp = match crate::digits::parse_uint(s, p + 1, n, u64::MAX) {
            Some(v) => v,
            None => {
                proof {
                    if all_digits(frac) {
                        lemma_digits_val_bounds(frac);
                        lemma_pow10_le(frac.len(), 19);
                    }
                }
                return None;
            },
        };
        let den = crate::digits::pow10_u64(fl);
        proof {
            lemma_pow10_le(fl as nat, 18);
            assert(ip as int * den as int <= 0x7fffffffffffffff * 0xde0b6b3a7640000)
                by (nonlinear_arith)
                requires
                    0 <= ip as int <= 0x7fffffffffffffff,
                    0 <= den as int <= 0xde0b6b3a7640000,
            ;
        }
        let mant128 = ip as u128 * den as u128 + fp as u128;
        if mant128 > i64::MAX as u128 {
            return None;
        }
        let mant = mant128 as i64;
        let num: i64 = if neg {
            -mant
        } else {
            mant
        };
        proof {
            lemma_pow10_pos(fl as nat);
            assert(dec_grammar_ok(s@));
            assert(dec_frac_len(s@) == fl as int);
            assert(dec_mant(s@) == ip as int * pow10(fl as nat) + fp as int);
            assert(dec_ok(s@));
        }
        Some(Decimal { num, den: den as i64 })
    }

    /// Renders the value with exactly two fraction digits, rounding halves
    /// away from zero.
    pub fn format2(&self) -> (r: Vec<u8>)
        requires
            self.wf(),
        ensures
            r@ == fmt2_spec(self.n(), self.d()),
    {
        let mag: u128 = if self.num < 0 {
            (-(self.num as i128)) as u128
        } else {
            self.num as u128
        };
        let d: u128 = self.den as u128;
        let q = (200 * mag + d) / (2 * d);
        proof {
            vstd::arithmetic::div_mod::lemma_fundamental_div_mod(
                200 * mag as int + d as int,
                2 * d as int,
            );
            assert(q as int <= 100 * mag as int + 1) by (nonlinear_arith)
                requires
                    q as int * (2 * d as int) <= 200 * mag as int + d as int,
                    d as int >= 1,
                    q as int >= 0,
            ;
            assert(q as int == round2(self.n(), self.d()));
        }
        let qi = (q / 100) as u64;
        let qf = (q % 100) as u64;
        let mut out: Vec<u8> = Vec::new();
        if self.num < 0 {
            out.push(45);
        }
        crate::digits::push_digits(qi, &mut out);
        out.push(46);
        out.push(48 + (qf / 10) as u8);
        out.push(48 + (qf % 10) as u8);
        proof {
            assert(out@ =~= fmt2_spec(self.n(), self.d()));
        }
        out
    }

    /// Renders the exact value as a plain numeral, with the smallest count
    /// of fraction digits whose power of ten the denominator divides, up to
    /// eighteen. The numeral denotes exactly the held value, and parses
    /// back: its scaled mantissa is checked against the representation's
    /// bound, so `None` comes exactly when no admissible digit count yields
    /// a representable numeral.
    #[verifier::rlimit(100)]
    pub fn fmt_exact(&self) -> (r: Option<Vec<u8>>)
        requires
            self.wf(),
        ensures
            match r {
                Some(s) => dec_ok(s@) && ratio_eq(dec_num(s@), dec_den(s@), self.n(), self.d())
                    && forall|i: int| 0 <= i < s@.len() ==> s@[i] != 32 && s@[i] != 10,
                None => forall|kk: nat|
                    kk <= 18 ==> pow10(kk) % self.d() != 0 || abs1(self.n()) * (pow10(kk)
                        / self.d()) > i64::MAX as int,
            },
    {
        proof {
            lemma_pow10_vals();
        }
        let den = self.den as u64;
        let mut k: usize = 0;
        let mut found = false;
        while k <= 18
            invariant_except_break
                !found,
            invariant
                k <= 19,
                den == self.d(),
                1 <= den,
                forall|j: nat| j < k ==> pow10(j) % self.d() != 0,
            ensures
                k <= 19,
                found ==> k <= 18 && pow10(k as nat) % self.d() == 0,
                !found ==> forall|j: nat| j <= 18 ==> pow10(j) % self.d() != 0,
            decreases 19 - k,
        {
            let p = crate::digits::pow10_u64(k);
            if p % den == 0 {
                found = true;
                break ;
            }
            k = k + 1;
        }
        if !found {
            return None;
        }
        let p10 = crate::digits::pow10_u64(k);
        proof {
            lemma_pow10_pos(k as nat);
        }
        let scale = p10 / den;
        proof {
            lemma_fundamental_div_mod(p10 as int, den as int);
            assert(p10 as int == den as int * (p10 as int / den as int));
            lemma_pow10_le(k as nat, 18);
            assert(scale as int >= 1) by (nonlinear_arith)
                requires
                    p10 as int == den as int * scale as int,
                    den as int >= 1,
                    p10 as int >= 1,
            ;
        }
        let mag: u128 = if self.num < 0 {
            (-(self.num as i128)) as u128
        } else {
            self.num as u128
        };
        proof {
            assert(mag as int * scale as int <= 0x7fffffffffffffff * 0xde0b6b3a7640000)
                by (nonlinear_arith)
                requires
                    0 <= mag as int <= 0x7fffffffffffffff,
                    0 <= scale as int <= 0xde0b6b3a7640000,
            ;
        }
        let m: u128 = mag * scale as u128;
        // The scaled magnitude over ten to the `k` is the held value.
        proof {
            assert(m as int * self.d() == abs1(self.n()) * pow10(k as nat)) by (nonlinear_arith)
                requires
                    m as int == mag as int * scale as int,
                    pow10(k as nat) == self.d() * scale as int,
                    mag as int == abs1(self.n()),
            ;
        }
        if m > i64::MAX as u128 {
            // More digits only scale the magnitude further up.
            proof {
                assert forall|kk: nat|
                    kk <= 18 implies pow10(kk) % self.d() != 0 || abs1(self.n()) * (pow10(kk)
                        / self.d()) > i64::MAX as int by {
                    if kk >= k as nat && pow10(kk) % self.d() == 0 {
                        lemma_pow10_le(k as nat, kk);
                        vstd::arithmetic::div_mod::lemma_div_is_ordered(
                            pow10(k as nat),
                            pow10(kk),
                            self.d(),
                        );
                        assert(abs1(self.n()) * (pow10(kk) / self.d()) >= abs1(self.n()) * (pow10(
                            k as nat,
                        ) / self.d())) by (nonlinear_arith)
                            requires
                                abs1(self.n()) >= 0,
                                pow10(kk) / self.d() >= pow10(k as nat) / self.d(),
                        ;
                        assert(abs1(self.n()) * (pow10(k as nat) / self.d()) == m as int);
                    }
                }
            }
            return None;
        }
        let mut out: Vec<u8> = Vec::new();
        if self.num < 0 {
            out.push(45);
        }
        if k == 0 {
            proof {
                assert(p10 == 1);
                if den > 1 {
                    vstd::arithmetic::div_mod::lemma_small_mod(1, den as nat);
                    assert(false);
                }
                assert(den == 1);
                assert(scale == 1);
                assert(m <= mag) by (nonlinear_arith)
                    requires
                        m as int == mag as int * scale as int,
                        scale as int == 1,
                ;
            }
            crate::digits::push_digits(m as u64, &mut out);
            proof {
                assert(out@ =~= (if self.n() < 0 {
                    seq![45u8]
                } else {
                    Seq::<u8>::empty()
                }) + dec_digits(m as nat));
                lemma_fmt_plain(self.n(), self.d(), m as int, 0, out@);
                assert(dec_ok(out@));
            }
            return Some(out);
        }
        let qi = m / p10 as u128;
        let qf = m % p10 as u128;
        proof {
            lemma_fundamental_div_mod(m as int, p10 as int);
            assert(qi <= mag) by (nonlinear_arith)
                requires
                    m as int == mag as int * scale as int,
                    m as int == p10 as int * qi as int + qf as int,
                    0 <= qf as int,
                    (qf as int) < p10 as int,
                    scale as int >= 1,
                    scale as int <= p10 as int,
                    mag as int >= 0,
                    p10 as int >= 1,
            ;
        }
        crate::digits::push_digits(qi as u64, &mut out);
        out.push(46);
        crate::digits::push_pad(qf, k, &mut out);
        proof {
            assert(out@ =~= (if self.n() < 0 {
                seq![45u8]
            } else {
                Seq::<u8>::empty()
            }) + (dec_digits((m as int / pow10(k as nat)) as nat) + seq![46u8]
                + crate::digits::pad_k(m as int % pow10(k as nat), k as nat)));
            lemma_fmt_plain(self.n(), self.d(), m as int, k as nat, out@);
            assert(dec_ok(out@));
        }
        Some(out)
    }
}

/// The shape and value of an exactly rendered numeral: optional sign, the
/// digits of `m` with `k` of them behind the point.
proof fn lemma_fmt_plain(n: int, d: int, m: int, k: nat, out: Seq<u8>)
    requires
        1 <= d <= i64::MAX as int,
        -(i64::MAX as int) <= n <= i64::MAX as int,
        m >= 0,
        m * d == abs1(n) * pow10(k),
        out == (if n < 0 {
            seq![45u8]
        } else {
            Seq::<u8>::empty()
        }) + (if k == 0 {
            dec_digits(m as nat)
        } else {
            dec_digits((m / pow10(k)) as nat) + seq![46u8] + crate::digits::pad_k(m % pow10(k), k)
        }),
    ensures
        dec_grammar_ok(out),
        dec_mant(out) == m,
        dec_den(out) == pow10(k),
        ratio_eq(dec_num(out), dec_den(out), n, d),
        forall|i: int| 0 <= i < out.len() ==> out[i] != 32 && out[i] != 10,
{
    lemma_pow10_pos(k);
    let qi: int = if k == 0 {
        m
    } else {
        m / pow10(k)
    };
    let qf: int = if k == 0 {
        0
    } else {
        m % pow10(k)
    };
    if k > 0 {
        lemma_fundamental_div_mod(m, pow10(k));
        vstd::arithmetic::div_mod::lemma_div_pos_is_pos(m, pow10(k));
    }
    let sign: Seq<u8> = if n < 0 {
        seq![45u8]
    } else {
        Seq::<u8>::empty()
    };
    let dd = dec_digits(qi as nat);
    crate::digits::lemma_dec_digits(qi as nat);
    let a0 = sign.len() as int;
    let ll = dd.len() as int;
    if n < 0 {
        assert(out[0] == 45);
        assert(dec_neg(out));
    } else {
        assert(out[0] == dd[0]);
        assert(is_digit(dd[0]));
        assert(!dec_neg(out));
    }
    assert(dec_start(out) == a0);
    if k == 0 {
        assert(out.len() == a0 + ll);
        assert(forall|j: int| 0 <= j < ll ==> out[a0 + j] == dd[j]);
        lemma_find_from(out, 46, a0);
        if dec_dot(out) < out.len() {
            assert(is_digit(out[dec_dot(out)]));
            assert(false);
        }
        assert(out.subrange(a0, out.len() as int) =~= dd);
        assert(dec_grammar_ok(out));
        assert(dec_mant(out) == m);
        assert(dec_den(out) == pow10(0));
        assert(dec_num(out) * d == n * 1) by (nonlinear_arith)
            requires
                m * d == abs1(n) * pow10(0),
                pow10(0) == 1,
                dec_num(out) == if n < 0 {
                    -m
                } else {
                    m
                },
        ;
    } else {
        let pk = crate::digits::pad_k(qf, k);
        crate::digits::lemma_pad_k(qf, k);
        assert(out.len() == a0 + ll + 1 + k);
        assert(forall|j: int| 0 <= j < ll ==> out[a0 + j] == dd[j]);
        assert(out[a0 + ll] == 46);
        assert(forall|j: int| 0 <= j < k ==> out[a0 + ll + 1 + j] == pk[j]);
        crate::digits::lemma_find_pin(out, 46, a0, a0 + ll);
        assert(dec_dot(out) == a0 + ll);
        assert(out.subrange(a0, a0 + ll) =~= dd);
        assert(out.subrange(a0 + ll + 1, out.len() as int) =~= pk);
        assert(dec_grammar_ok(out));
        assert(dec_frac_len(out) == k);
        assert(dec_mant(out) == qi * pow10(k) + qf);
        assert(dec_mant(out) == m);
        assert(dec_den(out) == pow10(k));
        assert(dec_num(out) * d == n * pow10(k)) by (nonlinear_arith)
            requires
                m * d == abs1(n) * pow10(k),
                dec_num(out) == if n < 0 {
                    -m
                } else {
                    m
                },
                abs1(n) == if n < 0 {
                    -n
                } else {
                    n
                },
        ;
    }
    assert forall|i: int| 0 <= i < out.len() implies out[i] != 32 && out[i] != 10 by {
        if i < a0 {
            assert(out[i] == 45);
        } else if i < a0 + ll {
            assert(out[i] == dd[i - a0]);
            assert(is_digit(out[i]));
        } else if k > 0 && i == a0 + ll {
            assert(out[i] == 46);
        } else if k > 0 {
            assert(out[i] == crate::digits::pad_k(m % pow10(k), k)[i - a0 - ll - 1]);
            assert(is_digit(out[i]));
        }
    }
}

/// Rounding to two fraction digits: the magnitude in hundredths, halves
/// rounded up.
pub open spec fn round2(n: int, d: int) -> int {
    (200 * abs1(n) + d) / (2 * d)
}

/// The rendering of `n/d` with two fraction digits.
pub open spec fn fmt2_spec(n: int, d: int) -> Seq<u8> {
    let q = round2(n, d);
    (if n < 0 {
        seq![45u8]
    } else {
        Seq::<u8>::empty()
    }) + dec_digits((q / 100) as nat) + seq![46u8] + two_digits(q % 100)
}

/// Round trip for amounts with at most two fraction digits: rendering `n/d`
/// with two fraction digits yields a numeral that parses back to exactly the
/// same value, `m/100` with `m == 100 * n / d`.
pub proof fn lemma_fmt2_roundtrip(n: int, d: int, m: int)
    requires
        1 <= d <= i64::MAX as int,
        -(i64::MAX as int) <= n <= i64::MAX as int,
        -(i64::MAX as int) <= m <= i64::MAX as int,
        n * 100 == m * d,
    ensures
        dec_ok(fmt2_spec(n, d)),
        dec_num(fmt2_spec(n, d)) == m,
        dec_den(fmt2_spec(n, d)) == 100,
{
    let an = abs1(n);
    let am = abs1(m);
    assert((n >= 0 ==> m >= 0) && (n < 0 ==> m < 0)) by (nonlinear_arith)
        requires
            n * 100 == m * d,
            d >= 1,
    ;
    assert(an * 100 == am * d) by (nonlinear_arith)
        requires
            n * 100 == m * d,
            an == abs1(n),
            am == abs1(m),
            (n >= 0 ==> m >= 0) && (n < 0 ==> m < 0),
    ;
    // The rounded hundredths are exactly the scaled magnitude.
    let q = round2(n, d);
    assert(200 * an + d == d * (2 * am + 1)) by (nonlinear_arith)
        requires
            an * 100 == am * d,
    ;
    vstd::arithmetic::div_mod::lemma_div_multiples_vanish_quotient(d, 2 * am + 1, 2);
    assert((2 * am + 1) / 2 == am);
    assert(q == am);
    lemma_pow10_vals();
    let qi = q / 100;
    let qf = q % 100;
    vstd::arithmetic::div_mod::lemma_fundamental_div_mod(q, 100);
    assert(0 <= qf < 100);
    let sign: Seq<u8> = if n < 0 {
        seq![45u8]
    } else {
        Seq::<u8>::empty()
    };
    let dd = dec_digits(qi as nat);
    let td = two_digits(qf);
    let out = fmt2_spec(n, d);
    assert(out == sign + dd + seq![46u8] + td);
    crate::digits::lemma_dec_digits(qi as nat);
    let a0 = sign.len() as int;
    let ll = dd.len() as int;
    assert(out.len() == a0 + ll + 3);
    assert(out[a0 + ll] == 46);
    assert(forall|j: int| 0 <= j < ll ==> out[a0 + j] == dd[j]);
    assert(out[a0 + ll + 1] == td[0] && out[a0 + ll + 2] == td[1]);
    assert(is_digit(td[0]) && is_digit(td[1]));
    // The sign is recognized, and only it.
    if n < 0 {
        assert(out[0] == 45);
        assert(dec_neg(out));
    } else {
        assert(out[0] == dd[0]);
        assert(is_digit(dd[0]));
        assert(!dec_neg(out));
    }
    assert(dec_start(out) == a0);
    // The first point is the one written after the integer digits.
    let f = dec_dot(out);
    lemma_find_from(out, 46, a0);
    if f < a0 + ll {
        assert(is_digit(out[f]));
        assert(false);
    }
    if f > a0 + ll {
        assert(out[a0 + ll] != 46);
        assert(false);
    }
    assert(f == a0 + ll);
    let intpart = out.subrange(a0, f);
    let frac = out.subrange(f + 1, out.len() as int);
    assert(intpart =~= dd);
    assert(frac =~= td);
    assert(dec_grammar_ok(out));
    assert(dec_frac_len(out) == 2);
    // The digits denote the scaled magnitude again.
    lemma_two_digits_val(qf);
    assert(dec_mant(out) == digits_val(dd) * pow10(2) + digits_val(td));
    assert(dec_mant(out) == qi * 100 + qf);
    assert(dec_mant(out) == am);
    assert(dec_ok(out));
    if n < 0 {
        assert(dec_num(out) == -am == m);
    } else {
        assert(dec_num(out) == am == m);
    }
    assert(dec_den(out) == pow10(2) == 100);
}

/// Exact rational sum of two numerator/denominator pairs.
pub open spec fn rat_add(a: (int, int), b: (int, int)) -> (int, int) {
    (a.0 * b.1 + b.0 * a.1, a.1 * b.1)
}

/// Exact rational product of two numerator/denominator pairs.
pub open spec fn rat_mul(a: (int, int), b: (int, int)) -> (int, int) {
    (a.0 * b.0, a.1 * b.1)
}

/// The reduced form of a pair.
pub open spec fn norm_pair(a: (int, int)) -> (int, int) {
    (norm_n(a.0, a.1), norm_d(a.0, a.1))
}

/// The value of a decimal as a pair.
pub open spec fn dec_pair(v: Decimal) -> (int, int) {
    (v.n(), v.d())
}

/// Equal values stay equal under addition of the same value.
pub proof fn lemma_rat_add_congruence(a: (int, int), a2: (int, int), b: (int, int))
    requires
        a.1 >= 1,
        a2.1 >= 1,
        b.1 >= 1,
        ratio_eq(a.0, a.1, a2.0, a2.1),
    ensures
        ratio_eq(rat_add(a, b).0, rat_add(a, b).1, rat_add(a2, b).0, rat_add(a2, b).1),
        rat_add(a, b).1 >= 1,
{
    assert((a.0 * b.1 + b.0 * a.1) * (a2.1 * b.1) == (a2.0 * b.1 + b.0 * a2.1) * (a.1 * b.1)
        && a.1 * b.1 >= 1) by (nonlinear_arith)
        requires
            a.0 * a2.1 == a2.0 * a.1,
            a.1 >= 1,
            a2.1 >= 1,
            b.1 >= 1,
    ;
}

/// Equal values stay equal when added to the same value.
pub proof fn lemma_rat_add_congruence_right(a: (int, int), b: (int, int), b2: (int, int))
    requires
        a.1 >= 1,
        b.1 >= 1,
        b2.1 >= 1,
        ratio_eq(b.0, b.1, b2.0, b2.1),
    ensures
        ratio_eq(rat_add(a, b).0, rat_add(a, b).1, rat_add(a, b2).0, rat_add(a, b2).1),
        rat_add(a, b).1 >= 1,
        rat_add(a, b2).1 >= 1,
{
    assert(a.1 * b.1 >= 1 && a.1 * b2.1 >= 1) by (nonlinear_arith)
        requires
            a.1 >= 1,
            b.1 >= 1,
            b2.1 >= 1,
    ;
    assert((a.0 * b.1 + b.0 * a.1) * (a.1 * b2.1) == (a.0 * b2.1 + b2.0 * a.1) * (a.1 * b.1))
        by (nonlinear_arith)
        requires
            b.0 * b2.1 == b2.0 * b.1,
            a.1 >= 1,
            b.1 >= 1,
            b2.1 >= 1,
    ;
}

/// Value equality is transitive over positive denominators.
pub proof fn lemma_ratio_trans(n1: int, d1: int, n2: int, d2: int, n3: int, d3: int)
    requires
        d1 >= 1,
        d2 >= 1,
        d3 >= 1,
        ratio_eq(n1, d1, n2, d2),
        ratio_eq(n2, d2, n3, d3),
    ensures
        ratio_eq(n1, d1, n3, d3),
{
    assert(n1 * d3 == n3 * d1) by (nonlinear_arith)
        requires
            n1 * d2 == n2 * d1,
            n2 * d3 == n3 * d2,
            d1 >= 1,
            d2 >= 1,
            d3 >= 1,
    ;
}

/// Reduction does not change the value, stated for pairs.
pub proof fn lemma_norm_pair_value(a: (int, int))
    requires
        a.1 >= 1,
    ensures
        1 <= norm_pair(a).1,
        ratio_eq(norm_pair(a).0, norm_pair(a).1, a.0, a.1),
{
    lemma_norm_value(a.0, a.1);
}

/// A well-shaped numeral holds only a minus sign, digits and a point: never
/// a space.
pub proof fn lemma_dec_grammar_no_space(s: Seq<u8>)
    requires
        dec_grammar_ok(s),
    ensures
        forall|i: int| 0 <= i < s.len() ==> s[i] != 32,
{
    let a = dec_start(s);
    let p = dec_dot(s);
    lemma_find_from(s, 46, a);
    assert forall|i: int| 0 <= i < s.len() implies s[i] != 32 by {
        if i < a {
            assert(s[0] == 45);
        } else if i < p {
            assert(s.subrange(a, p)[i - a] == s[i]);
            assert(is_digit(s[i]));
        } else if i == p {
            assert(s[i] == 46);
        } else {
            assert(s.subrange(p + 1, s.len() as int)[i - p - 1] == s[i]);
            assert(is_digit(s[i]));
        }
    }
}

impl PartialEq for Decimal {
    /// Two decimals are equal when they denote the same value, whatever the
    /// representation.
    fn eq(&self, o: &Decimal) -> (r: bool) {
        proof {
            lemma_i64_mul_fits(self.n(), o.d());
            lemma_i64_mul_fits(o.n(), self.d());
        }
        let lhs = self.num as i128 * o.den as i128;
        let rhs = o.num as i128 * self.den as i128;
        lhs == rhs
    }
}

impl vstd::std_specs::cmp::PartialEqSpecImpl for Decimal {
    open spec fn obeys_eq_spec() -> bool {
        true
    }

    open spec fn eq_spec(&self, o: &Decimal) -> bool {
        ratio_eq(self.n(), self.d(), o.n(), o.d())
    }
}

} // verus!
