//! Calendar dates in the fixed `YYYY-MM-DD` form: validity, ordering,
//! parsing, rendering, and the first-of-next-month step the monthly series
//! walks with.

use crate::digits::{
    all_digits, digits_val, is_digit, lemma_two_digits_val, two_digits,
};
use vstd::arithmetic::div_mod::{lemma_fundamental_div_mod, lemma_mod_mod};
use vstd::prelude::*;

verus! {

/// Gregorian leap year rule.
pub open spec fn leap_year(y: int) -> bool {
    (y % 4 == 0 && y % 100 != 0) || y % 400 == 0
}

/// Days in the given month of the given year.
pub open spec fn days_in_month(y: int, m: int) -> int {
    if m == 2 {
        if leap_year(y) {
            29
        } else {
            28
        }
    } else if m == 4 || m == 6 || m == 9 || m == 11 {
        30
    } else {
        31
    }
}

/// A calendar date with no time component.
#[derive(Clone, Copy, Debug, PartialEq, Eq, Structural)]
pub struct Date {
    pub year: u16,
    pub month: u8,
    pub day: u8,
}

impl Date {
    /// A valid date of the four-digit-year calendar.
    pub open spec fn wf(self) -> bool {
        &&& self.year <= 9999
        &&& 1 <= self.month <= 12
        &&& 1 <= self.day <= days_in_month(self.year as int, self.month as int)
    }

    /// Builds a date after checking calendar validity.
    pub fn from_ymd(year: u16, month: u8, day: u8) -> (r: Option<Date>)
        ensures
            match r {
                Some(dt) => dt.wf() && dt.year == year && dt.month == month && dt.day == day,
                None => !(Date { year, month, day }).wf(),
            },
    {
        if year > 9999 || month < 1 || month > 12 {
            return None;
        }
        let dim: u8 = if month == 2 {
            if (year % 4 == 0 && year % 100 != 0) || year % 400 == 0 {
                29
            } else {
                28
            }
        } else if month == 4 || month == 6 || month == 9 || month == 11 {
            30
        } else {
            31
        };
        if day < 1 || day > dim {
            return None;
        }
        Some(Date { year, month, day })
    }

    /// `self` is on or before `o` in time.
    pub open spec fn le_spec(self, o: Date) -> bool {
        if self.year != o.year {
            self.year < o.year
        } else if self.month != o.month {
            self.month < o.month
        } else {
            self.day <= o.day
        }
    }

    /// Executable date ordering.
    pub fn le(&self, o: &Date) -> (r: bool)
        ensures
            r <==> self.le_spec(*o),
    {
        if self.year != o.year {
            self.year < o.year
        } else if self.month != o.month {
            self.month < o.month
        } else {
            self.day <= o.day
        }
    }

    /// The months since year zero; orders dates by calendar month.
    pub open spec fn month_index(self) -> int {
        self.year as int * 12 + self.month as int - 1
    }

    /// `self` falls in the same calendar month as `o`.
    pub fn same_month(&self, o: &Date) -> (r: bool)
        requires
            self.wf(),
            o.wf(),
        ensures
            r <==> self.month_index() == o.month_index(),
    {
        self.year == o.year && self.month == o.month
    }

    /// The first day of the following month.
    pub fn next_month(&self) -> (r: Date)
        requires
            self.wf(),
            !(self.year == 9999 && self.month == 12),
        ensures
            r.wf(),
            r.day == 1,
            r.month_index() == self.month_index() + 1,
    {
        if self.month == 12 {
            Date { year: self.year + 1, month: 1, day: 1 }
        } else {
            Date { year: self.year, month: self.month + 1, day: 1 }
        }
    }
}

/// The four-digit zero-padded rendering of `y` in `[0, 10000)`.
pub open spec fn four_digits(y: int) -> Seq<u8> {
    seq![
        (48 + y / 1000) as u8,
        (48 + (y % 1000) / 100) as u8,
        (48 + (y % 100) / 10) as u8,
        (48 + y % 10) as u8,
    ]
}

pub proof fn lemma_four_digits_val(y: int)
    requires
        0 <= y < 10000,
    ensures
        four_digits(y).len() == 4,
        all_digits(four_digits(y)),
        digits_val(four_digits(y)) == y,
{
    let f = four_digits(y);
    vstd::arithmetic::div_mod::lemma_div_is_ordered(y, 9999, 1000);
    assert(0 <= y / 1000 <= 9);
    lemma_fundamental_div_mod(y, 1000);
    lemma_fundamental_div_mod(y % 1000, 100);
    lemma_fundamental_div_mod(y % 100, 10);
    lemma_mod_mod(y, 100, 10);
    lemma_mod_mod(y, 10, 10);
    assert((y % 1000) % 100 == y % 100) by {
        lemma_mod_mod(y, 100, 10);
        assert(100 * 10 == 1000);
    }
    assert((y % 100) % 10 == y % 10) by {
        lemma_mod_mod(y, 10, 10);
        assert(10 * 10 == 100);
    }
    assert(f.drop_last() =~= seq![
        (48 + y / 1000) as u8,
        (48 + (y % 1000) / 100) as u8,
        (48 + (y % 100) / 10) as u8,
    ]);
    assert(f.drop_last().drop_last() =~= seq![
        (48 + y / 1000) as u8,
        (48 + (y % 1000) / 100) as u8,
    ]);
    assert(f.drop_last().drop_last().drop_last() =~= seq![(48 + y / 1000) as u8]);
    assert(seq![(48 + y / 1000) as u8].drop_last() =~= Seq::<u8>::empty());
    assert(digits_val(Seq::<u8>::empty()) == 0);
    assert(digits_val(seq![(48 + y / 1000) as u8]) == y / 1000);
    assert(digits_val(f.drop_last().drop_last()) == (y / 1000) * 10 + (y % 1000) / 100);
    assert(digits_val(f.drop_last()) == ((y / 1000) * 10 + (y % 1000) / 100) * 10 + (y % 100)
        / 10);
    assert(digits_val(f) == (((y / 1000) * 10 + (y % 1000) / 100) * 10 + (y % 100) / 10) * 10 + y
        % 10);
}

/// The `YYYY-MM-DD` rendering of a date.
pub open spec fn date_fmt(dt: Date) -> Seq<u8> {
    four_digits(dt.year as int) + seq![45u8] + two_digits(dt.month as int) + seq![45u8]
        + two_digits(dt.day as int)
}

/// The ten bytes of `s` starting at `a` form a well-shaped `YYYY-MM-DD`
/// field; calendar validity is a separate question.
pub open spec fn date_shape(s: Seq<u8>, a: int) -> bool {
    &&& a >= 0
    &&& a + 10 <= s.len()
    &&& s[a + 4] == 45
    &&& s[a + 7] == 45
    &&& all_digits(s.subrange(a, a + 4))
    &&& all_digits(s.subrange(a + 5, a + 7))
    &&& all_digits(s.subrange(a + 8, a + 10))
}

pub open spec fn date_y(s: Seq<u8>, a: int) -> int {
    digits_val(s.subrange(a, a + 4))
}

pub open spec fn date_m(s: Seq<u8>, a: int) -> int {
    digits_val(s.subrange(a + 5, a + 7))
}

pub open spec fn date_d(s: Seq<u8>, a: int) -> int {
    digits_val(s.subrange(a + 8, a + 10))
}

/// The field `s[a..b)` is a valid calendar date in the fixed form.
pub open spec fn date_ok(s: Seq<u8>, a: int, b: int) -> bool {
    &&& b - a == 10
    &&& date_shape(s, a)
    &&& (Date { year: date_y(s, a) as u16, month: date_m(s, a) as u8, day: date_d(s, a) as u8 }).wf()
    &&& date_y(s, a) <= 9999
    &&& date_m(s, a) <= 99
    &&& date_d(s, a) <= 99
}

/// Reads the field `s[a..b)` as a `YYYY-MM-DD` date.
pub fn parse_date(s: &[u8], a: usize, b: usize) -> (r: Option<Date>)
    requires
        a <= b <= s@.len(),
    ensures
        match r {
            Some(dt) => date_ok(s@, a as int, b as int) && dt.wf() && dt.year == date_y(
                s@,
                a as int,
            ) && dt.month == date_m(s@, a as int) && dt.day == date_d(s@, a as int),
            None => !date_ok(s@, a as int, b as int),
        },
{
    if b - a != 10 {
        return None;
    }
    if s[a + 4] != 45 || s[a + 7] != 45 {
        return None;
    }
    let y = match crate::digits::parse_uint(s, a, a + 4, 9999) {
        Some(v) => v,
        None => {
            proof {
                if date_ok(s@, a as int, b as int) {
                    crate::digits::lemma_digits_val_bounds(s@.subrange(a as int, a + 4 as int));
                    crate::digits::lemma_pow10_vals();
                }
            }
            return None;
        },
    };
    let m = match crate::digits::parse_uint(s, a + 5, a + 7, 99) {
        Some(v) => v,
        None => {
            proof {
                if date_ok(s@, a as int, b as int) {
                    crate::digits::lemma_digits_val_bounds(
                        s@.subrange(a + 5 as int, a + 7 as int),
                    );
                    crate::digits::lemma_pow10_vals();
                }
            }
            return None;
        },
    };
    let d = match crate::digits::parse_uint(s, a + 8, a + 10, 99) {
        Some(v) => v,
        None => {
            proof {
                if date_ok(s@, a as int, b as int) {
                    crate::digits::lemma_digits_val_bounds(
                        s@.subrange(a + 8 as int, a + 10 as int),
                    );
                    crate::digits::lemma_pow10_vals();
                }
            }
            return None;
        },
    };
    Date::from_ymd(y as u16, m as u8, d as u8)
}

impl Date {
    /// Writes the date as `YYYY-MM-DD` onto `out`.
    pub fn write_fmt(&self, out: &mut Vec<u8>)
        requires
            self.wf(),
        ensures
            final(out)@ == old(out)@ + date_fmt(*self),
    {
        proof {
            vstd::arithmetic::div_mod::lemma_div_is_ordered(self.year as int, 9999, 1000);
        }
        out.push(48 + (self.year / 1000) as u8);
        out.push(48 + ((self.year % 1000) / 100) as u8);
        out.push(48 + ((self.year % 100) / 10) as u8);
        out.push(48 + (self.year % 10) as u8);
        out.push(45);
        out.push(48 + self.month / 10);
        out.push(48 + self.month % 10);
        out.push(45);
        out.push(48 + self.day / 10);
        out.push(48 + self.day % 10);
        proof {
            assert(out@ =~= old(out)@ + date_fmt(*self));
        }
    }
}

/// Rendering a valid date gives a field that parses back to the same date.
pub proof fn lemma_date_roundtrip(dt: Date)
    requires
        dt.wf(),
    ensures
        date_fmt(dt).len() == 10,
        date_ok(date_fmt(dt), 0, 10),
        date_y(date_fmt(dt), 0) == dt.year,
        date_m(date_fmt(dt), 0) == dt.month,
        date_d(date_fmt(dt), 0) == dt.day,
        forall|i: int| 0 <= i < 10 ==> date_fmt(dt)[i] != 32,
{
    let f = date_fmt(dt);
    lemma_four_digits_val(dt.year as int);
    lemma_two_digits_val(dt.month as int);
    lemma_two_digits_val(dt.day as int);
    assert(f.len() == 10);
    assert(f.subrange(0, 4) =~= four_digits(dt.year as int));
    assert(f.subrange(5, 7) =~= two_digits(dt.month as int));
    assert(f.subrange(8, 10) =~= two_digits(dt.day as int));
    assert(f[4] == 45 && f[7] == 45);
    assert(date_shape(f, 0));
    let fd = four_digits(dt.year as int);
    let tm = two_digits(dt.month as int);
    let td = two_digits(dt.day as int);
    assert(f[0] == fd[0] && f[1] == fd[1] && f[2] == fd[2] && f[3] == fd[3]);
    assert(f[5] == tm[0] && f[6] == tm[1] && f[8] == td[0] && f[9] == td[1]);
    assert(is_digit(fd[0]) && is_digit(fd[1]) && is_digit(fd[2]) && is_digit(fd[3]));
    assert(is_digit(tm[0]) && is_digit(tm[1]) && is_digit(td[0]) && is_digit(td[1]));
    assert(forall|i: int| 0 <= i < 10 ==> f[i] != 32);
}

} // verus!
