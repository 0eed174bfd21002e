//! The currency-rate cache: the staleness rule, reading the cache file's
//! lines back into rates with the implicit EUR entry, and rendering one
//! cache line per rate for the rewrite.

use crate::db::{Currency, EntryParseError};
use crate::dec::{dec_den, dec_num, dec_ok, ratio_eq, Decimal};
use crate::digits::{find_from, views};
use vstd::prelude::*;

verus! {

/// The rates read back from the cache file.
pub struct Cache {
    pub currencies: Vec<Currency>,
}

impl Cache {
    pub fn new() -> (r: Cache)
        ensures
            r.currencies@.len() == 0,
    {
        Cache { currencies: Vec::new() }
    }
}

/// The cache is stale exactly when there is no cache file, or its age
/// exceeds the allowed maximum.
pub fn cache_stale(file_exists: bool, age_secs: u64, max_age_secs: u64) -> (r: bool)
    ensures
        r <==> (!file_exists || age_secs > max_age_secs),
{
    !file_exists || age_secs > max_age_secs
}

/// One well-shaped cache line: a three-byte code without spaces, one space,
/// then a numeral in its second field.
pub open spec fn rate_line_ok(l: Seq<u8>) -> bool {
    &&& l.len() >= 4
    &&& l[0] != 32
    &&& l[1] != 32
    &&& l[2] != 32
    &&& l[3] == 32
    &&& dec_ok(rate_field(l))
}

/// The numeral of a cache line: its second space-delimited field.
pub open spec fn rate_field(l: Seq<u8>) -> Seq<u8> {
    l.subrange(4, find_from(l, 32, 4))
}

/// Reads the cache file's lines into rates and appends the implicit
/// `eur -> 1`, which is never persisted.
pub fn parse_rates(lines: &Vec<Vec<u8>>) -> (r: Result<Vec<Currency>, EntryParseError>)
    ensures
        match r {
            Ok(v) => {
                &&& v@.len() == lines@.len() + 1
                &&& forall|k: int|
                    0 <= k < lines@.len() ==> rate_line_ok(#[trigger] views(lines@)[k])
                &&& forall|k: int|
                    0 <= k < lines@.len() ==> (#[trigger] v@[k]).wf() && v@[k].name@ == views(
                        lines@,
                    )[k].subrange(0, 3) && v@[k].to_eur.n() == dec_num(
                        rate_field(views(lines@)[k]),
                    ) && v@[k].to_eur.d() == dec_den(rate_field(views(lines@)[k]))
                &&& v@[lines@.len() as int].name@ == seq![101u8, 117, 114]
                &&& v@[lines@.len() as int].to_eur.n() == 1
                &&& v@[lines@.len() as int].to_eur.d() == 1
                &&& v@[lines@.len() as int].wf()
            },
            Err(e) => exists|k: int|
                0 <= k < lines@.len() && !rate_line_ok(#[trigger] views(lines@)[k]),
        },
{
    let n = lines.len();
    let mut v: Vec<Currency> = Vec::new();
    let mut i: usize = 0;
    while i < n
        invariant
            i <= n,
            n == lines@.len(),
            v@.len() == i,
            forall|k: int| 0 <= k < i ==> rate_line_ok(#[trigger] views(lines@)[k]),
            forall|k: int|
                0 <= k < i ==> (#[trigger] v@[k]).wf() && v@[k].name@ == views(lines@)[k].subrange(
                    0,
                    3,
                ) && v@[k].to_eur.n() == dec_num(rate_field(views(lines@)[k])) && v@[k].to_eur.d()
                    == dec_den(rate_field(views(lines@)[k])),
        decreases n - i,
    {
        let l = &lines[i];
        let ghost lv = views(lines@)[i as int];
        let m = l.len();
        if m < 4 || l[0] == 32 || l[1] == 32 || l[2] == 32 || l[3] != 32 {
            return Err(EntryParseError::new(msg_vec_invalid_rate()));
        }
        let p = crate::digits::find_byte(l.as_slice(), 4, 32);
        proof {
            crate::digits::lemma_find_from(l@, 32, 4);
        }
        let mut num: Vec<u8> = Vec::new();
        crate::digits::push_bytes_range(&mut num, l.as_slice(), 4, p);
        proof {
            assert(num@ =~= rate_field(lv));
        }
        let to_eur = match Decimal::parse(num.as_slice()) {
            Some(d) => d,
            None => {
                return Err(EntryParseError::new(msg_vec_invalid_rate()));
            },
        };
        let name: [u8; 3] = [l[0], l[1], l[2]];
        proof {
            assert(name@ =~= lv.subrange(0, 3));
        }
        v.push(Currency { name, to_eur });
        i = i + 1;
    }
    let name: [u8; 3] = [101, 117, 114];
    let one = Decimal::from_int(1);
    proof {
        assert(name@ =~= seq![101u8, 117, 114]);
    }
    v.push(Currency { name, to_eur: one });
    Ok(v)
}

fn msg_vec_invalid_rate() -> (v: Vec<u8>)
{
    // "invalid rate line"
    let mut v: Vec<u8> = Vec::new();
    v.push(105);
    v.push(110);
    v.push(118);
    v.push(97);
    v.push(108);
    v.push(105);
    v.push(100);
    v.push(32);
    v.push(114);
    v.push(97);
    v.push(116);
    v.push(101);
    v.push(32);
    v.push(108);
    v.push(105);
    v.push(110);
    v.push(101);
    v
}

/// Renders one cache line for a rate: the code, one space, and the exact
/// numeral of the rate, ready to be written with a line break after it. The
/// numeral parses back to the same value, so for a code without spaces the
/// whole line reads back through `parse_rates` as the rate it was written
/// from. `None` exactly when no admissible count of fraction digits yields
/// a representable numeral for the rate.
pub fn format_rate_line(c: &Currency) -> (r: Option<Vec<u8>>)
    requires
        c.wf(),
    ensures
        match r {
            Some(s) => {
                &&& s@.len() >= 5
                &&& s@.subrange(0, 3) == c.name@
                &&& s@[3] == 32
                &&& rate_field(s@) == s@.subrange(4, s@.len() as int)
                &&& dec_ok(s@.subrange(4, s@.len() as int))
                &&& ratio_eq(
                    dec_num(s@.subrange(4, s@.len() as int)),
                    dec_den(s@.subrange(4, s@.len() as int)),
                    c.to_eur.n(),
                    c.to_eur.d(),
                )
                &&& (c.name@[0] != 32 && c.name@[1] != 32 && c.name@[2] != 32) ==> rate_line_ok(
                    s@,
                )
                &&& forall|i: int| 4 <= i < s@.len() ==> s@[i] != 10
            },
            None => forall|k: nat|
                k <= 18 ==> crate::digits::pow10(k) % c.to_eur.d() != 0 || crate::dec::abs1(
                    c.to_eur.n(),
                ) * (crate::digits::pow10(k) / c.to_eur.d()) > i64::MAX as int,
        },
{
    let num = match c.to_eur.fmt_exact() {
        Some(x) => x,
        None => {
            return None;
        },
    };
    let mut s: Vec<u8> = Vec::new();
    s.push(c.name[0]);
    s.push(c.name[1]);
    s.push(c.name[2]);
    s.push(32);
    crate::digits::push_bytes_range(&mut s, num.as_slice(), 0, num.len());
    proof {
        assert(s@.subrange(0, 3) =~= c.name@);
        assert(s@.subrange(4, s@.len() as int) =~= num@);
        crate::digits::lemma_find_from(s@, 32, 4);
        let f = find_from(s@, 32, 4);
        if f < s@.len() {
            assert(s@[f] == num@[f - 4]);
            assert(num@[f - 4] != 32);
            assert(false);
        }
        assert(rate_field(s@) =~= num@);
    }
    Some(s)
}

} // verus!
