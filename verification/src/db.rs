//! Ledger records: the entry line format, its parser and serializer, the
//! structured parse errors, and the error family the reader surfaces.
//!
//! An entry line is `YYYY-MM-DD <decimal><3-letter-currency> <tag-byte>
//! <free text>`: three space-delimited fields and then the text, verbatim.

use crate::date::{date_d, date_m, date_ok, date_y, parse_date, Date};
use crate::dec::{dec_den, dec_num, dec_ok, Decimal};
use crate::digits::{find_byte, find_from, lemma_find_from, push_bytes_range};
use vstd::prelude::*;

verus! {

/// A currency code with its conversion rate: one unit of the currency is
/// `to_eur` EUR.
#[derive(Debug, PartialEq)]
pub struct Currency {
    pub name: [u8; 3],
    pub to_eur: Decimal,
}

impl Currency {
    pub open spec fn wf(self) -> bool {
        self.to_eur.wf()
    }

    /// The currency code as an owned byte string.
    pub fn name_str(&self) -> (r: Vec<u8>)
        ensures
            r@ == self.name@,
    {
        let mut v: Vec<u8> = Vec::new();
        v.push(self.name[0]);
        v.push(self.name[1]);
        v.push(self.name[2]);
        proof {
            assert(v@ =~= self.name@);
        }
        v
    }
}

/// One ledger record.
#[derive(Debug, PartialEq)]
pub struct Entry {
    pub date: Date,
    pub value: Decimal,
    pub currency: [u8; 3],
    pub tag: u8,
    pub text: Vec<u8>,
}

/// A malformed entry line, with a message naming the offending field.
#[derive(Debug, PartialEq)]
pub struct EntryParseError {
    pub msg: Vec<u8>,
}

impl EntryParseError {
    pub fn new(msg: Vec<u8>) -> (r: EntryParseError)
        ensures
            r.msg == msg,
    {
        EntryParseError { msg }
    }
}

/// The reader's combined error family: a malformed line, or an input/output
/// failure described by its message.
#[derive(Debug, PartialEq)]
pub enum DBError {
    ParseError(EntryParseError),
    IOError(Vec<u8>),
}

// ---------------------------------------------------------------------------
// The shape of an entry line.
// ---------------------------------------------------------------------------
/// End of the date field: the first space, or the line length.
pub open spec fn date_end(l: Seq<u8>) -> int {
    find_from(l, 32, 0)
}

/// End of the amount field.
pub open spec fn amount_end(l: Seq<u8>) -> int {
    if date_end(l) < l.len() {
        find_from(l, 32, date_end(l) + 1)
    } else {
        l.len() as int
    }
}

/// End of the tag field.
pub open spec fn tag_end(l: Seq<u8>) -> int {
    if amount_end(l) < l.len() {
        find_from(l, 32, amount_end(l) + 1)
    } else {
        l.len() as int
    }
}

/// The amount field: decimal digits followed by the three-letter code.
pub open spec fn amount_field(l: Seq<u8>) -> Seq<u8> {
    l.subrange(date_end(l) + 1, amount_end(l))
}

pub open spec fn is_alpha(b: u8) -> bool {
    (65 <= b <= 90) || (97 <= b <= 122)
}

/// The amount field is long enough to end in a three-letter currency code.
pub open spec fn amount_shape_ok(l: Seq<u8>) -> bool {
    let af = amount_field(l);
    &&& af.len() >= 4
    &&& is_alpha(af[af.len() - 3])
    &&& is_alpha(af[af.len() - 2])
    &&& is_alpha(af[af.len() - 1])
}

/// The numeral part of the amount field.
pub open spec fn num_part(l: Seq<u8>) -> Seq<u8> {
    amount_field(l).subrange(0, amount_field(l).len() - 3)
}

/// The last three bytes of the amount field: the currency code.
pub open spec fn cur_part(l: Seq<u8>) -> Seq<u8> {
    amount_field(l).subrange(amount_field(l).len() - 3, amount_field(l).len() as int)
}

/// There is no third field, or it is empty.
pub open spec fn tag_missing(l: Seq<u8>) -> bool {
    amount_end(l) >= l.len() || tag_end(l) == amount_end(l) + 1
}

/// The tag: the first byte of the third field.
pub open spec fn tag_of(l: Seq<u8>) -> u8 {
    l[amount_end(l) + 1]
}

/// Everything after the third field, verbatim.
pub open spec fn text_of(l: Seq<u8>) -> Seq<u8> {
    if tag_end(l) < l.len() {
        l.subrange(tag_end(l) + 1, l.len() as int)
    } else {
        Seq::<u8>::empty()
    }
}

// ---------------------------------------------------------------------------
// Parse error messages.
// ---------------------------------------------------------------------------
pub open spec fn msg_missing_date() -> Seq<u8> {
    seq![109u8, 105, 115, 115, 105, 110, 103, 32, 100, 97, 116, 101]
}

pub open spec fn msg_missing_amount() -> Seq<u8> {
    seq![109u8, 105, 115, 115, 105, 110, 103, 32, 97, 109, 111, 117, 110, 116]
}

pub open spec fn msg_missing_tag() -> Seq<u8> {
    seq![109u8, 105, 115, 115, 105, 110, 103, 32, 116, 97, 103]
}

/// `invalid amount "<field>"`.
pub open spec fn msg_invalid_amount(v: Seq<u8>) -> Seq<u8> {
    seq![105u8, 110, 118, 97, 108, 105, 100, 32, 97, 109, 111, 117, 110, 116, 32, 34] + v
        + seq![34u8]
}

/// `invalid date "<field>"`.
pub open spec fn msg_invalid_date(v: Seq<u8>) -> Seq<u8> {
    seq![105u8, 110, 118, 97, 108, 105, 100, 32, 100, 97, 116, 101, 32, 34] + v + seq![34u8]
}

pub open spec fn msg_invalid_decimal() -> Seq<u8> {
    seq![
        105u8,
        110,
        118,
        97,
        108,
        105,
        100,
        32,
        100,
        101,
        99,
        105,
        109,
        97,
        108,
        32,
        105,
        110,
        32,
        101,
        110,
        116,
        114,
        121,
    ]
}

/// The first problem of the line in the order the parser looks, or `None`
/// for a well-formed line.
pub open spec fn line_err(l: Seq<u8>) -> Option<Seq<u8>> {
    if date_end(l) == 0 {
        Some(msg_missing_date())
    } else if date_end(l) == l.len() {
        Some(msg_missing_amount())
    } else if !amount_shape_ok(l) {
        Some(msg_invalid_amount(amount_field(l)))
    } else if tag_missing(l) {
        Some(msg_missing_tag())
    } else if !date_ok(l, 0, date_end(l)) {
        Some(msg_invalid_date(l.subrange(0, date_end(l))))
    } else if !dec_ok(num_part(l)) {
        Some(msg_invalid_decimal())
    } else {
        None
    }
}

/// The line parses as an entry.
pub open spec fn line_ok(l: Seq<u8>) -> bool {
    line_err(l) is None
}

// ---------------------------------------------------------------------------
// Message builders.
// ---------------------------------------------------------------------------
fn msg_vec_missing_date() -> (v: Vec<u8>)
    ensures
        v@ == msg_missing_date(),
{
    let mut v: Vec<u8> = Vec::new();
    v.push(109);
    v.push(105);
    v.push(115);
    v.push(115);
    v.push(105);
    v.push(110);
    v.push(103);
    v.push(32);
    v.push(100);
    v.push(97);
    v.push(116);
    v.push(101);
    proof {
        assert(v@ =~= msg_missing_date());
    }
    v
}

fn msg_vec_missing_amount() -> (v: Vec<u8>)
    ensures
        v@ == msg_missing_amount(),
{
    let mut v: Vec<u8> = Vec::new();
    v.push(109);
    v.push(105);
    v.push(115);
    v.push(115);
    v.push(105);
    v.push(110);
    v.push(103);
    v.push(32);
    v.push(97);
    v.push(109);
    v.push(111);
    v.push(117);
    v.push(110);
    v.push(116);
    proof {
        assert(v@ =~= msg_missing_amount());
    }
    v
}

fn msg_vec_missing_tag() -> (v: Vec<u8>)
    ensures
        v@ == msg_missing_tag(),
{
    let mut v: Vec<u8> = Vec::new();
    v.push(109);
    v.push(105);
    v.push(115);
    v.push(115);
    v.push(105);
    v.push(110);
    v.push(103);
    v.push(32);
    v.push(116);
    v.push(97);
    v.push(103);
    proof {
        assert(v@ =~= msg_missing_tag());
    }
    v
}

fn msg_vec_invalid_amount(l: &[u8], from: usize, to: usize) -> (v: Vec<u8>)
    requires
        from <= to <= l@.len(),
    ensures
        v@ == msg_invalid_amount(l@.subrange(from as int, to as int)),
{
    let mut v: Vec<u8> = Vec::new();
    v.push(105);
    v.push(110);
    v.push(118);
    v.push(97);
    v.push(108);
    v.push(105);
    v.push(100);
    v.push(32);
    v.push(97);
    v.push(109);
    v.push(111);
    v.push(117);
    v.push(110);
    v.push(116);
    v.push(32);
    v.push(34);
    push_bytes_range(&mut v, l, from, to);
    v.push(34);
    proof {
        assert(v@ =~= msg_invalid_amount(l@.subrange(from as int, to as int)));
    }
    v
}

fn msg_vec_invalid_date(l: &[u8], from: usize, to: usize) -> (v: Vec<u8>)
    requires
        from <= to <= l@.len(),
    ensures
        v@ == msg_invalid_date(l@.subrange(from as int, to as int)),
{
    let mut v: Vec<u8> = Vec::new();
    v.push(105);
    v.push(110);
    v.push(118);
    v.push(97);
    v.push(108);
    v.push(105);
    v.push(100);
    v.push(32);
    v.push(100);
    v.push(97);
    v.push(116);
    v.push(101);
    v.push(32);
    v.push(34);
    push_bytes_range(&mut v, l, from, to);
    v.push(34);
    proof {
        assert(v@ =~= msg_invalid_date(l@.subrange(from as int, to as int)));
    }
    v
}

fn msg_vec_invalid_decimal() -> (v: Vec<u8>)
    ensures
        v@ == msg_invalid_decimal(),
{
    let mut v: Vec<u8> = Vec::new();
    v.push(105);
    v.push(110);
    v.push(118);
    v.push(97);
    v.push(108);
    v.push(105);
    v.push(100);
    v.push(32);
    v.push(100);
    v.push(101);
    v.push(99);
    v.push(105);
    v.push(109);
    v.push(97);
    v.push(108);
    v.push(32);
    v.push(105);
    v.push(110);
    v.push(32);
    v.push(101);
    v.push(110);
    v.push(116);
    v.push(114);
    v.push(121);
    proof {
        assert(v@ =~= msg_invalid_decimal());
    }
    v
}

/// `e` is exactly what parsing the well-formed line `l` yields.
pub open spec fn entry_of_line(e: Entry, l: Seq<u8>) -> bool {
    &&& line_ok(l)
    &&& e.wf()
    &&& e.date.year as int == date_y(l, 0)
    &&& e.date.month as int == date_m(l, 0)
    &&& e.date.day as int == date_d(l, 0)
    &&& e.value.n() == dec_num(num_part(l))
    &&& e.value.d() == dec_den(num_part(l))
    &&& e.currency@ == cur_part(l)
    &&& e.tag == tag_of(l)
    &&& e.text@ == text_of(l)
}

fn alpha(b: u8) -> (r: bool)
    ensures
        r == is_alpha(b),
{
    (65 <= b && b <= 90) || (97 <= b && b <= 122)
}

impl Entry {
    /// An entry with a valid date and a well-formed amount.
    pub open spec fn wf(self) -> bool {
        &&& self.date.wf()
        &&& self.value.wf()
    }

    /// Reads one ledger line. On failure the message names the first
    /// problem: a missing field, an undersized amount, an invalid date, or
    /// an invalid numeral.
    pub fn from_line(l: &[u8]) -> (r: Result<Entry, EntryParseError>)
        ensures
            match r {
                Ok(e) => entry_of_line(e, l@),
                Err(err) => line_err(l@) == Some(err.msg@),
            },
    {
        let n = l.len();
        let p1 = find_byte(l, 0, 32);
        proof {
            lemma_find_from(l@, 32, 0);
        }
        if p1 == 0 {
            return Err(EntryParseError::new(msg_vec_missing_date()));
        }
        if p1 == n {
            return Err(EntryParseError::new(msg_vec_missing_amount()));
        }
        let p2 = find_byte(l, p1 + 1, 32);
        proof {
            lemma_find_from(l@, 32, p1 + 1 as int);
            assert(amount_field(l@) =~= l@.subrange(p1 + 1 as int, p2 as int));
        }
        let alen = p2 - (p1 + 1);
        if alen < 4 || !(alpha(l[p2 - 3]) && alpha(l[p2 - 2]) && alpha(l[p2 - 1])) {
            proof {
                if alen >= 4 {
                    let af = amount_field(l@);
                    assert(af[af.len() - 3] == l@[p2 - 3 as int]);
                    assert(af[af.len() - 2] == l@[p2 - 2 as int]);
                    assert(af[af.len() - 1] == l@[p2 - 1 as int]);
                }
            }
            return Err(EntryParseError::new(msg_vec_invalid_amount(l, p1 + 1, p2)));
        }
        proof {
            let af = amount_field(l@);
            assert(af[af.len() - 3] == l@[p2 - 3 as int]);
            assert(af[af.len() - 2] == l@[p2 - 2 as int]);
            assert(af[af.len() - 1] == l@[p2 - 1 as int]);
            assert(amount_shape_ok(l@));
        }
        if p2 == n {
            return Err(EntryParseError::new(msg_vec_missing_tag()));
        }
        let p3 = find_byte(l, p2 + 1, 32);
        proof {
            lemma_find_from(l@, 32, p2 + 1 as int);
        }
        if p3 == p2 + 1 {
            return Err(EntryParseError::new(msg_vec_missing_tag()));
        }
        let date = match parse_date(l, 0, p1) {
            Some(d) => d,
            None => {
                return Err(EntryParseError::new(msg_vec_invalid_date(l, 0, p1)));
            },
        };
        let mut numbuf: Vec<u8> = Vec::new();
        push_bytes_range(&mut numbuf, l, p1 + 1, p2 - 3);
        proof {
            assert(numbuf@ =~= num_part(l@));
        }
        let value = match Decimal::parse(numbuf.as_slice()) {
            Some(v) => v,
            None => {
                return Err(EntryParseError::new(msg_vec_invalid_decimal()));
            },
        };
        let tag = l[p2 + 1];
        let mut text: Vec<u8> = Vec::new();
        if p3 < n {
            push_bytes_range(&mut text, l, p3 + 1, n);
        }
        let currency: [u8; 3] = [l[p2 - 3], l[p2 - 2], l[p2 - 1]];
        proof {
            assert(currency@ =~= cur_part(l@));
            assert(text@ =~= text_of(l@));
            assert(line_ok(l@));
        }
        Ok(Entry { date, value, currency, tag, text })
    }

    /// Writes the entry as one ledger line, the amount with exactly two
    /// fraction digits.
    pub fn to_line(&self) -> (r: Vec<u8>)
        requires
            self.wf(),
        ensures
            r@ == to_line_spec(*self),
    {
        let mut out: Vec<u8> = Vec::new();
        self.date.write_fmt(&mut out);
        out.push(32);
        let f = self.value.format2();
        push_bytes_range(&mut out, f.as_slice(), 0, f.len());
        out.push(self.currency[0]);
        out.push(self.currency[1]);
        out.push(self.currency[2]);
        out.push(32);
        out.push(self.tag);
        out.push(32);
        push_bytes_range(&mut out, self.text.as_slice(), 0, self.text.len());
        proof {
            assert(out@ =~= to_line_spec(*self));
        }
        out
    }
}

/// The serialized form of an entry: `<date> <amount><currency> <tag> <text>`.
pub open spec fn to_line_spec(e: Entry) -> Seq<u8> {
    crate::date::date_fmt(e.date) + seq![32u8] + crate::dec::fmt2_spec(e.value.n(), e.value.d())
        + e.currency@ + seq![32u8] + seq![e.tag] + seq![32u8] + e.text@
}

/// The round-trip law: serializing a well-formed entry gives a line that
/// parses back to the entry, field for field, the amount by value. It holds
/// whenever the amount is exactly `m` hundredths for some representable `m`,
/// the currency code is three letters, and the tag byte is not a space.
pub proof fn lemma_entry_roundtrip(e: Entry, m: int)
    requires
        e.wf(),
        is_alpha(e.currency@[0]),
        is_alpha(e.currency@[1]),
        is_alpha(e.currency@[2]),
        e.tag != 32,
        -(i64::MAX as int) <= m <= i64::MAX as int,
        e.value.n() * 100 == m * e.value.d(),
    ensures
        ({
            let l = to_line_spec(e);
            &&& line_ok(l)
            &&& date_y(l, 0) == e.date.year
            &&& date_m(l, 0) == e.date.month
            &&& date_d(l, 0) == e.date.day
            &&& dec_num(num_part(l)) == m
            &&& dec_den(num_part(l)) == 100
            &&& crate::dec::ratio_eq(
                dec_num(num_part(l)),
                dec_den(num_part(l)),
                e.value.n(),
                e.value.d(),
            )
            &&& cur_part(l) == e.currency@
            &&& tag_of(l) == e.tag
            &&& text_of(l) == e.text@
        }),
{
    let l = to_line_spec(e);
    let df = crate::date::date_fmt(e.date);
    let fv = crate::dec::fmt2_spec(e.value.n(), e.value.d());
    let cur = e.currency@;
    crate::date::lemma_date_roundtrip(e.date);
    crate::dec::lemma_fmt2_roundtrip(e.value.n(), e.value.d(), m);
    crate::dec::lemma_dec_grammar_no_space(fv);
    let fl = fv.len() as int;
    assert(l.len() == 10 + 1 + fl + 3 + 1 + 1 + 1 + e.text@.len());
    assert(fl >= 4);
    assert(forall|j: int| 0 <= j < 10 ==> l[j] == df[j]);
    assert(l[10] == 32);
    assert(forall|j: int| 0 <= j < fl ==> l[11 + j] == fv[j]);
    assert(l[11 + fl] == cur[0] && l[12 + fl] == cur[1] && l[13 + fl] == cur[2]);
    assert(l[14 + fl] == 32);
    assert(l[15 + fl] == e.tag);
    assert(l[16 + fl] == 32);
    assert(forall|j: int| 0 <= j < e.text@.len() ==> l[17 + fl + j] == e.text@[j]);
    // The three separators are found where they were written.
    assert(is_alpha(cur[0]) && is_alpha(cur[1]) && is_alpha(cur[2]));
    crate::digits::lemma_find_pin(l, 32, 0, 10);
    assert(date_end(l) == 10);
    crate::digits::lemma_find_pin(l, 32, 11, 14 + fl);
    assert(amount_end(l) == 14 + fl);
    crate::digits::lemma_find_pin(l, 32, 15 + fl, 16 + fl);
    assert(tag_end(l) == 16 + fl);
    // The fields between them are the ones serialized.
    let af = amount_field(l);
    assert(af =~= fv + cur);
    assert(af.len() == fl + 3);
    assert(af[af.len() - 3] == cur[0] && af[af.len() - 2] == cur[1]);
    assert(af[af.len() - 1] == cur[2]);
    assert(amount_shape_ok(l));
    assert(!tag_missing(l));
    assert(num_part(l) =~= fv);
    assert(cur_part(l) =~= cur);
    assert(tag_of(l) == e.tag);
    assert(text_of(l) =~= e.text@);
    // The date field carries the same date.
    assert(l.subrange(0, 4) =~= df.subrange(0, 4));
    assert(l.subrange(5, 7) =~= df.subrange(5, 7));
    assert(l.subrange(8, 10) =~= df.subrange(8, 10));
    assert(l[4] == df[4] && l[7] == df[7]);
    assert(crate::date::date_shape(l, 0));
    assert(date_y(l, 0) == date_y(df, 0));
    assert(date_m(l, 0) == date_m(df, 0));
    assert(date_d(l, 0) == date_d(df, 0));
    assert(date_ok(l, 0, 10));
    assert(line_ok(l));
}

} // verus!
