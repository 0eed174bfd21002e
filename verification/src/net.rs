//! Reading the fetched rate table: the archive member is extracted through
//! the zip crate, and its comma-separated content — one header line naming
//! the currencies, one record line with their rates — is parsed here.

use crate::db::{Currency, EntryParseError};
use crate::dec::{dec_den, dec_num, dec_ok, Decimal};
use crate::digits::{split_bytes, split_from, trim_bytes, trim_of, views};
use vstd::prelude::*;

verus! {

/// ASCII lower case of one byte.
pub open spec fn lower_of(b: u8) -> u8 {
    if 65 <= b <= 90 {
        (b + 32) as u8
    } else {
        b
    }
}

pub open spec fn lower_seq(s: Seq<u8>) -> Seq<u8> {
    Seq::new(s.len(), |i: int| lower_of(s[i]))
}

/// ASCII lower case of a byte string.
pub fn lower_bytes(t: &[u8]) -> (r: Vec<u8>)
    ensures
        r@ == lower_seq(t@),
{
    let n = t.len();
    let mut r: Vec<u8> = Vec::new();
    let mut i: usize = 0;
    while i < n
        invariant
            i <= n,
            n == t@.len(),
            r@.len() == i,
            forall|j: int| 0 <= j < i ==> r@[j] == lower_of(t@[j]),
        decreases n - i,
    {
        let b = t[i];
        if 65 <= b && b <= 90 {
            r.push(b + 32);
        } else {
            r.push(b);
        }
        i = i + 1;
    }
    proof {
        assert(r@ =~= lower_seq(t@));
    }
    r
}

/// The column key: its header, trimmed and lowered.
pub open spec fn csv_key(h: Seq<u8>) -> Seq<u8> {
    lower_seq(trim_of(h))
}

/// A column is kept when its key is neither empty nor the date column.
pub open spec fn keep_col(h: Seq<u8>) -> bool {
    csv_key(h).len() > 0 && csv_key(h) != seq![100u8, 97, 116, 101]
}

/// The kept (key, trimmed value) pairs of the zipped header and record
/// columns, from column `k` on.
pub open spec fn csv_pairs(hs: Seq<Seq<u8>>, rs: Seq<Seq<u8>>, k: int) -> Seq<(Seq<u8>, Seq<u8>)>
    decreases hs.len() + rs.len() - 2 * k,
    when 0 <= k
{
    if k >= hs.len() || k >= rs.len() {
        Seq::<(Seq<u8>, Seq<u8>)>::empty()
    } else {
        (if keep_col(hs[k]) {
            seq![(csv_key(hs[k]), trim_of(rs[k]))]
        } else {
            Seq::<(Seq<u8>, Seq<u8>)>::empty()
        }) + csv_pairs(hs, rs, k + 1)
    }
}

/// The parsed rate table matches the CSV content: one currency per kept
/// column, named by the first three bytes of the column key, valued by the
/// column's numeral.
pub open spec fn csv_result_ok(content: Seq<u8>, v: Seq<Currency>) -> bool {
    let lines = split_from(content, 10, 0);
    &&& lines.len() >= 2
    &&& {
        let items = csv_pairs(split_from(lines[0], 44, 0), split_from(lines[1], 44, 0), 0);
        &&& v.len() == items.len()
        &&& forall|j: int|
            0 <= j < items.len() ==> (#[trigger] items[j]).0.len() >= 3 && dec_ok(items[j].1)
        &&& forall|j: int|
            0 <= j < items.len() ==> (#[trigger] v[j]).wf() && v[j].name@ == items[j].0.subrange(
                0,
                3,
            ) && v[j].to_eur.n() == dec_num(items[j].1) && v[j].to_eur.d() == dec_den(items[j].1)
    }
}

/// Reads the rate table: the first line names the currencies, the second
/// carries their rates; columns with an empty or `date` key are skipped.
/// Fails when a kept column's key is shorter than a currency code or its
/// value is not a numeral the representation holds.
pub fn parse_csv(content: &[u8]) -> (r: Result<Vec<Currency>, EntryParseError>)
    ensures
        match r {
            Ok(v) => csv_result_ok(content@, v@),
            Err(e) => !(exists|v: Seq<Currency>| csv_result_ok(content@, v)),
        },
{
    let lines = split_bytes(content, 10);
    if lines.len() < 2 {
        return Err(EntryParseError::new(msg_vec_invalid_table()));
    }
    let hs = split_bytes(lines[0].as_slice(), 44);
    let rs = split_bytes(lines[1].as_slice(), 44);
    let ghost hsv = split_from(views(lines@)[0], 44, 0);
    let ghost rsv = split_from(views(lines@)[1], 44, 0);
    proof {
        assert(views(lines@)[0] == lines@[0]@);
        assert(views(lines@)[1] == lines@[1]@);
        assert(views(hs@) == hsv);
        assert(views(rs@) == rsv);
    }
    let nh = hs.len();
    let nr = rs.len();
    let mut v: Vec<Currency> = Vec::new();
    let mut k: usize = 0;
    let ghost mut done: Seq<(Seq<u8>, Seq<u8>)> = Seq::empty();
    proof {
        assert(done + csv_pairs(hsv, rsv, 0) =~= csv_pairs(hsv, rsv, 0));
    }
    while k < nh && k < nr
        invariant
            k <= nh,
            k <= nr,
            nh == hsv.len(),
            nr == rsv.len(),
            views(hs@) == hsv,
            views(rs@) == rsv,
            views(lines@) == split_from(content@, 10, 0),
            views(lines@).len() >= 2,
            hsv == split_from(views(lines@)[0], 44, 0),
            rsv == split_from(views(lines@)[1], 44, 0),
            csv_pairs(hsv, rsv, 0) == done + csv_pairs(hsv, rsv, k as int),
            v@.len() == done.len(),
            forall|j: int|
                0 <= j < done.len() ==> (#[trigger] done[j]).0.len() >= 3 && dec_ok(done[j].1),
            forall|j: int|
                0 <= j < done.len() ==> (#[trigger] v@[j]).wf() && v@[j].name@
                    == done[j].0.subrange(0, 3) && v@[j].to_eur.n() == dec_num(done[j].1)
                    && v@[j].to_eur.d() == dec_den(done[j].1),
        decreases nh + nr - 2 * k,
    {
        let key = lower_bytes(trim_bytes(hs[k].as_slice()).as_slice());
        proof {
            assert(hs@[k as int]@ == hsv[k as int]);
            assert(key@ == csv_key(hsv[k as int]));
        }
        let m = key.len();
        let is_date = m == 4 && key[0] == 100 && key[1] == 97 && key[2] == 116 && key[3] == 101;
        proof {
            if is_date {
                assert(key@ =~= seq![100u8, 97, 116, 101]);
            } else if m == 4 {
                assert(key@ != seq![100u8, 97, 116, 101]) by {
                    if key@ == seq![100u8, 97, 116, 101] {
                        assert(key@[0] == 100 && key@[1] == 97 && key@[2] == 116 && key@[3]
                            == 101);
                    }
                }
            } else {
                assert(key@.len() != 4);
            }
        }
        if m == 0 || is_date {
            proof {
                assert(!keep_col(hsv[k as int]));
                assert(csv_pairs(hsv, rsv, k as int) =~= csv_pairs(hsv, rsv, k + 1));
            }
            k = k + 1;
            continue ;
        }
        proof {
            assert(keep_col(hsv[k as int]));
            assert(csv_pairs(hsv, rsv, k as int) =~= seq![
                (csv_key(hsv[k as int]), trim_of(rsv[k as int])),
            ] + csv_pairs(hsv, rsv, k + 1));
        }
        if m < 3 {
            proof {
                lemma_csv_pairs_mid(hsv, rsv, 0, k as int, done);
                assert forall|v2: Seq<Currency>| !csv_result_ok(content@, v2) by {
                    if csv_result_ok(content@, v2) {
                        assert(split_from(content@, 10, 0) == views(lines@));
                        assert(split_from(content@, 10, 0)[0] == views(lines@)[0]);
                        assert(split_from(content@, 10, 0)[1] == views(lines@)[1]);
                        assert(csv_pairs(
                            split_from(split_from(content@, 10, 0)[0], 44, 0),
                            split_from(split_from(content@, 10, 0)[1], 44, 0),
                            0,
                        ) == csv_pairs(hsv, rsv, 0));
                        let items = csv_pairs(hsv, rsv, 0);
                        assert((#[trigger] items[done.len() as int]).0.len() >= 3);
                        assert(false);
                    }
                }
            }
            return Err(EntryParseError::new(msg_vec_invalid_table()));
        }
        let val = trim_bytes(rs[k].as_slice());
        proof {
            assert(rs@[k as int]@ == rsv[k as int]);
            assert(val@ == trim_of(rsv[k as int]));
        }
        let to_eur = match Decimal::parse(val.as_slice()) {
            Some(d) => d,
            None => {
                proof {
                    lemma_csv_pairs_mid(hsv, rsv, 0, k as int, done);
                    assert forall|v2: Seq<Currency>| !csv_result_ok(content@, v2) by {
                        if csv_result_ok(content@, v2) {
                            assert(split_from(content@, 10, 0) == views(lines@));
                            assert(split_from(content@, 10, 0)[0] == views(lines@)[0]);
                            assert(split_from(content@, 10, 0)[1] == views(lines@)[1]);
                            assert(csv_pairs(
                                split_from(split_from(content@, 10, 0)[0], 44, 0),
                                split_from(split_from(content@, 10, 0)[1], 44, 0),
                                0,
                            ) == csv_pairs(hsv, rsv, 0));
                            let items = csv_pairs(hsv, rsv, 0);
                            assert(dec_ok((#[trigger] items[done.len() as int]).1));
                            assert(false);
                        }
                    }
                }
                return Err(EntryParseError::new(msg_vec_invalid_table()));
            },
        };
        let name: [u8; 3] = [key[0], key[1], key[2]];
        proof {
            assert(name@ =~= csv_key(hsv[k as int]).subrange(0, 3));
        }
        v.push(Currency { name, to_eur });
        proof {
            done = done + seq![(csv_key(hsv[k as int]), trim_of(rsv[k as int]))];
            assert(csv_pairs(hsv, rsv, 0) =~= done + csv_pairs(hsv, rsv, k + 1));
        }
        k = k + 1;
    }
    proof {
        assert(csv_pairs(hsv, rsv, k as int) =~= Seq::<(Seq<u8>, Seq<u8>)>::empty());
        assert(csv_pairs(hsv, rsv, 0) =~= done);
    }
    Ok(v)
}

/// The kept pair of column `k` sits right after the ones already taken.
proof fn lemma_csv_pairs_mid(hs: Seq<Seq<u8>>, rs: Seq<Seq<u8>>, i: int, k: int, done: Seq<(Seq<u8>, Seq<u8>)>)
    requires
        0 <= i <= k,
        k < hs.len(),
        k < rs.len(),
        keep_col(hs[k]),
        csv_pairs(hs, rs, i) == done + csv_pairs(hs, rs, k),
    ensures
        done.len() < csv_pairs(hs, rs, i).len(),
        csv_pairs(hs, rs, i)[done.len() as int] == (csv_key(hs[k]), trim_of(rs[k])),
{
    let tail = csv_pairs(hs, rs, k);
    assert(tail =~= seq![(csv_key(hs[k]), trim_of(rs[k]))] + csv_pairs(hs, rs, k + 1));
    assert(tail[0] == (csv_key(hs[k]), trim_of(rs[k])));
    assert(csv_pairs(hs, rs, i)[done.len() as int] == tail[0]);
}

fn msg_vec_invalid_table() -> (v: Vec<u8>)
{
    // "invalid rate table"
    let mut v: Vec<u8> = Vec::new();
    v.push(105);
    v.push(110);
    v.push(118);
    v.push(97);
    v.push(108);
    v.push(105);
    v.push(100);
    v.push(32);
    v.push(114);
    v.push(97);
    v.push(116);
    v.push(101);
    v.push(32);
    v.push(116);
    v.push(97);
    v.push(98);
    v.push(108);
    v.push(101);
    v
}

/// The bytes of the named member of a zip archive.
pub uninterp spec fn zip_entry_of(archive: Seq<u8>, name: Seq<char>) -> Seq<u8>;

/// Relies on zip's `ZipArchive::new`, `by_name` and the member's `Read`
/// impl: on success the returned bytes are the named member's decompressed
/// content, a function of the archive bytes and the name alone.
#[verifier::external_body]
fn read_zip_entry(archive: &[u8], name: &str) -> (r: Option<Vec<u8>>)
    ensures
        match r {
            Some(v) => v@ == zip_entry_of(archive@, name@),
            None => true,
        },
{
    let cur = std::io::Cursor::new(archive);
    let mut z = match zip::ZipArchive::new(cur) {
        Ok(z) => z,
        Err(_) => return None,
    };
    let mut f = match z.by_name(name) {
        Ok(f) => f,
        Err(_) => return None,
    };
    let mut out = Vec::new();
    match std::io::Read::read_to_end(&mut f, &mut out) {
        Ok(_) => Some(out),
        Err(_) => None,
    }
}

/// Reads the fetched archive: extracts the rate table member and parses it.
/// On success the result is exactly the parsed table of that member.
pub fn currencies_from_zip(archive: &Vec<u8>) -> (r: Result<Vec<Currency>, EntryParseError>)
    ensures
        match r {
            Ok(v) => csv_result_ok(zip_entry_of(archive@, "eurofxref.csv"@), v@),
            Err(e) => true,
        },
{
    let content = match read_zip_entry(archive.as_slice(), "eurofxref.csv") {
        Some(c) => c,
        None => {
            return Err(EntryParseError::new(msg_vec_invalid_table()));
        },
    };
    parse_csv(content.as_slice())
}

} // verus!
