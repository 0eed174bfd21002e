//! The ledger reader's pure core: the depth-first scan frontier, selection
//! and newest-first ordering of ledger files, and reading the entry lines of
//! one file up to its first blank line.

use crate::db::{entry_of_line, line_err, line_ok, Entry, EntryParseError};
use crate::digits::views;
use vstd::prelude::*;

verus! {

/// Lexicographic byte order: the empty string first, then by first
/// difference, a prefix before its extensions.
pub open spec fn lex_le(a: Seq<u8>, b: Seq<u8>) -> bool
    decreases a.len(),
{
    if a.len() == 0 {
        true
    } else if b.len() == 0 {
        false
    } else if a[0] < b[0] {
        true
    } else if a[0] > b[0] {
        false
    } else {
        lex_le(a.skip(1), b.skip(1))
    }
}

/// Any two byte strings compare.
pub proof fn lemma_lex_total(a: Seq<u8>, b: Seq<u8>)
    ensures
        lex_le(a, b) || lex_le(b, a),
    decreases a.len(),
{
    if a.len() > 0 && b.len() > 0 && a[0] == b[0] {
        lemma_lex_total(a.skip(1), b.skip(1));
    }
}

pub proof fn lemma_lex_trans(a: Seq<u8>, b: Seq<u8>, c: Seq<u8>)
    requires
        lex_le(a, b),
        lex_le(b, c),
    ensures
        lex_le(a, c),
    decreases a.len(),
{
    if a.len() > 0 && b.len() > 0 && c.len() > 0 && a[0] == b[0] && b[0] == c[0] {
        lemma_lex_trans(a.skip(1), b.skip(1), c.skip(1));
    }
}

/// Compares two byte strings lexicographically.
pub fn lex_le_bytes(a: &[u8], b: &[u8]) -> (r: bool)
    ensures
        r == lex_le(a@, b@),
{
    let na = a.len();
    let nb = b.len();
    let mut i: usize = 0;
    proof {
        assert(a@.skip(0) =~= a@);
        assert(b@.skip(0) =~= b@);
    }
    while i < na && i < nb
        invariant
            i <= na,
            i <= nb,
            na == a@.len(),
            nb == b@.len(),
            lex_le(a@, b@) == lex_le(a@.skip(i as int), b@.skip(i as int)),
            lex_le(b@, a@) == lex_le(b@.skip(i as int), a@.skip(i as int)),
        decreases na - i,
    {
        let x = a[i];
        let y = b[i];
        proof {
            assert(a@.skip(i as int)[0] == a@[i as int]);
            assert(b@.skip(i as int)[0] == b@[i as int]);
            assert(a@.skip(i as int).skip(1) =~= a@.skip(i + 1));
            assert(b@.skip(i as int).skip(1) =~= b@.skip(i + 1));
        }
        if x < y {
            return true;
        }
        if x > y {
            return false;
        }
        i = i + 1;
    }
    proof {
        if i >= na {
            assert(a@.skip(i as int).len() == 0);
        } else {
            assert(b@.skip(i as int).len() == 0);
            assert(a@.skip(i as int).len() > 0);
        }
    }
    i >= na
}

/// A path that names a ledger file: it ends in the ledger extension and the
/// name itself is not just the extension.
pub open spec fn is_ledger_name(p: Seq<u8>) -> bool {
    &&& p.len() >= 5
    &&& p[p.len() - 4] == 46
    &&& p[p.len() - 3] == 116
    &&& p[p.len() - 2] == 120
    &&& p[p.len() - 1] == 116
    &&& p[p.len() - 5] != 47
}

/// Checks the ledger extension.
pub fn is_ledger_file(p: &[u8]) -> (r: bool)
    ensures
        r == is_ledger_name(p@),
{
    let n = p.len();
    n >= 5 && p[n - 4] == 46 && p[n - 3] == 116 && p[n - 2] == 120 && p[n - 1] == 116 && p[n - 5]
        != 47
}

/// The scan frontier of the directory walk: a stack of paths still to be
/// visited, deepest first.
pub struct Find {
    stack: Vec<Vec<u8>>,
}

impl Find {
    /// The paths still to visit, bottom of the stack first.
    pub closed spec fn frontier(self) -> Seq<Seq<u8>> {
        views(self.stack@)
    }

    /// A walk that starts at the root `dir`.
    pub fn new(dir: Vec<u8>) -> (r: Find)
        ensures
            r.frontier() =~= seq![dir@],
    {
        let mut stack: Vec<Vec<u8>> = Vec::new();
        stack.push(dir);
        Find { stack }
    }

    /// Takes the next path to visit, newest first.
    pub fn pop(&mut self) -> (r: Option<Vec<u8>>)
        ensures
            match r {
                Some(p) => old(self).frontier().len() > 0 && p@ == old(self).frontier().last()
                    && final(self).frontier() =~= old(self).frontier().drop_last(),
                None => old(self).frontier().len() == 0 && final(self).frontier() =~= old(
                    self,
                ).frontier(),
            },
    {
        let r = self.stack.pop();
        proof {
            if old(self).stack@.len() > 0 {
                assert(self.frontier() =~= old(self).frontier().drop_last());
            } else {
                assert(self.frontier() =~= old(self).frontier());
            }
        }
        r
    }

    /// Adds the members of a directory that was just listed.
    pub fn push_path(&mut self, p: Vec<u8>)
        ensures
            final(self).frontier() =~= old(self).frontier().push(p@),
    {
        self.stack.push(p);
        proof {
            assert(self.frontier() =~= old(self).frontier().push(p@));
        }
    }
}

/// Keeps the paths that name ledger files, in descending (newest-first)
/// name order: the same paths, each as often as it was given.
pub fn ledger_files(files: Vec<Vec<u8>>) -> (r: Vec<Vec<u8>>)
    ensures
        forall|i: int, j: int| 0 <= i <= j < r@.len() ==> lex_le(r@[j]@, r@[i]@),
        forall|i: int| 0 <= i < r@.len() ==> is_ledger_name(#[trigger] r@[i]@),
        views(r@).to_multiset() == views(files@).filter(|p: Seq<u8>| is_ledger_name(p))
            .to_multiset(),
{
    let n = files.len();
    let mut rest: Vec<Vec<u8>> = Vec::new();
    let mut i: usize = 0;
    proof {
        reveal(Seq::filter);
        assert(views(files@).subrange(0, 0) =~= Seq::<Seq<u8>>::empty());
        assert(views(rest@) =~= Seq::<Seq<u8>>::empty());
        assert(views(rest@).to_multiset() =~= views(files@).subrange(0, 0).filter(
            |p: Seq<u8>| is_ledger_name(p),
        ).to_multiset());
    }
    while i < n
        invariant
            i <= n,
            n == files@.len(),
            forall|k: int| 0 <= k < rest@.len() ==> is_ledger_name(#[trigger] rest@[k]@),
            views(rest@).to_multiset() == views(files@).subrange(0, i as int).filter(
                |p: Seq<u8>| is_ledger_name(p),
            ).to_multiset(),
        decreases n - i,
    {
        let ghost pre = views(files@).subrange(0, i as int);
        let ghost post = views(files@).subrange(0, i + 1 as int);
        proof {
            assert(post.drop_last() =~= pre);
            assert(post.last() == files@[i as int]@);
        }
        let p = &files[i];
        if is_ledger_file(p.as_slice()) {
            let ghost rest_old = rest@;
            rest.push(files[i].clone());
            proof {
                reveal(Seq::filter);
                assert(views(rest@) =~= views(rest_old).push(files@[i as int]@));
                views(rest_old).to_multiset_ensures();
                assert(post.filter(|p: Seq<u8>| is_ledger_name(p)) =~= pre.filter(
                    |p: Seq<u8>| is_ledger_name(p),
                ).push(files@[i as int]@));
                pre.filter(|p: Seq<u8>| is_ledger_name(p)).to_multiset_ensures();
            }
        } else {
            proof {
                reveal(Seq::filter);
                assert(post.filter(|p: Seq<u8>| is_ledger_name(p)) =~= pre.filter(
                    |p: Seq<u8>| is_ledger_name(p),
                ));
            }
        }
        i = i + 1;
    }
    proof {
        assert(views(files@).subrange(0, n as int) =~= views(files@));
    }
    // Selection sort, largest name first.
    let mut out: Vec<Vec<u8>> = Vec::new();
    let ghost target = views(rest@).to_multiset();
    proof {
        assert(views(out@) =~= Seq::<Seq<u8>>::empty());
        views(out@).to_multiset_ensures();
        assert(views(out@).to_multiset().add(views(rest@).to_multiset()) =~= target);
    }
    while rest.len() > 0
        invariant
            forall|k: int| 0 <= k < out@.len() ==> is_ledger_name(#[trigger] out@[k]@),
            forall|k: int| 0 <= k < rest@.len() ==> is_ledger_name(#[trigger] rest@[k]@),
            forall|i2: int, j2: int| 0 <= i2 <= j2 < out@.len() ==> lex_le(out@[j2]@, out@[i2]@),
            forall|a: int, b: int|
                0 <= a < out@.len() && 0 <= b < rest@.len() ==> lex_le(rest@[b]@, out@[a]@),
            views(out@).to_multiset().add(views(rest@).to_multiset()) == target,
        decreases rest@.len(),
    {
        // Find the lexicographically largest remaining name.
        let m = rest.len();
        let mut mx: usize = 0;
        let mut k: usize = 1;
        proof {
            lemma_lex_total(rest@[0]@, rest@[0]@);
        }
        while k < m
            invariant
                m == rest@.len(),
                1 <= m,
                mx < k <= m,
                forall|a: int| 0 <= a < k ==> lex_le(rest@[a]@, rest@[mx as int]@),
            decreases m - k,
        {
            if !lex_le_bytes(rest[k].as_slice(), rest[mx].as_slice()) {
                proof {
                    lemma_lex_total(rest@[k as int]@, rest@[mx as int]@);
                    assert forall|a: int| 0 <= a < k + 1 implies lex_le(
                        rest@[a]@,
                        rest@[k as int]@,
                    ) by {
                        if a < k {
                            lemma_lex_trans(rest@[a]@, rest@[mx as int]@, rest@[k as int]@);
                        } else {
                            lemma_lex_total(rest@[a]@, rest@[a]@);
                        }
                    }
                }
                mx = k;
            }
            k = k + 1;
        }
        let ghost rest_old = rest@;
        let ghost out_old = out@;
        let x = rest.remove(mx);
        out.push(x);
        proof {
            assert(views(out@) =~= views(out_old).push(rest_old[mx as int]@));
            assert(views(rest@) =~= views(rest_old).remove(mx as int));
            views(out_old).to_multiset_ensures();
            views(rest_old).to_multiset_ensures();
            assert(views(rest_old).to_multiset().contains(rest_old[mx as int]@)) by {
                assert(views(rest_old)[mx as int] == rest_old[mx as int]@);
                assert(views(rest_old).contains(rest_old[mx as int]@));
            }
            assert(views(out@).to_multiset().add(views(rest@).to_multiset()) =~= target);
            assert forall|a: int, b: int|
                0 <= a < out@.len() && 0 <= b < rest@.len() implies lex_le(
                rest@[b]@,
                out@[a]@,
            ) by {
                let orig_b: int = if b < mx {
                    b
                } else {
                    b + 1
                };
                assert(rest@[b]@ == rest_old[orig_b]@);
                if a < out_old.len() {
                    assert(lex_le(rest_old[orig_b]@, out_old[a]@));
                } else {
                    assert(out@[a]@ == rest_old[mx as int]@);
                    assert(lex_le(rest_old[orig_b]@, rest_old[mx as int]@));
                }
            }
        }
    }
    proof {
        views(rest@).to_multiset_ensures();
        assert(views(rest@) =~= Seq::<Seq<u8>>::empty());
        assert(views(out@).to_multiset() =~= target);
    }
    out
}

/// The index of the first blank line, or the length if there is none: the
/// entry lines end there, and anything after is an unread trailer.
pub open spec fn first_blank(ls: Seq<Seq<u8>>, i: int) -> int
    decreases ls.len() - i,
    when 0 <= i <= ls.len()
{
    if i >= ls.len() {
        ls.len() as int
    } else if ls[i].len() == 0 {
        i
    } else {
        first_blank(ls, i + 1)
    }
}

/// The file's entry lines — those before its first blank line — contain a
/// malformed one.
pub open spec fn file_has_error(ls: Seq<Seq<u8>>) -> bool {
    exists|k: int| 0 <= k < first_blank(ls, 0) && !line_ok(#[trigger] ls[k])
}

/// `msg` is the message of the first malformed entry line of the file:
/// every line before it parses.
pub open spec fn first_file_error(ls: Seq<Seq<u8>>, msg: Seq<u8>) -> bool {
    exists|k: int|
        0 <= k < first_blank(ls, 0) && #[trigger] line_err(ls[k]) == Some(msg) && forall|j: int|
            0 <= j < k ==> line_ok(ls[j])
}

/// Reads the entry lines of one ledger file: every line before the first
/// blank line, in file order, stopping with the first malformed line's
/// error. The trailer after a blank line is never parsed.
pub fn parse_ledger_lines(lines: &Vec<Vec<u8>>) -> (r: Result<Vec<Entry>, EntryParseError>)
    ensures
        ({
            let ls = views(lines@);
            let stop = first_blank(ls, 0);
            match r {
                Ok(es) => {
                    &&& es@.len() == stop
                    &&& forall|k: int| 0 <= k < stop ==> entry_of_line(#[trigger] es@[k], ls[k])
                },
                Err(e) => first_file_error(ls, e.msg@),
            }
        }),
{
    let ghost ls = views(lines@);
    let n = lines.len();
    let mut es: Vec<Entry> = Vec::new();
    let mut i: usize = 0;
    while i < n
        invariant
            i <= n,
            n == lines@.len(),
            ls == views(lines@),
            first_blank(ls, 0) == first_blank(ls, i as int),
            forall|j: int| 0 <= j < i ==> (#[trigger] ls[j]).len() > 0,
            es@.len() == i,
            forall|k: int| 0 <= k < i ==> entry_of_line(#[trigger] es@[k], ls[k]),
            forall|j: int| 0 <= j < i ==> line_ok(ls[j]),
        ensures
            i <= n,
            es@.len() == i,
            i as int == first_blank(ls, 0),
            forall|k: int| 0 <= k < i ==> entry_of_line(#[trigger] es@[k], ls[k]),
            forall|j: int| 0 <= j < i ==> line_ok(ls[j]),
        decreases n - i,
    {
        if lines[i].len() == 0 {
            proof {
                assert(first_blank(ls, i as int) == i);
            }
            break ;
        }
        match Entry::from_line(lines[i].as_slice()) {
            Ok(e) => {
                es.push(e);
            },
            Err(err) => {
                proof {
                    lemma_first_blank(ls, i + 1);
                    assert(first_blank(ls, i as int) == first_blank(ls, i + 1));
                    assert(i < first_blank(ls, 0));
                    assert(line_err(ls[i as int]) == Some(err.msg@));
                }
                return Err(err);
            },
        }
        i = i + 1;
    }
    proof {
        assert(first_blank(ls, 0) == i);
    }
    Ok(es)
}

/// Validates a whole ledger, the files' lines given in processing order —
/// newest name first, as `ledger_files` orders them. Succeeds exactly when
/// every file's entry lines parse; otherwise it reports the first malformed
/// line of the first bad file, the error streaming validation stops at, and
/// looks at no file after it.
pub fn check_ledger(files: &Vec<Vec<Vec<u8>>>) -> (r: Result<(), (usize, EntryParseError)>)
    ensures
        match r {
            Ok(u) => forall|f: int|
                0 <= f < files@.len() ==> !file_has_error(views(#[trigger] files@[f]@)),
            Err(fe) => {
                &&& (fe.0 as int) < files@.len()
                &&& first_file_error(views(files@[fe.0 as int]@), fe.1.msg@)
                &&& forall|g: int| 0 <= g < fe.0 ==> !file_has_error(views(#[trigger] files@[g]@))
            },
        },
{
    let n = files.len();
    let mut f: usize = 0;
    while f < n
        invariant
            f <= n,
            n == files@.len(),
            forall|g: int| 0 <= g < f ==> !file_has_error(views(#[trigger] files@[g]@)),
        decreases n - f,
    {
        match parse_ledger_lines(&files[f]) {
            Ok(es) => {
                proof {
                    let ls = views(files@[f as int]@);
                    if file_has_error(ls) {
                        let k = choose|k: int|
                            0 <= k < first_blank(ls, 0) && !line_ok(#[trigger] ls[k]);
                        assert(entry_of_line(es@[k], ls[k]));
                        assert(false);
                    }
                }
            },
            Err(e) => {
                return Err((f, e));
            },
        }
        f = f + 1;
    }
    Ok(())
}

pub proof fn lemma_first_blank(ls: Seq<Seq<u8>>, i: int)
    requires
        0 <= i <= ls.len(),
    ensures
        i <= first_blank(ls, i) <= ls.len(),
        first_blank(ls, i) < ls.len() ==> ls[first_blank(ls, i)].len() == 0,
        forall|j: int| i <= j < first_blank(ls, i) ==> ls[j].len() > 0,
    decreases ls.len() - i,
{
    if i < ls.len() && ls[i].len() > 0 {
        lemma_first_blank(ls, i + 1);
    }
}

} // verus!
