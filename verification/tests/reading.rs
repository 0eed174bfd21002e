use nummi::reader::{check_ledger, is_ledger_file, ledger_files, parse_ledger_lines, Find};

fn lines(ls: &[&[u8]]) -> Vec<Vec<u8>> {
    ls.iter().map(|l| l.to_vec()).collect()
}

#[test]
fn ledger_file_selection() {
    assert!(is_ledger_file(b"db/2020-01.txt"));
    assert!(is_ledger_file(b"a.b.txt"));
    assert!(!is_ledger_file(b"db/notes.md"));
    assert!(!is_ledger_file(b".txt"));
    assert!(!is_ledger_file(b"db/.txt"));
}

#[test]
fn newest_file_first() {
    let files = lines(&[b"db/2020-01.txt", b"db/2020-03.txt", b"db/readme.md", b"db/2020-02.txt"]);
    let ordered = ledger_files(files);
    assert_eq!(
        ordered,
        lines(&[b"db/2020-03.txt", b"db/2020-02.txt", b"db/2020-01.txt"])
    );
}

#[test]
fn trailer_ignored() {
    let es = parse_ledger_lines(&lines(&[
        b"2020-04-20 -100.00eur t lunch",
        b"2020-04-21 5.00eur t refund",
        b"",
        b"this trailer is never parsed",
    ]))
    .unwrap();
    assert_eq!(es.len(), 2);
    assert_eq!(es[0].text, b"lunch".to_vec());
    assert_eq!(es[1].text, b"refund".to_vec());
}

#[test]
fn ledger_validation_stops_at_error() {
    // Two files; the newer one, read first, holds a malformed line. The
    // error names that line's problem, and the older file is never opened.
    let files = lines(&[b"db/2020-01.txt", b"db/2020-02.txt"]);
    let ordered = ledger_files(files);
    assert_eq!(ordered[0], b"db/2020-02.txt".to_vec());
    let first_file = lines(&[b"2020-02-01 1.00eur t ok", b"2020-02-30 1.00eur t bad date"]);
    let err = parse_ledger_lines(&first_file).unwrap_err();
    assert_eq!(err.msg, b"invalid date \"2020-02-30\"".to_vec());
}

#[test]
fn walk_frontier_is_a_stack() {
    let mut f = Find::new(b"root".to_vec());
    assert_eq!(f.pop(), Some(b"root".to_vec()));
    f.push_path(b"root/a".to_vec());
    f.push_path(b"root/b".to_vec());
    assert_eq!(f.pop(), Some(b"root/b".to_vec()));
    assert_eq!(f.pop(), Some(b"root/a".to_vec()));
    assert_eq!(f.pop(), None);
}

#[test]
fn whole_ledger_validation() {
    let good = lines(&[b"2020-02-01 1.00eur t ok"]);
    let bad = lines(&[b"2020-01-01 1.00eur t ok", b"2020-01-02 zzz"]);
    assert!(check_ledger(&vec![good.clone(), good.clone()]).is_ok());
    // the first bad file, in processing order, names its first bad line
    let (f, e) = check_ledger(&vec![good.clone(), bad, good]).unwrap_err();
    assert_eq!(f, 1);
    assert_eq!(e.msg, b"invalid amount \"zzz\"".to_vec());
}
