use nummi::date::Date;
use nummi::db::{DBError, Entry, EntryParseError};
use nummi::dec::Decimal;

const EUR: [u8; 3] = [b'e', b'u', b'r'];
const USD: [u8; 3] = [b'u', b's', b'd'];
const GBP: [u8; 3] = [b'g', b'b', b'p'];

fn entry(y: u16, m: u8, d: u8, value: Decimal, currency: [u8; 3]) -> Entry {
    Entry {
        date: Date::from_ymd(y, m, d).unwrap(),
        value,
        currency,
        tag: b't',
        text: b"description".to_vec(),
    }
}

#[test]
fn from_line() {
    let e = Entry::from_line(b"2020-04-20 -100.00eur t description").unwrap();
    assert_eq!(e.date, Date::from_ymd(2020, 4, 20).unwrap());
    assert_eq!(e.value, Decimal::from_int(-100));
    assert_eq!(e.currency, EUR);
    assert_eq!(e.tag, b't');
    assert_eq!(e.text, b"description".to_vec());
}

#[test]
fn parse_error() {
    assert_eq!(Entry::from_line(b"").unwrap_err().msg, b"missing date".to_vec());
    assert_eq!(
        Entry::from_line(b"2020-05-07").unwrap_err().msg,
        b"missing amount".to_vec()
    );
    assert_eq!(
        Entry::from_line(b"2020-05-07 a").unwrap_err().msg,
        b"invalid amount \"a\"".to_vec()
    );
    assert_eq!(
        Entry::from_line(b"2020-05-07 1.00eur").unwrap_err().msg,
        b"missing tag".to_vec()
    );
}

#[test]
fn to_line() {
    let e = entry(2020, 4, 20, Decimal::from_int(-100), EUR);
    assert_eq!(e.to_line(), b"2020-04-20 -100.00eur t description".to_vec());
}

#[test]
fn unique_currencies() {
    let v: Vec<Entry> = [EUR, GBP, EUR, GBP, USD]
        .iter()
        .map(|&c| entry(2020, 4, 20, Decimal::from_int(0), c))
        .collect();
    let mut ret = Entry::unique_currencies(&v);
    ret.sort();
    assert_eq!(ret, vec![EUR, GBP, USD]);
}

#[test]
fn total() {
    let v: Vec<Entry> = [
        (-100, EUR),
        (-200, EUR),
        (300, USD),
        (-400, USD),
        (500, EUR),
    ]
    .iter()
    .map(|&(x, c)| entry(2020, 4, 20, Decimal::from_int(x), c))
    .collect();
    let mut total = Entry::total(&v).unwrap();
    total.sort_by(|l, r| l.0.cmp(&r.0));
    assert_eq!(
        total,
        vec![
            (EUR, Decimal::from_int(500), Decimal::from_int(-300)),
            (USD, Decimal::from_int(300), Decimal::from_int(-400)),
        ]
    );
}

#[test]
fn total_with_conversion() {
    let v: Vec<Entry> = [
        (-100, EUR),
        (-200, EUR),
        (300, USD),
        (-400, USD),
        (500, EUR),
    ]
    .iter()
    .map(|&(x, c)| entry(2020, 4, 20, Decimal::from_int(x), c))
    .collect();
    let conv = vec![
        nummi::db::Currency { name: EUR, to_eur: Decimal::from_int(1) },
        nummi::db::Currency { name: USD, to_eur: Decimal::from_int(3) },
    ];
    let (pos, neg) = Entry::total_with_conversion(&v, &conv).unwrap();
    assert_eq!(pos, Decimal::from_int(1400));
    assert_eq!(neg, Decimal::from_int(-1500));
}

#[test]
fn entry_round_trip() {
    let e = entry(2021, 12, 31, Decimal::parse(b"-0.05").unwrap(), GBP);
    let back = Entry::from_line(&e.to_line()).unwrap();
    assert_eq!(back, e);
}

#[test]
fn entry_round_trip_text_with_spaces() {
    let mut e = entry(1999, 1, 2, Decimal::parse(b"12.30").unwrap(), USD);
    e.text = b"many words  and  spaces".to_vec();
    let back = Entry::from_line(&e.to_line()).unwrap();
    assert_eq!(back, e);
}

#[test]
fn invalid_date_and_decimal() {
    assert_eq!(
        Entry::from_line(b"2020-13-01 1.00eur t x").unwrap_err().msg,
        b"invalid date \"2020-13-01\"".to_vec()
    );
    assert_eq!(
        Entry::from_line(b"2020-05-07 1..0eur t x").unwrap_err().msg,
        b"invalid decimal in entry".to_vec()
    );
}

#[test]
fn leap_year_dates() {
    assert!(Date::from_ymd(2020, 2, 29).is_some());
    assert!(Date::from_ymd(2021, 2, 29).is_none());
    assert!(Date::from_ymd(1900, 2, 29).is_none());
    assert!(Date::from_ymd(2000, 2, 29).is_some());
    assert!(Date::from_ymd(2020, 4, 31).is_none());
}

#[test]
fn db_error_holds_both_families() {
    let p = DBError::ParseError(EntryParseError::new(b"missing date".to_vec()));
    let io = DBError::IOError(b"cannot open".to_vec());
    assert_ne!(p, io);
}

#[test]
fn overflow_reported() {
    let big = Decimal::parse(b"9223372036854775807").unwrap();
    let v = vec![entry(2020, 1, 1, big, EUR), entry(2020, 1, 2, big, EUR)];
    assert!(Entry::total(&v).is_none());
}

#[test]
fn empty_amount_field() {
    // a doubled separator makes the amount field empty
    assert_eq!(
        Entry::from_line(b"2020-05-07  a").unwrap_err().msg,
        b"invalid amount \"\"".to_vec()
    );
}

#[test]
fn upper_case_currency() {
    let e = Entry::from_line(b"2020-01-01 5.00USD t x").unwrap();
    assert_eq!(e.currency, *b"USD");
    assert_eq!(e.value, Decimal::from_int(5));
}
