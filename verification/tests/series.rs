use nummi::date::Date;
use nummi::db::{Currency, Entry};
use nummi::dec::Decimal;
use nummi::plot::is_sorted_by_date;

const EUR: [u8; 3] = [b'e', b'u', b'r'];
const USD: [u8; 3] = [b'u', b's', b'd'];

fn entry(y: u16, m: u8, d: u8, value: i64, currency: [u8; 3]) -> Entry {
    Entry {
        date: Date::from_ymd(y, m, d).unwrap(),
        value: Decimal::from_int(value),
        currency,
        tag: b't',
        text: b"description".to_vec(),
    }
}

#[test]
fn date_series() {
    let mut d = Date::from_ymd(2020, 4, 1).unwrap();
    let end = Date::from_ymd(2021, 4, 1).unwrap();
    let mut v = Vec::new();
    while d.le(&end) {
        v.push(d);
        d = d.next_month();
    }
    let expected: Vec<Date> = [
        (2020, 4),
        (2020, 5),
        (2020, 6),
        (2020, 7),
        (2020, 8),
        (2020, 9),
        (2020, 10),
        (2020, 11),
        (2020, 12),
        (2021, 1),
        (2021, 2),
        (2021, 3),
        (2021, 4),
    ]
    .iter()
    .map(|&(y, m)| Date::from_ymd(y, m, 1).unwrap())
    .collect();
    assert_eq!(v, expected);
}

#[test]
fn gen_data() {
    let entries = vec![
        entry(2020, 1, 1, -100, EUR),
        entry(2020, 1, 1, -200, EUR),
        entry(2020, 1, 2, 300, USD),
        entry(2020, 2, 1, -400, USD),
        entry(2020, 3, 1, 500, EUR),
    ];
    let to_eur = vec![
        Currency { name: EUR, to_eur: Decimal::from_int(1) },
        Currency { name: USD, to_eur: Decimal::from_int(3) },
    ];
    let end = Date::from_ymd(2020, 4, 1).unwrap();
    let ret = Entry::gen_data(&entries, &to_eur, &end).unwrap();
    assert_eq!(
        std::str::from_utf8(&ret).unwrap(),
        "2020-01 900.00 -300.00 600.00 600.00
2020-02 0.00 -1200.00 -1200.00 -600.00
2020-03 500.00 0.00 500.00 -100.00
2020-04 0.00 0.00 0.00 -100.00
"
    );
}

#[test]
fn empty_series() {
    let entries: Vec<Entry> = Vec::new();
    let conv: Vec<Currency> = Vec::new();
    let end = Date::from_ymd(2020, 4, 1).unwrap();
    assert_eq!(Entry::gen_data(&entries, &conv, &end).unwrap(), Vec::<u8>::new());
}

#[test]
fn sorted_check() {
    let sorted = vec![entry(2020, 1, 1, 1, EUR), entry(2020, 1, 2, 1, EUR)];
    let unsorted = vec![entry(2020, 1, 2, 1, EUR), entry(2020, 1, 1, 1, EUR)];
    assert!(is_sorted_by_date(&sorted));
    assert!(!is_sorted_by_date(&unsorted));
}

#[test]
fn missing_rate_fails() {
    let entries = vec![entry(2020, 1, 1, 1, USD)];
    let conv = vec![Currency { name: EUR, to_eur: Decimal::from_int(1) }];
    assert_eq!(
        Entry::total_with_conversion(&entries, &conv).unwrap_err(),
        nummi::agg::TotalError::MissingCurrency(USD)
    );
}

#[test]
fn exact_arithmetic() {
    // binary floating point famously gets this wrong
    let a = Decimal::parse(b"0.1").unwrap();
    let b = Decimal::parse(b"0.2").unwrap();
    let c = a.checked_add(&b).unwrap();
    assert_eq!(c, Decimal::parse(b"0.3").unwrap());
    // division and multiplication invert each other exactly
    let third = Decimal::from_int(1).checked_div(&Decimal::from_int(3)).unwrap();
    let one = third.checked_mul(&Decimal::from_int(3)).unwrap();
    assert_eq!(one, Decimal::from_int(1));
}

#[test]
fn format_rounds_half_up() {
    let v = Decimal::parse(b"1.005").unwrap();
    assert_eq!(v.format2(), b"1.01".to_vec());
    let w = Decimal::parse(b"-1.005").unwrap();
    assert_eq!(w.format2(), b"-1.01".to_vec());
}

#[test]
fn exact_rendering() {
    assert_eq!(Decimal::parse(b"0.50").unwrap().fmt_exact().unwrap(), b"0.50".to_vec());
    assert_eq!(Decimal::parse(b"17001.63").unwrap().fmt_exact().unwrap(), b"17001.63".to_vec());
    assert_eq!(Decimal::from_int(7).fmt_exact().unwrap(), b"7".to_vec());
    // a third has no finite decimal numeral
    let third = Decimal::from_int(1).checked_div(&Decimal::from_int(3)).unwrap();
    assert!(third.fmt_exact().is_none());
}

#[test]
fn comparisons() {
    let a = Decimal::parse(b"1.5").unwrap();
    let b = Decimal::parse(b"1.50").unwrap();
    let c = Decimal::parse(b"-2").unwrap();
    assert_eq!(a, b);
    assert!(c.lt(&a));
    assert!(!a.lt(&b));
    assert!(c.is_negative());
    assert!(!a.is_negative());
}
