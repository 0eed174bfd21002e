use nummi::cache::{cache_stale, format_rate_line, parse_rates, Cache};
use nummi::db::Currency;
use nummi::dec::Decimal;

fn cur(name: &[u8; 3], rate: &[u8]) -> Currency {
    Currency { name: *name, to_eur: Decimal::parse(rate).unwrap() }
}

fn split_lines(blob: &[u8]) -> Vec<Vec<u8>> {
    let mut lines: Vec<Vec<u8>> = blob.split(|&b| b == b'\n').map(|s| s.to_vec()).collect();
    if lines.last().map(|l| l.is_empty()).unwrap_or(false) {
        lines.pop();
    }
    lines
}

#[test]
fn read_currencies() {
    let mut ret = parse_rates(&split_lines(
        b"aud 1.7266\nbgn 1.9558\nbrl 5.7619\ncad 1.5393\nchf 1.0517\ncny 7.6888
czk 27.447\ndkk 7.4582\ngbp 0.88120\nhkd 8.3987\nhrk 7.5700\nhuf 355.02
idr 17001.63\nils 3.8522\ninr 83.3760\nisk 157.80\njpy 116.39\nkrw 1335.34
mxn 26.3957\nmyr 4.7634\nnok 11.4843\nnzd 1.8181\nphp 55.096\npln 4.5291
ron 4.8373\nrub 83.2936\nsek 10.9543\nsgd 1.5510\nthb 35.269\ntry 7.5658
usd 1.0837\nzar 20.5853\n",
    ))
    .unwrap();
    ret.sort_by(|l, r| l.name.cmp(&r.name));
    assert_eq!(
        ret,
        vec![
            cur(b"aud", b"1.7266"),
            cur(b"bgn", b"1.9558"),
            cur(b"brl", b"5.7619"),
            cur(b"cad", b"1.5393"),
            cur(b"chf", b"1.0517"),
            cur(b"cny", b"7.6888"),
            cur(b"czk", b"27.447"),
            cur(b"dkk", b"7.4582"),
            cur(b"eur", b"1.0"),
            cur(b"gbp", b"0.88120"),
            cur(b"hkd", b"8.3987"),
            cur(b"hrk", b"7.5700"),
            cur(b"huf", b"355.02"),
            cur(b"idr", b"17001.63"),
            cur(b"ils", b"3.8522"),
            cur(b"inr", b"83.3760"),
            cur(b"isk", b"157.80"),
            cur(b"jpy", b"116.39"),
            cur(b"krw", b"1335.34"),
            cur(b"mxn", b"26.3957"),
            cur(b"myr", b"4.7634"),
            cur(b"nok", b"11.4843"),
            cur(b"nzd", b"1.8181"),
            cur(b"php", b"55.096"),
            cur(b"pln", b"4.5291"),
            cur(b"ron", b"4.8373"),
            cur(b"rub", b"83.2936"),
            cur(b"sek", b"10.9543"),
            cur(b"sgd", b"1.5510"),
            cur(b"thb", b"35.269"),
            cur(b"try", b"7.5658"),
            cur(b"usd", b"1.0837"),
            cur(b"zar", b"20.5853"),
        ]
    );
}

#[test]
fn parse_csv() {
    let mut v = nummi::net::parse_csv(
        b"Date, USD, JPY, BGN, CZK, DKK, GBP, HUF, PLN, RON, SEK, CHF, ISK, NOK, HRK, RUB, TRY, AUD, BRL, CAD, CNY, HKD, IDR, ILS, INR, KRW, MXN, MYR, NZD, PHP, SGD, THB, ZAR,
21 April 2020, 1.0837, 116.39, 1.9558, 27.447, 7.4582, 0.88120, 355.02, 4.5291, 4.8373, 10.9543, 1.0517, 157.80, 11.4843, 7.5700, 83.2936, 7.5658, 1.7266, 5.7619, 1.5393, 7.6888, 8.3987, 17001.63, 3.8522, 83.3760, 1335.34, 26.3957, 4.7634, 1.8181, 55.096, 1.5510, 35.269, 20.5853,
",
    )
    .unwrap();
    v.sort_by(|l, r| l.name.cmp(&r.name));
    assert_eq!(
        v,
        vec![
            cur(b"aud", b"1.7266"),
            cur(b"bgn", b"1.9558"),
            cur(b"brl", b"5.7619"),
            cur(b"cad", b"1.5393"),
            cur(b"chf", b"1.0517"),
            cur(b"cny", b"7.6888"),
            cur(b"czk", b"27.447"),
            cur(b"dkk", b"7.4582"),
            cur(b"gbp", b"0.88120"),
            cur(b"hkd", b"8.3987"),
            cur(b"hrk", b"7.5700"),
            cur(b"huf", b"355.02"),
            cur(b"idr", b"17001.63"),
            cur(b"ils", b"3.8522"),
            cur(b"inr", b"83.3760"),
            cur(b"isk", b"157.80"),
            cur(b"jpy", b"116.39"),
            cur(b"krw", b"1335.34"),
            cur(b"mxn", b"26.3957"),
            cur(b"myr", b"4.7634"),
            cur(b"nok", b"11.4843"),
            cur(b"nzd", b"1.8181"),
            cur(b"php", b"55.096"),
            cur(b"pln", b"4.5291"),
            cur(b"ron", b"4.8373"),
            cur(b"rub", b"83.2936"),
            cur(b"sek", b"10.9543"),
            cur(b"sgd", b"1.5510"),
            cur(b"thb", b"35.269"),
            cur(b"try", b"7.5658"),
            cur(b"usd", b"1.0837"),
            cur(b"zar", b"20.5853"),
        ]
    );
}

#[test]
fn rate_cache_staleness() {
    // no cache file: stale, whatever its age would be
    assert!(cache_stale(false, 0, 86400));
    // a file written just now, with a day of allowed age: fresh
    assert!(!cache_stale(true, 0, 86400));
    // a file exactly at the limit is still fresh; one second over is stale
    assert!(!cache_stale(true, 86400, 86400));
    assert!(cache_stale(true, 86401, 86400));
}

#[test]
fn cache_line_round_trip() {
    let line = format_rate_line(&cur(b"gbp", b"0.88120")).unwrap();
    assert_eq!(line, b"gbp 0.88120".to_vec());
    let back = parse_rates(&vec![line]).unwrap();
    assert_eq!(back[0], cur(b"gbp", b"0.88120"));
    assert_eq!(back[1], cur(b"eur", b"1"));
}

#[test]
fn bad_rate_line_is_refused() {
    assert!(parse_rates(&vec![b"usd x".to_vec()]).is_err());
    assert!(parse_rates(&vec![b"".to_vec()]).is_err());
}

#[test]
fn cache_starts_empty() {
    assert!(Cache::new().currencies.is_empty());
}
