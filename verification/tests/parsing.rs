use station_stats::parse::parse_line;
use station_stats::parse::parse_measurement;

#[test]
fn measurement_simple() {
    assert_eq!(parse_measurement(b"10.5"), Some(105));
    assert_eq!(parse_measurement(b"0.0"), Some(0));
    assert_eq!(parse_measurement(b"0.7"), Some(7));
    assert_eq!(parse_measurement(b"20.0"), Some(200));
}

#[test]
fn measurement_negative() {
    assert_eq!(parse_measurement(b"-3.2"), Some(-32));
    assert_eq!(parse_measurement(b"-0.5"), Some(-5));
    assert_eq!(parse_measurement(b"-99.9"), Some(-999));
}

#[test]
fn measurement_leading_zeros() {
    assert_eq!(parse_measurement(b"00042.5"), Some(425));
    assert_eq!(parse_measurement(b"007.0"), Some(70));
}

#[test]
fn measurement_range_limits() {
    assert_eq!(parse_measurement(b"3276.7"), Some(32767));
    assert_eq!(parse_measurement(b"-3276.8"), Some(-32768));
    assert_eq!(parse_measurement(b"3276.8"), None);
    assert_eq!(parse_measurement(b"-3276.9"), None);
    assert_eq!(parse_measurement(b"99999.9"), None);
    assert_eq!(parse_measurement(b"-99999.9"), None);
}

#[test]
fn measurement_malformed() {
    assert_eq!(parse_measurement(b""), None);
    assert_eq!(parse_measurement(b"-"), None);
    assert_eq!(parse_measurement(b"5"), None);
    assert_eq!(parse_measurement(b".5"), None);
    assert_eq!(parse_measurement(b"5."), None);
    assert_eq!(parse_measurement(b"12"), None);
    assert_eq!(parse_measurement(b"12.34"), None);
    assert_eq!(parse_measurement(b"1.2.3"), None);
    assert_eq!(parse_measurement(b"abc"), None);
    assert_eq!(parse_measurement(b"1a.5"), None);
    assert_eq!(parse_measurement(b"--1.5"), None);
    assert_eq!(parse_measurement(b"1.x"), None);
}

#[test]
fn line_simple() {
    let r = parse_line(b"Hamburg;12.0").unwrap();
    assert_eq!(r.0, b"Hamburg".to_vec());
    assert_eq!(r.1, 120);
}

#[test]
fn line_splits_at_first_semicolon() {
    let r = parse_line(b"a;b;1.5");
    assert!(r.is_none());
}

#[test]
fn line_trims_trailing_whitespace() {
    let r = parse_line(b"Oslo;-3.2\r").unwrap();
    assert_eq!(r.0, b"Oslo".to_vec());
    assert_eq!(r.1, -32);
    let r2 = parse_line(b"Oslo;-3.2 \t ").unwrap();
    assert_eq!(r2.1, -32);
}

#[test]
fn line_keeps_leading_whitespace_in_name() {
    let r = parse_line(b"  Oslo;1.0").unwrap();
    assert_eq!(r.0, b"  Oslo".to_vec());
}

#[test]
fn line_empty_name_is_allowed() {
    let r = parse_line(b";1.0").unwrap();
    assert_eq!(r.0, Vec::<u8>::new());
    assert_eq!(r.1, 10);
}

#[test]
fn line_malformed() {
    assert!(parse_line(b"").is_none());
    assert!(parse_line(b"NoDelimiter10.5").is_none());
    assert!(parse_line(b"City;").is_none());
    assert!(parse_line(b"City;12").is_none());
    assert!(parse_line(b"City;1.").is_none());
    assert!(parse_line(b"City;abc").is_none());
}
