use shopping::util::parse_date_strict;
use shopping::{format_price, parse_date, parse_price, Date};

#[test]
fn price_basic() {
    assert_eq!(parse_price("12.5"), Some(1250));
    assert_eq!(parse_price("12.50"), Some(1250));
    assert_eq!(parse_price("12"), Some(1200));
    assert_eq!(parse_price("0"), Some(0));
    assert_eq!(parse_price("0.07"), Some(7));
}

#[test]
fn price_trimmed() {
    assert_eq!(parse_price("12.5 "), Some(1250));
    assert_eq!(parse_price("  12.5"), Some(1250));
    assert_eq!(parse_price("\t12.5\n"), Some(1250));
}

#[test]
fn price_too_many_fraction_digits() {
    assert_eq!(parse_price("12.555"), None);
}

#[test]
fn price_non_numeric() {
    assert_eq!(parse_price("abc"), None);
    assert_eq!(parse_price(""), None);
    assert_eq!(parse_price("12.x"), None);
    assert_eq!(parse_price("1x.50"), None);
    assert_eq!(parse_price("-5"), None);
    assert_eq!(parse_price("+5"), None);
}

#[test]
fn price_dot_edge_cases() {
    assert_eq!(parse_price("5."), Some(500));
    assert_eq!(parse_price(".5"), None);
    assert_eq!(parse_price("."), None);
}

#[test]
fn price_overflow() {
    // i64::MAX is 9223372036854775807 minor units
    assert_eq!(parse_price("92233720368547758.07"), Some(i64::MAX));
    assert_eq!(parse_price("92233720368547758.08"), None);
    assert_eq!(parse_price("92233720368547759"), None);
    assert_eq!(parse_price("99999999999999999999999"), None);
}

#[test]
fn format_price_examples() {
    assert_eq!(format_price(1250), "12.50");
    assert_eq!(format_price(0), "0.00");
    assert_eq!(format_price(7), "0.07");
    assert_eq!(format_price(350), "3.50");
    assert_eq!(format_price(100), "1.00");
    assert_eq!(format_price(99), "0.99");
    assert_eq!(format_price(123456789), "1234567.89");
}

#[test]
fn price_format_round_trip() {
    for p in [0i64, 1, 99, 100, 1250, 987654321] {
        assert_eq!(parse_price(&format_price(p)), Some(p));
    }
}

#[test]
fn date_valid() {
    assert_eq!(parse_date("2023-04-01"), Some(Date { year: 2023, month: 4, day: 1 }));
    assert!(parse_date("2024-02-29").is_some());
    assert!(parse_date("2000-02-29").is_some());
    assert!(parse_date("0001-01-01").is_some());
    assert!(parse_date("9999-12-31").is_some());
}

#[test]
fn date_wrong_shape() {
    assert_eq!(parse_date("04/01/2023"), None);
    assert_eq!(parse_date("2023-4-1"), None);
    assert_eq!(parse_date("20230401"), None);
    assert_eq!(parse_date(""), None);
    assert_eq!(parse_date("2023-04-01x"), None);
}

#[test]
fn date_out_of_range() {
    assert_eq!(parse_date("2023-13-40"), None);
    assert_eq!(parse_date("2023-00-10"), None);
    assert_eq!(parse_date("2023-04-31"), None);
    assert_eq!(parse_date("2023-02-29"), None);
    assert_eq!(parse_date("1900-02-29"), None);
    assert_eq!(parse_date("2023-04-00"), None);
}

#[test]
fn date_trimmed_but_strict_is_not() {
    assert!(parse_date(" 2023-04-01 ").is_some());
    assert!(parse_date_strict(" 2023-04-01 ").is_none());
    assert!(parse_date_strict("2023-04-01").is_some());
}
