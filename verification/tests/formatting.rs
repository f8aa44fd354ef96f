use xelis_stats::big::shifted_text;
use xelis_stats::decimal::{decimal_text, format_with_commas, padded_text};

#[test]
fn formats_market_cap_with_commas() {
    assert_eq!(format_with_commas(1), "1");
    assert_eq!(format_with_commas(1_234), "1,234");
    assert_eq!(format_with_commas(1_234_567), "1,234,567");
}

#[test]
fn groups_of_three_digits() {
    assert_eq!(format_with_commas(0), "0");
    assert_eq!(format_with_commas(12), "12");
    assert_eq!(format_with_commas(999), "999");
    assert_eq!(format_with_commas(1_000), "1,000");
    assert_eq!(format_with_commas(12_345), "12,345");
    assert_eq!(format_with_commas(123_456), "123,456");
    assert_eq!(format_with_commas(u64::MAX), "18,446,744,073,709,551,615");
}

#[test]
fn commas_add_nothing_but_commas() {
    for value in [0, 7, 1_000, 98_765_432, u64::MAX - 1] {
        assert_eq!(format_with_commas(value).replace(',', ""), value.to_string());
    }
}

#[test]
fn different_numbers_have_different_texts() {
    assert_ne!(format_with_commas(1_000), format_with_commas(100));
    assert_ne!(decimal_text(10), decimal_text(100));
}

#[test]
fn decimal_texts() {
    assert_eq!(decimal_text(0), "0");
    assert_eq!(decimal_text(907), "907");
    assert_eq!(decimal_text(u128::MAX), u128::MAX.to_string());
    assert_eq!(padded_text(7, 4), "0007");
    assert_eq!(padded_text(123_456, 4), "3456");
    assert_eq!(padded_text(5, 0), "");
}

#[test]
fn texts_of_shifted_numbers() {
    assert_eq!(shifted_text(0, 900), "0");
    assert_eq!(shifted_text(1, 0), "1");
    assert_eq!(shifted_text(10, 1), "20");
    assert_eq!(shifted_text(5, 100), (5u128 << 100).to_string());
    assert_eq!(shifted_text(1, 128), "340282366920938463463374607431768211456");
}
