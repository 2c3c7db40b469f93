use chartdata::value::parse_scaled;

#[test]
fn parses_plain_integers() {
    assert_eq!(parse_scaled("100"), Some(100_000));
    assert_eq!(parse_scaled("0"), Some(0));
    assert_eq!(parse_scaled("007"), Some(7_000));
}

#[test]
fn parses_fractions_to_milli_units() {
    assert_eq!(parse_scaled("1.5"), Some(1_500));
    assert_eq!(parse_scaled("82.7"), Some(82_700));
    assert_eq!(parse_scaled("0.001"), Some(1));
}

#[test]
fn truncates_past_the_third_fractional_digit() {
    assert_eq!(parse_scaled("0.1234"), Some(123));
    assert_eq!(parse_scaled("2.9999"), Some(2_999));
}

#[test]
fn parses_negative_numbers() {
    assert_eq!(parse_scaled("-2.75"), Some(-2_750));
    assert_eq!(parse_scaled("-100"), Some(-100_000));
}

#[test]
fn accepts_signs_and_bare_dot_forms() {
    assert_eq!(parse_scaled("+3.25"), Some(3_250));
    assert_eq!(parse_scaled("+7"), Some(7_000));
    assert_eq!(parse_scaled("1."), Some(1_000));
    assert_eq!(parse_scaled(".5"), Some(500));
    assert_eq!(parse_scaled("-.5"), Some(-500));
}

#[test]
fn rejects_malformed_cells() {
    assert_eq!(parse_scaled(""), None);
    assert_eq!(parse_scaled("abc"), None);
    assert_eq!(parse_scaled("."), None);
    assert_eq!(parse_scaled("-"), None);
    assert_eq!(parse_scaled("+"), None);
    assert_eq!(parse_scaled("+."), None);
    assert_eq!(parse_scaled("--1"), None);
    assert_eq!(parse_scaled("1.2.3"), None);
    assert_eq!(parse_scaled("1,5"), None);
    assert_eq!(parse_scaled(" 1"), None);
    assert_eq!(parse_scaled("1e5"), None);
    assert_eq!(parse_scaled("inf"), None);
    assert_eq!(parse_scaled("NaN"), None);
}

#[test]
fn integer_part_is_capped_at_fifteen_digits() {
    assert_eq!(parse_scaled("999999999999999"), Some(999_999_999_999_999_000));
    assert_eq!(parse_scaled("0000000000000001"), None);
    assert_eq!(parse_scaled("1000000000000000"), None);
}
