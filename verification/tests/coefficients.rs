use hues::coeff::{ceil_to_grid, from_i128_checked, max_of, slack_bound};
use hues::number::parse_str;
use hues::text::push_decimal_int;

#[test]
fn i64_parse_plain() {
    assert_eq!(parse_str("42"), Ok(42));
    assert_eq!(parse_str("-3"), Ok(-3));
    assert_eq!(parse_str("0"), Ok(0));
}

#[test]
fn i64_parse_float_notation() {
    assert_eq!(parse_str("2.0"), Ok(2));
    assert_eq!(parse_str("-1.0"), Ok(-1));
    assert_eq!(parse_str("1e2"), Ok(100));
    assert_eq!(parse_str("-1e2"), Ok(-100));
}

#[test]
fn i64_rejects_non_integer() {
    assert!(parse_str("2.5").is_err());
    assert!(parse_str("0.1").is_err());
    assert!(parse_str("abc").is_err());
}

#[test]
fn parse_handles_signs_points_and_exponents() {
    assert_eq!(parse_str("+7"), Ok(7));
    assert_eq!(parse_str("5."), Ok(5));
    assert_eq!(parse_str(".0"), Ok(0));
    assert_eq!(parse_str("0.25e2"), Ok(25));
    assert_eq!(parse_str("1200e-2"), Ok(12));
    assert_eq!(parse_str("1.50E+1"), Ok(15));
    assert_eq!(parse_str("0e999999999999999999999999999999999999"), Ok(0));
    for bad in ["", "+", ".", "e5", "1e", "1e+", "1.2.3", "12a", " 1", "inf", "nan", "1e-1", "--1"] {
        assert!(parse_str(bad).is_err(), "{bad}");
    }
}

#[test]
fn parse_stops_at_the_coefficient_range() {
    assert_eq!(parse_str("9223372036854775807"), Ok(i64::MAX));
    assert_eq!(parse_str("-9223372036854775808"), Ok(i64::MIN));
    assert!(parse_str("9223372036854775808").is_err());
    assert!(parse_str("-9223372036854775809").is_err());
    assert!(parse_str("1e19").is_err());
    assert!(parse_str("1e99999999999999999999999999999999999999").is_err());
    assert!(parse_str("1e-99999999999999999999999999999999999999").is_err());
}

#[test]
fn parse_refusal_names_the_text() {
    assert_eq!(parse_str("x1"), Err("cannot parse `x1` as integer".to_string()));
}

#[test]
fn written_numbers_are_read_back() {
    for v in [0, 7, -7, 10, -120, i64::MAX, i64::MIN] {
        let mut s = String::new();
        push_decimal_int(&mut s, v);
        assert_eq!(s, v.to_string());
        assert_eq!(parse_str(&s), Ok(v));
    }
}

#[test]
fn grid_rounding_goes_up() {
    assert_eq!(ceil_to_grid(2, 1, 2), 3);
    assert_eq!(ceil_to_grid(3, 1, 2), 3);
    assert_eq!(ceil_to_grid(-8, -5, 4), -5);
    assert_eq!(ceil_to_grid(-9, -5, 4), -9);
    assert_eq!(ceil_to_grid(5, 0, 1), 5);
    assert_eq!(ceil_to_grid(i64::MAX - 1, 0, 1000), i64::MAX);
}

#[test]
fn checked_conversion_and_maximum() {
    assert_eq!(from_i128_checked(12), Some(12));
    assert_eq!(from_i128_checked(i64::MAX as i128 + 1), None);
    assert_eq!(max_of(-3, 4), 4);
    assert_eq!(max_of(4, -3), 4);
}

#[test]
fn slack_is_one_and_a_billionth() {
    assert_eq!(slack_bound(0), -1);
    assert_eq!(slack_bound(-7), -8);
    assert_eq!(slack_bound(2_000_000_000), 2_000_000_000 - 3);
    assert_eq!(slack_bound(i64::MIN), i64::MIN);
}
