//! Brightness-expression parsing and evaluation.
use brightctl::error::Error;
use brightctl::value::{toggle, BrightnessValue};

#[test]
fn parse_relative_percent() {
    assert_eq!(
        BrightnessValue::parse("+10%").unwrap(),
        BrightnessValue::RelativePercent(10)
    );
}

#[test]
fn parse_negative_relative_percent() {
    assert_eq!(
        BrightnessValue::parse("-5%").unwrap(),
        BrightnessValue::RelativePercent(-5)
    );
}

#[test]
fn parse_relative() {
    assert_eq!(
        BrightnessValue::parse("-5").unwrap(),
        BrightnessValue::Relative(-5)
    );
    assert_eq!(
        BrightnessValue::parse("+7").unwrap(),
        BrightnessValue::Relative(7)
    );
}

#[test]
fn parse_percent() {
    assert_eq!(
        BrightnessValue::parse("50%").unwrap(),
        BrightnessValue::Percent(50)
    );
}

#[test]
fn parse_absolute() {
    assert_eq!(
        BrightnessValue::parse("50").unwrap(),
        BrightnessValue::Absolute(50)
    );
}

#[test]
fn parse_invalid_text() {
    assert_eq!(
        BrightnessValue::parse("abc"),
        Err(Error::InvalidValue("abc".to_string()))
    );
}

#[test]
fn parse_empty_is_invalid() {
    assert_eq!(
        BrightnessValue::parse(""),
        Err(Error::InvalidValue("".to_string()))
    );
}

#[test]
fn parse_bare_sign_is_invalid() {
    assert!(BrightnessValue::parse("+").is_err());
    assert!(BrightnessValue::parse("-%").is_err());
}

#[test]
fn parse_double_percent_is_invalid() {
    // Only one `%` suffix is stripped; the rest must be a numeral.
    assert_eq!(
        BrightnessValue::parse("50%%"),
        Err(Error::InvalidValue("50%%".to_string()))
    );
}

#[test]
fn parse_absolute_bounds() {
    assert_eq!(
        BrightnessValue::parse("4294967295").unwrap(),
        BrightnessValue::Absolute(u32::MAX)
    );
    assert!(BrightnessValue::parse("4294967296").is_err());
}

#[test]
fn parse_signed_bounds() {
    assert_eq!(
        BrightnessValue::parse("-2147483648").unwrap(),
        BrightnessValue::Relative(i32::MIN)
    );
    assert_eq!(
        BrightnessValue::parse("+2147483647").unwrap(),
        BrightnessValue::Relative(i32::MAX)
    );
    assert!(BrightnessValue::parse("-2147483649").is_err());
    assert!(BrightnessValue::parse("+2147483648").is_err());
}

#[test]
fn calculate_absolute_clamps_to_max() {
    assert_eq!(BrightnessValue::Absolute(150).calculate(0, 100), 100);
    assert_eq!(BrightnessValue::Absolute(50).calculate(0, 100), 50);
}

#[test]
fn calculate_percent_rounds_down() {
    assert_eq!(BrightnessValue::Percent(33).calculate(0, 10), 3);
    assert_eq!(BrightnessValue::Percent(50).calculate(0, 255), 127);
}

#[test]
fn calculate_percent_endpoints() {
    // A full percentage always yields `max`; a zero percentage `0`.
    assert_eq!(BrightnessValue::Percent(100).calculate(37, 255), 255);
    assert_eq!(BrightnessValue::Percent(0).calculate(37, 255), 0);
    assert_eq!(BrightnessValue::Percent(100).calculate(0, 1), 1);
    assert_eq!(BrightnessValue::Percent(0).calculate(1, 1), 0);
}

#[test]
fn calculate_over_full_percent_clamps() {
    assert_eq!(BrightnessValue::Percent(150).calculate(0, 100), 100);
}

#[test]
fn calculate_relative_saturates() {
    assert_eq!(BrightnessValue::Relative(-60).calculate(50, 100), 0);
    assert_eq!(BrightnessValue::Relative(60).calculate(80, 100), 100);
    assert_eq!(BrightnessValue::Relative(-10).calculate(50, 100), 40);
    assert_eq!(BrightnessValue::Relative(i32::MIN).calculate(50, 100), 0);
    // A huge current plus the most negative offset still lands above max.
    assert_eq!(
        BrightnessValue::Relative(i32::MIN).calculate(u32::MAX, 100),
        100
    );
}

#[test]
fn calculate_relative_percent_end_to_end() {
    // current=50, max=100, expression "+10%" evaluates to 60.
    let v = BrightnessValue::parse("+10%").unwrap();
    assert_eq!(v.calculate(50, 100), 60);
}

#[test]
fn calculate_relative_percent_rounds_down() {
    // The delta -1% of 50 is -0.5, rounded down to -1.
    assert_eq!(BrightnessValue::RelativePercent(-1).calculate(50, 50), 49);
    assert_eq!(BrightnessValue::RelativePercent(1).calculate(50, 50), 50);
}

#[test]
fn calculate_stays_in_range() {
    // Every evaluated target lies in [0, max].
    let max = 100u32;
    let exprs = vec![
        BrightnessValue::Absolute(u32::MAX),
        BrightnessValue::Percent(u32::MAX),
        BrightnessValue::Relative(i32::MIN),
        BrightnessValue::Relative(i32::MAX),
        BrightnessValue::RelativePercent(i32::MIN),
        BrightnessValue::RelativePercent(i32::MAX),
    ];
    for e in exprs {
        assert!(e.calculate(50, max) <= max);
    }
}

#[test]
fn toggle_at_full_turns_off_then_back() {
    // Toggling at current == max yields 0; toggling again yields max.
    assert_eq!(toggle(100, 100), 0);
    assert_eq!(toggle(0, 100), 100);
}

#[test]
fn toggle_end_to_end() {
    // current=80, max=100: toggle turns off, toggling again restores full.
    assert_eq!(toggle(80, 100), 0);
    assert_eq!(toggle(0, 100), 100);
}

#[test]
fn toggle_is_no_involution_in_general() {
    // From 80 the pair of toggles lands at 100, not back at 80.
    assert_ne!(toggle(toggle(80, 100), 100), 80);
}
