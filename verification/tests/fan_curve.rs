use fanctl::fan_curve::FanCurve;
use fanctl::fan_curve::FanCurveConfig;

fn curve_from(spec: &str) -> FanCurve {
    let config = match FanCurveConfig::parse(spec) {
        Ok(c) => c,
        Err(_) => panic!("curve spec should parse"),
    };
    FanCurve::from_config(&config)
}

#[test]
fn parse_three_points_ascending() {
    let config = FanCurveConfig::parse("0@65,153@73,255@78").unwrap();
    assert_eq!(config.iter(), &vec![(65u8, 0u8), (73u8, 153u8), (78u8, 255u8)]);
}

#[test]
fn parse_reorders_by_temperature() {
    let config = FanCurveConfig::parse("255@78,0@65,153@73").unwrap();
    assert_eq!(config.iter(), &vec![(65u8, 0u8), (73u8, 153u8), (78u8, 255u8)]);
}

#[test]
fn parse_empty_input_fails() {
    let err = FanCurveConfig::parse("").unwrap_err();
    assert_eq!(err.bad_input(), "");
}

#[test]
fn parse_segment_without_separator_fails() {
    let err = FanCurveConfig::parse("65").unwrap_err();
    assert_eq!(err.bad_input(), "65");
}

#[test]
fn parse_missing_temperature_fails() {
    let err = FanCurveConfig::parse("65@").unwrap_err();
    assert_eq!(err.bad_input(), "65@");
}

#[test]
fn parse_non_numeric_duty_fails() {
    let err = FanCurveConfig::parse("a@65").unwrap_err();
    assert_eq!(err.bad_input(), "a@65");
}

#[test]
fn parse_out_of_range_temperature_fails() {
    let err = FanCurveConfig::parse("65@300").unwrap_err();
    assert_eq!(err.bad_input(), "65@300");
}

#[test]
fn parse_error_reports_whole_input() {
    let err = FanCurveConfig::parse("0@65,bad,255@78").unwrap_err();
    assert_eq!(err.bad_input(), "0@65,bad,255@78");
}

#[test]
fn parse_error_describes_itself() {
    let err = FanCurveConfig::parse("65@").unwrap_err();
    assert_eq!(err.describe(), "failed to parse 65@ as a fan curve");
}

#[test]
fn parse_rejects_double_separator() {
    assert!(FanCurveConfig::parse("0@65@70").is_err());
}

#[test]
fn parse_rejects_sign_characters() {
    assert!(FanCurveConfig::parse("+5@65").is_err());
    assert!(FanCurveConfig::parse("5@-65").is_err());
}

#[test]
fn parse_duplicate_temperature_last_wins() {
    let config = FanCurveConfig::parse("10@65,20@65").unwrap();
    assert_eq!(config.iter(), &vec![(65u8, 20u8)]);
}

#[test]
fn insert_replaces_and_returns_previous_duty() {
    let mut config = FanCurveConfig::new();
    assert_eq!(config.insert(65, 10), None);
    assert_eq!(config.insert(70, 30), None);
    assert_eq!(config.insert(65, 20), Some(10));
    assert_eq!(config.iter(), &vec![(65u8, 20u8), (70u8, 30u8)]);
}

#[test]
fn from_config_scales_temperatures() {
    let config = FanCurveConfig::parse("0@65,255@78").unwrap();
    let curve = FanCurve::from_config(&config);
    assert_eq!(curve.get_target_pwm(64_999), 0);
    assert_eq!(curve.get_target_pwm(78_000), 255);
}

#[test]
fn clamps_below_first_point() {
    let curve = curve_from("0@65,153@73,255@78");
    assert_eq!(curve.get_target_pwm(0), 0);
    assert_eq!(curve.get_target_pwm(65_000), 0);
}

#[test]
fn clamps_above_last_point() {
    let curve = curve_from("0@65,153@73,255@78");
    assert_eq!(curve.get_target_pwm(78_000), 255);
    assert_eq!(curve.get_target_pwm(4_000_000_000), 255);
}

#[test]
fn interpolates_between_points() {
    // Between (65000, 0) and (73000, 153) at 70000:
    // 0 + floor(5000 * 153 / 8000) = floor(765000 / 8000) = 95.
    let curve = curve_from("0@65,153@73,255@78");
    assert_eq!(curve.get_target_pwm(70_000), 95);
}

#[test]
fn interpolation_hits_interior_point_exactly() {
    let curve = curve_from("0@65,153@73,255@78");
    assert_eq!(curve.get_target_pwm(73_000), 153);
}

#[test]
fn interpolates_downward_segment() {
    // A reversed segment is interpolated as stated, not rejected:
    // between (10000, 200) and (20000, 100) at 15000 the duty is
    // 200 - floor(5000 * 100 / 10000) = 150.
    let curve = curve_from("200@10,100@20");
    assert_eq!(curve.get_target_pwm(15_000), 150);
}
