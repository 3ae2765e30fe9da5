use fanctl::control::Controller;
use fanctl::fan_curve::FanCurve;
use fanctl::fan_curve::FanCurveConfig;
use fanctl::text::format_duty;
use fanctl::text::parse_sensor_value;

fn controller(hysteresis: u8) -> Controller {
    let config = FanCurveConfig::parse("0@65,153@73,255@78").unwrap();
    Controller::new(FanCurve::from_config(&config), hysteresis)
}

#[test]
fn tick_end_to_end_interpolation() {
    // Temperature 70 (70000 in sensor units) against the curve
    // {65:0, 73:153, 78:255}: interpolating between (65, 0) and
    // (73, 153) gives 0 + floor(5 * 153 / 8) = 95, which exceeds the
    // current duty of 0 and is written.
    let mut ctrl = controller(6);
    assert_eq!(ctrl.tick(70_000, 0), Some(95));
}

#[test]
fn tick_keeps_duty_when_target_not_higher() {
    let mut ctrl = controller(6);
    assert_eq!(ctrl.tick(70_000, 95), None);
}

#[test]
fn tick_first_drop_needs_no_hysteresis_reference() {
    // No change has been recorded yet, so a cool temperature with a
    // high current duty forces nothing: the drop condition clamps at
    // zero instead of wrapping.
    let mut ctrl = controller(6);
    assert_eq!(ctrl.tick(40_000, 255), None);
}

#[test]
fn tick_lowers_duty_only_after_hysteresis_drop() {
    let mut ctrl = controller(6);
    // Warm up: target 255 at 78, written and recorded.
    assert_eq!(ctrl.tick(78_000, 0), Some(255));
    // Cooling inside the band (6 degrees = 6000 units): no write.
    assert_eq!(ctrl.tick(73_000, 255), None);
    assert_eq!(ctrl.tick(72_000, 255), None);
    // A drop below 78000 - 6000: the lower target is written.
    assert_eq!(ctrl.tick(71_000, 255), Some(114));
}

#[test]
fn tick_records_new_reference_on_change() {
    let mut ctrl = controller(6);
    assert_eq!(ctrl.tick(78_000, 0), Some(255));
    assert_eq!(ctrl.tick(71_000, 255), Some(114));
    // The reference is now 71000, so 70000 is inside the new band.
    assert_eq!(ctrl.tick(70_000, 114), None);
    // 64000 is below 71000 - 6000 and forces the clamp-low duty.
    assert_eq!(ctrl.tick(64_000, 114), Some(0));
}

#[test]
fn sensor_value_parses_trimmed_decimal() {
    assert_eq!(parse_sensor_value("49000\n"), Some(49_000));
    assert_eq!(parse_sensor_value(" 42 \t"), Some(42));
    assert_eq!(parse_sensor_value("0"), Some(0));
    assert_eq!(parse_sensor_value("4294967295"), Some(u32::MAX));
}

#[test]
fn sensor_value_rejects_garbage() {
    assert_eq!(parse_sensor_value(""), None);
    assert_eq!(parse_sensor_value("  \n"), None);
    assert_eq!(parse_sensor_value("4x"), None);
    assert_eq!(parse_sensor_value("-5"), None);
    assert_eq!(parse_sensor_value("4294967296"), None);
}

#[test]
fn duty_formats_as_decimal() {
    assert_eq!(format_duty(0), "0");
    assert_eq!(format_duty(9), "9");
    assert_eq!(format_duty(95), "95");
    assert_eq!(format_duty(100), "100");
    assert_eq!(format_duty(255), "255");
}
