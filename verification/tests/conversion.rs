use sampler::convert_temperature;
use sampler::isqrt;

#[test]
fn isqrt_rounds_down() {
    assert_eq!(isqrt(0), 0);
    assert_eq!(isqrt(1), 1);
    assert_eq!(isqrt(15), 3);
    assert_eq!(isqrt(16), 4);
    assert_eq!(isqrt(4_294_967_301), 65536);
    assert_eq!(isqrt(u64::MAX), 4_294_967_295);
}

#[test]
fn known_raw_values_convert_exactly() {
    // Centidegrees Celsius along the calibration curve.
    assert_eq!(convert_temperature(0), 18551);
    assert_eq!(convert_temperature(1000), 9982);
    assert_eq!(convert_temperature(4095), -19970);
}

#[test]
fn midpoint_of_the_adc_range_lands_in_band() {
    // The floating-point curve gives about 4.93 degrees at raw 2048.
    let t = convert_temperature(2048);
    assert_eq!(t, 492);
    assert!(400 <= t && t <= 600);
}

#[test]
fn conversion_strictly_decreases() {
    assert!(convert_temperature(101) < convert_temperature(100));
    let mut prev = convert_temperature(0);
    for raw in 1u16..4096 {
        let cur = convert_temperature(raw);
        assert!(cur < prev, "not strictly decreasing at raw {}", raw);
        prev = cur;
    }
}
