use sampler::format_record;
use sampler::make_record;

#[test]
fn formats_positive_temperatures() {
    assert_eq!(format_record(2, 505, 1234), b"2,5.05,1234".to_vec());
    assert_eq!(format_record(0, 18551, 0), b"0,185.51,0".to_vec());
    assert_eq!(format_record(65535, 7, 42), b"65535,0.07,42".to_vec());
}

#[test]
fn formats_negative_temperatures() {
    assert_eq!(format_record(1, -19970, 99), b"1,-199.70,99".to_vec());
    assert_eq!(format_record(0, -5, 7), b"0,-0.05,7".to_vec());
}

#[test]
fn record_carries_the_converted_reading() {
    // Raw 1000 converts to 99.82 degrees; the record would differ for
    // any other reading.
    assert_eq!(make_record(3, 1000, 500), b"3,99.82,500".to_vec());
}
