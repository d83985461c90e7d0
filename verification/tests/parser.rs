use sampler::Command;
use sampler::CommandField;
use sampler::ParseError;

#[test]
fn round_trips_well_formed_commands() {
    let c = Command::parse(b"measure:10,100").unwrap();
    assert_eq!(c.num_measurements, 10);
    assert_eq!(c.interval_ms, 100);

    let c = Command::parse(b"measure:0,0").unwrap();
    assert_eq!(c.num_measurements, 0);
    assert_eq!(c.interval_ms, 0);

    let c = Command::parse(b"measure:65535,65535").unwrap();
    assert_eq!(c.num_measurements, 65535);
    assert_eq!(c.interval_ms, 65535);

    let c = Command::parse(b"measure:007,0100").unwrap();
    assert_eq!(c.num_measurements, 7);
    assert_eq!(c.interval_ms, 100);
}

#[test]
fn missing_separator_is_reported() {
    assert_eq!(
        Command::parse(b"invalid command"),
        Err(ParseError::MissingSeparator)
    );
    assert_eq!(Command::parse(b""), Err(ParseError::MissingSeparator));
    assert_eq!(
        Command::parse(b"measure:1,2:3"),
        Err(ParseError::MissingSeparator)
    );
}

#[test]
fn unrecognized_keyword_is_reported() {
    assert_eq!(
        Command::parse(b"command:10,100"),
        Err(ParseError::UnrecognizedKeyword)
    );
    assert_eq!(
        Command::parse(b"Measure:10,100"),
        Err(ParseError::UnrecognizedKeyword)
    );
    assert_eq!(
        Command::parse(b":10,100"),
        Err(ParseError::UnrecognizedKeyword)
    );
}

#[test]
fn missing_field_separator_is_reported() {
    assert_eq!(
        Command::parse(b"measure:10"),
        Err(ParseError::MissingFieldSeparator)
    );
    assert_eq!(
        Command::parse(b"measure:1,2,3"),
        Err(ParseError::MissingFieldSeparator)
    );
}

#[test]
fn invalid_numbers_name_the_field() {
    assert_eq!(
        Command::parse(b"measure:abc,def"),
        Err(ParseError::InvalidNumber(CommandField::NumMeasurements))
    );
    assert_eq!(
        Command::parse(b"measure:10,xyz"),
        Err(ParseError::InvalidNumber(CommandField::IntervalMs))
    );
    assert_eq!(
        Command::parse(b"measure:,5"),
        Err(ParseError::InvalidNumber(CommandField::NumMeasurements))
    );
    assert_eq!(
        Command::parse(b"measure:5,"),
        Err(ParseError::InvalidNumber(CommandField::IntervalMs))
    );
}

#[test]
fn oversized_numbers_are_rejected() {
    assert_eq!(
        Command::parse(b"measure:99999,1"),
        Err(ParseError::InvalidNumber(CommandField::NumMeasurements))
    );
    assert_eq!(
        Command::parse(b"measure:65536,1"),
        Err(ParseError::InvalidNumber(CommandField::NumMeasurements))
    );
    assert_eq!(
        Command::parse(b"measure:1,70000"),
        Err(ParseError::InvalidNumber(CommandField::IntervalMs))
    );
    assert_eq!(
        Command::parse(b"measure:123456789012345678901234567890,1"),
        Err(ParseError::InvalidNumber(CommandField::NumMeasurements))
    );
}

#[test]
fn invalid_encoding_is_reported() {
    assert_eq!(
        Command::parse(&[0xff, 0xfe, 0xfd]),
        Err(ParseError::EncodingError)
    );
    assert_eq!(
        Command::parse(&[109, 101, 97, 115, 117, 114, 101, 58, 0x80, 44, 49]),
        Err(ParseError::EncodingError)
    );
}
