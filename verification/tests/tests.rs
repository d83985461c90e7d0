use sampler::Command;

#[test]
fn test_valid_command() {
    let bytes = b"measure:10,100";
    let command: Command = Command::parse(&bytes[..]).unwrap();
    assert_eq!(command.num_measurements, 10);
    assert_eq!(command.interval_ms, 100);
}

#[test]
fn test_invalid_format() {
    let bytes = b"invalid command";
    let result: Result<Command, _> = Command::parse(&bytes[..]);
    assert!(result.is_err());
}

#[test]
fn test_invalid_numbers() {
    let bytes = b"command:abc,def";
    let result: Result<Command, _> = Command::parse(&bytes[..]);
    assert!(result.is_err());
}
