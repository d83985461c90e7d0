use sampler::make_record;
use sampler::Orchestrator;

#[test]
fn commands_queued_during_a_run_start_afterwards_in_fifo_order() {
    let mut orch = Orchestrator::new();
    assert!(orch.submit(b"measure:2,0").is_ok());
    let first = orch.start_next().unwrap();
    assert_eq!(first.num_measurements, 2);

    // Two more commands arrive while the first run is in flight.
    assert!(orch.submit(b"measure:5,7").is_ok());
    assert!(orch.submit(b"measure:9,11").is_ok());

    // No new run starts while one is in flight.
    assert!(orch.start_next().is_none());

    // The in-flight run still drains its own two ticks, then ends.
    assert_eq!(orch.next_tick(0).unwrap().0, 1);
    assert_eq!(orch.next_tick(0).unwrap().0, 0);
    assert!(orch.next_tick(0).is_none());

    // The queued commands start strictly afterwards, in arrival order.
    let second = orch.start_next().unwrap();
    assert_eq!(second.num_measurements, 5);
    assert_eq!(second.interval_ms, 7);
    assert!(orch.next_tick(0).is_some());
}

#[test]
fn rejected_messages_are_dropped_not_queued() {
    let mut orch = Orchestrator::new();
    assert!(orch.submit(b"bogus").is_err());
    assert!(orch.submit(b"measure:1,0,0").is_err());
    assert!(orch.start_next().is_none());
}

#[test]
fn end_to_end_run_publishes_exactly_three_descending_records() {
    let mut orch = Orchestrator::new();
    assert!(orch.submit(b"measure:3,50").is_ok());
    let cmd = orch.start_next().unwrap();
    assert_eq!(cmd.num_measurements, 3);
    assert_eq!(cmd.interval_ms, 50);

    // The sensor and the clock are outside collaborators: feed three
    // readings and three strictly increasing uptime stamps.
    let raws = [1000u16, 1000, 1000];
    let uptimes = [50u64, 100, 150];
    let mut published: Vec<Vec<u8>> = Vec::new();
    let mut elapsed = 0u64;
    while let Some((tick, wait)) = orch.next_tick(elapsed) {
        assert_eq!(wait, 50 - elapsed);
        let k = published.len();
        published.push(make_record(tick, raws[k], uptimes[k]));
        elapsed = 0;
    }

    assert_eq!(published.len(), 3);
    assert_eq!(published[0], b"2,99.82,50".to_vec());
    assert_eq!(published[1], b"1,99.82,100".to_vec());
    assert_eq!(published[2], b"0,99.82,150".to_vec());
    assert!(orch.next_tick(0).is_none());
}

#[test]
fn zero_count_command_yields_no_ticks() {
    let mut orch = Orchestrator::new();
    assert!(orch.submit(b"measure:0,100").is_ok());
    let cmd = orch.start_next().unwrap();
    assert_eq!(cmd.num_measurements, 0);
    assert!(orch.next_tick(0).is_none());
    assert!(orch.start_next().is_none());
}
