use sampler::IntervalIter;
use sampler::IntervalIterator;

#[test]
fn paces_every_tick_by_the_interval() {
    // Negligible per-tick work: every wait is the full interval, so a
    // run of n ticks waits exactly n times the interval in total.
    let mut it = IntervalIter::new(vec![1u16, 2, 3], 10);
    let mut total: u64 = 0;
    let mut seen: Vec<u16> = Vec::new();
    loop {
        match it.next(0) {
            Some((item, wait)) => {
                assert_eq!(wait, 10);
                total += wait;
                seen.push(item);
            }
            None => break,
        }
    }
    assert_eq!(seen, vec![1, 2, 3]);
    assert_eq!(total, 30);
}

#[test]
fn wait_is_reduced_by_elapsed_work() {
    let mut it = IntervalIter::new(vec![1u16, 2], 100);
    let (_, wait) = it.next(30).unwrap();
    assert_eq!(wait, 70);
    let (_, wait) = it.next(99).unwrap();
    assert_eq!(wait, 1);
}

#[test]
fn overlong_work_clamps_the_wait_to_zero() {
    let mut it = IntervalIter::new(vec![1u16, 2], 10);
    let (_, wait) = it.next(15).unwrap();
    assert_eq!(wait, 0);
    let (_, wait) = it.next(10).unwrap();
    assert_eq!(wait, 0);
}

#[test]
fn empty_sequence_yields_no_ticks() {
    let mut it: IntervalIter<u16> = IntervalIter::new(Vec::new(), 50);
    assert!(it.next(0).is_none());
    assert!(it.next(7).is_none());
}

#[test]
fn zero_interval_never_waits() {
    let mut it = IntervalIter::new(vec![9u16], 0);
    let (item, wait) = it.next(0).unwrap();
    assert_eq!(item, 9);
    assert_eq!(wait, 0);
}

#[test]
fn with_interval_wraps_a_vector_in_order() {
    let values = vec![5u16, 4, 3];
    let mut it = values.with_interval(25);
    assert_eq!(it.next(0).unwrap(), (5, 25));
    assert_eq!(it.next(0).unwrap(), (4, 25));
    assert_eq!(it.next(0).unwrap(), (3, 25));
    assert!(it.next(0).is_none());
}
