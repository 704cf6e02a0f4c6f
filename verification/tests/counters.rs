use telemetry_core::counter::Counter;

#[test]
fn counter_starts_at_zero() {
    let c = Counter::new();
    assert_eq!(c.value(), 0);
}

#[test]
fn counter_totals_a_sequence_of_increments() {
    let mut c = Counter::new();
    for by in [1u64, 2, 3, 10, 100] {
        c.increment(by);
    }
    assert_eq!(c.value(), 116);
}

#[test]
fn counter_interleaved_producers_total_exactly() {
    // N producers each adding 1, M times, drained in round-robin order.
    let n = 4u64;
    let m = 25u64;
    let mut c = Counter::new();
    for _round in 0..m {
        for _producer in 0..n {
            c.increment(1);
        }
    }
    assert_eq!(c.value(), n * m);
}

#[test]
fn counter_saturates_and_never_decreases() {
    let mut c = Counter::new();
    c.increment(u64::MAX);
    assert_eq!(c.value(), u64::MAX);
    c.increment(5);
    assert_eq!(c.value(), u64::MAX);
}

#[test]
fn counter_zero_increment_is_a_no_op() {
    let mut c = Counter::new();
    c.increment(7);
    c.increment(0);
    assert_eq!(c.value(), 7);
}
