use fixbolt_engine::clock::{Clock, ManualClock, Reading, SystemClock, YEAR_ZERO_TO_EPOCH};

#[test]
fn a_manual_clock_reads_what_it_was_set_to() {
    let mut c = ManualClock::at(1_000);
    assert_eq!(c.now_ms(), 1_000);
    c.set(5);
    assert_eq!(c.now_ms(), 5, "backwards is allowed");
    assert_eq!(c.now(), Reading { ms: 5, sub_ms_nanos: 0 });
    assert_eq!(ManualClock::default().now_ms(), 0);
}

#[test]
fn a_reading_splits_at_the_millisecond_and_counts_from_year_zero() {
    assert_eq!(YEAR_ZERO_TO_EPOCH, 719_528 * 86_400_000);
    assert_eq!(
        Reading::since_epoch(1_500, 123_456_789),
        Reading { ms: YEAR_ZERO_TO_EPOCH + 1_500, sub_ms_nanos: 456_789 }
    );
    assert_eq!(
        Reading::since_epoch(u128::MAX, 0),
        Reading { ms: YEAR_ZERO_TO_EPOCH, sub_ms_nanos: 0 },
        "a span too long for 64 bits counts as zero"
    );
    assert_eq!(Reading::since_epoch(u64::MAX as u128, 0).ms, u64::MAX, "and the offset saturates");
    assert_eq!(Reading::default(), Reading { ms: 0, sub_ms_nanos: 0 });
}

#[test]
fn the_wall_clock_is_after_1970_and_below_a_millisecond_is_below_a_million() {
    let r = SystemClock.now();
    assert!(r.ms > YEAR_ZERO_TO_EPOCH);
    assert!(r.sub_ms_nanos < 1_000_000);
}

#[test]
fn reading_a_manual_clock_does_not_move_it() {
    let mut c = ManualClock::at(42);
    assert_eq!(c.now(), Reading { ms: 42, sub_ms_nanos: 0 });
    assert_eq!(c.now_ms(), 42);
    c.set(7);
    assert_eq!(c.now().ms, 7);
}
