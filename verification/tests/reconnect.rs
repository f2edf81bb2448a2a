use fixbolt_engine::reconnect::{Always, Hours, Next, Policy, PolicyError};

#[test]
fn bounds_are_checked_first_delay_first() {
    assert!(matches!(Policy::new(0, 10), Err(PolicyError::FirstIsZero)));
    assert!(matches!(Policy::new(0, 0), Err(PolicyError::FirstIsZero)));
    assert!(matches!(Policy::new(10, 5), Err(PolicyError::CeilingBelowFirst)));
    assert!(Policy::new(10, 10).is_ok());
}

#[test]
fn the_ladder_doubles_to_its_ceiling_and_a_logon_resets_it() {
    let mut p = Policy::new(100, 1_000).unwrap();
    assert_eq!(p.next(0), Next::Now, "a policy nobody dropped dials at once");
    p.dropped(0);
    assert_eq!(p.next(0), Next::At(100));
    assert_eq!(p.next(100), Next::Now);
    p.dropped(100);
    assert_eq!(p.next(100), Next::At(300));
    p.dropped(300);
    assert_eq!(p.next(300), Next::At(700));
    p.dropped(700);
    assert_eq!(p.next(700), Next::At(1_500), "800 is still under the ceiling");
    p.dropped(1_500);
    assert_eq!(p.next(1_500), Next::At(2_500), "1600 is not: the ceiling of 1000");
    p.logged_on();
    p.dropped(2_000);
    assert_eq!(p.next(2_000), Next::At(2_100), "back at the bottom rung");
    p.stop();
    assert_eq!(p.next(5_000), Next::Stop);
}

#[test]
fn thousands_of_attempts_do_not_overflow_the_shift() {
    let mut p = Policy::new(1, u64::MAX).unwrap();
    for i in 0..5_000u64 {
        p.dropped(i);
    }
    assert_eq!(p.next(0), Next::At(u64::MAX), "the ceiling, saturated");
}

#[test]
fn outside_its_hours_a_policy_never_says_now() {
    let p = Policy::new(100, 1_000).unwrap();
    assert_eq!(p.next_given(50, false), Next::At(1_050));
    assert_eq!(p.next_given(50, true), Next::Now);
    assert_eq!(p.next(50), Next::Now, "always open");
    assert!(Always.contains(50));
}
