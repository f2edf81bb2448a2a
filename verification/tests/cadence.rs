use core::num::NonZeroU32;
use fixbolt_engine::cadence::ListenerCadence;

fn every(n: u32) -> ListenerCadence {
    let every = match NonZeroU32::new(n) {
        Some(n) => n,
        None => NonZeroU32::MIN,
    };
    ListenerCadence::new(every.get())
}

#[test]
fn every_one_asks_on_every_turn() {
    let mut c = every(1);
    for turn in 0..10 {
        assert!(c.poll_now(), "cadence 1 skipped turn {turn}");
    }
}

#[test]
fn every_three_asks_once_in_three() {
    let mut c = every(3);
    let answers: Vec<bool> = (0..7).map(|_| c.poll_now()).collect();
    assert_eq!(
        answers,
        vec![true, false, false, true, false, false, true],
        "one turn in three asks the listener, and the first one does"
    );
}

#[test]
fn woke_forces_the_next_turn_whatever_the_position() {
    for skipped in 0..4 {
        let mut c = every(5);
        assert!(c.poll_now(), "the first turn asks");
        for _ in 0..skipped {
            assert!(!c.poll_now(), "mid-cadence turns skip");
        }
        c.woke();
        assert!(
            c.poll_now(),
            "after a wake the listener is asked, {skipped} turns into the cadence"
        );
    }
}

#[test]
fn the_largest_cadence_does_not_overflow() {
    let mut c = every(u32::MAX);
    assert!(c.poll_now(), "the first turn asks");
    for _ in 0..1_000 {
        assert!(!c.poll_now(), "and then it counts down, u32::MAX and all");
    }
    c.woke();
    assert!(c.poll_now(), "and a wake still resets it");
}

#[test]
fn cadence_seven_asks_exactly_on_multiples_of_seven() {
    let mut c = every(7);
    for k in 0..50u32 {
        assert_eq!(c.poll_now(), k % 7 == 0, "turn {k}");
    }
}
