use fixbolt_engine::observe::{EventRing, EVENT_CAPACITY};
use fixbolt_engine::dispatch::ConnId;
use fixbolt_engine::observe::{
    Change, Command, Commands, JournalHealth, SessionSnapshot, Snapshot, COMMAND_CAPACITY,
    MAX_SESSIONS,
};

fn session(id: u64, logged_on: bool) -> SessionSnapshot {
    SessionSnapshot::describe(
        id,
        logged_on,
        1,
        1,
        None,
        false,
        JournalHealth {
            refused: 0,
            beyond: 0,
        },
    )
}

#[test]
fn a_snapshot_that_cannot_carry_every_session_says_so() {
    let mut snap = Snapshot::default();
    for i in 0..MAX_SESSIONS {
        snap.push(session(i as u64, true));
    }
    assert!(!snap.truncated(), "exactly full is not truncated");
    assert_eq!(snap.sessions().len(), MAX_SESSIONS);

    snap.push(session(MAX_SESSIONS as u64, true));
    assert!(snap.truncated(), "one past the end is");
    assert_eq!(
        snap.sessions().len(),
        MAX_SESSIONS,
        "and the ones that fit are still all there"
    );
}

#[test]
fn health_is_every_session_logged_on_and_no_counter_that_should_be_zero() {
    let mut snap = Snapshot::default();
    assert!(
        !snap.healthy(),
        "an engine serving nobody is not a healthy acceptor"
    );

    snap.push(session(1, true));
    assert!(snap.healthy(), "one logged-on session, nothing broken");

    snap.push(session(2, false));
    assert!(
        !snap.healthy(),
        "a connection that never logged on is exactly what a probe is for"
    );

    let mut refused = Snapshot::default();
    refused.push(session(1, true));
    refused.set_counters(1, 1, 0, 0);
    assert!(!refused.healthy(), "a session dropped for a full ring is not health");

    let mut missing = Snapshot::default();
    missing.push(session(1, true));
    missing.set_counters(1, 0, 1, 0);
    assert!(
        !missing.healthy(),
        "a transport broke its own contract; the symptom is lateness"
    );

    let mut full = Snapshot::default();
    for i in 0..=MAX_SESSIONS {
        full.push(session(i as u64, true));
    }
    assert!(full.truncated());
    assert!(
        full.healthy(),
        "more sessions than we can list is not unhealthy"
    );
}

#[test]
fn a_description_reads_back_field_for_field() {
    let s = SessionSnapshot::describe(
        9,
        true,
        17,
        23,
        Some(-40),
        true,
        JournalHealth {
            refused: 3,
            beyond: 5,
        },
    );
    assert_eq!(s.id(), 9);
    assert!(s.logged_on());
    assert_eq!(s.next_out(), 17);
    assert_eq!(s.next_in(), 23);
    assert_eq!(s.last_skew_ms(), Some(-40));
    assert!(s.has_pending_output());
    assert_eq!(s.puts_refused(), 3);
    assert_eq!(s.resend_beyond_journal(), 5);
}

#[test]
fn counters_read_back_and_a_lost_log_record_is_not_sickness() {
    let mut snap = Snapshot::default();
    snap.push(session(1, true));
    snap.set_counters(4, 0, 0, 7);
    assert_eq!(snap.connections(), 4);
    assert_eq!(snap.refused_connections(), 0);
    assert_eq!(snap.sources_missing(), 0);
    assert_eq!(snap.log_lost(), 7);
    assert!(snap.healthy());
}

fn set_out(id: ConnId, n: u32) -> Command {
    Command::SetNextOut { id, n }
}

#[test]
fn a_command_names_its_connection_its_number_and_its_change() {
    let c = Command::SendSequenceReset { id: 4, n: 100 };
    assert_eq!(c.id(), 4);
    assert_eq!(c.to(), 100);
    assert_eq!(c.change(), Change::SequenceReset);
    assert_eq!(Command::SetNextIn { id: 1, n: 2 }.change(), Change::NextIn);
    assert_eq!(set_out(1, 2).change(), Change::NextOut);
}

#[test]
fn a_full_command_queue_refuses_at_the_call_and_drains_in_order() {
    let mut q = Commands::new();
    assert!(!q.waiting());
    for i in 0..COMMAND_CAPACITY {
        assert!(q.submit(set_out(i as u64, i as u32)), "slot {i}");
    }
    assert!(!q.submit(set_out(99, 99)), "a full queue says no");
    assert!(q.waiting());
    let mut out = [None; 32];
    let n = q.drain(&mut out);
    assert_eq!(n, COMMAND_CAPACITY);
    for (i, c) in out.iter().enumerate() {
        assert_eq!(*c, Some(set_out(i as u64, i as u32)));
    }
    assert!(!q.waiting());
    assert_eq!(q.drains(), 1);
    assert!(q.submit(set_out(5, 6)), "and room again after a drain");
}

#[test]
fn a_full_event_buffer_keeps_the_newest_and_counts_the_oldest_lost() {
    let mut r: EventRing<u32> = EventRing::new();
    for i in 0..(EVENT_CAPACITY as u32 + 3) {
        r.push(i);
    }
    assert_eq!(r.lost(), 3);
    let mut out = vec![999];
    let n = r.drain(&mut out);
    assert_eq!(n, EVENT_CAPACITY);
    assert_eq!(out[0], 999, "what was there stays in front");
    assert_eq!(out[1], 3, "the three oldest are gone");
    assert_eq!(*out.last().unwrap(), EVENT_CAPACITY as u32 + 2);
    assert_eq!(r.drain(&mut out), 0);
    r.note_lost();
    assert_eq!(r.lost(), 4);
}
