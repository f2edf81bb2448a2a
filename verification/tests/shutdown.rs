use fixbolt_engine::dispatch::{from_app, from_engine, out_header, OUT_HEADER, STAMP};
use fixbolt_engine::{writers_wait_ms, Shutdown, Stopping, MAX_ON_LOGON, RETIRED_WRITERS_FLOOR_MS};

#[test]
fn a_shutdown_waits_for_the_deadline_unless_everyone_has_gone() {
    let mut st = Stopping::begin(1_000, 500);
    st.told(true);
    st.told(false);
    st.told(true);
    st.acked_one();
    assert_eq!(st.finished(2, 1_499), None, "two left before the deadline");
    let done = st.finished(1, 1_500).unwrap();
    assert_eq!(done.sessions(), 3);
    assert_eq!(done.said_goodbye(), 2);
    assert_eq!(done.acked(), 1);
    assert_eq!(done.timed_out(), 1);
    assert!(!done.clean());
}

#[test]
fn everyone_answering_is_the_clean_case() {
    let mut st = Stopping::begin(0, 100);
    st.told(true);
    st.acked_one();
    let done = st.finished(0, 1).unwrap();
    assert!(done.clean());
    assert_eq!(done.timed_out(), 0);
    assert!(Shutdown::default().clean(), "a shutdown with nobody to tell is clean");
}

#[test]
fn a_session_that_was_never_told_is_not_a_clean_shutdown() {
    let mut st = Stopping::begin(0, 100);
    st.told(false);
    let done = st.finished(0, 1).unwrap();
    assert_eq!((done.sessions(), done.said_goodbye(), done.acked()), (1, 0, 0));
    assert_eq!(done.timed_out(), 0);
    assert!(!done.clean(), "only every session acknowledging is clean");
}

#[test]
fn the_deadline_saturates() {
    let mut st = Stopping::begin(u64::MAX - 1, 10);
    assert_eq!(st.finished(1, u64::MAX - 1), None);
    assert!(st.finished(1, u64::MAX).is_some());
}

#[test]
fn retired_writers_get_at_least_the_floor() {
    assert_eq!(writers_wait_ms(None), RETIRED_WRITERS_FLOOR_MS);
    assert_eq!(writers_wait_ms(Some(10)), 1_000);
    assert_eq!(writers_wait_ms(Some(5_000)), 5_000);
    assert_eq!(MAX_ON_LOGON, 16);
}

#[test]
fn a_record_for_the_application_reads_back_its_connection_and_number() {
    let h = out_header(0x0102_0304_0506_0708, 77, b"20240101-12:00:00.000");
    assert_eq!(&h[..8], &0x0102_0304_0506_0708u64.to_le_bytes());
    assert_eq!(&h[8..12], &77u32.to_le_bytes());
    assert_eq!(&h[12..12 + STAMP], b"20240101-12:00:00.000");
    let mut rec = h.to_vec();
    rec.extend_from_slice(b"35=D\x01");
    assert_eq!(from_engine(&rec), Some((0x0102_0304_0506_0708, 77)));
    assert_eq!(from_engine(&rec[..OUT_HEADER - 1]), None);
    let short = out_header(1, 2, b"abc");
    assert_eq!(&short[12..], &[b'a', b'b', b'c', 0, 0, 0, 0, 0, 0, 0, 0, 0, 0, 0, 0, 0, 0, 0, 0, 0, 0][..]);
    assert_eq!(from_app(&9u64.to_le_bytes()), Some(9));
    assert_eq!(from_app(&[1, 2, 3]), None);
}
