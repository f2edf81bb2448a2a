use fixbolt_engine::conn::{prime, Outbound, Turn};
use fixbolt_engine::frame::{Cut, Framer};

const HEARTBEAT: &[u8] = b"8=FIX.4.4\x019=5\x0135=0\x0110=163\x01";

fn fed<const N: usize>(bytes: &[u8]) -> Framer<N> {
    let mut f = Framer::<N>::new();
    let spare = f.spare();
    spare[..bytes.len()].copy_from_slice(bytes);
    f.filled(bytes.len());
    f
}

#[test]
fn a_whole_message_is_cut_at_its_checksum() {
    let f = fed::<64>(HEARTBEAT);
    assert_eq!(f.cut(), Cut::Message(26));
    assert_eq!(f.bytes(26), HEARTBEAT);
}

#[test]
fn half_a_message_waits_for_the_rest() {
    let f = fed::<64>(&HEARTBEAT[..20]);
    assert_eq!(f.cut(), Cut::Need);
    let empty = Framer::<64>::new();
    assert_eq!(empty.cut(), Cut::Need);
}

#[test]
fn a_length_that_is_not_a_number_is_garbage() {
    let f = fed::<64>(b"8=FIX.4.4\x019=x5\x0135=0\x0110=163\x01");
    assert_eq!(f.cut(), Cut::Garbage(27));
}

#[test]
fn a_body_length_that_misses_the_checksum_is_garbage() {
    let f = fed::<64>(b"8=FIX.4.4\x019=4\x0135=0\x0110=163\x01");
    assert_eq!(f.cut(), Cut::Garbage(26));
}

#[test]
fn a_full_buffer_with_no_length_field_is_garbage() {
    let f = fed::<8>(b"abcdefgh");
    assert_eq!(f.cut(), Cut::Garbage(8));
}

#[test]
fn taking_a_message_leaves_what_followed() {
    let mut both = HEARTBEAT.to_vec();
    both.extend_from_slice(&HEARTBEAT[..10]);
    let mut f = fed::<64>(&both);
    assert_eq!(f.cut(), Cut::Message(26));
    f.take(26);
    assert_eq!(f.all(), &HEARTBEAT[..10]);
    assert_eq!(f.len(), 10);
}

#[test]
fn filled_beyond_the_buffer_is_clamped() {
    let mut f = Framer::<4>::new();
    f.filled(9);
    assert_eq!(f.len(), 4);
    let (buf, len) = f.into_parts();
    assert_eq!(len, 4);
    assert_eq!(buf, [0u8; 4]);
}

#[test]
fn a_prefix_that_fits_is_primed_whole_and_one_that_does_not_is_refused() {
    let mut f = Framer::<32>::new();
    assert!(prime(&mut f, HEARTBEAT));
    assert_eq!(f.cut(), Cut::Message(26));
    assert!(!prime(&mut f, HEARTBEAT), "26 more bytes do not fit in 6");
    assert_eq!(f.all(), HEARTBEAT, "and nothing was taken");
}

#[test]
fn an_outbound_queue_takes_whole_messages_or_none() {
    let mut q = Outbound::<16>::new();
    assert!(!q.has_pending_output());
    assert!(q.push(b"hello", 8));
    assert!(!q.push(b"world", 8), "5 + 5 is over a bound of 8");
    assert_eq!(q.pending(), b"hello");
    assert!(q.push(b"!!!", 8));
    assert_eq!(q.pending(), b"hello!!!");
    q.sent(3);
    assert_eq!(q.pending(), b"lo!!!");
    q.sent(100);
    assert!(!q.has_pending_output());
    assert!(q.push(b"x", 16));
    q.clear();
    assert_eq!(q.pending(), b"");
    assert_eq!(Turn::Up(true), Turn::Up(true));
    assert_ne!(Turn::Up(false), Turn::Gone);
}

#[test]
fn filling_keeps_what_was_held_and_appends_after_it() {
    let mut f = Framer::<16>::new();
    assert!(prime(&mut f, b"abc"));
    let spare = f.spare();
    spare[..2].copy_from_slice(b"de");
    f.filled(2);
    assert_eq!(f.all(), b"abcde");
    f.take(1);
    assert_eq!(f.all(), b"bcde");
    assert_eq!(f.bytes(2), b"bc");
    assert_eq!(f.bytes(99), b"bcde");
}
