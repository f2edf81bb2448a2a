use fixbolt_engine::frame::Framer;
use fixbolt_engine::presession::{
    identity_of, is_logon, HashRoute, Identity, LimitError, Limits, PendingSet, Progress, Refused,
    Registry, Route, Step,
};
use fixbolt_engine::transport::{Io, Transport};

const LOGON: &[u8] = b"8=FIX.4.4\x019=25\x0135=A\x0149=CLIENT\x0156=SERVER\x0110=000\x01";

#[test]
fn a_logon_names_both_sides_in_wire_order() {
    assert!(is_logon(LOGON));
    let id = identity_of(LOGON).unwrap();
    assert_eq!(id.sender, b"CLIENT");
    assert_eq!(id.target, b"SERVER");
}

#[test]
fn a_field_value_that_looks_like_an_identity_is_not_one() {
    let msg = b"8=FIX.4.4\x019=30\x0135=A\x0158=49=EVIL\x0149=GOOD\x0156=S\x0110=000\x01";
    assert_eq!(identity_of(msg).unwrap().sender, b"GOOD");
}

#[test]
fn a_message_that_names_one_side_has_no_identity() {
    assert!(identity_of(b"35=A\x0149=X\x0110=000\x01").is_none());
    assert!(identity_of(b"35=A\x0149=X\x0156=Y").is_none(), "a trailing field with no SOH is not a field");
}

#[test]
fn only_a_35_of_exactly_a_is_a_logon() {
    assert!(!is_logon(b"35=AB\x01"));
    assert!(!is_logon(b"35=0\x01"));
    assert!(!is_logon(b"135=A\x01"));
    assert!(is_logon(b"8=FIX\x0135=A\x01"));
}

#[test]
fn limits_refuse_a_zero_in_either_place() {
    assert_eq!(Limits::new(0, 5), Err(LimitError::NoPendingAllowed));
    assert_eq!(Limits::new(0, 0), Err(LimitError::NoPendingAllowed));
    assert_eq!(Limits::new(3, 0), Err(LimitError::NoTimeToLogOn));
    let l = Limits::new(3, 500).unwrap();
    assert_eq!(l.pending(), 3);
    assert_eq!(l.logon_ms(), 500);
}

#[test]
fn the_hash_route_is_stable_and_in_range_and_the_separator_matters() {
    let mut r = HashRoute;
    let a = Identity { sender: b"AB", target: b"C" };
    let b = Identity { sender: b"A", target: b"BC" };
    let sa = r.shard_for(a, 1 << 20);
    assert_eq!(sa, r.shard_for(a, 1 << 20), "the same identity, the same shard");
    assert_ne!(sa, r.shard_for(b, 1 << 20));
    for shards in 1..9 {
        assert!(r.shard_for(a, shards) < shards);
    }
    assert_eq!(r.shard_for(a, 0), 0);
}

#[test]
fn the_hash_is_fnv1a_over_sender_soh_target() {
    let mut h: u64 = 0xcbf2_9ce4_8422_2325;
    for b in b"S".iter().chain([1u8].iter()).chain(b"T".iter()) {
        h = (h ^ u64::from(*b)).wrapping_mul(0x0000_0100_0000_01b3);
    }
    let mut r = HashRoute;
    let id = Identity { sender: b"S", target: b"T" };
    assert_eq!(r.shard_for(id, 1000), (h % 1000) as usize);
}

struct Script {
    chunks: Vec<Io>,
    data: Vec<Vec<u8>>,
}

impl Transport for Script {
    fn recv(&mut self, buf: &mut [u8]) -> Io {
        if self.chunks.is_empty() {
            return Io::Idle;
        }
        let io = self.chunks.remove(0);
        if let Io::Ready(n) = io {
            let d = self.data.remove(0);
            buf[..n].copy_from_slice(&d[..n]);
        }
        io
    }
    fn send(&mut self, bytes: &[u8]) -> Io {
        Io::Ready(bytes.len())
    }
}

fn sends(bytes: &[u8]) -> Script {
    Script { chunks: vec![Io::Ready(bytes.len())], data: vec![bytes.to_vec()] }
}

struct Serves(&'static [u8]);

impl Registry<u32> for Serves {
    fn lookup(&self, id: Identity<'_>) -> Option<u32> {
        (id.sender == self.0).then_some(7)
    }
}

#[test]
fn a_pending_set_settles_a_served_logon_and_lets_go_of_the_rest() {
    let mut set: PendingSet<Script, Serves, u32, 256> =
        PendingSet::new(Limits::new(4, 100).unwrap(), Serves(b"CLIENT"));
    assert!(set.take_on(sends(LOGON), 0).is_ok());
    assert!(set.take_on(sends(b"8=FIX.4.4\x019=5\x0135=0\x0110=163\x01"), 0).is_ok());
    assert!(set.take_on(Script { chunks: vec![Io::Closed], data: vec![] }, 0).is_ok());
    assert!(set.take_on(Script { chunks: vec![], data: vec![] }, 0).is_ok());
    assert!(matches!(set.take_on(sends(LOGON), 0), Err(Refused::Full(_))));
    assert_eq!(set.earliest_deadline(), Some(100));

    let p = set.turn(50);
    assert_eq!(p, Progress { settled: 1, timed_out: 0, not_logon: 1, unknown: 0, gone: 1 });
    assert_eq!(set.len(), 2);
    let i = set.settled().unwrap();
    assert_eq!(set.identity_at(i).unwrap().target, b"SERVER");
    let taken = set.take(i).unwrap();
    assert_eq!(taken.config(), Some(7));
    assert_eq!(taken.bytes(), LOGON);

    let p = set.turn(100);
    assert_eq!(p.timed_out, 1, "the silent one reaches its deadline");
    assert!(set.is_empty());
    assert_eq!(set.earliest_deadline(), None);
}

#[test]
fn a_logon_nobody_serves_is_counted_as_unknown() {
    let mut set: PendingSet<Script, Serves, u32, 256> =
        PendingSet::new(Limits::new(1, 100).unwrap(), Serves(b"SOMEONE"));
    assert!(set.take_on(sends(LOGON), 0).is_ok());
    let p = set.turn(1);
    assert_eq!(p.unknown, 1);
    assert!(set.is_empty());
    let _ = Framer::<4>::new();
}

#[test]
fn a_socket_is_let_go_only_for_a_failed_read_or_bytes_that_are_no_message() {
    type Set = PendingSet<Script, Serves, u32, 256>;
    let mut set: Set = PendingSet::new(Limits::new(1, 100).unwrap(), Serves(b"CLIENT"));
    assert!(set.take_on(Script { chunks: vec![], data: vec![] }, 0).is_ok());
    let mut slot = set.take(0).unwrap();
    let reg = Serves(b"CLIENT");
    assert_eq!(Set::decide(&mut slot, Io::Idle, 50, &reg), Step::Waiting);
    assert_eq!(Set::decide(&mut slot, Io::Idle, 100, &reg), Step::TimedOut);
    assert_eq!(Set::decide(&mut slot, Io::Closed, 50, &reg), Step::Gone);
    assert_eq!(Set::decide(&mut slot, Io::Failed(104), 50, &reg), Step::Gone);
    assert_eq!(slot.bytes(), b"", "a failed read adds nothing");
    assert_eq!(Set::decide(&mut slot, Io::Ready(0), 50, &reg), Step::Waiting);
}

#[test]
fn each_socket_let_go_is_counted_under_the_reason_its_read_gave() {
    let mut set: PendingSet<Script, Serves, u32, 256> =
        PendingSet::new(Limits::new(4, 100).unwrap(), Serves(b"CLIENT"));
    for _ in 0..4 {
        assert!(set.take_on(Script { chunks: vec![], data: vec![] }, 0).is_ok());
    }
    let p = set.settle(&[Io::Closed, Io::Idle, Io::Failed(104), Io::Ready(0)], 100);
    assert_eq!(p, Progress { settled: 0, timed_out: 2, not_logon: 0, unknown: 0, gone: 2 });
    assert!(set.is_empty());

    for _ in 0..2 {
        assert!(set.take_on(Script { chunks: vec![], data: vec![] }, 0).is_ok());
    }
    let p = set.settle(&[Io::Idle, Io::Closed], 50);
    assert_eq!(p, Progress { settled: 0, timed_out: 0, not_logon: 0, unknown: 0, gone: 1 });
    assert_eq!(set.len(), 1);
}
