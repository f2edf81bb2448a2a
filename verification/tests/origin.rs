use fixbolt_engine::origin::{Origin, ORIGIN_CAPACITY, ORIGIN_LEN};

#[test]
fn an_originated_message_is_drained_whole_and_in_order() {
    let mut o = Origin::new();
    assert!(!o.waiting());
    assert!(o.submit(1, b"first"));
    assert!(o.submit(2, b"second"));
    assert!(o.waiting());
    let got = o.drain();
    assert_eq!(got.len(), 2);
    assert_eq!((got[0].id, got[0].bytes.as_slice()), (1, &b"first"[..]));
    assert_eq!((got[1].id, got[1].bytes.as_slice()), (2, &b"second"[..]));
    assert!(!o.waiting());
    assert_eq!(o.drains(), 1);
}

#[test]
fn an_empty_or_oversized_message_or_a_full_queue_is_refused_at_the_call() {
    let mut o = Origin::new();
    assert!(!o.submit(1, b""));
    assert!(!o.submit(1, &[b'x'; ORIGIN_LEN + 1]));
    assert!(o.submit(1, &[b'x'; ORIGIN_LEN]), "exactly a slot fits");
    for i in 1..ORIGIN_CAPACITY {
        assert!(o.submit(i as u64, b"m"), "slot {i}");
    }
    assert!(!o.submit(99, b"m"), "a full queue says no");
    assert_eq!(o.drain().len(), ORIGIN_CAPACITY);
    assert!(o.submit(99, b"m"), "and has room again after a drain");
}

#[test]
fn undeliverable_messages_are_counted() {
    let mut o = Origin::new();
    assert_eq!(o.undeliverable(), 0);
    o.note_deliveries(&[true, false, false]);
    o.note_deliveries(&[false, true]);
    o.note_deliveries(&[]);
    assert_eq!(o.undeliverable(), 3);
    assert_eq!(o.drain().len(), 0);
    assert_eq!(o.drains(), 1, "an empty drain still counts as reaching for the queue");
}

#[test]
fn a_drain_hands_out_what_was_taken_and_the_undelivered_are_counted() {
    let mut o = Origin::new();
    assert!(o.submit(3, b"a"));
    assert!(o.submit(1, b"bb"));
    assert!(o.submit(3, b"ccc"));
    let got = o.drain();
    let seen: Vec<(u64, Vec<u8>)> = got.iter().map(|m| (m.id, m.bytes.clone())).collect();
    assert_eq!(seen, vec![(3, b"a".to_vec()), (1, b"bb".to_vec()), (3, b"ccc".to_vec())]);
    o.note_deliveries(&[true, false, true]);
    assert!(!o.waiting());
    assert_eq!(o.drains(), 1);
    assert_eq!(o.undeliverable(), 1);
}
