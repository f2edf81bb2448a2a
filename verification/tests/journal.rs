use fixbolt_engine::journal::{
    activity_mark, carries_secret_at, crc32, frame, inbound_mark, on_finish, on_retire,
    outbound_mark, replay, ticket_state, with_crc, writer_step, written_for, Journal, MemJournal,
    Reader, Record, TicketState, WriterStep, FINISHED, FINISHED_UNRETIRED, RETIRED,
    RETIRED_STOP_WHEN_DRY, RUNNING, STOP,
};

#[test]
fn crc32_of_the_check_string_is_the_standard_value() {
    assert_eq!(crc32(&[b"123456789"]), 0xCBF4_3926);
    assert_eq!(crc32(&[b"1234", b"56789"]), 0xCBF4_3926, "over the pieces as over the whole");
    assert_eq!(crc32(&[]), 0);
}

#[test]
fn a_read_gives_back_the_last_write_under_a_number() {
    let mut j = MemJournal::<8, 16>::new();
    assert!(j.put(3, b"first"));
    assert!(j.put(3, b"second"));
    assert_eq!(j.get(3), Some(&b"second"[..]));
    assert_eq!(j.get(4), None);
    assert_eq!(j.highest_out(), Some(3));
    assert!(!j.put(5, &[0u8; 17]), "longer than a slot is refused");
    assert_eq!(j.highest_out(), Some(3), "and a refusal spends nothing");
}

#[test]
fn marks_only_rise() {
    let mut j = MemJournal::<8, 16>::new();
    assert_eq!(j.highest_in(), None);
    j.mark_in(10);
    j.mark_in(4);
    assert_eq!(j.highest_in(), Some(10));
    j.mark_out(7);
    j.mark_out(2);
    assert_eq!(j.highest_out(), Some(7));
    assert_eq!(j.last_active(), None);
}

#[test]
fn a_later_number_in_the_same_slot_pushes_the_earlier_out() {
    let mut j = MemJournal::<4, 16>::new();
    assert!(j.put(1, b"one"));
    assert!(j.put(5, b"five"));
    assert_eq!(j.get(1), None, "5 lands where 1 was");
    assert_eq!(j.get(5), Some(&b"five"[..]));
    assert_eq!(j.highest(), Some(5));
}

#[test]
fn records_written_to_a_version_zero_file_read_back_in_order() {
    let mut file = frame(5, b"hello");
    file.extend_from_slice(&inbound_mark(7));
    file.extend_from_slice(&activity_mark(1_000));
    file.extend_from_slice(&outbound_mark(9));
    let total = file.len();
    let r = Reader::from_bytes(file);
    assert_eq!(r.len(), total, "the length is the file's, in bytes");
    assert!(!r.is_empty());
    assert_eq!(r.torn_tail_bytes(), 0);
    assert_eq!(r.corrupt_records(), 0);
    let mut it = r.records();
    assert_eq!(it.next(), Some(Record::Message { seq: 5, bytes: b"hello" }));
    assert_eq!(it.next(), Some(Record::InboundMark { seq: 7 }));
    assert_eq!(it.next(), Some(Record::ActivityMark { at_ms: 1_000 }));
    assert_eq!(it.next(), Some(Record::OutboundMark { seq: 9 }));
    assert_eq!(it.next(), None);
    assert_eq!(Record::Message { seq: 5, bytes: b"x" }.seq(), 5);
}

#[test]
fn a_version_one_file_with_only_its_header_is_empty() {
    let r = Reader::from_bytes(b"FXBJ\x01".to_vec());
    assert!(r.is_empty());
    assert_eq!(r.len(), 5);
}

#[test]
fn a_torn_tail_is_counted_and_not_read() {
    let mut file = frame(5, b"hello");
    file.extend_from_slice(&[1, 2, 3]);
    let r = Reader::from_bytes(file);
    assert_eq!(r.len(), 16, "torn tail included");
    assert_eq!(r.torn_tail_bytes(), 3);
    let mut it = r.records();
    assert!(it.next().is_some());
    assert_eq!(it.next(), None);
}

#[test]
fn a_version_one_record_whose_checksum_fails_stops_the_read() {
    let mut file = b"FXBJ\x01".to_vec();
    file.extend_from_slice(&with_crc(&frame(1, b"good")));
    let mut bad = with_crc(&frame(2, b"bad!"));
    let last = bad.len() - 1;
    bad[last] ^= 0xFF;
    file.extend_from_slice(&bad);
    let r = Reader::from_bytes(file);
    assert_eq!(r.corrupt_records(), 1);
    let mut it = r.records();
    assert_eq!(it.next(), Some(Record::Message { seq: 1, bytes: b"good" }));
    assert_eq!(it.next(), None);
}

#[test]
fn replaying_a_file_puts_its_messages_and_marks_back() {
    let mut file = b"FXBJ\x01".to_vec();
    file.extend_from_slice(&with_crc(&frame(1, b"one")));
    file.extend_from_slice(&with_crc(&frame(2, b"two")));
    file.extend_from_slice(&with_crc(&inbound_mark(40)));
    file.extend_from_slice(&with_crc(&activity_mark(77)));
    file.extend_from_slice(&with_crc(&outbound_mark(3)));
    let r = replay::<8, 16>(&file);
    assert!(r.v1);
    assert_eq!(r.torn, 0);
    assert_eq!(r.corrupt, 0);
    assert_eq!(r.last_active, Some(77));
    assert_eq!(r.journal.get(1), Some(&b"one"[..]));
    assert_eq!(r.journal.get(2), Some(&b"two"[..]));
    assert_eq!(r.journal.highest_in(), Some(40));
    assert_eq!(r.journal.highest_out(), Some(3));
}

#[test]
fn a_message_carrying_a_password_reaches_the_file_only_as_its_mark() {
    let record = frame(12, b"35=A\x01554=secret\x01");
    assert_eq!(carries_secret_at(&record), Some(12));
    assert_eq!(written_for(&record, false), outbound_mark(12).to_vec());
    assert_eq!(written_for(&record, true), with_crc(&outbound_mark(12)));
    let clean = frame(13, b"35=0\x01");
    assert_eq!(carries_secret_at(&clean), None);
    assert_eq!(written_for(&clean, false), clean);
    assert_eq!(carries_secret_at(&activity_mark(5)), None);
}

#[test]
fn the_writer_stops_at_the_stop_record_or_after_a_dry_last_look() {
    assert_eq!(writer_step(Some(1), &[STOP, 0], false, RUNNING), WriterStep::Stop);
    assert_eq!(writer_step(Some(0), &[0; 4], false, RUNNING), WriterStep::Skip);
    assert_eq!(writer_step(Some(9), &[0; 4], false, RUNNING), WriterStep::Skip);
    assert_eq!(writer_step(Some(2), &[STOP, 0], false, RUNNING), WriterStep::Write);
    assert_eq!(writer_step(None, &[], false, RUNNING), WriterStep::Wait);
    assert_eq!(writer_step(None, &[], false, RETIRED_STOP_WHEN_DRY), WriterStep::LastLook);
    assert_eq!(writer_step(None, &[], true, RETIRED_STOP_WHEN_DRY), WriterStep::Stop);
}

#[test]
fn a_ticket_retired_then_finished_raises_and_lowers_once() {
    assert_eq!(on_retire(RUNNING, true), (RETIRED, true, true));
    assert_eq!(on_retire(RUNNING, false), (RETIRED_STOP_WHEN_DRY, true, true));
    assert_eq!(on_finish(RETIRED), (FINISHED, true));
    assert_eq!(on_retire(FINISHED, true), (FINISHED, false, false));
    assert_eq!(ticket_state(RETIRED_STOP_WHEN_DRY), TicketState::RetiredStopWhenDry);
}

#[test]
fn a_writer_that_finishes_first_leaves_nothing_to_wait_for() {
    let (code, lowered) = on_finish(RUNNING);
    assert_eq!((code, lowered), (FINISHED_UNRETIRED, false));
    assert_eq!(ticket_state(code), TicketState::Finished);
    assert_eq!(on_retire(code, true), (FINISHED, false, true), "one retire act, nothing raised");
}

#[test]
fn records_and_torn_tail_account_for_every_byte_after_the_header() {
    let mut file = b"FXBJ\x01".to_vec();
    file.extend_from_slice(&with_crc(&frame(1, b"hello")));
    file.extend_from_slice(&with_crc(&inbound_mark(2)));
    file.extend_from_slice(&with_crc(&activity_mark(3)));
    file.extend_from_slice(&with_crc(&outbound_mark(4)));
    file.extend_from_slice(&[9, 9, 9]);
    let r = Reader::from_bytes(file);
    let mut it = r.records();
    let mut used = 0;
    while let Some(rec) = it.next() {
        let size = match rec {
            Record::Message { bytes, .. } => bytes.len(),
            Record::InboundMark { .. } => 0,
            Record::ActivityMark { .. } => 8,
            Record::OutboundMark { .. } => 4,
        };
        used += 8 + size + 4;
    }
    assert_eq!(r.torn_tail_bytes(), 3);
    assert_eq!(used + r.torn_tail_bytes(), r.len() - 5);
}
