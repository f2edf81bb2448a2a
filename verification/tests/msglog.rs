use fixbolt_engine::msglog::{log_line, torn_len, Peers};
use fixbolt_engine::msglog::{
    escape_into, log_pop, message_line, open_line, push_num, unescape, Direction, LogPop, LOG_STOP,
};

#[test]
fn numbers_are_written_in_decimal() {
    let mut out = Vec::new();
    push_num(0, &mut out);
    out.push(b' ');
    push_num(1_234_567, &mut out);
    out.push(b' ');
    push_num(u64::MAX, &mut out);
    assert_eq!(out, b"0 1234567 18446744073709551615".to_vec());
}

#[test]
fn escaping_keeps_soh_and_unescaping_undoes_it() {
    let raw = b"8=FIX\x01a\\b\nc\rd\x01";
    let mut out = Vec::new();
    escape_into(raw, &mut out);
    assert_eq!(out, b"8=FIX\x01a\\\\b\\nc\\rd\x01".to_vec());
    let text = String::from_utf8(out).unwrap();
    assert_eq!(unescape(&text), raw.to_vec());
}

#[test]
fn a_direction_survives_its_tag() {
    for d in [Direction::In, Direction::Out, Direction::Open] {
        assert_eq!(Direction::from_tag(d.tag()), Some(d));
    }
    assert_eq!(Direction::from_tag(7), None);
    assert_eq!(Direction::In.label(), "IN ");
}

#[test]
fn a_log_record_is_read_back_into_its_fields() {
    let mut rec = vec![1u8];
    rec.extend_from_slice(&500u64.to_le_bytes());
    rec.extend_from_slice(&3u16.to_le_bytes());
    rec.extend_from_slice(&42u64.to_le_bytes());
    rec.extend_from_slice(b"35=0\x01");
    assert_eq!(
        log_pop(Some(rec.len()), &rec),
        LogPop::Entry { dir: Direction::Out, at_ms: 500, shard: 3, id: 42 }
    );
    assert_eq!(log_pop(None, &rec), LogPop::Dry);
    assert_eq!(log_pop(Some(0), &rec), LogPop::Lost);
    assert_eq!(log_pop(Some(5), &rec), LogPop::Lost, "shorter than a header");
    assert_eq!(log_pop(Some(1), &[LOG_STOP]), LogPop::Stop);
    let mut bad = rec.clone();
    bad[0] = 9;
    assert_eq!(log_pop(Some(bad.len()), &bad), LogPop::Lost, "an unknown direction");
}

#[test]
fn lines_read_as_the_log_writes_them() {
    assert_eq!(
        open_line(7, 2, b"10.0.0.1:5000", b"20240101-00:00:00.000"),
        b"# conn=7 shard=2 peer=10.0.0.1:5000 opened at 20240101-00:00:00.000\n".to_vec()
    );
    assert_eq!(
        message_line(b"T", Direction::In, 0, 7, Some(b"p"), b"a\nb"),
        b"T IN  shard=0 conn=7 peer=p a\\nb\n".to_vec()
    );
    assert_eq!(
        message_line(b"T", Direction::Out, 1, 9, None, b"x"),
        b"T OUT shard=1 conn=9 x\n".to_vec()
    );
}

#[test]
fn later_lines_name_the_peer_their_connection_was_opened_from() {
    let mut peers = Peers::new();
    assert_eq!(peers.peer(0, 7), None);
    let open = log_line(Direction::Open, 0, 7, b"10.0.0.1:5000", b"T", &mut peers);
    assert_eq!(open, b"# conn=7 shard=0 peer=10.0.0.1:5000 opened at T\n".to_vec());
    assert_eq!(peers.peer(0, 7), Some(&b"10.0.0.1:5000"[..]));
    let line = log_line(Direction::In, 0, 7, b"35=0\x01", b"T", &mut peers);
    assert_eq!(line, b"T IN  shard=0 conn=7 peer=10.0.0.1:5000 35=0\x01\n".to_vec());
    let other = log_line(Direction::Out, 1, 7, b"x", b"T", &mut peers);
    assert_eq!(other, b"T OUT shard=1 conn=7 x\n".to_vec(), "another shard's connection 7 is another connection");
    let _ = log_line(Direction::Open, 0, 7, b"10.0.0.2:6000", b"T", &mut peers);
    assert_eq!(peers.peer(0, 7), Some(&b"10.0.0.2:6000"[..]), "a reopened connection names its new peer");
    let odd = log_line(Direction::Open, 2, 1, &[0xff, b'a'], b"T", &mut peers);
    assert_eq!(odd, "# conn=1 shard=2 peer=\u{fffd}a opened at T\n".as_bytes().to_vec());
}

#[test]
fn a_torn_tail_is_what_follows_the_last_newline() {
    assert_eq!(torn_len(b"line one\nhalf a li", 100), 9);
    assert_eq!(torn_len(b"no newline at all", 17), 17, "the whole file");
    assert_eq!(torn_len(b"", 0), 0);
}

#[test]
fn each_shard_logs_to_the_operators_name_and_its_number() {
    assert_eq!(fixbolt_engine::msglog::shard_file_name(b"messages.log", 0), b"messages.log.0".to_vec());
    assert_eq!(fixbolt_engine::msglog::shard_file_name(b"m", 1234), b"m.1234".to_vec());
    assert_eq!(fixbolt_engine::msglog::shard_file_name(b"", 7), b".7".to_vec());
}

#[test]
fn every_short_ascii_message_survives_escape_and_unescape() {
    let alphabet = [b'\n', b'\r', b'\\', b'n', b'r', 1u8, b'a', b'=', 0u8, 127u8];
    for &x in &alphabet {
        for &y in &alphabet {
            for &z in &alphabet {
                let raw = [x, y, z];
                let mut e = Vec::new();
                escape_into(&raw, &mut e);
                assert!(!e.contains(&b'\n') && !e.contains(&b'\r'), "{raw:?}");
                let text = std::str::from_utf8(&e).unwrap();
                assert_eq!(unescape(text), raw.to_vec(), "{raw:?}");
            }
        }
    }
}
