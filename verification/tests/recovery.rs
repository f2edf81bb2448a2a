use fixbolt_engine::journal::{Journal, MemJournal};
use fixbolt_engine::recovery::{FromFn, NoRecovery, Resumed, Start};

#[test]
fn a_journal_that_saw_nothing_is_a_fresh_start() {
    let j = MemJournal::<8, 16>::new();
    assert!(Resumed::from_journal(j).is_none());
}

#[test]
fn a_resumed_session_continues_one_past_each_mark() {
    let mut j = MemJournal::<8, 16>::new();
    assert!(j.put(9, b"x"));
    j.mark_in(4);
    let r = Resumed::from_journal(j).unwrap();
    assert_eq!(r.next_out, 10);
    assert_eq!(r.next_in, 5);
    assert_eq!(r.last_active_ms, None);
    assert_eq!(r.journal.get(9), Some(&b"x"[..]));

    let mut only_in = MemJournal::<8, 16>::new();
    only_in.mark_in(u32::MAX);
    let r = Resumed::from_journal(only_in).unwrap();
    assert_eq!(r.next_in, u32::MAX, "the last number there is stays the last");
    assert_eq!(r.next_out, 1);
    assert!(matches!(Start::Resumed(r), Start::Resumed(_)));
}

#[test]
fn a_recovery_from_a_function_hands_the_function_back() {
    let mut f = FromFn::new(|n: u32| n + 1);
    assert_eq!((f.function())(1), 2);
    let _ = NoRecovery;
    let s: Start<MemJournal<8, 16>> = Start::Fresh(MemJournal::new());
    assert!(matches!(s, Start::Fresh(_)));
}

#[test]
fn numbers_read_back_from_a_file_resume_one_past_each() {
    let r = Resumed::from_marks("file", Some(41), None, Some(7)).unwrap();
    assert_eq!((r.next_out, r.next_in, r.last_active_ms), (42, 1, Some(7)));
    assert_eq!(r.journal, "file");
    let top = Resumed::from_marks((), Some(u32::MAX), Some(3), None).unwrap();
    assert_eq!((top.next_out, top.next_in), (u32::MAX, 4));
    assert!(Resumed::from_marks((), None, None, None).is_none());
}
