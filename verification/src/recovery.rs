//! Where a session's numbers come from when its counterparty reconnects.
//!
//! A journal that survived the last connection knows the highest number
//! spent each way and when the session was last alive; a session resumed
//! from it continues one past each, rather than from 1.

use vstd::prelude::*;

use crate::journal::Journal;

verus! {

/// A session's numbers, read back from the journal that kept them, together
/// with that journal.
#[derive(Debug)]
pub struct Resumed<J> {
    /// The journal the numbers came from, which goes on keeping them.
    pub journal: J,
    /// The number the next outbound message carries.
    pub next_out: u32,
    /// The number the next inbound message is expected to carry.
    pub next_in: u32,
    /// When the session was last known to be alive, if the journal says.
    pub last_active_ms: Option<u64>,
}

/// The number after the highest spent: 1 where none was, and the highest
/// itself where it is already the last number there is.
pub open spec fn next_after(highest: Option<u32>) -> u32 {
    match highest {
        Some(h) => h.saturating_add(1),
        None => 1,
    }
}

fn next_after_exec(highest: Option<u32>) -> (r: u32)
    ensures
        r == next_after(highest),
{
    match highest {
        Some(h) => h.saturating_add(1),
        None => 1,
    }
}

impl<J> Resumed<J> {
    /// The numbers a journal reported (the highest spent each way and when
    /// the session was last alive), or `None` when it reported none at all:
    /// a journal that has seen nothing each way and never recorded the
    /// session alive is a fresh start, not a resumption.
    pub fn from_marks(
        journal: J,
        highest_out: Option<u32>,
        highest_in: Option<u32>,
        last_active_ms: Option<u64>,
    ) -> (r: Option<Self>)
        ensures
            (highest_out is None && highest_in is None && last_active_ms is None) <==> r is None,
            r matches Some(s) ==> s.journal == journal && s.next_out == next_after(highest_out)
                && s.next_in == next_after(highest_in) && s.last_active_ms == last_active_ms,
    {
        if highest_out.is_none() && highest_in.is_none() && last_active_ms.is_none() {
            return None;
        }
        Some(
            Resumed {
                next_out: next_after_exec(highest_out),
                next_in: next_after_exec(highest_in),
                last_active_ms,
                journal,
            },
        )
    }
}

impl<J: Journal> Resumed<J> {
    /// The numbers `journal` holds, or `None` when it holds none at all.
    pub fn from_journal(journal: J) -> (r: Option<Self>)
        ensures
            (journal.spec_highest_out() is None && journal.spec_highest_in() is None
                && journal.spec_last_active() is None) <==> r is None,
            r matches Some(s) ==> s.journal == journal && s.next_out == next_after(
                journal.spec_highest_out(),
            ) && s.next_in == next_after(journal.spec_highest_in()) && s.last_active_ms
                == journal.spec_last_active(),
    {
        let out = journal.highest_out();
        let inb = journal.highest_in();
        let last_active_ms = journal.last_active();
        Self::from_marks(journal, out, inb, last_active_ms)
    }
}

/// How a new connection starts: with a journal nobody has written, or
/// resumed from one that remembers.
#[derive(Debug)]
pub enum Start<J> {
    /// A fresh journal; the session counts from 1.
    Fresh(J),
    /// The numbers a surviving journal holds.
    Resumed(Resumed<J>),
}

/// A recovery that never resumes: every connection starts fresh, with a
/// default journal.
#[derive(Debug, Clone, Copy, Default)]
pub struct NoRecovery;

/// A recovery answered by a function of the counterparty's configuration.
#[derive(Debug, Clone, Copy)]
pub struct FromFn<F>(F);

impl<F> FromFn<F> {
    /// The function that will be asked, once per connection.
    pub fn new(f: F) -> (r: Self)
        ensures
            r.inner() == f,
    {
        FromFn(f)
    }

    /// The function this recovery asks.
    pub closed spec fn inner(&self) -> F {
        self.0
    }

    /// The function this recovery asks, to call.
    pub fn function(&mut self) -> (r: &mut F)
        ensures
            *r == old(self).inner(),
            final(self).inner() == *final(r),
    {
        &mut self.0
    }
}

} // verus!
