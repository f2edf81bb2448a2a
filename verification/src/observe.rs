//! What an operator can see, and what an operator can ask, without touching
//! the hot path.
//!
//! Nothing is built until somebody asks: an engine that published its state
//! every turn would pay for an operator who is not there. A snapshot is a
//! fixed array and a [`Snapshot::truncated`] flag, because no allocation may
//! happen on the engine thread, and *"there were more sessions than this"* is
//! a fact to report rather than a case to fail on.
//!
//! Commands go the other way: a fixed queue the operator's thread fills and
//! the engine drains on its next turn. **A command is never lost in
//! silence**: a full queue refuses at the call, and a drain takes exactly what
//! was queued, in order.

use vstd::prelude::*;
use crate::dispatch::ConnId;

verus! {

/// How many sessions one snapshot can carry.
pub const MAX_SESSIONS: usize = 64;

/// One session, as an operator sees it: a copy taken at an instant.
#[derive(Debug, Clone, Copy, PartialEq, Eq, Structural)]
pub struct SessionSnapshot {
    id: ConnId,
    logged_on: bool,
    next_out: u32,
    next_in: u32,
    last_skew_ms: Option<i64>,
    has_pending_output: bool,
    puts_refused: u32,
    resend_beyond_journal: u32,
}

/// What a session's journal has cost it, for [`SessionSnapshot::describe`].
/// A struct rather than two more `u32` parameters, which could be swapped
/// without a compile error.
#[derive(Debug, Clone, Copy)]
pub struct JournalHealth {
    /// Application messages the journal would not keep.
    pub refused: u32,
    /// Numbers a `ResendRequest` asked for that had already fallen out.
    pub beyond: u32,
}

impl Default for SessionSnapshot {
    fn default() -> (r: Self)
        ensures
            r.spec_id() == 0 && !r.spec_logged_on() && r.spec_next_out() == 0
                && r.spec_next_in() == 0 && r.spec_last_skew_ms() is None
                && !r.spec_has_pending_output() && r.spec_puts_refused() == 0
                && r.spec_resend_beyond_journal() == 0,
    {
        SessionSnapshot {
            id: 0,
            logged_on: false,
            next_out: 0,
            next_in: 0,
            last_skew_ms: None,
            has_pending_output: false,
            puts_refused: 0,
            resend_beyond_journal: 0,
        }
    }
}

impl SessionSnapshot {
    pub closed spec fn spec_id(&self) -> ConnId {
        self.id
    }

    pub closed spec fn spec_logged_on(&self) -> bool {
        self.logged_on
    }

    pub closed spec fn spec_next_out(&self) -> u32 {
        self.next_out
    }

    pub closed spec fn spec_next_in(&self) -> u32 {
        self.next_in
    }

    pub closed spec fn spec_last_skew_ms(&self) -> Option<i64> {
        self.last_skew_ms
    }

    pub closed spec fn spec_has_pending_output(&self) -> bool {
        self.has_pending_output
    }

    pub closed spec fn spec_puts_refused(&self) -> u32 {
        self.puts_refused
    }

    pub closed spec fn spec_resend_beyond_journal(&self) -> u32 {
        self.resend_beyond_journal
    }

    /// Build one: only the engine describes a session.
    pub fn describe(
        id: ConnId,
        logged_on: bool,
        next_out: u32,
        next_in: u32,
        last_skew_ms: Option<i64>,
        has_pending_output: bool,
        journal: JournalHealth,
    ) -> (r: Self)
        ensures
            r.spec_id() == id,
            r.spec_logged_on() == logged_on,
            r.spec_next_out() == next_out,
            r.spec_next_in() == next_in,
            r.spec_last_skew_ms() == last_skew_ms,
            r.spec_has_pending_output() == has_pending_output,
            r.spec_puts_refused() == journal.refused,
            r.spec_resend_beyond_journal() == journal.beyond,
    {
        Self {
            id,
            logged_on,
            next_out,
            next_in,
            last_skew_ms,
            has_pending_output,
            puts_refused: journal.refused,
            resend_beyond_journal: journal.beyond,
        }
    }

    /// The connection id, which is what a reply from another thread is
    /// routed by.
    pub fn id(&self) -> (r: ConnId)
        ensures
            r == self.spec_id(),
    {
        self.id
    }

    /// Has this session exchanged a `Logon`?
    pub fn logged_on(&self) -> (r: bool)
        ensures
            r == self.spec_logged_on(),
    {
        self.logged_on
    }

    /// `34=` on the next message this session will send.
    pub fn next_out(&self) -> (r: u32)
        ensures
            r == self.spec_next_out(),
    {
        self.next_out
    }

    /// `34=` this session expects next from the counterparty.
    pub fn next_in(&self) -> (r: u32)
        ensures
            r == self.spec_next_in(),
    {
        self.next_in
    }

    /// The engine's clock minus the `SendingTime` of the last message whose
    /// `52=` could be read, in milliseconds; `None` until one has arrived.
    /// Recorded whether that message was accepted or refused — the refusal is
    /// the case it exists to explain.
    pub fn last_skew_ms(&self) -> (r: Option<i64>)
        ensures
            r == self.spec_last_skew_ms(),
    {
        self.last_skew_ms
    }

    /// Are there bytes queued that have not reached the socket?
    pub fn has_pending_output(&self) -> (r: bool)
        ensures
            r == self.spec_has_pending_output(),
    {
        self.has_pending_output
    }

    /// Application messages this session sent that the journal would not
    /// keep: the running total for this connection.
    pub fn puts_refused(&self) -> (r: u32)
        ensures
            r == self.spec_puts_refused(),
    {
        self.puts_refused
    }

    /// Numbers a `ResendRequest` asked for that had already fallen out of the
    /// journal, and were gap-filled instead of replayed. Counted in messages.
    pub fn resend_beyond_journal(&self) -> (r: u32)
        ensures
            r == self.spec_resend_beyond_journal(),
    {
        self.resend_beyond_journal
    }
}

/// One engine, at one instant.
#[derive(Debug, Clone, Copy)]
pub struct Snapshot {
    sessions: [SessionSnapshot; 64],
    len: usize,
    truncated: bool,
    connections: usize,
    refused_connections: usize,
    sources_missing: usize,
    log_lost: u64,
}

impl Default for Snapshot {
    fn default() -> (r: Self)
        ensures
            r.spec_sessions() == Seq::<SessionSnapshot>::empty(),
            !r.spec_truncated(),
            r.spec_connections() == 0,
            r.spec_refused_connections() == 0,
            r.spec_sources_missing() == 0,
            r.spec_log_lost() == 0,
    {
        let empty = SessionSnapshot::default();
        let r = Snapshot {
            sessions: [empty; 64],
            len: 0,
            truncated: false,
            connections: 0,
            refused_connections: 0,
            sources_missing: 0,
            log_lost: 0,
        };
        assert(r.sessions@.subrange(0, 0) =~= Seq::<SessionSnapshot>::empty());
        r
    }
}

impl Snapshot {
    #[verifier::type_invariant]
    closed spec fn inv(self) -> bool {
        self.len <= MAX_SESSIONS
    }

    /// The sessions described, in the order they were added.
    pub closed spec fn spec_sessions(&self) -> Seq<SessionSnapshot> {
        self.sessions@.subrange(0, self.len as int)
    }

    pub closed spec fn spec_truncated(&self) -> bool {
        self.truncated
    }

    pub closed spec fn spec_connections(&self) -> usize {
        self.connections
    }

    pub closed spec fn spec_refused_connections(&self) -> usize {
        self.refused_connections
    }

    pub closed spec fn spec_sources_missing(&self) -> usize {
        self.sources_missing
    }

    pub closed spec fn spec_log_lost(&self) -> u64 {
        self.log_lost
    }

    /// Healthy means: at least one session, every one of them logged on, and
    /// neither counter that is only ever non-zero on a broken engine. Not
    /// [`Self::truncated`]: more sessions than a snapshot can carry is a
    /// reporting limit, not an unhealthy engine.
    pub open spec fn spec_healthy(&self) -> bool {
        &&& self.spec_sessions().len() > 0
        &&& forall|i: int|
            0 <= i < self.spec_sessions().len() ==> (#[trigger] self.spec_sessions()[i]).spec_logged_on()
        &&& self.spec_refused_connections() == 0
        &&& self.spec_sources_missing() == 0
    }

    /// Every session this engine held, up to [`MAX_SESSIONS`].
    pub fn sessions(&self) -> (r: &[SessionSnapshot])
        ensures
            r@ == self.spec_sessions(),
    {
        proof {
            use_type_invariant(self);
        }
        vstd::slice::slice_subrange(self.sessions.as_slice(), 0, self.len)
    }

    /// Were there more sessions than the snapshot could carry?
    pub fn truncated(&self) -> (r: bool)
        ensures
            r == self.spec_truncated(),
    {
        self.truncated
    }

    /// How many connections the engine held, whether described here or not.
    pub fn connections(&self) -> (r: usize)
        ensures
            r == self.spec_connections(),
    {
        self.connections
    }

    /// Connections ended because the dispatch would not take a message.
    /// **Zero on a healthy engine.**
    pub fn refused_connections(&self) -> (r: usize)
        ensures
            r == self.spec_refused_connections(),
    {
        self.refused_connections
    }

    /// Is this engine healthy enough to serve? A pure function on data
    /// already gathered, so a health endpoint and an operator's print can
    /// never disagree.
    pub fn healthy(&self) -> (r: bool)
        ensures
            r == self.spec_healthy(),
    {
        let sessions = self.sessions();
        if sessions.len() == 0 {
            return false;
        }
        let mut i: usize = 0;
        while i < sessions.len()
            invariant
                i <= sessions@.len(),
                sessions@ == self.spec_sessions(),
                forall|j: int| 0 <= j < i ==> (#[trigger] sessions@[j]).spec_logged_on(),
            decreases sessions@.len() - i,
        {
            if !sessions[i].logged_on() {
                return false;
            }
            i = i + 1;
        }
        self.refused_connections == 0 && self.sources_missing == 0
    }

    /// Add one session, or record that it did not fit. Beyond
    /// [`MAX_SESSIONS`] the session is dropped and [`Self::truncated`] is set.
    pub fn push(&mut self, s: SessionSnapshot)
        ensures
            old(self).spec_sessions().len() < MAX_SESSIONS ==> final(self).spec_sessions() == old(
                self,
            ).spec_sessions().push(s) && final(self).spec_truncated() == old(
                self,
            ).spec_truncated(),
            old(self).spec_sessions().len() >= MAX_SESSIONS ==> final(self).spec_sessions()
                == old(self).spec_sessions() && final(self).spec_truncated(),
            final(self).spec_connections() == old(self).spec_connections(),
            final(self).spec_refused_connections() == old(self).spec_refused_connections(),
            final(self).spec_sources_missing() == old(self).spec_sources_missing(),
            final(self).spec_log_lost() == old(self).spec_log_lost(),
    {
        proof {
            use_type_invariant(&*self);
        }
        if self.len < MAX_SESSIONS {
            let ghost before = self.spec_sessions();
            let at = self.len;
            let mut sessions = self.sessions;
            sessions[at] = s;
            self.sessions = sessions;
            self.len = at + 1;
            assert(self.spec_sessions() =~= before.push(s));
        } else {
            self.truncated = true;
        }
    }

    /// Fill in the engine-wide counters.
    pub fn set_counters(
        &mut self,
        connections: usize,
        refused_connections: usize,
        sources_missing: usize,
        log_lost: u64,
    )
        ensures
            final(self).spec_sessions() == old(self).spec_sessions(),
            final(self).spec_truncated() == old(self).spec_truncated(),
            final(self).spec_connections() == connections,
            final(self).spec_refused_connections() == refused_connections,
            final(self).spec_sources_missing() == sources_missing,
            final(self).spec_log_lost() == log_lost,
    {
        proof {
            use_type_invariant(&*self);
        }
        self.connections = connections;
        self.refused_connections = refused_connections;
        self.sources_missing = sources_missing;
        self.log_lost = log_lost;
    }

    /// Messages the message log never wrote. **Zero on a healthy engine.**
    pub fn log_lost(&self) -> (r: u64)
        ensures
            r == self.spec_log_lost(),
    {
        self.log_lost
    }

    /// Connections that claimed to be pollable and produced no descriptor.
    /// **Zero on a healthy engine.**
    pub fn sources_missing(&self) -> (r: usize)
        ensures
            r == self.spec_sources_missing(),
    {
        self.sources_missing
    }
}

// --- administration ------------------------------------------------------

/// How many commands may wait for the engine's next turn. A command is a
/// human action, not a data stream.
pub const COMMAND_CAPACITY: usize = 32;

/// Which number a [`Command`] moved, for the record it leaves behind.
#[derive(Debug, Clone, Copy, PartialEq, Eq, Structural)]
pub enum Change {
    /// The number the next outbound message will carry.
    NextOut,
    /// The number the session next expects to receive.
    NextIn,
    /// A `SequenceReset` was sent and the outbound number followed it.
    SequenceReset,
}

/// What became of a command.
#[derive(Debug, Clone, Copy, PartialEq, Eq, Structural)]
pub enum Outcome {
    /// It was applied to the session named.
    Applied,
    /// No connection with that id is on this engine any more: the ordinary
    /// answer for a command that raced a disconnect.
    NoSuchConnection,
    /// The session refused it.
    Refused,
}

/// An instruction for one session, applied on the engine's next turn.
#[derive(Debug, Clone, Copy, PartialEq, Eq, Structural)]
pub enum Command {
    /// Set the next outbound number. Says nothing on the wire.
    SetNextOut {
        /// The connection to administer.
        id: ConnId,
        /// The number to set.
        n: u32,
    },
    /// Set the number the session next expects.
    SetNextIn {
        /// The connection to administer.
        id: ConnId,
        /// The number to set.
        n: u32,
    },
    /// Send `35=4` with `123=N` and `36=n`, then become `n`. The honest way to
    /// change an outbound number.
    SendSequenceReset {
        /// The connection to administer.
        id: ConnId,
        /// The number the next message will carry.
        n: u32,
    },
}

impl Command {
    /// Which connection this is aimed at.
    pub fn id(&self) -> (r: ConnId)
        ensures
            r == match *self {
                Command::SetNextOut { id, .. } => id,
                Command::SetNextIn { id, .. } => id,
                Command::SendSequenceReset { id, .. } => id,
            },
    {
        match *self {
            Command::SetNextOut { id, .. } => id,
            Command::SetNextIn { id, .. } => id,
            Command::SendSequenceReset { id, .. } => id,
        }
    }

    /// Which number it moves, for the event it leaves behind.
    pub fn change(&self) -> (r: Change)
        ensures
            r == match *self {
                Command::SetNextOut { .. } => Change::NextOut,
                Command::SetNextIn { .. } => Change::NextIn,
                Command::SendSequenceReset { .. } => Change::SequenceReset,
            },
    {
        match *self {
            Command::SetNextOut { .. } => Change::NextOut,
            Command::SetNextIn { .. } => Change::NextIn,
            Command::SendSequenceReset { .. } => Change::SequenceReset,
        }
    }

    /// The number requested.
    pub fn to(&self) -> (r: u32)
        ensures
            r == match *self {
                Command::SetNextOut { n, .. } => n,
                Command::SetNextIn { n, .. } => n,
                Command::SendSequenceReset { n, .. } => n,
            },
    {
        match *self {
            Command::SetNextOut { n, .. } => n,
            Command::SetNextIn { n, .. } => n,
            Command::SendSequenceReset { n, .. } => n,
        }
    }
}


/// How many events the buffer holds before the oldest are lost.
pub const EVENT_CAPACITY: usize = 256;

fn put_event<E>(slots: &mut Vec<Option<E>>, at: usize, e: E)
    requires
        at < old(slots)@.len(),
    ensures
        final(slots)@ == old(slots)@.update(at as int, Some(e)),
    no_unwind
{
    slots[at] = Some(e);
}

fn take_event<E>(slots: &mut Vec<Option<E>>, at: usize) -> (r: Option<E>)
    requires
        at < old(slots)@.len(),
    ensures
        r == old(slots)@[at as int],
        final(slots)@ == old(slots)@.update(at as int, None),
    no_unwind
{
    let mut v: Option<E> = None;
    core::mem::swap(&mut slots[at], &mut v);
    v
}

/// The buffer of events an operator drains: **the newest are kept**. A
/// reader that stops reading loses the oldest, and the count of what was lost
/// says so.
pub struct EventRing<E> {
    slots: Vec<Option<E>>,
    head: usize,
    len: usize,
    lost: u64,
}

impl<E> EventRing<E> {
    #[verifier::type_invariant]
    closed spec fn inv(self) -> bool {
        &&& self.slots@.len() == EVENT_CAPACITY
        &&& self.head < EVENT_CAPACITY
        &&& self.len <= EVENT_CAPACITY
        &&& forall|i: int| 0 <= i < self.len ==> #[trigger] self.slots@[(self.head + i) % 256] is Some
    }

    /// The events waiting, oldest first.
    pub closed spec fn events(&self) -> Seq<E> {
        Seq::new(self.len as nat, |i: int| self.slots@[(self.head + i) % 256].unwrap())
    }

    /// Events lost so far to a full buffer.
    pub closed spec fn spec_lost(&self) -> u64 {
        self.lost
    }

    /// An empty buffer, allocated here and never again.
    pub fn new() -> (r: Self)
        ensures
            r.events() == Seq::<E>::empty(),
            r.spec_lost() == 0,
    {
        let mut slots: Vec<Option<E>> = Vec::new();
        let mut k: usize = 0;
        while k < EVENT_CAPACITY
            invariant
                k <= EVENT_CAPACITY,
                slots@.len() == k,
            decreases EVENT_CAPACITY - k,
        {
            slots.push(None);
            k = k + 1;
        }
        let r = EventRing { slots, head: 0, len: 0, lost: 0 };
        assert(r.events() =~= Seq::<E>::empty());
        r
    }

    /// Keep `e`. A full buffer drops its oldest event to make room, and
    /// counts it lost.
    #[verifier::rlimit(40)]
    pub fn push(&mut self, e: E)
        ensures
            old(self).events().len() < EVENT_CAPACITY ==> final(self).events() == old(self).events().push(e)
                && final(self).spec_lost() == old(self).spec_lost(),
            old(self).events().len() == EVENT_CAPACITY ==> final(self).events() == old(self).events().drop_first().push(e)
                && final(self).spec_lost() == old(self).spec_lost().wrapping_add(1),
    {
        proof {
            use_type_invariant(&*self);
        }
        let ghost before = self.events();
        if self.len == EVENT_CAPACITY {
            let head = self.head;
            proof {
                assert forall|j: int| 0 <= j < 256 implies #[trigger] self.slots@[j] is Some by {
                    let i = (j - self.head + 256) % 256;
                    assert((self.head + i) % 256 == j);
                    assert(self.slots@[(self.head + i) % 256] is Some);
                }
            }
            put_event(&mut self.slots, head, e);
            let next = (head + 1) % EVENT_CAPACITY;
            self.head = next;
            self.lost = self.lost.wrapping_add(1);
            assert(self.events() =~= before.drop_first().push(e)) by {
                assert forall|i: int| 0 <= i < EVENT_CAPACITY implies self.events()[i] == before.drop_first().push(e)[i] by {
                    if i < EVENT_CAPACITY - 1 {
                        assert((next + i) % 256 == (head + (i + 1)) % 256);
                    } else {
                        assert((next + i) % 256 == head as int);
                    }
                }
            }
            return;
        }
        let at = (self.head + self.len) % EVENT_CAPACITY;
        proof {
            assert forall|i: int| #![trigger self.slots@[(self.head + i) % 256]]
                0 <= i < self.len implies (self.head + i) % 256 != at as int by {}
        }
        put_event(&mut self.slots, at, e);
        self.len = self.len + 1;
        assert(self.events() =~= before.push(e));
    }

    /// Take every event into `out`, oldest first, and return how many. The
    /// buffer is left empty; the count of lost events stays.
    pub fn drain(&mut self, out: &mut Vec<E>) -> (r: usize)
        ensures
            r == old(self).events().len(),
            final(out)@ == old(out)@ + old(self).events(),
            final(self).events() == Seq::<E>::empty(),
            final(self).spec_lost() == old(self).spec_lost(),
    {
        proof {
            use_type_invariant(&*self);
        }
        let ghost q = self.events();
        let n = self.len;
        let mut head = self.head;
        let start = self.head;
        let ghost before = *self;
        self.len = 0;
        let mut k: usize = 0;
        while k < n
            invariant
                k <= n <= EVENT_CAPACITY,
                self.len == 0,
                self.head == start,
                self.lost == before.lost,
                self.slots@.len() == EVENT_CAPACITY,
                start < EVENT_CAPACITY,
                head == (start + k) % 256,
                q.len() == n,
                forall|i: int| k <= i < n ==> (#[trigger] self.slots@[(start + i) % 256]) is Some
                    && self.slots@[(start + i) % 256].unwrap() == q[i],
                out@ == old(out)@ + q.take(k as int),
            decreases n - k,
        {
            let taken = take_event(&mut self.slots, head);
            proof {
                assert forall|i: int| #![trigger self.slots@[(start + i) % 256]]
                    k < i < n implies (start + i) % 256 != head as int by {}
            }
            match taken {
                Some(e) => out.push(e),
                None => {},
            }
            assert(out@ =~= old(out)@ + q.take(k + 1));
            head = (head + 1) % EVENT_CAPACITY;
            k = k + 1;
        }
        assert(q.take(n as int) =~= q);
        self.head = head;
        assert(self.events() =~= Seq::<E>::empty());
        n
    }

    /// Events lost so far to a full buffer.
    pub fn lost(&self) -> (r: u64)
        ensures
            r == self.spec_lost(),
    {
        self.lost
    }

    /// Count one more event lost before it reached the buffer.
    pub fn note_lost(&mut self)
        ensures
            final(self).events() == old(self).events(),
            final(self).spec_lost() == old(self).spec_lost().wrapping_add(1),
    {
        proof {
            use_type_invariant(&*self);
        }
        self.lost = self.lost.wrapping_add(1);
    }
}

/// A fixed queue of commands waiting for the engine's next turn.
///
/// An event that is lost is a fact an operator did not learn; **a command
/// that is lost is an action that silently did not happen**. So a full queue
/// refuses at the call, and a drain takes everything, in order.
pub struct Commands {
    slots: [Option<Command>; 32],
    head: usize,
    len: usize,
    drains: u64,
}

impl Commands {
    #[verifier::type_invariant]
    closed spec fn inv(self) -> bool {
        &&& self.head < COMMAND_CAPACITY
        &&& self.len <= COMMAND_CAPACITY
        &&& forall|i: int| 0 <= i < self.len ==> #[trigger] self.slots@[(self.head + i) % 32] is Some
    }

    /// The commands waiting, oldest first.
    pub closed spec fn queued(&self) -> Seq<Command> {
        Seq::new(self.len as nat, |i: int| self.slots@[(self.head + i) % 32].unwrap())
    }

    /// How many times the engine has reached for the queue.
    pub closed spec fn spec_drains(&self) -> u64 {
        self.drains
    }

    /// An empty queue.
    pub fn new() -> (r: Self)
        ensures
            r.queued() == Seq::<Command>::empty(),
            r.spec_drains() == 0,
    {
        let r = Commands { slots: [None; 32], head: 0, len: 0, drains: 0 };
        assert(r.queued() =~= Seq::<Command>::empty());
        r
    }

    /// Queue a command. `false` means the queue is full and **nothing was
    /// taken**: the operator learns it now, at the call.
    pub fn submit(&mut self, c: Command) -> (r: bool)
        ensures
            r == (old(self).queued().len() < COMMAND_CAPACITY),
            r ==> final(self).queued() == old(self).queued().push(c),
            !r ==> final(self).queued() == old(self).queued(),
            final(self).spec_drains() == old(self).spec_drains(),
    {
        proof {
            use_type_invariant(&*self);
        }
        if self.len == COMMAND_CAPACITY {
            return false;
        }
        let ghost before = self.queued();
        let at = (self.head + self.len) % COMMAND_CAPACITY;
        let mut slots = self.slots;
        slots[at] = Some(c);
        proof {
            assert forall|i: int| #![trigger slots@[(self.head + i) % 32]]
                0 <= i < self.len implies (self.head + i) % 32 != at as int by {}
        }
        self.slots = slots;
        self.len = self.len + 1;
        assert(self.queued() =~= before.push(c));
        true
    }

    /// Is there anything to take?
    pub fn waiting(&self) -> (r: bool)
        ensures
            r == (self.queued().len() > 0),
    {
        self.len != 0
    }

    /// Take every waiting command into `out`, oldest first, and return how
    /// many. The queue is left empty.
    pub fn drain(&mut self, out: &mut [Option<Command>; 32]) -> (r: usize)
        ensures
            r == old(self).queued().len(),
            forall|i: int| 0 <= i < r ==> final(out)@[i] == Some(#[trigger] old(self).queued()[i]),
            forall|i: int| r <= i < 32 ==> final(out)@[i] == old(out)@[i],
            final(self).queued() == Seq::<Command>::empty(),
            final(self).spec_drains() == old(self).spec_drains().wrapping_add(1),
    {
        proof {
            use_type_invariant(&*self);
        }
        self.drains = self.drains.wrapping_add(1);
        let n = self.len;
        let ghost q = self.queued();
        let mut k: usize = 0;
        let mut head = self.head;
        while k < n
            invariant
                k <= n <= 32,
                head == (self.head + k) % 32,
                self.head < 32,
                q.len() == n,
                forall|i: int| 0 <= i < n ==> #[trigger] q[i] == self.slots@[(self.head + i) % 32].unwrap(),
                forall|i: int| 0 <= i < n ==> #[trigger] self.slots@[(self.head + i) % 32] is Some,
                forall|i: int| 0 <= i < k ==> out@[i] == Some(#[trigger] q[i]),
                forall|i: int| k <= i < 32 ==> out@[i] == old(out)@[i],
            decreases n - k,
        {
            out[k] = self.slots[head];
            head = (head + 1) % COMMAND_CAPACITY;
            k = k + 1;
        }
        let drains = self.drains;
        *self = Commands { slots: [None; 32], head: 0, len: 0, drains };
        assert(self.queued() =~= Seq::<Command>::empty());
        n
    }

    /// How many times the engine has reached for the queue: what keeps *"a
    /// turn costs one load"* falsifiable.
    pub fn drains(&self) -> (r: u64)
        ensures
            r == self.spec_drains(),
    {
        self.drains
    }
}

/// **One session down makes the engine unhealthy**, wherever it stands among
/// the sessions and whatever the others say.
pub proof fn law_one_session_not_logged_on_is_unhealthy(s: Snapshot, i: int)
    requires
        0 <= i < s.spec_sessions().len(),
        !s.spec_sessions()[i].spec_logged_on(),
    ensures
        !s.spec_healthy(),
{
}

/// **An engine with no session is not healthy.**
pub proof fn law_no_session_is_unhealthy(s: Snapshot)
    requires
        s.spec_sessions().len() == 0,
    ensures
        !s.spec_healthy(),
{
}

/// **A refused connection or a missing source makes the engine unhealthy**,
/// however its sessions stand.
pub proof fn law_a_broken_counter_is_unhealthy(s: Snapshot)
    requires
        s.spec_refused_connections() != 0 || s.spec_sources_missing() != 0,
    ensures
        !s.spec_healthy(),
{
}

/// **Every session logged on and nothing broken is healthy.**
pub proof fn law_all_logged_on_and_nothing_broken_is_healthy(s: Snapshot)
    requires
        s.spec_sessions().len() > 0,
        forall|i: int| 0 <= i < s.spec_sessions().len() ==> (#[trigger] s.spec_sessions()[i]).spec_logged_on(),
        s.spec_refused_connections() == 0,
        s.spec_sources_missing() == 0,
    ensures
        s.spec_healthy(),
{
}

} // verus!
