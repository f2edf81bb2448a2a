//! A FIX engine's verified core: framing, journalling, redaction, the
//! pre-session stage's reading of a `Logon`, the queues an operator and an
//! application talk to a running engine through, and the bookkeeping of an
//! ordered shutdown.

use vstd::prelude::*;

pub mod affinity;
pub mod backpressure;
pub mod block;
pub mod cadence;
pub mod clock;
pub mod conn;
pub mod dispatch;
pub mod frame;
pub mod journal;
pub mod msglog;
pub mod observe;
pub mod origin;
pub mod poll;
pub mod presession;
pub mod reconnect;
pub mod recovery;
pub mod redact;
pub mod transport;

verus! {

/// The most messages one session may originate when it logs on: a guard
/// against a handler that never answers `None`, not a tuning knob.
pub const MAX_ON_LOGON: u32 = 16;

/// The least a serving loop waits for retired journal writers after it has
/// returned, in milliseconds.
pub const RETIRED_WRITERS_FLOOR_MS: u64 = 1_000u64;

/// How long a serving loop waits for retired writers: the shutdown's grace,
/// never less than [`RETIRED_WRITERS_FLOOR_MS`].
pub fn writers_wait_ms(grace_ms: Option<u64>) -> (r: u64)
    ensures
        r == match grace_ms {
            Some(g) => if g > RETIRED_WRITERS_FLOOR_MS {
                g
            } else {
                RETIRED_WRITERS_FLOOR_MS
            },
            None => RETIRED_WRITERS_FLOOR_MS,
        },
{
    let g = match grace_ms {
        Some(g) => g,
        None => 0,
    };
    if g > RETIRED_WRITERS_FLOOR_MS {
        g
    } else {
        RETIRED_WRITERS_FLOOR_MS
    }
}

#[verifier::external_type_specification]
#[verifier::external_body]
pub struct ExIoError(std::io::Error);

/// Why a serving loop never started.
#[derive(Debug)]
#[non_exhaustive]
pub enum ServeError {
    /// The registry serves nobody, so the acceptor would refuse every
    /// connection for as long as the process lived.
    NoCounterparties,
    /// Binding the listener failed.
    Io(std::io::Error),
    /// The message log's path named somewhere this process cannot append to.
    LogPath(std::io::Error),
    /// TLS could not be set up; the text says what failed.
    Tls(String),
    /// The core named for the engine thread was refused, or pinning to it
    /// failed, before any socket existed.
    Affinity(crate::affinity::AffinityError),
}

/// Bytes read before a connection existed did not fit its receive buffer.
#[derive(Debug, Clone, Copy, PartialEq, Eq, Structural)]
pub struct PrefixTooLong {
    /// How many bytes the pre-session stage had.
    pub got: usize,
    /// How many the connection can hold: the engine's `RX`.
    pub capacity: usize,
}

/// The engine's own record of a shutdown in progress.
#[derive(Debug, Clone, Copy, PartialEq, Eq, Structural)]
pub struct Stopping {
    deadline_ms: u64,
    sessions: usize,
    said_goodbye: usize,
    acked: usize,
    timed_out: usize,
}

/// What an ordered shutdown managed, and what it did not.
///
/// **`sessions == acked` is the clean case and nothing else is.** Connections
/// that never acknowledged are reported apart, as `timed_out`.
#[derive(Debug, Clone, Copy, PartialEq, Eq, Structural)]
pub struct Shutdown {
    sessions: usize,
    said_goodbye: usize,
    acked: usize,
    timed_out: usize,
}

impl Default for Shutdown {
    fn default() -> (r: Self)
        ensures
            r.spec_sessions() == 0 && r.spec_said_goodbye() == 0 && r.spec_acked() == 0
                && r.spec_timed_out() == 0,
    {
        Shutdown { sessions: 0, said_goodbye: 0, acked: 0, timed_out: 0 }
    }
}

impl Shutdown {
    /// Connections held when the shutdown began.
    pub closed spec fn spec_sessions(&self) -> usize {
        self.sessions
    }

    /// Those that had a `Logout` written for them.
    pub closed spec fn spec_said_goodbye(&self) -> usize {
        self.said_goodbye
    }

    /// Those that answered with a `Logout` of their own before the deadline.
    pub closed spec fn spec_acked(&self) -> usize {
        self.acked
    }

    /// Those still there when the deadline passed.
    pub closed spec fn spec_timed_out(&self) -> usize {
        self.timed_out
    }

    /// Connections the engine held when the shutdown began.
    pub fn sessions(&self) -> (r: usize)
        ensures
            r == self.spec_sessions(),
    {
        self.sessions
    }

    /// How many of them actually had a `Logout` written for them.
    pub fn said_goodbye(&self) -> (r: usize)
        ensures
            r == self.spec_said_goodbye(),
    {
        self.said_goodbye
    }

    /// How many answered with a `Logout` of their own before the deadline.
    pub fn acked(&self) -> (r: usize)
        ensures
            r == self.spec_acked(),
    {
        self.acked
    }

    /// How many were still there when the deadline passed, and were closed.
    pub fn timed_out(&self) -> (r: usize)
        ensures
            r == self.spec_timed_out(),
    {
        self.timed_out
    }

    /// The clean case, and nothing else is: every session held when the
    /// shutdown began answered its `Logout`, and none was left to time out.
    pub fn clean(&self) -> (r: bool)
        ensures
            r == (self.spec_timed_out() == 0 && self.spec_acked() == self.spec_sessions()),
    {
        self.timed_out == 0 && self.acked == self.sessions
    }
}

impl Stopping {
    /// The instant after which whatever is left is closed.
    pub closed spec fn spec_deadline_ms(&self) -> u64 {
        self.deadline_ms
    }

    /// Connections counted so far.
    pub closed spec fn spec_sessions(&self) -> usize {
        self.sessions
    }

    /// `Logout`s written so far.
    pub closed spec fn spec_said_goodbye(&self) -> usize {
        self.said_goodbye
    }

    /// `Logout`s answered so far.
    pub closed spec fn spec_acked(&self) -> usize {
        self.acked
    }

    /// A shutdown asked for at `now_ms` with `grace_ms` to finish in.
    pub fn begin(now_ms: u64, grace_ms: u64) -> (r: Self)
        ensures
            r.spec_deadline_ms() == now_ms.saturating_add(grace_ms),
            r.spec_sessions() == 0 && r.spec_said_goodbye() == 0 && r.spec_acked() == 0,
    {
        Stopping {
            deadline_ms: now_ms.saturating_add(grace_ms),
            sessions: 0,
            said_goodbye: 0,
            acked: 0,
            timed_out: 0,
        }
    }

    /// One more connection was held when the shutdown began; `said` is
    /// whether its `Logout` actually went into its queue.
    pub fn told(&mut self, said: bool)
        requires
            old(self).spec_sessions() < usize::MAX,
            old(self).spec_said_goodbye() < usize::MAX,
        ensures
            final(self).spec_deadline_ms() == old(self).spec_deadline_ms(),
            final(self).spec_sessions() == old(self).spec_sessions() + 1,
            final(self).spec_said_goodbye() == old(self).spec_said_goodbye() + if said {
                1int
            } else {
                0int
            },
            final(self).spec_acked() == old(self).spec_acked(),
    {
        self.sessions = self.sessions + 1;
        if said {
            self.said_goodbye = self.said_goodbye + 1;
        }
    }

    /// A connection left because its counterparty answered with a `Logout`.
    pub fn acked_one(&mut self)
        requires
            old(self).spec_acked() < usize::MAX,
        ensures
            final(self).spec_deadline_ms() == old(self).spec_deadline_ms(),
            final(self).spec_sessions() == old(self).spec_sessions(),
            final(self).spec_said_goodbye() == old(self).spec_said_goodbye(),
            final(self).spec_acked() == old(self).spec_acked() + 1,
    {
        self.acked = self.acked + 1;
    }

    /// Has the shutdown finished, with `left` connections still held at
    /// `now_ms`? Finished once nobody is left or the deadline has passed, and
    /// whatever is left is then counted as having timed out.
    pub fn finished(&mut self, left: usize, now_ms: u64) -> (r: Option<Shutdown>)
        ensures
            r is None <==> (left != 0 && now_ms < old(self).spec_deadline_ms()),
            r matches Some(s) ==> s.spec_sessions() == old(self).spec_sessions()
                && s.spec_said_goodbye() == old(self).spec_said_goodbye() && s.spec_acked()
                == old(self).spec_acked() && s.spec_timed_out() == left,
            final(self).spec_deadline_ms() == old(self).spec_deadline_ms(),
            final(self).spec_sessions() == old(self).spec_sessions(),
            final(self).spec_said_goodbye() == old(self).spec_said_goodbye(),
            final(self).spec_acked() == old(self).spec_acked(),
    {
        if left != 0 && now_ms < self.deadline_ms {
            return None;
        }
        self.timed_out = left;
        Some(
            Shutdown {
                sessions: self.sessions,
                said_goodbye: self.said_goodbye,
                acked: self.acked,
                timed_out: self.timed_out,
            },
        )
    }
}

} // verus!
