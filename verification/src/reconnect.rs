//! When an initiator that lost its connection should try again.
//!
//! [`Policy::next`] answers a question and never sleeps: it returns an
//! instant, and the caller's own wait strategy does the waiting. It owns no
//! clock either; time arrives as an argument.

use vstd::prelude::*;

verus! {

/// What the caller should do about the connection it does not have.
#[derive(Debug, Clone, Copy, PartialEq, Eq, Structural)]
pub enum Next {
    /// Open one now.
    Now,
    /// Not yet: ask again at this instant.
    At(u64),
    /// Never again. The caller said stop.
    Stop,
}

/// Why a set of bounds was refused.
#[derive(Debug, Clone, Copy, PartialEq, Eq, Structural)]
#[non_exhaustive]
pub enum PolicyError {
    /// A first delay of zero is a reconnect loop with no gap in it.
    FirstIsZero,
    /// A ceiling below the first delay is a ceiling that never applies.
    CeilingBelowFirst,
}

/// The hours inside which an initiator may call out. Hours are read in UTC,
/// so whether an instant is inside them depends on the hours and the instant
/// alone.
pub trait Hours {
    /// Whether `now_ms` is inside a window.
    spec fn spec_contains(&self, now_ms: u64) -> bool;

    /// Is `now_ms` inside a window?
    fn contains(&self, now_ms: u64) -> (r: bool)
        ensures
            r == self.spec_contains(now_ms),
    ;
}

/// Every hour there is: the schedule a policy starts with.
#[derive(Debug, Clone, Copy, Default)]
pub struct Always;

impl Hours for Always {
    open spec fn spec_contains(&self, now_ms: u64) -> bool {
        true
    }

    fn contains(&self, now_ms: u64) -> (r: bool) {
        true
    }
}

/// The rule an initiator follows after a connection ends: doubling from a
/// first delay, never past a ceiling, and only inside its hours.
#[derive(Debug, Clone, Copy)]
pub struct Policy<S = Always> {
    first_ms: u64,
    ceiling_ms: u64,
    schedule: S,
    attempt: u32,
    not_before_ms: u64,
    stopped: bool,
}

/// The wait after the `attempt`-th ending: `first_ms` shifted left by
/// `attempt - 1` (as 64 bits hold it), capped at `ceiling_ms`; the ceiling
/// outright from the sixty-fourth attempt on.
pub open spec fn spec_delay(first_ms: u64, ceiling_ms: u64, attempt: u32) -> u64 {
    let steps: u32 = if attempt == 0 {
        0
    } else {
        (attempt - 1) as u32
    };
    if steps >= 63 {
        ceiling_ms
    } else if first_ms << steps <= ceiling_ms {
        first_ms << steps
    } else {
        ceiling_ms
    }
}

/// What a policy answers at `now_ms`, given whether `now_ms` is inside its
/// hours. The hours are asked before the ladder.
pub open spec fn spec_next(
    stopped: bool,
    ceiling_ms: u64,
    not_before_ms: u64,
    now_ms: u64,
    open: bool,
) -> Next {
    if stopped {
        Next::Stop
    } else if !open {
        Next::At(now_ms.saturating_add(ceiling_ms))
    } else if now_ms >= not_before_ms {
        Next::Now
    } else {
        Next::At(not_before_ms)
    }
}

impl Policy<Always> {
    /// Doubling from `first_ms`, never past `ceiling_ms`, at any hour.
    pub fn new(first_ms: u64, ceiling_ms: u64) -> (r: Result<Self, PolicyError>)
        ensures
            first_ms == 0 ==> r == Err::<Self, PolicyError>(PolicyError::FirstIsZero),
            first_ms != 0 && ceiling_ms < first_ms ==> r == Err::<Self, PolicyError>(
                PolicyError::CeilingBelowFirst,
            ),
            first_ms != 0 && ceiling_ms >= first_ms ==> (r matches Ok(p) && p.spec_first_ms()
                == first_ms && p.spec_ceiling_ms() == ceiling_ms && p.spec_attempt() == 0
                && p.spec_not_before_ms() == 0 && !p.spec_stopped()),
    {
        if first_ms == 0 {
            return Err(PolicyError::FirstIsZero);
        }
        if ceiling_ms < first_ms {
            return Err(PolicyError::CeilingBelowFirst);
        }
        Ok(
            Policy {
                first_ms,
                ceiling_ms,
                schedule: Always,
                attempt: 0,
                not_before_ms: 0,
                stopped: false,
            },
        )
    }
}

impl<S: Hours> Policy<S> {
    /// The first delay.
    pub closed spec fn spec_first_ms(&self) -> u64 {
        self.first_ms
    }

    /// The ceiling.
    pub closed spec fn spec_ceiling_ms(&self) -> u64 {
        self.ceiling_ms
    }

    /// Endings since the last session that got up.
    pub closed spec fn spec_attempt(&self) -> u32 {
        self.attempt
    }

    /// The instant before which the ladder says wait.
    pub closed spec fn spec_not_before_ms(&self) -> u64 {
        self.not_before_ms
    }

    /// Whether the caller said stop.
    pub closed spec fn spec_stopped(&self) -> bool {
        self.stopped
    }

    /// The schedule this policy asks.
    pub closed spec fn spec_schedule(&self) -> S {
        self.schedule
    }

    /// Only call out inside these hours.
    pub fn with_schedule<S2: Hours>(self, s: S2) -> (r: Policy<S2>)
        ensures
            r.spec_first_ms() == self.spec_first_ms(),
            r.spec_ceiling_ms() == self.spec_ceiling_ms(),
            r.spec_attempt() == self.spec_attempt(),
            r.spec_not_before_ms() == self.spec_not_before_ms(),
            r.spec_stopped() == self.spec_stopped(),
            r.spec_schedule() == s,
    {
        Policy {
            first_ms: self.first_ms,
            ceiling_ms: self.ceiling_ms,
            schedule: s,
            attempt: self.attempt,
            not_before_ms: self.not_before_ms,
            stopped: self.stopped,
        }
    }

    /// The wait the ladder names for the current attempt.
    fn delay(&self) -> (r: u64)
        ensures
            r == spec_delay(self.first_ms, self.ceiling_ms, self.attempt),
    {
        let steps = self.attempt.saturating_sub(1);
        if steps >= 63 {
            return self.ceiling_ms;
        }
        let d = self.first_ms << steps;
        if d <= self.ceiling_ms {
            d
        } else {
            self.ceiling_ms
        }
    }

    /// The connection ended at `now_ms`: climb one rung. Called for every
    /// ending, including one this end asked for.
    pub fn dropped(&mut self, now_ms: u64)
        ensures
            final(self).spec_attempt() == old(self).spec_attempt().saturating_add(1),
            final(self).spec_not_before_ms() == now_ms.saturating_add(
                spec_delay(
                    old(self).spec_first_ms(),
                    old(self).spec_ceiling_ms(),
                    old(self).spec_attempt().saturating_add(1),
                ),
            ),
            final(self).spec_first_ms() == old(self).spec_first_ms(),
            final(self).spec_ceiling_ms() == old(self).spec_ceiling_ms(),
            final(self).spec_stopped() == old(self).spec_stopped(),
            final(self).spec_schedule() == old(self).spec_schedule(),
    {
        self.attempt = self.attempt.saturating_add(1);
        self.not_before_ms = now_ms.saturating_add(self.delay());
    }

    /// A session got up: put the ladder back at the bottom.
    pub fn logged_on(&mut self)
        ensures
            final(self).spec_attempt() == 0,
            final(self).spec_not_before_ms() == old(self).spec_not_before_ms(),
            final(self).spec_first_ms() == old(self).spec_first_ms(),
            final(self).spec_ceiling_ms() == old(self).spec_ceiling_ms(),
            final(self).spec_stopped() == old(self).spec_stopped(),
            final(self).spec_schedule() == old(self).spec_schedule(),
    {
        self.attempt = 0;
    }

    /// Stop reconnecting. Final.
    pub fn stop(&mut self)
        ensures
            final(self).spec_stopped(),
            final(self).spec_attempt() == old(self).spec_attempt(),
            final(self).spec_not_before_ms() == old(self).spec_not_before_ms(),
            final(self).spec_first_ms() == old(self).spec_first_ms(),
            final(self).spec_ceiling_ms() == old(self).spec_ceiling_ms(),
            final(self).spec_schedule() == old(self).spec_schedule(),
    {
        self.stopped = true;
    }

    /// What to do at `now_ms`, once the schedule has said whether `now_ms`
    /// is inside its hours (`open`).
    pub fn next_given(&self, now_ms: u64, open: bool) -> (r: Next)
        ensures
            r == spec_next(self.spec_stopped(), self.spec_ceiling_ms(), self.spec_not_before_ms(), now_ms, open),
    {
        if self.stopped {
            return Next::Stop;
        }
        if !open {
            return Next::At(now_ms.saturating_add(self.ceiling_ms));
        }
        if now_ms >= self.not_before_ms {
            return Next::Now;
        }
        Next::At(self.not_before_ms)
    }

    /// What to do at `now_ms`. The schedule is asked before the ladder, so
    /// outside its hours the answer is never `Now`.
    pub fn next(&self, now_ms: u64) -> (r: Next)
        ensures
            r == spec_next(
                self.spec_stopped(),
                self.spec_ceiling_ms(),
                self.spec_not_before_ms(),
                now_ms,
                self.spec_schedule().spec_contains(now_ms),
            ),
    {
        let open = self.schedule.contains(now_ms);
        self.next_given(now_ms, open)
    }
}

/// The ladder never waits longer than its ceiling, however many endings it
/// has counted.
pub proof fn law_delay_is_capped(first_ms: u64, ceiling_ms: u64, attempt: u32)
    ensures
        spec_delay(first_ms, ceiling_ms, attempt) <= ceiling_ms,
{
}

/// A stopped policy says stop whatever the hour and whatever the ladder.
pub proof fn law_stop_is_final(ceiling_ms: u64, not_before_ms: u64, now_ms: u64, open: bool)
    ensures
        spec_next(true, ceiling_ms, not_before_ms, now_ms, open) == Next::Stop,
{
}

/// Outside its hours a policy that has not stopped never says `Now`.
pub proof fn law_closed_hours_never_dial(ceiling_ms: u64, not_before_ms: u64, now_ms: u64)
    ensures
        spec_next(false, ceiling_ms, not_before_ms, now_ms, false) != Next::Now,
{
}

} // verus!
