//! How often a serving loop asks its listener for a new connection.
//!
//! A pair of `u32`s on the serving thread: a compare, a subtraction, no clock
//! and nothing allocated. Cadence 1 asks on every turn.

use vstd::prelude::*;

verus! {

/// How many turns before the serving loop asks the listener again.
pub struct ListenerCadence {
    every: u32,
    until: u32,
}

/// One turn of a cadence of `every` whose countdown stands at `until`: the
/// countdown after it, and whether this turn asks the listener.
pub open spec fn spec_poll(every: u32, until: u32) -> (u32, bool) {
    if until != 0 {
        ((until - 1) as u32, false)
    } else {
        ((every - 1) as u32, true)
    }
}

/// Where the countdown of a fresh cadence of `every` stands after `k` turns.
pub open spec fn countdown_after(every: u32, k: nat) -> u32
    recommends
        every > 0,
{
    ((every as int - (k as int) % (every as int)) % (every as int)) as u32
}

impl ListenerCadence {
    /// The cadence this counter keeps.
    pub closed spec fn spec_every(&self) -> u32 {
        self.every
    }

    /// Turns left before the listener is asked again.
    pub closed spec fn spec_until(&self) -> u32 {
        self.until
    }

    /// A cadence of one turn in `every`, whose first turn asks.
    pub fn new(every: u32) -> (r: Self)
        requires
            every > 0,
        ensures
            r.spec_every() == every,
            r.spec_until() == 0,
    {
        ListenerCadence { every, until: 0 }
    }

    /// Whether this turn asks the listener. Asking rearms the countdown.
    pub fn poll_now(&mut self) -> (r: bool)
        requires
            old(self).spec_every() > 0,
        ensures
            (final(self).spec_until(), r) == spec_poll(old(self).spec_every(), old(self).spec_until()),
            final(self).spec_every() == old(self).spec_every(),
    {
        if self.until != 0 {
            self.until = self.until - 1;
            return false;
        }
        self.until = self.every - 1;
        true
    }

    /// The engine came back from idling: the next turn asks the listener,
    /// whatever the countdown said.
    pub fn woke(&mut self)
        ensures
            final(self).spec_until() == 0,
            final(self).spec_every() == old(self).spec_every(),
    {
        self.until = 0;
    }
}

/// A cadence of `every` asks on exactly one turn in `every`, starting with the
/// first: from a fresh countdown, turn `k` asks exactly when `every` divides
/// `k`, and the countdown moves on to where turn `k + 1` expects it.
pub proof fn law_one_turn_in_every(every: u32, k: nat)
    requires
        every > 0,
    ensures
        spec_poll(every, countdown_after(every, k)) == (
            countdown_after(every, k + 1),
            (k as int) % (every as int) == 0,
        ),
{
    let e = every as int;
    let k = k as int;
    let r = k % e;
    assert(0 <= r < e && (k + 1) % e == if r + 1 == e {
        0
    } else {
        r + 1
    }) by (nonlinear_arith)
        requires
            e > 0,
            r == k % e,
    ;
    assert((e - r) % e == if r == 0 {
        0
    } else {
        e - r
    }) by (nonlinear_arith)
        requires
            e > 0,
            0 <= r < e,
    ;
    assert((e - (k + 1) % e) % e == if r + 1 == e {
        0
    } else {
        e - (r + 1)
    }) by (nonlinear_arith)
        requires
            e > 0,
            0 <= r < e,
            (k + 1) % e == if r + 1 == e {
                0
            } else {
                r + 1
            },
    ;
}

/// A wake is answered by an ask on the very next turn, wherever the countdown
/// had got to.
pub proof fn law_a_wake_asks_next(every: u32)
    requires
        every > 0,
    ensures
        spec_poll(every, 0) == ((every - 1) as u32, true),
{
}

} // verus!
