//! Where the engine gets the time, in milliseconds since 0000-01-01.
//!
//! A trait, because a test harness that writes a fixed instant into every
//! message it sends could not drive an engine wired to the wall clock; the
//! same seam lets a deployment feed a hardware clock.

use vstd::prelude::*;

verus! {

/// Milliseconds from 0000-01-01 to 1970-01-01: 719 528 days of 86 400 000
/// milliseconds, in the proleptic Gregorian calendar.
pub const YEAR_ZERO_TO_EPOCH: u64 = 62_167_219_200_000u64;

/// One reading of a clock: a millisecond, and the part of the instant below
/// it, taken together so that the two cannot drift apart.
#[derive(Debug, Clone, Copy, PartialEq, Eq, Structural)]
pub struct Reading {
    /// Milliseconds since 0000-01-01.
    pub ms: u64,
    /// Nanoseconds inside `ms`, 0 to 999 999. Zero from a clock that does not
    /// know any better.
    pub sub_ms_nanos: u32,
}

impl Default for Reading {
    fn default() -> (r: Self)
        ensures
            r == (Reading { ms: 0, sub_ms_nanos: 0 }),
    {
        Reading { ms: 0, sub_ms_nanos: 0 }
    }
}

/// What a reading taken `since_epoch_ms` milliseconds and `subsec_nanos`
/// nanoseconds after 1970-01-01 says: a span too long for 64 bits counts as
/// zero, the offset saturates, and the nanoseconds keep only what lies below
/// a millisecond.
pub open spec fn spec_reading_since_epoch(since_epoch_ms: u128, subsec_nanos: u32) -> Reading {
    let ms: u64 = if since_epoch_ms <= u64::MAX as u128 {
        since_epoch_ms as u64
    } else {
        0
    };
    Reading {
        ms: YEAR_ZERO_TO_EPOCH.saturating_add(ms),
        sub_ms_nanos: subsec_nanos % 1_000_000,
    }
}

impl Reading {
    /// The reading for an instant `since_epoch_ms` milliseconds and
    /// `subsec_nanos` nanoseconds after 1970-01-01.
    pub fn since_epoch(since_epoch_ms: u128, subsec_nanos: u32) -> (r: Reading)
        ensures
            r == spec_reading_since_epoch(since_epoch_ms, subsec_nanos),
            r.sub_ms_nanos < 1_000_000,
    {
        let ms: u64 = if since_epoch_ms <= u64::MAX as u128 {
            since_epoch_ms as u64
        } else {
            0
        };
        Reading { ms: YEAR_ZERO_TO_EPOCH.saturating_add(ms), sub_ms_nanos: subsec_nanos % 1_000_000 }
    }
}

/// What time it is, in the session layer's units.
pub trait Clock {
    /// Milliseconds since 0000-01-01.
    fn now_ms(&mut self) -> u64;

    /// The same instant, plus whatever this clock knows below a millisecond.
    /// A clock that knows only milliseconds answers 0 for the remainder.
    fn now(&mut self) -> (r: Reading)
        default_ensures
            r.sub_ms_nanos == 0,
    {
        Reading { ms: self.now_ms(), sub_ms_nanos: 0 }
    }
}

#[verifier::external_type_specification]
#[verifier::external_body]
pub struct ExSystemTime(std::time::SystemTime);

/// `std::time::SystemTime::now`: the wall clock at the call. Nothing is
/// promised of what it reads.
#[verifier::external_body]
fn system_time_now() -> (r: std::time::SystemTime) {
    std::time::SystemTime::now()
}

/// `SystemTime::duration_since(UNIX_EPOCH)`: the span since 1970-01-01, or
/// `None` for an instant before it. Nothing is promised of which.
#[verifier::external_body]
fn since_unix_epoch(t: std::time::SystemTime) -> (r: Option<core::time::Duration>) {
    match t.duration_since(std::time::UNIX_EPOCH) {
        Ok(d) => Some(d),
        Err(_) => None,
    }
}

/// `Duration::as_millis`: the whole milliseconds in a span.
#[verifier::external_body]
fn duration_millis(d: &core::time::Duration) -> (r: u128) {
    d.as_millis()
}

/// `Duration::subsec_nanos`: the nanoseconds below the span's whole second,
/// which std documents as always less than one billion.
#[verifier::external_body]
fn duration_subsec_nanos(d: &core::time::Duration) -> (r: u32)
    ensures
        r < 1_000_000_000,
{
    d.subsec_nanos()
}

/// The wall clock. The default everywhere but a test.
#[derive(Debug, Clone, Copy, Default)]
pub struct SystemClock;

impl Clock for SystemClock {
    /// The millisecond of one reading of the wall clock: on the year-zero
    /// scale, or 0 for an instant before 1970.
    fn now_ms(&mut self) -> (r: u64)
        ensures
            r == 0 || r >= YEAR_ZERO_TO_EPOCH,
    {
        self.now().ms
    }

    /// One reading of the wall clock, split at the millisecond: the reading
    /// for some span since 1970 (whole milliseconds, and nanoseconds below
    /// the second), or the default reading for an instant before 1970.
    fn now(&mut self) -> (r: Reading)
        ensures
            r == (Reading { ms: 0, sub_ms_nanos: 0 }) || exists|m: u128, n: u32|
                n < 1_000_000_000 && r == #[trigger] spec_reading_since_epoch(m, n),
            r.sub_ms_nanos < 1_000_000,
            r.ms == 0 || r.ms >= YEAR_ZERO_TO_EPOCH,
    {
        match since_unix_epoch(system_time_now()) {
            Some(d) => Reading::since_epoch(duration_millis(&d), duration_subsec_nanos(&d)),
            None => Reading::default(),
        }
    }
}

/// A clock somebody else moves: a harness advances it one heartbeat interval
/// at a step.
#[derive(Debug, Clone, Copy, PartialEq, Eq, Structural)]
pub struct ManualClock {
    now_ms: u64,
}

impl Default for ManualClock {
    fn default() -> (r: Self)
        ensures
            r.spec_now_ms() == 0,
    {
        ManualClock { now_ms: 0 }
    }
}

impl ManualClock {
    /// What the clock reads.
    pub closed spec fn spec_now_ms(&self) -> u64 {
        self.now_ms
    }

    /// A clock reading `now_ms`.
    pub fn at(now_ms: u64) -> (r: Self)
        ensures
            r.spec_now_ms() == now_ms,
    {
        ManualClock { now_ms }
    }

    /// Move it. Backwards is allowed and is the caller's problem.
    pub fn set(&mut self, now_ms: u64)
        ensures
            final(self).spec_now_ms() == now_ms,
    {
        self.now_ms = now_ms;
    }
}

impl Clock for ManualClock {
    fn now_ms(&mut self) -> (r: u64)
        ensures
            r == old(self).spec_now_ms(),
            *final(self) == *old(self),
    {
        self.now_ms
    }

    /// What the clock was set to, and nothing below a millisecond. Reading
    /// does not move it.
    fn now(&mut self) -> (r: Reading)
        ensures
            r == (Reading { ms: old(self).spec_now_ms(), sub_ms_nanos: 0 }),
            *final(self) == *old(self),
    {
        Reading { ms: self.now_ms, sub_ms_nanos: 0 }
    }
}

} // verus!
