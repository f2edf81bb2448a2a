//! The blocking idle turn's timing: how long to wait, and what a wait that
//! has partly passed asks the kernel for.
//!
//! The timeout is a correctness parameter, not a knob: in a blocking engine
//! it is the coarsest grain of time the session sees. A timeout short enough
//! to be a spin is never honoured.

use vstd::prelude::*;

verus! {

/// The default poll timeout, in milliseconds.
pub const DEFAULT_TIMEOUT_MS: u32 = 100;

/// The smallest timeout a blocking wait will accept.
pub const MIN_TIMEOUT_MS: u32 = 5;

/// The timeout actually in force for one asked for: never below
/// [`MIN_TIMEOUT_MS`], raised to it rather than refused.
pub fn timeout_in_force(asked_ms: u32) -> (r: u32)
    ensures
        r == if asked_ms < MIN_TIMEOUT_MS {
            MIN_TIMEOUT_MS
        } else {
            asked_ms
        },
{
    if asked_ms < MIN_TIMEOUT_MS {
        MIN_TIMEOUT_MS
    } else {
        asked_ms
    }
}

/// What `poll` is asked to wait, with `left_ms` whole milliseconds of the
/// timeout remaining: saturated at `i32::MAX` rather than cast, because a
/// wrapped negative timeout would mean waiting forever.
pub fn poll_timeout_ms(left_ms: u128) -> (r: i32)
    ensures
        r >= 0,
        r == if left_ms > i32::MAX as u128 {
            i32::MAX
        } else {
            left_ms as i32
        },
{
    if left_ms > i32::MAX as u128 {
        i32::MAX
    } else {
        left_ms as i32
    }
}

} // verus!
