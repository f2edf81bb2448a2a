//! What one `poll(2)` asked for and what its answer means.
//!
//! The call itself, and the buffer of `pollfd`s it fills, live with the
//! caller. What is here is the part that decides: which events a source asks
//! for, what a failed call's `errno` means, and how the `revents` the kernel
//! wrote become an answer. **A descriptor the kernel does not know is never
//! readiness**: `poll` counts it among its return value, so the flags are
//! counted instead.

use vstd::prelude::*;

verus! {

/// Why a wait did not produce an answer.
#[derive(Debug, Clone, Copy, PartialEq, Eq, Structural)]
pub enum PollError {
    /// A signal arrived while waiting: not an error and not a wakeup; the
    /// caller waits again for what is left.
    Interrupted,
    /// The kernel does not know one of these descriptors.
    BadSource,
    /// The OS refused, and this is its `errno`.
    Failed(i32),
}

/// What one wait saw.
#[derive(Debug, Clone, Copy, PartialEq, Eq, Structural)]
pub struct Ready {
    /// How many sources are readable, writable, or have hung up.
    pub count: usize,
}

/// `libc::POLLIN` on Linux, per the `libc` crate: `0x1`.
#[verifier::external_body]
fn poll_in() -> (r: i16)
    ensures
        r == 1,
{
    libc::POLLIN
}

/// `libc::POLLOUT` on Linux, per the `libc` crate: `0x4`.
#[verifier::external_body]
fn poll_out() -> (r: i16)
    ensures
        r == 4,
{
    libc::POLLOUT
}

/// `libc::POLLNVAL` on Linux, per the `libc` crate: `0x20`.
#[verifier::external_body]
fn poll_nval() -> (r: i16)
    ensures
        r == 0x20,
{
    libc::POLLNVAL
}

/// `libc::EINTR` on Linux, per the `libc` crate: 4.
#[verifier::external_body]
fn errno_eintr() -> (r: i32)
    ensures
        r == 4,
{
    libc::EINTR
}

/// The events one source asks for: readable always, writable when asked.
pub fn events_for(writable: bool) -> (r: i16)
    ensures
        r == if writable {
            5i16
        } else {
            1i16
        },
{
    let events = poll_in();
    if writable {
        let out = poll_out();
        assert(1i16 | 4i16 == 5i16) by (bit_vector);
        events | out
    } else {
        events
    }
}

/// What a failed `poll` means, from its `errno`.
pub fn failure(errno: i32) -> (r: PollError)
    ensures
        r == if errno == 4 {
            PollError::Interrupted
        } else {
            PollError::Failed(errno)
        },
{
    if errno == errno_eintr() {
        PollError::Interrupted
    } else {
        PollError::Failed(errno)
    }
}

/// How many of `revents` report anything at all.
pub open spec fn count_ready(revents: Seq<i16>) -> nat
    decreases revents.len(),
{
    if revents.len() == 0 {
        0
    } else {
        count_ready(revents.drop_last()) + if revents.last() != 0 {
            1nat
        } else {
            0nat
        }
    }
}

/// Does any of `revents` say the kernel does not know its descriptor?
pub open spec fn any_invalid(revents: Seq<i16>) -> bool {
    exists|i: int| 0 <= i < revents.len() && revents[i] & 0x20i16 != 0
}


/// The answer a successful `poll` gives, read from the `revents` it wrote:
/// `BadSource` if any descriptor was unknown to the kernel, else how many
/// reported anything.
pub fn readiness(revents: &[i16]) -> (r: Result<Ready, PollError>)
    ensures
        any_invalid(revents@) ==> r == Err::<Ready, PollError>(PollError::BadSource),
        !any_invalid(revents@) ==> r == Ok::<Ready, PollError>(
            Ready { count: count_ready(revents@) as usize },
        ),
{
    let nval = poll_nval();
    let mut count: usize = 0;
    let mut i: usize = 0;
    while i < revents.len()
        invariant
            nval == 0x20,
            i <= revents@.len(),
            count == count_ready(revents@.subrange(0, i as int)),
            count <= i,
            forall|j: int| 0 <= j < i ==> revents@[j] & 0x20i16 == 0,
        decreases revents@.len() - i,
    {
        let ghost pre = revents@.subrange(0, i as int);
        assert(revents@.subrange(0, i + 1).drop_last() =~= pre);
        if revents[i] & nval != 0 {
            return Err(PollError::BadSource);
        }
        if revents[i] != 0 {
            count = count + 1;
        }
        i = i + 1;
    }
    assert(revents@.subrange(0, revents@.len() as int) =~= revents@);
    Ok(Ready { count })
}

} // verus!
