//! What happens when the counterparty stops reading.
//!
//! A slow counterparty fills the socket's send buffer; the engine must not
//! block the session machine and must not drop protocol messages in silence.
//! The queue is the connection's own `TX` buffer, sized at startup and never
//! grown.

use vstd::prelude::*;

verus! {

/// What a connection does when its outbound queue is full.
#[derive(Debug, Clone, Copy, PartialEq, Eq, Structural)]
pub enum Backpressure {
    /// Queue into the whole of the connection's `TX` buffer; when that will
    /// not take the next message, end the session with
    /// `Logout(58=slow consumer)`. The default.
    Disconnect,
    /// The same, with a bound tighter than `TX`. A bound larger than `TX` is
    /// not honoured: `TX` is the buffer that exists.
    Queue {
        /// How many bytes may wait.
        max_bytes: usize,
    },
    /// Spin on the socket until it takes the bytes. Never a default.
    Block,
}

impl Default for Backpressure {
    fn default() -> (r: Self)
        ensures
            r == Backpressure::Disconnect,
    {
        Backpressure::Disconnect
    }
}

impl Backpressure {
    /// The bound a policy puts on a `TX` buffer of `tx` bytes.
    pub open spec fn spec_bound(self, tx: usize) -> usize {
        match self {
            Backpressure::Queue { max_bytes } => if max_bytes < tx {
                max_bytes
            } else {
                tx
            },
            _ => tx,
        }
    }

    /// How many bytes may wait, given a `TX` buffer of `tx`.
    pub fn bound(self, tx: usize) -> (r: usize)
        ensures
            r == self.spec_bound(tx),
            r <= tx,
    {
        match self {
            Backpressure::Disconnect | Backpressure::Block => tx,
            Backpressure::Queue { max_bytes } => {
                if max_bytes < tx {
                    max_bytes
                } else {
                    tx
                }
            },
        }
    }

    /// Whether a full queue should be waited out rather than ended.
    pub fn blocks(self) -> (r: bool)
        ensures
            r == (self is Block),
    {
        matches!(self, Backpressure::Block)
    }
}

/// The `58=` a session ends with when its queue filled.
pub const SLOW_CONSUMER: &'static str = "slow consumer";

/// The `58=` a session ends with when the ring to the application filled.
/// Deliberately not [`SLOW_CONSUMER`]: that one blames the counterparty, and
/// this one is our own application falling behind.
pub const SLOW_APPLICATION: &'static str = "slow application";

} // verus!
