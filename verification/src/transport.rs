//! What the engine asks of a socket: non-blocking reads and writes, each
//! answering what happened.

use vstd::prelude::*;

verus! {

/// What one non-blocking call on a transport did.
#[derive(Debug, Clone, Copy, PartialEq, Eq, Structural)]
pub enum Io {
    /// This many bytes moved.
    Ready(usize),
    /// Nothing to do right now.
    Idle,
    /// The peer has gone.
    Closed,
    /// The call failed, with the OS error number.
    Failed(i32),
}

/// A non-blocking byte stream: a socket, a TLS session over one, or a test's
/// loopback. Every "nothing yet" is [`Io::Idle`], never a wait.
pub trait Transport {
    /// Read what has arrived into `buf`.
    fn recv(&mut self, buf: &mut [u8]) -> Io;

    /// Offer `bytes`; a short write is ordinary.
    fn send(&mut self, bytes: &[u8]) -> Io;
}

} // verus!
