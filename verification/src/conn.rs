//! One connection's buffers: the bytes read before it existed, and whatever
//! it has written that the socket has not yet taken.
//!
//! The session that judges the bytes and the socket that carries them live
//! with the caller; what is here is the rule for each buffer. **A message is
//! queued whole or not at all**: half a FIX message on the wire is a frame the
//! counterparty cannot recover from.

use vstd::prelude::*;

use crate::frame::Framer;

verus! {

/// What happened to a connection on one turn of the loop.
#[derive(Debug, Clone, Copy, PartialEq, Eq, Structural)]
pub enum Turn {
    /// Still up; `true` if anything at all moved.
    Up(bool),
    /// Finished. The engine drops it after this.
    Gone,
}

/// Put bytes that arrived before the connection existed straight into its
/// receive buffer, so that its first turn frames them as if it had read them.
/// `false`, with nothing taken, when they do not fit: never truncated.
pub fn prime<const RX: usize>(rx: &mut Framer<RX>, bytes: &[u8]) -> (r: bool)
    ensures
        r == (old(rx)@.len() + bytes@.len() <= RX),
        r ==> final(rx)@ == old(rx)@ + bytes@,
        !r ==> final(rx)@ == old(rx)@,
{
    let ghost before = rx@;
    let spare = rx.spare();
    if bytes.len() > spare.len() {
        return false;
    }
    let mut k: usize = 0;
    while k < bytes.len()
        invariant
            k <= bytes@.len() <= spare@.len(),
            spare@.len() == RX - before.len(),
            forall|j: int| 0 <= j < k ==> spare@[j] == bytes@[j],
        decreases bytes@.len() - k,
    {
        spare[k] = bytes[k];
        k = k + 1;
    }
    let ghost written = spare@;
    rx.filled(bytes.len());
    assert(rx@ =~= before + bytes@) by {
        assert(forall|j: int| 0 <= j < bytes@.len() ==> written[j] == bytes@[j]);
    }
    true
}

/// What a connection has written and its socket has not yet taken, in a
/// fixed buffer of `TX` bytes.
pub struct Outbound<const TX: usize> {
    buf: [u8; TX],
    len: usize,
}

impl<const TX: usize> View for Outbound<TX> {
    type V = Seq<u8>;

    /// The bytes waiting, oldest first.
    closed spec fn view(&self) -> Seq<u8> {
        self.buf@.subrange(0, self.len as int)
    }
}

impl<const TX: usize> Outbound<TX> {
    #[verifier::type_invariant]
    closed spec fn inv(self) -> bool {
        self.len <= TX
    }

    /// An empty queue.
    pub fn new() -> (r: Self)
        ensures
            r@ == Seq::<u8>::empty(),
    {
        let r = Outbound { buf: [0u8; TX], len: 0 };
        assert(r@ =~= Seq::<u8>::empty());
        r
    }

    /// Is there anything waiting to go out?
    pub fn has_pending_output(&self) -> (r: bool)
        ensures
            r == (self@.len() > 0),
    {
        proof {
            use_type_invariant(self);
        }
        self.len > 0
    }

    /// The bytes waiting, for the socket.
    pub fn pending(&self) -> (r: &[u8])
        ensures
            r@ == self@,
    {
        proof {
            use_type_invariant(self);
        }
        vstd::slice::slice_subrange(self.buf.as_slice(), 0, self.len)
    }

    /// Queue one whole message, as long as what waits stays within `bound`
    /// bytes. `false`, with nothing queued, when it does not fit.
    pub fn push(&mut self, bytes: &[u8], bound: usize) -> (r: bool)
        requires
            bound <= TX,
        ensures
            r == (old(self)@.len() + bytes@.len() <= bound),
            r ==> final(self)@ == old(self)@ + bytes@,
            !r ==> final(self)@ == old(self)@,
    {
        proof {
            use_type_invariant(&*self);
        }
        if bytes.len() > bound || self.len > bound - bytes.len() {
            return false;
        }
        let ghost before = self@;
        let mut buf = self.buf;
        let mut k: usize = 0;
        while k < bytes.len()
            invariant
                self.len + bytes@.len() <= TX,
                k <= bytes@.len(),
                buf@.len() == TX,
                forall|j: int| 0 <= j < self.len ==> buf@[j] == self.buf@[j],
                forall|j: int| 0 <= j < k ==> buf@[self.len + j] == bytes@[j],
            decreases bytes@.len() - k,
        {
            buf[self.len + k] = bytes[k];
            k = k + 1;
        }
        let len = self.len + bytes.len();
        *self = Outbound { buf, len };
        assert(self@ =~= before + bytes@);
        true
    }

    /// The socket took the first `n` waiting bytes: the rest move to the
    /// front. More than is waiting empties the queue.
    pub fn sent(&mut self, n: usize)
        ensures
            final(self)@ == if n <= old(self)@.len() {
                old(self)@.subrange(n as int, old(self)@.len() as int)
            } else {
                Seq::<u8>::empty()
            },
    {
        proof {
            use_type_invariant(&*self);
        }
        if n >= self.len {
            self.len = 0;
            assert(self@ =~= Seq::<u8>::empty());
            return;
        }
        let ghost before = self@;
        let mut buf = self.buf;
        let rest = self.len - n;
        let mut k: usize = 0;
        while k < rest
            invariant
                n + rest == self.len <= TX,
                k <= rest,
                buf@.len() == TX,
                forall|j: int| 0 <= j < k ==> buf@[j] == self.buf@[n + j],
                forall|j: int| k <= j < TX ==> buf@[j] == self.buf@[j],
            decreases rest - k,
        {
            buf[k] = buf[n + k];
            k = k + 1;
        }
        *self = Outbound { buf, len: rest };
        assert(self@ =~= before.subrange(n as int, before.len() as int));
    }

    /// Throw away everything waiting: the queue of a counterparty that has
    /// stopped reading, so that the `Logout` saying so has room.
    pub fn clear(&mut self)
        ensures
            final(self)@ == Seq::<u8>::empty(),
    {
        self.len = 0;
        assert(self@ =~= Seq::<u8>::empty());
    }
}

} // verus!
