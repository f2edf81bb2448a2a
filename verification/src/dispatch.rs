//! Where a message goes once the session layer has finished with it.
//!
//! Dispatch is a choice, and **inline is the default**: the handler runs on
//! the engine thread, immediately, and its reply is returned from the same
//! call. A ring to another thread is the option for an application that may
//! block.

use vstd::prelude::*;
use vstd::bytes::{
    spec_u32_from_le_bytes, spec_u32_to_le_bytes, spec_u64_from_le_bytes, spec_u64_to_le_bytes,
    u32_from_le_bytes, u32_to_le_bytes, u64_from_le_bytes, u64_to_le_bytes,
};

verus! {

/// Which connection a message belongs to.
///
/// A number rather than an index: a dead connection is removed with
/// `swap_remove`, so an index is stale the moment anything hangs up, and a
/// reply routed by a stale index goes to the wrong counterparty.
pub type ConnId = u64;

/// The stamp the session hands an application, in bytes. 21 with
/// milliseconds.
pub const STAMP: usize = 21;

/// An application, as a dispatch hands it one message: its number, the
/// stamp to write into a reply, and room for that reply. The answer is where
/// in `out` the reply lies, if there is one.
pub trait Handler {
    /// One message, judged and in order.
    fn on_message(
        &mut self,
        msg: &[u8],
        seq: u32,
        stamp: &[u8],
        out: &mut [u8],
    ) -> Option<core::ops::Range<usize>>;
}

/// Where the engine hands each message the session accepted.
pub trait Dispatch {
    /// Whether replies come back on another thread, for [`Self::collect`] to
    /// fetch. An inline dispatch answers within [`Self::deliver`].
    fn out_of_band(&self) -> bool;

    /// One message for the application, from connection `conn`. An inline
    /// dispatch answers here; one with a thread behind it answers `None` and
    /// replies later.
    fn deliver(
        &mut self,
        conn: ConnId,
        msg: &[u8],
        seq: u32,
        stamp: &[u8],
        out: &mut [u8],
    ) -> Option<core::ops::Range<usize>>;

    /// Every reply produced elsewhere since the last call, each with its
    /// connection.
    fn collect<F: FnMut(ConnId, &[u8])>(&mut self, emit: F);

    /// Whether the message just delivered was refused because the way to
    /// the application was full. The connection it happened on is the one
    /// the engine just turned.
    fn take_refusal(&mut self) -> (r: bool)
        default_ensures
            !r,
    {
        false
    }
}


/// A record going out to an application on another thread starts with the
/// connection, the number and the stamp: 8 + 4 + [`STAMP`] bytes.
pub const OUT_HEADER: usize = 33;

/// A reply coming back starts with just the connection.
pub const BACK_HEADER: usize = 8;

/// The header of a record to the application: the connection and the number
/// little-endian, then the stamp, cut to [`STAMP`] bytes and padded with
/// zeros.
pub open spec fn spec_out_header(conn: ConnId, seq: u32, stamp: Seq<u8>) -> Seq<u8> {
    let n = if stamp.len() < STAMP {
        stamp.len() as int
    } else {
        STAMP as int
    };
    spec_u64_to_le_bytes(conn) + spec_u32_to_le_bytes(seq) + stamp.take(n) + Seq::new(
        (STAMP - n) as nat,
        |i: int| 0u8,
    )
}

/// Lay out the header of a record to the application.
pub fn out_header(conn: ConnId, seq: u32, stamp: &[u8]) -> (r: [u8; 33])
    ensures
        r@ == spec_out_header(conn, seq, stamp@),
{
    let mut fixed = [0u8; 33];
    let c = u64_to_le_bytes(conn);
    let q = u32_to_le_bytes(seq);
    proof {
        vstd::bytes::lemma_auto_spec_u64_to_from_le_bytes();
        vstd::bytes::lemma_auto_spec_u32_to_from_le_bytes();
    }
    let mut i: usize = 0;
    while i < 8
        invariant
            i <= 8,
            c@.len() == 8,
            fixed@.len() == 33,
            forall|j: int| 0 <= j < i ==> fixed@[j] == c@[j],
            forall|j: int| 8 <= j < 33 ==> fixed@[j] == 0u8,
        decreases 8 - i,
    {
        fixed[i] = c[i];
        i = i + 1;
    }
    let mut i: usize = 0;
    while i < 4
        invariant
            i <= 4,
            c@.len() == 8,
            q@.len() == 4,
            fixed@.len() == 33,
            forall|j: int| 0 <= j < 8 ==> fixed@[j] == c@[j],
            forall|j: int| 0 <= j < i ==> fixed@[8 + j] == q@[j],
            forall|j: int| 12 <= j < 33 ==> fixed@[j] == 0u8,
        decreases 4 - i,
    {
        fixed[8 + i] = q[i];
        i = i + 1;
    }
    let n = if stamp.len() < STAMP {
        stamp.len()
    } else {
        STAMP
    };
    let mut i: usize = 0;
    while i < n
        invariant
            i <= n <= STAMP,
            n <= stamp@.len(),
            c@.len() == 8,
            q@.len() == 4,
            fixed@.len() == 33,
            forall|j: int| 0 <= j < 8 ==> fixed@[j] == c@[j],
            forall|j: int| 0 <= j < 4 ==> fixed@[8 + j] == q@[j],
            forall|j: int| 0 <= j < i ==> fixed@[12 + j] == stamp@[j],
            forall|j: int| 12 + i <= j < 33 ==> fixed@[j] == 0u8,
        decreases n - i,
    {
        fixed[12 + i] = stamp[i];
        i = i + 1;
    }
    assert(fixed@ =~= spec_out_header(conn, seq, stamp@));
    fixed
}

/// What a record from the engine names: its connection and number, or
/// `None` for one shorter than its header.
pub open spec fn spec_from_engine(record: Seq<u8>) -> Option<(ConnId, u32)> {
    if record.len() < OUT_HEADER {
        None
    } else {
        Some((spec_u64_from_le_bytes(record.take(8)), spec_u32_from_le_bytes(record.subrange(8, 12))))
    }
}

/// Read the header of a record from the engine.
pub fn from_engine(record: &[u8]) -> (r: Option<(ConnId, u32)>)
    ensures
        r == spec_from_engine(record@),
{
    if record.len() < OUT_HEADER {
        return None;
    }
    let conn = u64_from_le_bytes(vstd::slice::slice_subrange(record, 0, 8));
    let seq = u32_from_le_bytes(vstd::slice::slice_subrange(record, 8, 12));
    assert(record@.subrange(0, 8) =~= record@.take(8));
    Some((conn, seq))
}

/// What a reply from the application names: its connection, or `None` for
/// one shorter than its header.
pub open spec fn spec_from_app(record: Seq<u8>) -> Option<ConnId> {
    if record.len() < BACK_HEADER {
        None
    } else {
        Some(spec_u64_from_le_bytes(record.take(8)))
    }
}

/// Read the header of a reply from the application.
pub fn from_app(record: &[u8]) -> (r: Option<ConnId>)
    ensures
        r == spec_from_app(record@),
{
    if record.len() < BACK_HEADER {
        return None;
    }
    let conn = u64_from_le_bytes(vstd::slice::slice_subrange(record, 0, 8));
    assert(record@.subrange(0, 8) =~= record@.take(8));
    Some(conn)
}

/// A record laid out for the application reads back as the connection and
/// number it was laid out with, whatever message follows it.
pub proof fn law_out_header_reads_back(conn: ConnId, seq: u32, stamp: Seq<u8>, msg: Seq<u8>)
    ensures
        spec_from_engine(spec_out_header(conn, seq, stamp) + msg) == Some((conn, seq)),
{
    vstd::bytes::lemma_auto_spec_u64_to_from_le_bytes();
    vstd::bytes::lemma_auto_spec_u32_to_from_le_bytes();
    let r = spec_out_header(conn, seq, stamp) + msg;
    assert(r.take(8) =~= spec_u64_to_le_bytes(conn));
    assert(r.subrange(8, 12) =~= spec_u32_to_le_bytes(seq));
}

/// The handler runs on the engine thread. The default.
pub struct InlineDispatch<H> {
    handler: H,
}

impl<H> InlineDispatch<H> {
    /// The application this dispatch hands messages to.
    pub closed spec fn spec_handler(&self) -> H {
        self.handler
    }

    /// Wrap an application.
    pub fn new(handler: H) -> (r: Self)
        ensures
            r.spec_handler() == handler,
    {
        Self { handler }
    }

    /// The application, for a caller that wants to look at what it recorded.
    pub fn handler_mut(&mut self) -> (r: &mut H)
        ensures
            *r == old(self).spec_handler(),
            final(self).spec_handler() == *final(r),
    {
        &mut self.handler
    }
}

impl<H: Handler> Dispatch for InlineDispatch<H> {
    fn out_of_band(&self) -> (r: bool)
        ensures
            !r,
    {
        false
    }

    fn deliver(
        &mut self,
        conn: ConnId,
        msg: &[u8],
        seq: u32,
        stamp: &[u8],
        out: &mut [u8],
    ) -> Option<core::ops::Range<usize>> {
        self.handler.on_message(msg, seq, stamp, out)
    }

    fn collect<F: FnMut(ConnId, &[u8])>(&mut self, emit: F) {
    }
}

} // verus!
