//! Every message this engine saw or sent, one line each, in a file.
//!
//! The first question a FIX desk asks in a dispute is *"at 10:32:07, what did
//! we receive and what did we send?"* The journal keeps outbound application
//! messages only; this log keeps every frame, inbound and outbound, including
//! those refused before a session saw them.
//!
//! On the engine thread a record costs one push into a ring; formatting,
//! escaping and the file happen on a writer thread. What is verified here is
//! what that writer writes: the direction labels, the numbers, and the escape
//! that keeps one message on one line — and its inverse, for anything reading
//! the file back.

use vstd::prelude::*;
use crate::dispatch::ConnId;
use crate::frame::pow10;
use vstd::string::StringSliceAdditionalSpecFns;
use vstd::bytes::{spec_u16_from_le_bytes, spec_u64_from_le_bytes, u16_from_le_bytes, u64_from_le_bytes};

verus! {

/// The longest message this log will carry, in bytes.
pub const MAX_RECORD: usize = 4096;

/// Which way a message was going.
#[derive(Clone, Copy, Debug, PartialEq, Eq, Structural)]
pub enum Direction {
    /// Read off the socket, before the session judged it. Garbage included.
    In,
    /// Handed to the outbound queue: queued for sending, not on the wire.
    Out,
    /// Not a message: a connection was accepted, and these bytes are its peer
    /// address. Pushed once per connection.
    Open,
}

impl Direction {
    /// The byte a record carries its direction in.
    pub open spec fn spec_tag(self) -> u8 {
        match self {
            Direction::In => 0u8,
            Direction::Out => 1u8,
            Direction::Open => 2u8,
        }
    }

    /// The byte a record carries its direction in.
    pub fn tag(self) -> (r: u8)
        ensures
            r == self.spec_tag(),
    {
        match self {
            Direction::In => 0,
            Direction::Out => 1,
            Direction::Open => 2,
        }
    }

    /// The direction a record's first byte names, or `None` for a byte no
    /// direction is written as.
    pub fn from_tag(tag: u8) -> (r: Option<Self>)
        ensures
            r matches Some(d) ==> d.spec_tag() == tag,
            r is None <==> tag > 2,
    {
        match tag {
            0 => Some(Direction::In),
            1 => Some(Direction::Out),
            2 => Some(Direction::Open),
            _ => None,
        }
    }

    /// The three-character label a line carries.
    pub fn label(self) -> (r: &'static str)
        ensures
            self is In ==> r@ == "IN "@,
            self is Out ==> r@ == "OUT"@,
            self is Open ==> r@ == "OPN"@,
    {
        match self {
            Direction::In => "IN ",
            Direction::Out => "OUT",
            Direction::Open => "OPN",
        }
    }
}

/// **A direction survives the trip through its tag.**
pub proof fn law_direction_tag_round_trips(d: Direction)
    ensures
        d.spec_tag() <= 2,
        ({
            let t = d.spec_tag();
            (t == 0u8 ==> d is In) && (t == 1u8 ==> d is Out) && (t == 2u8 ==> d is Open)
        }),
{
}

/// Somewhere for the engine to put what it saw.
///
/// Implemented by [`NoLog`], the default, which records nothing. A log must
/// not block, must not allocate and must not touch the disk on the engine
/// thread.
pub trait MessageLog {
    /// One message, going one way, at `at_ms` on the engine's year-zero clock.
    fn record(&mut self, dir: Direction, at_ms: u64, shard: u16, id: ConnId, bytes: &[u8]);

    /// Records that never reached the file, for any reason.
    fn lost(&self) -> u64;

    /// `false` when this log records nothing, so a call site can fold the
    /// whole hook away.
    fn logs(&self) -> bool;
}

/// The default: records nothing, costs nothing.
#[derive(Clone, Copy, Debug)]
pub struct NoLog;

impl MessageLog for NoLog {
    fn record(&mut self, _dir: Direction, _at_ms: u64, _shard: u16, _id: ConnId, _bytes: &[u8]) {
    }

    fn lost(&self) -> (r: u64)
        ensures
            r == 0,
    {
        0
    }

    fn logs(&self) -> (r: bool)
        ensures
            !r,
    {
        false
    }
}

/// The ASCII decimal digits of `n`, most significant first.
pub open spec fn decimal(n: nat) -> Seq<u8>
    decreases n,
{
    if n < 10 {
        seq![(48 + n) as u8]
    } else {
        decimal(n / 10).push((48 + n % 10) as u8)
    }
}

proof fn lemma_decimal_len(n: nat, k: nat)
    requires
        k >= 1,
        n < pow10(k),
    ensures
        decimal(n).len() <= k,
    decreases n,
{
    if n >= 10 {
        assert(n / 10 < pow10((k - 1) as nat)) by (nonlinear_arith)
            requires
                n < pow10(k),
                k >= 1,
                pow10(k) == 10 * pow10((k - 1) as nat),
        ;
        if k == 1 {
            assert(pow10(1) == 10) by {
                reveal_with_fuel(pow10, 2);
            }
        } else {
            lemma_decimal_len(n / 10, (k - 1) as nat);
        }
    }
}


/// A record's header as the engine pushes it to the log's writer: the
/// direction's tag, eight bytes of milliseconds, two of shard, eight of
/// connection.
pub const REC_HEADER: usize = 19;

/// The one-byte record that tells the log's writer to finish.
pub const LOG_STOP: u8 = 0xFFu8;

/// What the log's writer found in one pop of its ring.
#[derive(Clone, Copy, Debug, PartialEq, Eq, Structural)]
pub enum LogPop {
    /// The ring was empty.
    Dry,
    /// A record was dropped or could not be read: one more lost.
    Lost,
    /// The stop record: flush and return.
    Stop,
    /// A record to write as a line; its payload follows the header.
    Entry {
        /// Which way it went.
        dir: Direction,
        /// When, in milliseconds since 0000-01-01.
        at_ms: u64,
        /// Which shard's engine.
        shard: u16,
        /// Which connection.
        id: ConnId,
    },
}

/// What a pop that answered `popped` into a buffer holding `buf` found.
pub open spec fn spec_log_pop(popped: Option<usize>, buf: Seq<u8>) -> LogPop {
    match popped {
        None => LogPop::Dry,
        Some(n) => if n == 0 {
            LogPop::Lost
        } else if n == 1 && buf[0] == LOG_STOP {
            LogPop::Stop
        } else if n < REC_HEADER {
            LogPop::Lost
        } else if buf[0] > 2 {
            LogPop::Lost
        } else {
            LogPop::Entry {
                dir: if buf[0] == 0 {
                    Direction::In
                } else if buf[0] == 1 {
                    Direction::Out
                } else {
                    Direction::Open
                },
                at_ms: spec_u64_from_le_bytes(buf.subrange(1, 9)),
                shard: spec_u16_from_le_bytes(buf.subrange(9, 11)),
                id: spec_u64_from_le_bytes(buf.subrange(11, 19)),
            }
        },
    }
}

/// Read one pop of the log's ring.
pub fn log_pop(popped: Option<usize>, buf: &[u8]) -> (r: LogPop)
    requires
        popped matches Some(n) ==> n <= buf@.len(),
    ensures
        r == spec_log_pop(popped, buf@),
{
    match popped {
        None => LogPop::Dry,
        Some(n) => {
            if n == 0 {
                return LogPop::Lost;
            }
            if n == 1 && buf[0] == LOG_STOP {
                return LogPop::Stop;
            }
            if n < REC_HEADER {
                return LogPop::Lost;
            }
            let dir = match Direction::from_tag(buf[0]) {
                Some(d) => d,
                None => return LogPop::Lost,
            };
            let at_ms = u64_from_le_bytes(vstd::slice::slice_subrange(buf, 1, 9));
            let shard = u16_from_le_bytes(vstd::slice::slice_subrange(buf, 9, 11));
            let id = u64_from_le_bytes(vstd::slice::slice_subrange(buf, 11, 19));
            LogPop::Entry { dir, at_ms, shard, id }
        },
    }
}

/// The three bytes a line names its direction with.
pub open spec fn label_bytes(d: Direction) -> Seq<u8> {
    match d {
        Direction::In => seq![73u8, 78u8, 32u8],
        Direction::Out => seq![79u8, 85u8, 84u8],
        Direction::Open => seq![79u8, 80u8, 78u8],
    }
}

/// `# conn=`
pub open spec fn lit_conn_hash() -> Seq<u8> {
    seq![35u8, 32u8, 99u8, 111u8, 110u8, 110u8, 61u8]
}

/// ` shard=`
pub open spec fn lit_shard() -> Seq<u8> {
    seq![32u8, 115u8, 104u8, 97u8, 114u8, 100u8, 61u8]
}

/// ` peer=`
pub open spec fn lit_peer_sp() -> Seq<u8> {
    seq![32u8, 112u8, 101u8, 101u8, 114u8, 61u8]
}

/// ` opened at `
pub open spec fn lit_opened_at() -> Seq<u8> {
    seq![32u8, 111u8, 112u8, 101u8, 110u8, 101u8, 100u8, 32u8, 97u8, 116u8, 32u8]
}

/// ` conn=`
pub open spec fn lit_conn() -> Seq<u8> {
    seq![32u8, 99u8, 111u8, 110u8, 110u8, 61u8]
}

/// `peer=`
pub open spec fn lit_peer() -> Seq<u8> {
    seq![112u8, 101u8, 101u8, 114u8, 61u8]
}

/// The line for a connection being opened:
/// `# conn=<id> shard=<shard> peer=<peer> opened at <stamp>` and a newline.
pub open spec fn spec_open_line(id: ConnId, shard: u16, peer: Seq<u8>, stamp: Seq<u8>) -> Seq<u8> {
    lit_conn_hash() + decimal(id as nat) + lit_shard() + decimal(shard as nat) + lit_peer_sp()
        + peer + lit_opened_at() + stamp + seq![10u8]
}

/// The line for one message:
/// `<stamp> <DIR> shard=<shard> conn=<id> [peer=<peer> ]<escaped bytes>` and
/// a newline.
pub open spec fn spec_message_line(
    stamp: Seq<u8>,
    dir: Direction,
    shard: u16,
    id: ConnId,
    peer: Option<Seq<u8>>,
    payload: Seq<u8>,
) -> Seq<u8> {
    stamp + seq![32u8] + label_bytes(dir) + lit_shard() + decimal(shard as nat) + lit_conn()
        + decimal(id as nat) + seq![32u8] + match peer {
        Some(p) => lit_peer() + p + seq![32u8],
        None => Seq::empty(),
    } + escape(payload) + seq![10u8]
}

fn push_bytes(out: &mut Vec<u8>, bytes: &[u8])
    ensures
        final(out)@ == old(out)@ + bytes@,
{
    let mut i: usize = 0;
    while i < bytes.len()
        invariant
            i <= bytes@.len(),
            out@ == old(out)@ + bytes@.take(i as int),
        decreases bytes@.len() - i,
    {
        out.push(bytes[i]);
        i = i + 1;
        assert(bytes@.take(i as int) =~= bytes@.take(i - 1).push(bytes@[i - 1]));
    }
    assert(bytes@.take(i as int) =~= bytes@);
}

/// The file name of shard `shard`'s log, given the name the operator chose:
/// `messages.log` becomes `messages.log.0`, `messages.log.1`, and so on.
pub fn shard_file_name(base: &[u8], shard: usize) -> (r: Vec<u8>)
    ensures
        r@ == base@ + seq![46u8] + decimal(shard as nat),
{
    let mut out: Vec<u8> = Vec::new();
    push_bytes(&mut out, base);
    out.push(46u8);
    push_num(shard as u64, &mut out);
    out
}

/// The line the log's writer appends for a connection being opened.
pub fn open_line(id: ConnId, shard: u16, peer: &[u8], stamp: &[u8]) -> (r: Vec<u8>)
    ensures
        r@ == spec_open_line(id, shard, peer@, stamp@),
{
    let mut line: Vec<u8> = Vec::new();
    let a: [u8; 7] = [35u8, 32u8, 99u8, 111u8, 110u8, 110u8, 61u8];
    let b: [u8; 7] = [32u8, 115u8, 104u8, 97u8, 114u8, 100u8, 61u8];
    let c: [u8; 6] = [32u8, 112u8, 101u8, 101u8, 114u8, 61u8];
    let d: [u8; 11] = [32u8, 111u8, 112u8, 101u8, 110u8, 101u8, 100u8, 32u8, 97u8, 116u8, 32u8];
    assert(a@ =~= lit_conn_hash());
    assert(b@ =~= lit_shard());
    assert(c@ =~= lit_peer_sp());
    assert(d@ =~= lit_opened_at());
    push_bytes(&mut line, &a);
    push_num(id, &mut line);
    push_bytes(&mut line, &b);
    push_num(shard as u64, &mut line);
    push_bytes(&mut line, &c);
    push_bytes(&mut line, peer);
    push_bytes(&mut line, &d);
    push_bytes(&mut line, stamp);
    line.push(10u8);
    line
}

/// The line the log's writer appends for one message.
pub fn message_line(
    stamp: &[u8],
    dir: Direction,
    shard: u16,
    id: ConnId,
    peer: Option<&[u8]>,
    payload: &[u8],
) -> (r: Vec<u8>)
    ensures
        r@ == spec_message_line(
            stamp@,
            dir,
            shard,
            id,
            match peer {
                Some(p) => Some(p@),
                None => None,
            },
            payload@,
        ),
{
    let mut line: Vec<u8> = Vec::new();
    push_bytes(&mut line, stamp);
    line.push(32u8);
    let label: [u8; 3] = match dir {
        Direction::In => [73u8, 78u8, 32u8],
        Direction::Out => [79u8, 85u8, 84u8],
        Direction::Open => [79u8, 80u8, 78u8],
    };
    assert(label@ =~= label_bytes(dir));
    push_bytes(&mut line, &label);
    let b: [u8; 7] = [32u8, 115u8, 104u8, 97u8, 114u8, 100u8, 61u8];
    let c: [u8; 6] = [32u8, 99u8, 111u8, 110u8, 110u8, 61u8];
    assert(b@ =~= lit_shard());
    assert(c@ =~= lit_conn());
    push_bytes(&mut line, &b);
    push_num(shard as u64, &mut line);
    push_bytes(&mut line, &c);
    push_num(id, &mut line);
    line.push(32u8);
    let ghost before_peer = line@;
    match peer {
        Some(p) => {
            let e: [u8; 5] = [112u8, 101u8, 101u8, 114u8, 61u8];
            assert(e@ =~= lit_peer());
            push_bytes(&mut line, &e);
            push_bytes(&mut line, p);
            line.push(32u8);
            assert(line@ =~= before_peer + (lit_peer() + p@ + seq![32u8]));
        },
        None => {
            assert(line@ =~= before_peer + Seq::<u8>::empty());
        },
    }
    escape_into(payload, &mut line);
    line.push(10u8);
    line
}

/// A `u64` written into `out` as decimal digits, without allocating a string.
pub fn push_num(n: u64, out: &mut Vec<u8>)
    ensures
        final(out)@ == old(out)@ + decimal(n as nat),
{
    let ghost orig = n as nat;
    proof {
        assert(pow10(20) == 100_000_000_000_000_000_000) by {
            reveal_with_fuel(pow10, 21);
        }
        lemma_decimal_len(orig, 20);
    }
    let mut digits = [0u8; 20];
    let mut at: usize = 20;
    let mut n = n;
    loop
        invariant_except_break
            decimal(n as nat).len() <= at,
            decimal(orig) == decimal(n as nat) + digits@.subrange(at as int, 20),
        invariant
            at <= 20,
            digits@.len() == 20,
        ensures
            decimal(orig) == digits@.subrange(at as int, 20),
        decreases n,
    {
        let d = (n % 10) as u8;
        let ghost before = digits@.subrange(at as int, 20);
        at = at - 1;
        digits[at] = 48 + d;
        let ghost dec = decimal(n as nat);
        n = n / 10;
        proof {
            assert(digits@.subrange(at as int, 20) =~= seq![(48 + d) as u8] + before);
        }
        if n == 0 {
            assert(dec =~= seq![(48 + d) as u8]);
            assert(decimal(orig) =~= digits@.subrange(at as int, 20));
            break;
        }
        proof {
            assert(dec == decimal(n as nat).push((48 + d) as u8));
            assert(decimal(n as nat) + digits@.subrange(at as int, 20) =~= dec + before);
        }
    }
    let mut i = at;
    while i < 20
        invariant
            at <= i <= 20,
            digits@.len() == 20,
            out@ == old(out)@ + digits@.subrange(at as int, i as int),
            decimal(orig) == digits@.subrange(at as int, 20),
        decreases 20 - i,
    {
        out.push(digits[i]);
        i = i + 1;
        proof {
            assert(digits@.subrange(at as int, i as int) =~= digits@.subrange(at as int, i - 1)
                .push(digits@[i - 1]));
        }
    }
}

/// How one byte is written into the file: `\` → `\\`, newline → `\n`,
/// carriage return → `\r`, anything else — SOH in particular — as itself.
pub open spec fn escape_byte(b: u8) -> Seq<u8> {
    if b == 92u8 {
        seq![92u8, 92u8]
    } else if b == 10u8 {
        seq![92u8, 110u8]
    } else if b == 13u8 {
        seq![92u8, 114u8]
    } else {
        seq![b]
    }
}

/// How bytes are written into the file, one after another.
pub open spec fn escape(s: Seq<u8>) -> Seq<u8>
    decreases s.len(),
{
    if s.len() == 0 {
        Seq::empty()
    } else {
        escape_byte(s[0]) + escape(s.skip(1))
    }
}

/// How a line is read back: `\\`, `\n`, `\r` undone, and a backslash before
/// anything else, or at the very end, kept as it is.
pub open spec fn unescape_spec(s: Seq<u8>) -> Seq<u8>
    decreases s.len(),
{
    if s.len() == 0 {
        Seq::empty()
    } else if s[0] == 92u8 && s.len() >= 2 {
        let one = if s[1] == 92u8 {
            seq![92u8]
        } else if s[1] == 110u8 {
            seq![10u8]
        } else if s[1] == 114u8 {
            seq![13u8]
        } else {
            seq![92u8, s[1]]
        };
        one + unescape_spec(s.skip(2))
    } else {
        seq![s[0]] + unescape_spec(s.skip(1))
    }
}

proof fn lemma_escape_push(s: Seq<u8>, b: u8)
    ensures
        escape(s.push(b)) == escape(s) + escape_byte(b),
    decreases s.len(),
{
    if s.len() == 0 {
        assert(s.push(b).skip(1) =~= Seq::<u8>::empty());
        assert(escape(Seq::<u8>::empty()) =~= Seq::<u8>::empty());
        assert(escape(s) =~= Seq::<u8>::empty());
        assert(escape(s.push(b)) =~= escape_byte(b) + escape(s.push(b).skip(1)));
        assert(escape(s.push(b)) =~= escape_byte(b));
    } else {
        assert(s.push(b).skip(1) =~= s.skip(1).push(b));
        lemma_escape_push(s.skip(1), b);
        assert(escape(s.push(b)) =~= escape_byte(s[0]) + escape(s.skip(1).push(b)));
        assert(escape(s) + escape_byte(b) =~= escape_byte(s[0]) + (escape(s.skip(1))
            + escape_byte(b)));
    }
}

/// **What the file says is what arrived.** Reading a line back undoes the
/// escape exactly, whatever bytes the message held — a DATA field holding a
/// newline, a carriage return or the two bytes `\` `n` included.
pub proof fn law_unescape_undoes_escape(s: Seq<u8>)
    ensures
        unescape_spec(escape(s)) == s,
        forall|i: int| 0 <= i < escape(s).len() ==> #[trigger] escape(s)[i] != 10u8 && escape(
            s,
        )[i] != 13u8,
    decreases s.len(),
{
    if s.len() > 0 {
        law_unescape_undoes_escape(s.skip(1));
        let e = escape(s);
        let first = escape_byte(s[0]);
        assert(e == first + escape(s.skip(1)));
        if first.len() == 2 {
            assert(e.skip(2) =~= escape(s.skip(1)));
        } else {
            assert(e.skip(1) =~= escape(s.skip(1)));
        }
        assert(unescape_spec(e) =~= seq![s[0]] + s.skip(1));
        assert(seq![s[0]] + s.skip(1) =~= s);
        assert forall|i: int| 0 <= i < e.len() implies #[trigger] e[i] != 10u8 && e[i] != 13u8 by {
            if i >= first.len() {
                assert(e[i] == escape(s.skip(1))[i - first.len()]);
            }
        }
    }
}

/// `\` → `\\`, newline → `\n`, carriage return → `\r`, appended to `out`.
/// Everything else, and SOH in particular, goes through untouched.
pub fn escape_into(bytes: &[u8], out: &mut Vec<u8>)
    ensures
        final(out)@ == old(out)@ + escape(bytes@),
{
    let mut i: usize = 0;
    while i < bytes.len()
        invariant
            i <= bytes@.len(),
            out@ == old(out)@ + escape(bytes@.take(i as int)),
        decreases bytes@.len() - i,
    {
        let b = bytes[i];
        if b == 92u8 {
            out.push(92u8);
            out.push(92u8);
        } else if b == 10u8 {
            out.push(92u8);
            out.push(110u8);
        } else if b == 13u8 {
            out.push(92u8);
            out.push(114u8);
        } else {
            out.push(b);
        }
        proof {
            assert(bytes@.take(i + 1) =~= bytes@.take(i as int).push(b));
            lemma_escape_push(bytes@.take(i as int), b);
        }
        i = i + 1;
    }
    assert(bytes@.take(i as int) =~= bytes@);
}

/// The inverse of the escape, for anything reading the file back.
/// Allocates, and says so: nothing on the hot path calls it.
pub fn unescape(line: &str) -> (r: Vec<u8>)
    ensures
        r@ == unescape_spec(line.spec_bytes()),
{
    let src = line.as_bytes();
    let mut out: Vec<u8> = Vec::new();
    let mut at: usize = 0;
    proof {
        assert(src@.skip(0) =~= src@);
        assert(out@ + src@ =~= src@);
        assert(out@ + unescape_spec(src@.skip(0)) =~= unescape_spec(src@));
    }
    while at < src.len()
        invariant
            at <= src@.len(),
            out@ + unescape_spec(src@.skip(at as int)) == unescape_spec(src@),
        decreases src@.len() - at,
    {
        let ghost rest = src@.skip(at as int);
        if src[at] == 92u8 && at + 1 < src.len() {
            let next = src[at + 1];
            if next == 92u8 {
                out.push(92u8);
            } else if next == 110u8 {
                out.push(10u8);
            } else if next == 114u8 {
                out.push(13u8);
            } else {
                out.push(92u8);
                out.push(next);
            }
            proof {
                assert(rest.skip(2) =~= src@.skip(at + 2));
            }
            at = at + 2;
        } else {
            out.push(src[at]);
            proof {
                assert(rest.skip(1) =~= src@.skip(at + 1));
            }
            at = at + 1;
        }
    }
    proof {
        assert(src@.skip(at as int) =~= Seq::<u8>::empty());
        assert(out@ + Seq::<u8>::empty() =~= out@);
        assert(src@.skip(0) =~= src@);
    }
    out
}

} // verus!

verus! {

/// The largest record the log's writer takes off its ring, header included.
pub const WRITER_BUF: usize = REC_HEADER + MAX_RECORD;

/// What `String::from_utf8_lossy` makes of `b`, as bytes: `b` itself where it
/// is valid UTF-8, with each invalid sequence replaced by U+FFFD.
pub uninterp spec fn lossy_utf8(b: Seq<u8>) -> Seq<u8>;

/// `String::from_utf8_lossy`, kept as bytes: a peer address as text. Its
/// result is a function of the bytes alone; which bytes it is, is not
/// stated here.
#[verifier::external_body]
fn peer_text(b: &[u8]) -> (r: Vec<u8>)
    ensures
        r@ == lossy_utf8(b@),
{
    String::from_utf8_lossy(b).into_owned().into_bytes()
}

/// The peer each connection was opened from, by shard and connection, so that
/// every later line of that connection can name it.
pub struct Peers {
    known: Vec<(u16, ConnId, Vec<u8>)>,
}

/// The first entry of `k` naming `(shard, id)`, if any.
pub open spec fn peer_in(k: Seq<(u16, ConnId, Vec<u8>)>, shard: u16, id: ConnId) -> Option<Seq<u8>>
    decreases k.len(),
{
    if k.len() == 0 {
        None
    } else if k[0].0 == shard && k[0].1 == id {
        Some(k[0].2@)
    } else {
        peer_in(k.drop_first(), shard, id)
    }
}

impl Peers {
    /// The peer remembered for `(shard, id)`, if any.
    pub closed spec fn spec_peer(&self, shard: u16, id: ConnId) -> Option<Seq<u8>> {
        peer_in(self.known@, shard, id)
    }

    /// Nobody remembered.
    pub fn new() -> (r: Self)
        ensures
            forall|shard: u16, id: ConnId| r.spec_peer(shard, id) is None,
    {
        Peers { known: Vec::new() }
    }

    /// Remember `peer` for `(shard, id)`, in place of anything before.
    pub fn remember(&mut self, shard: u16, id: ConnId, peer: Vec<u8>)
        ensures
            final(self).spec_peer(shard, id) == Some(peer@),
            forall|s: u16, i: ConnId|
                !(s == shard && i == id) ==> final(self).spec_peer(s, i) == old(self).spec_peer(s, i),
    {
        let ghost before = self.known@;
        let ghost p = peer@;
        self.known.insert(0, (shard, id, peer));
        assert(self.known@.drop_first() =~= before);
        assert forall|s: u16, i: ConnId| !(s == shard && i == id) implies peer_in(
            self.known@,
            s,
            i,
        ) == peer_in(before, s, i) by {}
    }

    /// The peer remembered for `(shard, id)`, if any.
    pub fn peer(&self, shard: u16, id: ConnId) -> (r: Option<&[u8]>)
        ensures
            match r {
                Some(p) => self.spec_peer(shard, id) == Some(p@),
                None => self.spec_peer(shard, id) is None,
            },
    {
        let mut i: usize = 0;
        assert(self.known@.skip(0) =~= self.known@);
        while i < self.known.len()
            invariant
                i <= self.known@.len(),
                peer_in(self.known@, shard, id) == peer_in(self.known@.skip(i as int), shard, id),
            decreases self.known@.len() - i,
        {
            let ghost rest = self.known@.skip(i as int);
            assert(rest.drop_first() =~= self.known@.skip(i + 1));
            let e = &self.known[i];
            if e.0 == shard && e.1 == id {
                return Some(e.2.as_slice());
            }
            i = i + 1;
        }
        None
    }
}

/// The line the log's writer appends for one record, and what it remembers:
/// a connection being opened gives an opening line and its peer is
/// remembered; any other record gives a message line naming the peer
/// remembered for its connection, if any.
pub open spec fn spec_log_line(
    dir: Direction,
    shard: u16,
    id: ConnId,
    payload: Seq<u8>,
    stamp: Seq<u8>,
    peer: Option<Seq<u8>>,
) -> Seq<u8> {
    if dir == Direction::Open {
        spec_open_line(id, shard, lossy_utf8(payload), stamp)
    } else {
        spec_message_line(stamp, dir, shard, id, peer, payload)
    }
}

/// Build the line for one record, with `stamp` the time already written out.
pub fn log_line(
    dir: Direction,
    shard: u16,
    id: ConnId,
    payload: &[u8],
    stamp: &[u8],
    peers: &mut Peers,
) -> (r: Vec<u8>)
    ensures
        r@ == spec_log_line(dir, shard, id, payload@, stamp@, old(peers).spec_peer(shard, id)),
        dir == Direction::Open ==> final(peers).spec_peer(shard, id) == Some(lossy_utf8(payload@)),
        forall|s: u16, i: ConnId|
            !(dir == Direction::Open && s == shard && i == id) ==> final(peers).spec_peer(s, i)
                == old(peers).spec_peer(s, i),
{
    if dir == Direction::Open {
        let peer = peer_text(payload);
        let line = open_line(id, shard, peer.as_slice(), stamp);
        peers.remember(shard, id, peer);
        line
    } else {
        message_line(stamp, dir, shard, id, peers.peer(shard, id), payload)
    }
}

/// The position of the last newline in `w`, if any.
pub open spec fn last_newline(w: Seq<u8>, n: int) -> Option<int>
    decreases n,
{
    if n <= 0 {
        None
    } else if w[n - 1] == 10u8 {
        Some(n - 1)
    } else {
        last_newline(w, n - 1)
    }
}

/// How many bytes at the end of a log that does not end in a newline are
/// not a whole line, given its last `window` bytes and its length: what
/// follows the last newline in the window, or the whole file when the window
/// holds none.
pub open spec fn spec_torn_len(window: Seq<u8>, file_len: u64) -> usize {
    match last_newline(window, window.len() as int) {
        Some(at) => (window.len() - at - 1) as usize,
        None => if file_len <= usize::MAX as u64 {
            file_len as usize
        } else {
            usize::MAX
        },
    }
}

/// Count the torn tail of a log being reopened.
pub fn torn_len(window: &[u8], file_len: u64) -> (r: usize)
    ensures
        r == spec_torn_len(window@, file_len),
{
    let mut n = window.len();
    while n > 0 && window[n - 1] != 10u8
        invariant
            n <= window@.len(),
            last_newline(window@, window@.len() as int) == last_newline(window@, n as int),
        decreases n,
    {
        n = n - 1;
    }
    if n > 0 {
        window.len() - (n - 1) - 1
    } else if file_len <= usize::MAX as u64 {
        file_len as usize
    } else {
        usize::MAX
    }
}

} // verus!
