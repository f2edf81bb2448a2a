//! Who is on the other end, before there is a session to ask.
//!
//! A connection is held here until its first whole message arrives, and that
//! message is read by direct scan: `35=`, `49=` and `56=` come off the bytes
//! field by field. No dictionary and no parse, because the session that could
//! parse does not exist yet. Framing is [`crate::frame::Framer`]'s; everything
//! here takes one complete message and answers a question about it.

use vstd::prelude::*;

use crate::frame::{spec_cut, Cut, Framer};
use crate::redact::{lemma_next_soh, spec_next_soh};
use crate::transport::{Io, Transport};

verus! {

/// The two sides a FIX message names, borrowed from the buffer it arrived in,
/// **in wire order**: `sender` is `49=` and `target` is `56=` exactly as they
/// appear in the incoming message.
#[derive(Debug, Clone, Copy)]
pub struct Identity<'a> {
    /// `49=`, the SenderCompID as it appears on the wire.
    pub sender: &'a [u8],
    /// `56=`, the TargetCompID as it appears on the wire.
    pub target: &'a [u8],
}

/// The first field at or after `at` whose bytes start with `tag`, as the
/// range of its value: fields are SOH-terminated, and a trailing field with
/// no SOH is not a field.
pub open spec fn field_from(msg: Seq<u8>, tag: Seq<u8>, at: int) -> Option<(int, int)>
    decreases msg.len() - at,
{
    if at < 0 || at >= msg.len() {
        None
    } else {
        let end = spec_next_soh(msg, at);
        proof {
            lemma_next_soh(msg, at);
        }
        if end >= msg.len() {
            None
        } else if tag.len() <= end - at && msg.subrange(at, at + tag.len()) == tag {
            Some((at + tag.len(), end))
        } else {
            field_from(msg, tag, end + 1)
        }
    }
}

/// The value of the first field whose tag (written with its `=`) is `tag`.
pub open spec fn spec_field_value(msg: Seq<u8>, tag: Seq<u8>) -> Option<Seq<u8>> {
    match field_from(msg, tag, 0) {
        Some((s, e)) => Some(msg.subrange(s, e)),
        None => None,
    }
}

/// `35=`
pub open spec fn tag_msg_type() -> Seq<u8> {
    seq![51u8, 53u8, 61u8]
}

/// `49=`
pub open spec fn tag_sender() -> Seq<u8> {
    seq![52u8, 57u8, 61u8]
}

/// `56=`
pub open spec fn tag_target() -> Seq<u8> {
    seq![53u8, 54u8, 61u8]
}

/// A range found by [`field_from`] lies inside the message.
pub proof fn law_a_field_ends_at_an_soh(msg: Seq<u8>, tag: Seq<u8>, at: int)
    ensures
        field_from(msg, tag, at) matches Some((s, e)) ==> 0 <= s <= e < msg.len() && msg[e]
            == crate::frame::SOH,
    decreases msg.len() - at,
{
    if 0 <= at < msg.len() {
        lemma_next_soh(msg, at);
        let end = spec_next_soh(msg, at);
        if end < msg.len() && !(tag.len() <= end - at && msg.subrange(at, at + tag.len()) == tag) {
            law_a_field_ends_at_an_soh(msg, tag, end + 1);
        }
    }
}

/// Does `msg` hold `tag` at `at`?
fn starts_with_at(msg: &[u8], at: usize, end: usize, tag: &[u8]) -> (r: bool)
    requires
        at <= end <= msg@.len(),
    ensures
        r == (tag@.len() <= end - at && msg@.subrange(at as int, at + tag@.len()) == tag@),
{
    if tag.len() > end - at {
        return false;
    }
    let mut k: usize = 0;
    while k < tag.len()
        invariant
            at + tag@.len() <= end <= msg@.len(),
            k <= tag@.len(),
            forall|j: int| 0 <= j < k ==> msg@[at + j] == tag@[j],
        decreases tag@.len() - k,
    {
        if msg[at + k] != tag[k] {
            assert(msg@.subrange(at as int, at + tag@.len())[k as int] != tag@[k as int]);
            return false;
        }
        k = k + 1;
    }
    assert(msg@.subrange(at as int, at + tag@.len()) =~= tag@);
    true
}

/// The value of the first field whose tag is `tag`, which must include the
/// `=`. Fields, not bytes: a `Text` field holding `49=` is not a sender.
fn field_value<'a>(msg: &'a [u8], tag: &[u8]) -> (r: Option<&'a [u8]>)
    ensures
        r matches Some(v) ==> spec_field_value(msg@, tag@) == Some(v@),
        r is None ==> spec_field_value(msg@, tag@) is None,
{
    let mut at: usize = 0;
    while at < msg.len()
        invariant
            at <= msg@.len(),
            field_from(msg@, tag@, 0) == field_from(msg@, tag@, at as int),
        decreases msg@.len() - at,
    {
        let end = crate::redact::next_soh(msg, at);
        proof {
            lemma_next_soh(msg@, at as int);
        }
        if end >= msg.len() {
            return None;
        }
        if starts_with_at(msg, at, end, tag) {
            return Some(vstd::slice::slice_subrange(msg, at + tag.len(), end));
        }
        at = end + 1;
    }
    None
}

/// Both sides of one complete message, or `None` if it does not name both.
pub fn identity_of(msg: &[u8]) -> (r: Option<Identity<'_>>)
    ensures
        r is Some <==> (spec_field_value(msg@, tag_sender()) is Some && spec_field_value(
            msg@,
            tag_target(),
        ) is Some),
        r matches Some(id) ==> Some(id.sender@) == spec_field_value(msg@, tag_sender()) && Some(
            id.target@,
        ) == spec_field_value(msg@, tag_target()),
{
    let st: [u8; 3] = [52u8, 57u8, 61u8];
    let tt: [u8; 3] = [53u8, 54u8, 61u8];
    assert(st@ =~= tag_sender());
    assert(tt@ =~= tag_target());
    let sender = match field_value(msg, &st) {
        Some(v) => v,
        None => return None,
    };
    let target = match field_value(msg, &tt) {
        Some(v) => v,
        None => return None,
    };
    Some(Identity { sender, target })
}

/// Is this complete message a `Logon`: is its `35=` exactly `A`?
pub fn is_logon(msg: &[u8]) -> (r: bool)
    ensures
        r == (spec_field_value(msg@, tag_msg_type()) == Some(seq![65u8])),
{
    let mt: [u8; 3] = [51u8, 53u8, 61u8];
    assert(mt@ =~= tag_msg_type());
    match field_value(msg, &mt) {
        Some(v) => {
            if v.len() == 1 && v[0] == 65u8 {
                assert(v@ =~= seq![65u8]);
                true
            } else {
                assert(v@.len() != 1 ==> v@ != seq![65u8]);
                false
            }
        },
        None => false,
    }
}

/// The two hard limits, neither given a default: how many connections may
/// wait at once, and how long each has to log on.
#[derive(Debug, Clone, Copy, PartialEq, Eq, Structural)]
pub struct Limits {
    pending: usize,
    logon_ms: u64,
}

/// Why a set of limits was refused.
#[derive(Debug, Clone, Copy, PartialEq, Eq, Structural)]
#[non_exhaustive]
pub enum LimitError {
    /// A ceiling of zero refuses every connection there will ever be.
    NoPendingAllowed,
    /// A deadline of zero expires every connection before it can answer.
    NoTimeToLogOn,
}

impl Limits {
    /// The ceiling this value holds.
    pub closed spec fn spec_pending(self) -> usize {
        self.pending
    }

    /// The deadline this value holds.
    pub closed spec fn spec_logon_ms(self) -> u64 {
        self.logon_ms
    }

    /// How many connections may wait at once, and how long each has to log
    /// on. A zero in either is refused, the ceiling checked first.
    pub fn new(pending: usize, logon_ms: u64) -> (r: Result<Self, LimitError>)
        ensures
            pending == 0 ==> r == Err::<Self, LimitError>(LimitError::NoPendingAllowed),
            pending != 0 && logon_ms == 0 ==> r == Err::<Self, LimitError>(
                LimitError::NoTimeToLogOn,
            ),
            pending != 0 && logon_ms != 0 ==> (r matches Ok(l) && l.spec_pending() == pending
                && l.spec_logon_ms() == logon_ms),
    {
        if pending == 0 {
            return Err(LimitError::NoPendingAllowed);
        }
        if logon_ms == 0 {
            return Err(LimitError::NoTimeToLogOn);
        }
        Ok(Limits { pending, logon_ms })
    }

    /// The ceiling on connections waiting to identify themselves.
    pub fn pending(self) -> (r: usize)
        ensures
            r == self.spec_pending(),
    {
        self.pending
    }

    /// How long a connection has to send a `Logon`, in milliseconds.
    pub fn logon_ms(self) -> (r: u64)
        ensures
            r == self.spec_logon_ms(),
    {
        self.logon_ms
    }
}

/// Why a connection was not taken on, carrying the socket back so that the
/// refusal is something the caller closes on purpose.
#[derive(Debug)]
#[non_exhaustive]
pub enum Refused<T> {
    /// The table is at its ceiling; refused now rather than queued.
    Full(T),
}

/// What one turn over the waiting connections did, as counts.
#[derive(Debug, Clone, Copy, PartialEq, Eq, Structural)]
pub struct Progress {
    /// Connections that produced a whole `Logon` this turn.
    pub settled: usize,
    /// Connections dropped for reaching their deadline without a `Logon`.
    pub timed_out: usize,
    /// Connections dropped because their first whole message was not a
    /// `Logon`.
    pub not_logon: usize,
    /// Connections dropped because nobody is served by that identity.
    pub unknown: usize,
    /// Connections dropped because the peer left or sent a frame that can
    /// never be a message.
    pub gone: usize,
}

impl Default for Progress {
    fn default() -> (r: Self)
        ensures
            r == (Progress { settled: 0, timed_out: 0, not_logon: 0, unknown: 0, gone: 0 }),
    {
        Progress { settled: 0, timed_out: 0, not_logon: 0, unknown: 0, gone: 0 }
    }
}


/// Which configuration a `Logon` belongs to, or nobody. Refusing is
/// authenticating: `None` refuses the connection exactly as an invalid
/// identity is refused. It answers at once, on the accepting thread.
pub trait Registry<C> {
    /// The configuration serving `id`, or `None` to refuse the connection.
    fn lookup(&self, id: Identity<'_>) -> Option<C>;
}

/// Is this complete message a `Logon` (its `35=` exactly `A`)?
pub open spec fn spec_is_logon(msg: Seq<u8>) -> bool {
    spec_field_value(msg, tag_msg_type()) == Some(seq![65u8])
}

/// One socket that has not said who it is.
pub struct Pending<T, C, const PRE: usize> {
    transport: T,
    rx: Framer<PRE>,
    deadline_ms: u64,
    settled: Option<(usize, C)>,
}

impl<T, C, const PRE: usize> Pending<T, C, PRE> {
    /// Every byte read so far.
    pub closed spec fn spec_bytes(&self) -> Seq<u8> {
        self.rx@
    }

    /// The whole receive buffer, used and unused: where a read writes.
    pub closed spec fn spec_rx_buf(&self) -> Seq<u8> {
        self.rx.spec_buf()
    }

    /// The socket it arrived on.
    pub closed spec fn spec_transport(&self) -> T {
        self.transport
    }

    /// The instant by which it must have sent a `Logon`.
    pub closed spec fn spec_deadline_ms(&self) -> u64 {
        self.deadline_ms
    }

    /// The length of the whole `Logon` at the front and the configuration
    /// serving it, once settled.
    pub closed spec fn spec_settled(&self) -> Option<(usize, C)> {
        self.settled
    }
}

impl<T, C: Copy, const PRE: usize> Pending<T, C, PRE> {
    /// Every byte read off this socket, `Logon` and anything pipelined
    /// behind it: what must reach the session.
    pub fn bytes(&self) -> (r: &[u8])
        ensures
            r@ == self.spec_bytes(),
    {
        self.rx.all()
    }

    /// The socket, for handing to an engine.
    pub fn into_transport(self) -> (r: T)
        ensures
            r == self.spec_transport(),
    {
        self.transport
    }

    /// The configuration the registry chose, or `None` before settling.
    pub fn config(&self) -> (r: Option<C>)
        ensures
            r == match self.spec_settled() {
                Some((_, c)) => Some(c),
                None => None,
            },
    {
        match self.settled {
            Some((_, c)) => Some(c),
            None => None,
        }
    }

    /// The socket and the bytes, for moving both across a channel without
    /// allocating.
    pub fn into_parts(self) -> (r: (T, [u8; PRE], usize))
        ensures
            r.0 == self.spec_transport(),
            r.2 == self.spec_bytes().len(),
            r.1@.subrange(0, r.2 as int) == self.spec_bytes(),
    {
        let (buf, len) = self.rx.into_parts();
        (self.transport, buf, len)
    }
}

/// What one socket became this turn.
#[derive(Debug, Clone, Copy, PartialEq, Eq, Structural)]
pub enum Step {
    /// Nothing decided yet.
    Waiting,
    /// A whole `Logon` the registry serves.
    Settled,
    /// The deadline passed without a whole message.
    TimedOut,
    /// The first whole message was not a `Logon`.
    NotLogon,
    /// A `Logon` that names nobody the registry serves.
    Unknown,
    /// The peer left, the socket failed, or the bytes can never be a message.
    Gone,
}

/// Sockets waiting to say who they are, allocated once to the ceiling the
/// limits name. Indices are not stable across a turn: a socket let go of is
/// swapped out for the last one.
pub struct PendingSet<T, R, C, const PRE: usize> {
    slots: Vec<Pending<T, C, PRE>>,
    limits: Limits,
    registry: R,
}

/// What a socket holds after a read that answered `got`, given what it held
/// and its whole receive buffer after the read: a read of `n` bytes adds
/// them, as far as the buffer reaches; anything else adds nothing.
pub open spec fn bytes_after_read(held: Seq<u8>, buf: Seq<u8>, got: Io, cap: nat) -> Seq<u8> {
    match got {
        Io::Ready(n) => buf.subrange(0, if held.len() + n > cap {
            cap as int
        } else {
            held.len() + n
        }),
        _ => held,
    }
}

/// Taking out the element at `i` by moving the last into its place keeps
/// every other element.
proof fn lemma_swap_remove_keeps<A>(s: Seq<A>, i: int, x: A)
    requires
        0 <= i < s.len(),
        s.contains(x),
        s[i] != x,
    ensures
        s.update(i, s.last()).drop_last().contains(x),
{
    let k = choose|k: int| 0 <= k < s.len() && s[k] == x;
    let t = s.update(i, s.last()).drop_last();
    if k == s.len() - 1 {
        assert(t[i] == x);
    } else {
        assert(t[k] == x);
    }
}

/// Whether `step` is what `slot` becomes once a read on it answered `got`,
/// by the rules of [`PendingSet::decide`]: a socket that has settled stays as
/// it is, and a `Logon` is `Settled` or `Unknown` as the registry answers.
pub open spec fn step_fits<T, C, const PRE: usize>(
    step: Step,
    slot: Pending<T, C, PRE>,
    got: Io,
    now_ms: u64,
) -> bool {
    if slot.spec_settled() is Some {
        step == Step::Waiting
    } else if got is Closed || got is Failed {
        step == Step::Gone
    } else {
        let b = bytes_after_read(slot.spec_bytes(), slot.spec_rx_buf(), got, PRE as nat);
        match spec_cut(b, PRE as nat) {
            Cut::Garbage(_) => step == Step::Gone,
            Cut::Need => step == (if now_ms >= slot.spec_deadline_ms() {
                Step::TimedOut
            } else {
                Step::Waiting
            }),
            Cut::Message(n) => if spec_is_logon(b.take(n as int)) {
                step == Step::Settled || step == Step::Unknown
            } else {
                step == Step::NotLogon
            },
        }
    }
}

/// How many times `x` occurs in `s`.
pub open spec fn count_of<A>(s: Seq<A>, x: A) -> nat
    decreases s.len(),
{
    if s.len() == 0 {
        0
    } else {
        count_of(s.drop_last(), x) + if s.last() == x {
            1nat
        } else {
            0nat
        }
    }
}

/// Replacing one element moves one occurrence from what it was to what it
/// becomes.
proof fn lemma_count_update<A>(s: Seq<A>, j: int, v: A, x: A)
    requires
        0 <= j < s.len(),
    ensures
        count_of(s.update(j, v), x) + (if s[j] == x {
            1int
        } else {
            0int
        }) == count_of(s, x) + (if v == x {
            1int
        } else {
            0int
        }),
    decreases s.len(),
{
    if j == s.len() - 1 {
        assert(s.update(j, v).drop_last() =~= s.drop_last());
    } else {
        assert(s.update(j, v).drop_last() =~= s.drop_last().update(j, v));
        lemma_count_update(s.drop_last(), j, v, x);
    }
}

/// What does not occur is counted zero times.
proof fn lemma_count_absent<A>(s: Seq<A>, x: A)
    requires
        forall|j: int| 0 <= j < s.len() ==> s[j] != x,
    ensures
        count_of(s, x) == 0,
    decreases s.len(),
{
    if s.len() > 0 {
        lemma_count_absent(s.drop_last(), x);
    }
}

impl<T: Transport, R: Registry<C>, C: Copy, const PRE: usize> PendingSet<T, R, C, PRE> {
    /// The sockets waiting, in slot order.
    pub closed spec fn spec_slots(&self) -> Seq<Pending<T, C, PRE>> {
        self.slots@
    }

    /// The limits this set was built with.
    pub closed spec fn spec_limits(&self) -> Limits {
        self.limits
    }

    /// The registry this set asks.
    pub closed spec fn spec_registry(&self) -> R {
        self.registry
    }

    /// Room for `limits.pending()` sockets, in front of the counterparties
    /// `registry` serves.
    pub fn new(limits: Limits, registry: R) -> (r: Self)
        ensures
            r.spec_slots().len() == 0,
            r.spec_limits() == limits,
            r.spec_registry() == registry,
    {
        PendingSet { slots: Vec::with_capacity(limits.pending()), limits, registry }
    }

    /// The registry this set asks.
    pub fn registry(&self) -> (r: &R)
        ensures
            *r == self.spec_registry(),
    {
        &self.registry
    }

    /// How many sockets are waiting.
    pub fn len(&self) -> (r: usize)
        ensures
            r == self.spec_slots().len(),
    {
        self.slots.len()
    }

    /// Whether any are.
    pub fn is_empty(&self) -> (r: bool)
        ensures
            r == (self.spec_slots().len() == 0),
    {
        self.slots.len() == 0
    }

    /// The limits this set was built with.
    pub fn limits(&self) -> (r: Limits)
        ensures
            r == self.spec_limits(),
    {
        self.limits
    }

    /// Take a socket on, with the deadline running from `now_ms`. Refused,
    /// with the socket handed back, when the ceiling is reached.
    pub fn take_on(&mut self, transport: T, now_ms: u64) -> (r: Result<(), Refused<T>>)
        ensures
            final(self).spec_limits() == old(self).spec_limits(),
            (old(self).spec_slots().len() >= old(self).spec_limits().spec_pending()) <==> r is Err,
            r is Err ==> final(self).spec_slots() == old(self).spec_slots(),
            r is Ok ==> final(self).spec_slots().len() == old(self).spec_slots().len() + 1
                && final(self).spec_slots().drop_last() == old(self).spec_slots()
                && final(self).spec_slots().last().spec_bytes().len() == 0
                && final(self).spec_slots().last().spec_settled() is None
                && final(self).spec_slots().last().spec_deadline_ms() == now_ms.saturating_add(
                old(self).spec_limits().spec_logon_ms(),
            ),
    {
        if self.slots.len() >= self.limits.pending() {
            return Err(Refused::Full(transport));
        }
        let deadline_ms = now_ms.saturating_add(self.limits.logon_ms());
        self.slots.push(Pending { transport, rx: Framer::new(), deadline_ms, settled: None });
        Ok(())
    }

    /// One socket: read what is there, then decide what it has become.
    /// What one socket has become, once a read on it answered `got`: the
    /// decision, apart from the read. A read that failed or found the peer
    /// gone, or bytes that can never be a message, let the socket go; less
    /// than a whole message waits until the deadline; a whole message that is
    /// not a `Logon` is refused; a `Logon` settles exactly when the registry
    /// serves the identity it names.
    pub fn decide(slot: &mut Pending<T, C, PRE>, got: Io, now_ms: u64, registry: &R) -> (r: Step)
        requires
            old(slot).spec_settled() is None,
        ensures
            final(slot).spec_deadline_ms() == old(slot).spec_deadline_ms(),
            final(slot).spec_transport() == old(slot).spec_transport(),
            (got is Closed || got is Failed) ==> r == Step::Gone && *final(slot) == *old(slot),
            !(got is Closed || got is Failed) ==> {
                let b = final(slot).spec_bytes();
                let cut = spec_cut(b, PRE as nat);
                &&& b == bytes_after_read(old(slot).spec_bytes(), old(slot).spec_rx_buf(), got, PRE as nat)
                &&& cut is Garbage ==> r == Step::Gone
                &&& cut == Cut::Need ==> r == (if now_ms >= old(slot).spec_deadline_ms() {
                    Step::TimedOut
                } else {
                    Step::Waiting
                })
                &&& cut matches Cut::Message(n) ==> {
                    let msg = b.take(n as int);
                    &&& !spec_is_logon(msg) ==> r == Step::NotLogon
                    &&& spec_is_logon(msg) ==> (r == Step::Settled || r == Step::Unknown)
                    &&& spec_is_logon(msg) && !(spec_field_value(msg, tag_sender()) is Some
                        && spec_field_value(msg, tag_target()) is Some) ==> r == Step::Unknown
                }
                &&& (r == Step::Settled) <==> final(slot).spec_settled() is Some
                &&& final(slot).spec_settled() matches Some((m, _)) ==> cut == Cut::Message(m)
            },
            r == Step::Gone <==> (got is Closed || got is Failed || spec_cut(
                final(slot).spec_bytes(),
                PRE as nat,
            ) is Garbage),
    {
        match got {
            Io::Ready(n) => slot.rx.filled(n),
            Io::Idle => {},
            Io::Closed => return Step::Gone,
            Io::Failed(_) => return Step::Gone,
        }
        let held = slot.rx.len();
        proof {
            assert(held <= PRE);
            crate::frame::lemma_cut_within_buffer(slot.rx@, PRE as nat);
        }
        match slot.rx.cut() {
            Cut::Message(n) => {
                let msg = slot.rx.bytes(n);
                assert(msg@ == slot.rx@.take(n as int));
                if !is_logon(msg) {
                    return Step::NotLogon;
                }
                let found = match identity_of(msg) {
                    Some(id) => registry.lookup(id),
                    None => None,
                };
                match found {
                    Some(cfg) => {
                        slot.settled = Some((n, cfg));
                        Step::Settled
                    },
                    None => Step::Unknown,
                }
            },
            Cut::Garbage(_) => Step::Gone,
            Cut::Need => {
                if now_ms >= slot.deadline_ms {
                    Step::TimedOut
                } else {
                    Step::Waiting
                }
            },
        }
    }

    /// One socket: read what is there into its spare room. A socket that has
    /// settled is not read, and neither is one whose buffer is full.
    fn read_one(slot: &mut Pending<T, C, PRE>) -> (r: Io)
        ensures
            final(slot).spec_settled() == old(slot).spec_settled(),
            final(slot).spec_deadline_ms() == old(slot).spec_deadline_ms(),
            final(slot).spec_bytes() == old(slot).spec_bytes(),
            old(slot).spec_settled() is Some ==> *final(slot) == *old(slot) && r == Io::Idle,
    {
        if slot.settled.is_some() {
            return Io::Idle;
        }
        let spare = slot.rx.spare();
        if spare.len() == 0 {
            Io::Idle
        } else {
            slot.transport.recv(spare)
        }
    }

    /// One socket, once a read on it answered `got`: what it has become. A
    /// socket that has settled is left as it is.
    fn apply(slot: &mut Pending<T, C, PRE>, got: Io, now_ms: u64, registry: &R) -> (r: Step)
        ensures
            step_fits(r, *old(slot), got, now_ms),
            final(slot).spec_deadline_ms() == old(slot).spec_deadline_ms(),
            old(slot).spec_settled() is Some ==> *final(slot) == *old(slot),
            old(slot).spec_settled() is None ==> ((r == Step::Settled) <==> final(slot).spec_settled() is Some),
            r == Step::Waiting && old(slot).spec_settled() is None ==> spec_cut(
                final(slot).spec_bytes(),
                PRE as nat,
            ) == Cut::Need && now_ms < old(slot).spec_deadline_ms(),
    {
        if slot.settled.is_some() {
            return Step::Waiting;
        }
        Self::decide(slot, got, now_ms, registry)
    }

    /// Read once from every waiting socket that has not settled, answering
    /// what each read did, in slot order.
    fn read_all(&mut self) -> (r: Vec<Io>)
        ensures
            r@.len() == old(self).spec_slots().len(),
            final(self).spec_slots().len() == old(self).spec_slots().len(),
            final(self).spec_limits() == old(self).spec_limits(),
            final(self).spec_registry() == old(self).spec_registry(),
            forall|j: int|
                0 <= j < old(self).spec_slots().len() ==> {
                    &&& (#[trigger] final(self).spec_slots()[j]).spec_settled() == old(self).spec_slots()[j].spec_settled()
                    &&& final(self).spec_slots()[j].spec_deadline_ms() == old(self).spec_slots()[j].spec_deadline_ms()
                    &&& final(self).spec_slots()[j].spec_bytes() == old(self).spec_slots()[j].spec_bytes()
                    &&& old(self).spec_slots()[j].spec_settled() is Some ==> final(self).spec_slots()[j] == old(self).spec_slots()[j]
                },
    {
        let mut out: Vec<Io> = Vec::new();
        let mut i: usize = 0;
        while i < self.slots.len()
            invariant
                self.limits == old(self).limits,
                self.registry == old(self).registry,
                self.slots@.len() == old(self).slots@.len(),
                i <= self.slots@.len(),
                out@.len() == i,
                forall|j: int|
                    0 <= j < self.slots@.len() ==> {
                        &&& (#[trigger] self.slots@[j]).spec_settled() == old(self).slots@[j].spec_settled()
                        &&& self.slots@[j].spec_deadline_ms() == old(self).slots@[j].spec_deadline_ms()
                        &&& self.slots@[j].spec_bytes() == old(self).slots@[j].spec_bytes()
                        &&& old(self).slots@[j].spec_settled() is Some ==> self.slots@[j] == old(self).slots@[j]
                    },
                forall|j: int| i <= j < self.slots@.len() ==> #[trigger] self.slots@[j] == old(self).slots@[j],
            decreases self.slots@.len() - i,
        {
            let g = Self::read_one(&mut self.slots[i]);
            out.push(g);
            i = i + 1;
        }
        out
    }

    /// Decide what every waiting socket has become, once a read on each
    /// answered `got[j]` (a socket that has settled was not read, and its
    /// answer is not looked at), and let go of the ones that are done for.
    /// Every socket let go of is counted under its reason: each count is how
    /// many sockets became that, by the rules of [`Self::decide`].
    pub fn settle(&mut self, got: &[Io], now_ms: u64) -> (p: Progress)
        requires
            got@.len() == old(self).spec_slots().len(),
        ensures
            final(self).spec_limits() == old(self).spec_limits(),
            final(self).spec_registry() == old(self).spec_registry(),
            final(self).spec_slots().len() + p.timed_out + p.not_logon + p.unknown + p.gone
                == old(self).spec_slots().len(),
            p.settled <= final(self).spec_slots().len(),
            forall|j: int|
                0 <= j < old(self).spec_slots().len() && (#[trigger] old(self).spec_slots()[j]).spec_settled() is Some
                    ==> final(self).spec_slots().contains(old(self).spec_slots()[j]),
            forall|k: int|
                0 <= k < final(self).spec_slots().len() ==> (#[trigger] final(self).spec_slots()[k]).spec_settled() is Some
                    || (spec_cut(final(self).spec_slots()[k].spec_bytes(), PRE as nat) == Cut::Need
                    && now_ms < final(self).spec_slots()[k].spec_deadline_ms()),
            exists|fate: Seq<Step>|
                {
                    &&& fate.len() == got@.len()
                    &&& forall|j: int|
                        0 <= j < fate.len() ==> step_fits(
                            #[trigger] fate[j],
                            old(self).spec_slots()[j],
                            got@[j],
                            now_ms,
                        )
                    &&& p.settled == count_of(fate, Step::Settled)
                    &&& p.timed_out == count_of(fate, Step::TimedOut)
                    &&& p.not_logon == count_of(fate, Step::NotLogon)
                    &&& p.unknown == count_of(fate, Step::Unknown)
                    &&& p.gone == count_of(fate, Step::Gone)
                },
    {
        let ghost n = got@.len();
        let ghost o = old(self).slots@;
        let mut gv: Vec<Io> = Vec::new();
        let mut c: usize = 0;
        while c < got.len()
            invariant
                c <= got@.len(),
                gv@ == got@.take(c as int),
            decreases got@.len() - c,
        {
            gv.push(got[c]);
            c = c + 1;
            assert(gv@ =~= got@.take(c as int));
        }
        assert(gv@ =~= got@);
        let mut p = Progress { settled: 0, timed_out: 0, not_logon: 0, unknown: 0, gone: 0 };
        let ghost mut oi: Seq<int> = Seq::new(n, |j: int| j);
        let ghost mut fate: Seq<Step> = Seq::new(n, |j: int| Step::Waiting);
        proof {
            lemma_count_absent(fate, Step::Settled);
            lemma_count_absent(fate, Step::TimedOut);
            lemma_count_absent(fate, Step::NotLogon);
            lemma_count_absent(fate, Step::Unknown);
            lemma_count_absent(fate, Step::Gone);
            assert forall|j: int| 0 <= j < n implies (exists|k: int|
                0 <= k < o.len() && #[trigger] oi[k] == j) || step_fits(
                fate[j],
                o[j],
                got@[j],
                now_ms,
            ) by {
                assert(oi[j] == j);
            }
        }
        assert(n == self.slots.len());
        let mut i: usize = 0;
        while i < self.slots.len()
            invariant
                self.limits == old(self).limits,
                self.registry == old(self).registry,
                o == old(self).slots@,
                n == o.len(),
                n <= usize::MAX,
                got@.len() == n,
                i <= self.slots@.len(),
                gv@.len() == self.slots@.len(),
                oi.len() == self.slots@.len(),
                fate.len() == n,
                self.slots@.len() + p.timed_out + p.not_logon + p.unknown + p.gone == n,
                p.settled <= i,
                forall|k: int| 0 <= k < oi.len() ==> 0 <= #[trigger] oi[k] < n,
                forall|a: int, b: int| 0 <= a < b < oi.len() ==> #[trigger] oi[a] != #[trigger] oi[b],
                forall|k: int| 0 <= k < oi.len() ==> #[trigger] gv@[k] == got@[oi[k]],
                forall|k: int| i <= k < oi.len() ==> #[trigger] self.slots@[k] == o[oi[k]],
                forall|k: int| i <= k < oi.len() ==> fate[#[trigger] oi[k]] == Step::Waiting,
                forall|j: int|
                    0 <= j < n ==> (exists|k: int| i <= k < oi.len() && #[trigger] oi[k] == j)
                        || step_fits(#[trigger] fate[j], o[j], got@[j], now_ms),
                p.settled == count_of(fate, Step::Settled),
                p.timed_out == count_of(fate, Step::TimedOut),
                p.not_logon == count_of(fate, Step::NotLogon),
                p.unknown == count_of(fate, Step::Unknown),
                p.gone == count_of(fate, Step::Gone),
                forall|j: int|
                    0 <= j < n && (#[trigger] o[j]).settled is Some ==> self.slots@.contains(o[j]),
                forall|k: int|
                    0 <= k < i ==> (#[trigger] self.slots@[k]).settled is Some || (spec_cut(
                        self.slots@[k].rx@,
                        PRE as nat,
                    ) == Cut::Need && now_ms < self.slots@[k].deadline_ms),
            decreases self.slots@.len() - i,
        {
            let ghost before = self.slots@;
            let ghost j0 = oi[i as int];
            let ghost f0 = fate;
            let ghost oi0 = oi;
            let ghost i0 = i as int;
            let g = gv[i];
            let step = Self::apply(&mut self.slots[i], g, now_ms, &self.registry);
            proof {
                assert(before[i as int] == o[j0]);
                assert(g == got@[j0]);
                fate = fate.update(j0, step);
                lemma_count_update(f0, j0, step, Step::Settled);
                lemma_count_update(f0, j0, step, Step::TimedOut);
                lemma_count_update(f0, j0, step, Step::NotLogon);
                lemma_count_update(f0, j0, step, Step::Unknown);
                lemma_count_update(f0, j0, step, Step::Gone);
                assert forall|j: int|
                    0 <= j < n && (#[trigger] o[j]).settled is Some implies self.slots@.contains(
                    o[j],
                ) by {
                    let x = o[j];
                    let k = choose|k: int| 0 <= k < before.len() && before[k] == x;
                    if k == i {
                        assert(self.slots@[k] == x);
                    } else {
                        assert(self.slots@[k] == before[k]);
                    }
                }
                if step != Step::Waiting && step != Step::Settled {
                    assert forall|j: int|
                        0 <= j < n && (#[trigger] o[j]).settled is Some implies self.slots@.update(
                            i as int,
                            self.slots@.last(),
                        ).drop_last().contains(o[j]) by {
                        lemma_swap_remove_keeps(self.slots@, i as int, o[j]);
                    }
                }
            }
            match step {
                Step::Waiting => {
                    i = i + 1;
                },
                Step::Settled => {
                    p.settled = p.settled + 1;
                    i = i + 1;
                },
                Step::TimedOut => {
                    p.timed_out = p.timed_out + 1;
                    self.slots.swap_remove(i);
                    gv.swap_remove(i);
                },
                Step::NotLogon => {
                    p.not_logon = p.not_logon + 1;
                    self.slots.swap_remove(i);
                    gv.swap_remove(i);
                },
                Step::Unknown => {
                    p.unknown = p.unknown + 1;
                    self.slots.swap_remove(i);
                    gv.swap_remove(i);
                },
                Step::Gone => {
                    p.gone = p.gone + 1;
                    self.slots.swap_remove(i);
                    gv.swap_remove(i);
                },
            }
            proof {
                if step != Step::Waiting && step != Step::Settled {
                    oi = oi.update(i0, oi.last()).drop_last();
                    assert forall|a: int, b: int| 0 <= a < b < oi.len() implies #[trigger] oi[a]
                        != #[trigger] oi[b] by {
                        let a0 = if a == i0 {
                            oi0.len() - 1
                        } else {
                            a
                        };
                        let b0 = if b == i0 {
                            oi0.len() - 1
                        } else {
                            b
                        };
                        assert(oi0[a0] != oi0[b0]);
                    }
                    assert forall|k: int| 0 <= k < oi.len() implies #[trigger] gv@[k] == got@[oi[k]] by {
                        if k == i0 {
                            assert(oi[k] == oi0[oi0.len() - 1]);
                        }
                    }
                    assert forall|k: int| i <= k < oi.len() implies #[trigger] self.slots@[k] == o[oi[k]] by {
                        if k == i0 {
                            assert(oi[k] == oi0[oi0.len() - 1]);
                            assert(self.slots@[k] == before[oi0.len() - 1]);
                        } else {
                            assert(self.slots@[k] == before[k]);
                        }
                    }
                } else {
                    assert forall|k: int| i <= k < oi.len() implies #[trigger] self.slots@[k] == o[oi[k]] by {
                        assert(self.slots@[k] == before[k]);
                    }
                }
                assert forall|k: int| i <= k < oi.len() implies fate[#[trigger] oi[k]]
                    == Step::Waiting by {
                    let k0 = if k == i0 && oi.len() < oi0.len() {
                        oi0.len() - 1
                    } else {
                        k
                    };
                    assert(oi[k] == oi0[k0]);
                    assert(k0 != i0);
                    assert(oi0[k0] != oi0[i0]);
                }
                assert forall|j: int|
                    0 <= j < n implies (exists|k: int| i <= k < oi.len() && #[trigger] oi[k] == j)
                        || step_fits(#[trigger] fate[j], o[j], got@[j], now_ms) by {
                    if j != j0 {
                        assert(fate[j] == f0[j]);
                        if exists|k: int| i0 <= k < oi0.len() && #[trigger] oi0[k] == j {
                            let k = choose|k: int| i0 <= k < oi0.len() && #[trigger] oi0[k] == j;
                            assert(k != i0);
                            if oi.len() < oi0.len() {
                                if k == oi0.len() - 1 {
                                    assert(oi[i0] == j);
                                } else {
                                    assert(oi[k] == j);
                                }
                            } else {
                                assert(oi[k] == j);
                            }
                        }
                    }
                }
            }
        }
        proof {
            assert forall|j: int| 0 <= j < fate.len() implies step_fits(
                #[trigger] fate[j],
                old(self).spec_slots()[j],
                got@[j],
                now_ms,
            ) by {
                assert(!(exists|k: int| i <= k < oi.len() && #[trigger] oi[k] == j));
            }
        }
        p
    }

    /// Read from every waiting socket, and let go of the ones that are done
    /// for. A socket that has settled is left alone: it neither reads nor
    /// expires. Every socket let go of is counted under its reason, as
    /// [`Self::settle`] counts it for the reads this turn made.
    pub fn turn(&mut self, now_ms: u64) -> (p: Progress)
        ensures
            final(self).spec_limits() == old(self).spec_limits(),
            final(self).spec_registry() == old(self).spec_registry(),
            final(self).spec_slots().len() + p.timed_out + p.not_logon + p.unknown + p.gone
                == old(self).spec_slots().len(),
            p.settled <= final(self).spec_slots().len(),
            forall|j: int|
                0 <= j < old(self).spec_slots().len() && (#[trigger] old(self).spec_slots()[j]).spec_settled() is Some
                    ==> final(self).spec_slots().contains(old(self).spec_slots()[j]),
            forall|k: int|
                0 <= k < final(self).spec_slots().len() ==> (#[trigger] final(self).spec_slots()[k]).spec_settled() is Some
                    || (spec_cut(final(self).spec_slots()[k].spec_bytes(), PRE as nat) == Cut::Need
                    && now_ms < final(self).spec_slots()[k].spec_deadline_ms()),
            exists|mid: Seq<Pending<T, C, PRE>>, got: Seq<Io>, fate: Seq<Step>|
                #![trigger mid.len(), got.len(), count_of(fate, Step::Settled)]
                {
                    &&& mid.len() == old(self).spec_slots().len()
                    &&& got.len() == mid.len()
                    &&& fate.len() == mid.len()
                    &&& forall|j: int|
                        0 <= j < mid.len() ==> {
                            &&& (#[trigger] mid[j]).spec_settled() == old(self).spec_slots()[j].spec_settled()
                            &&& mid[j].spec_deadline_ms() == old(self).spec_slots()[j].spec_deadline_ms()
                            &&& mid[j].spec_bytes() == old(self).spec_slots()[j].spec_bytes()
                            &&& step_fits(fate[j], mid[j], got[j], now_ms)
                        }
                    &&& p.settled == count_of(fate, Step::Settled)
                    &&& p.timed_out == count_of(fate, Step::TimedOut)
                    &&& p.not_logon == count_of(fate, Step::NotLogon)
                    &&& p.unknown == count_of(fate, Step::Unknown)
                    &&& p.gone == count_of(fate, Step::Gone)
                },
    {
        let got = self.read_all();
        let ghost mid = self.spec_slots();
        let p = self.settle(got.as_slice(), now_ms);
        proof {
            assert forall|j: int|
                0 <= j < old(self).spec_slots().len() && (#[trigger] old(self).spec_slots()[j]).spec_settled() is Some
                    implies self.spec_slots().contains(old(self).spec_slots()[j]) by {
                assert(mid[j] == old(self).spec_slots()[j]);
            }
            let fate = choose|fate: Seq<Step>|
                {
                    &&& fate.len() == got@.len()
                    &&& forall|j: int|
                        0 <= j < fate.len() ==> step_fits(#[trigger] fate[j], mid[j], got@[j], now_ms)
                    &&& p.settled == count_of(fate, Step::Settled)
                    &&& p.timed_out == count_of(fate, Step::TimedOut)
                    &&& p.not_logon == count_of(fate, Step::NotLogon)
                    &&& p.unknown == count_of(fate, Step::Unknown)
                    &&& p.gone == count_of(fate, Step::Gone)
                };
            assert forall|j: int| 0 <= j < mid.len() implies {
                &&& (#[trigger] mid[j]).spec_settled() == old(self).spec_slots()[j].spec_settled()
                &&& mid[j].spec_deadline_ms() == old(self).spec_slots()[j].spec_deadline_ms()
                &&& mid[j].spec_bytes() == old(self).spec_slots()[j].spec_bytes()
                &&& step_fits(fate[j], mid[j], got@[j], now_ms)
            } by {
                assert(step_fits(fate[j], mid[j], got@[j], now_ms));
            }
        }
        p
    }

    /// The soonest deadline any socket that has not settled has, if any:
    /// what a caller waits until.
    pub fn earliest_deadline(&self) -> (r: Option<u64>)
        ensures
            r is None <==> forall|j: int|
                0 <= j < self.spec_slots().len() ==> (#[trigger] self.spec_slots()[j]).spec_settled() is Some,
            r matches Some(d) ==> (exists|j: int|
                0 <= j < self.spec_slots().len() && (#[trigger] self.spec_slots()[j]).spec_settled() is None
                    && self.spec_slots()[j].spec_deadline_ms() == d) && (forall|j: int|
                0 <= j < self.spec_slots().len() && (#[trigger] self.spec_slots()[j]).spec_settled() is None
                    ==> d <= self.spec_slots()[j].spec_deadline_ms()),
    {
        let mut best: Option<u64> = None;
        let mut i: usize = 0;
        while i < self.slots.len()
            invariant
                i <= self.slots@.len(),
                best is None <==> forall|j: int|
                    0 <= j < i ==> (#[trigger] self.slots@[j]).settled is Some,
                best matches Some(d) ==> (exists|j: int|
                    0 <= j < i && (#[trigger] self.slots@[j]).settled is None
                        && self.slots@[j].deadline_ms == d) && (forall|j: int|
                    0 <= j < i && (#[trigger] self.slots@[j]).settled is None ==> d
                        <= self.slots@[j].deadline_ms),
            decreases self.slots@.len() - i,
        {
            let s = &self.slots[i];
            if s.settled.is_none() {
                best = match best {
                    Some(d) => if s.deadline_ms < d {
                        Some(s.deadline_ms)
                    } else {
                        Some(d)
                    },
                    None => Some(s.deadline_ms),
                };
            }
            i = i + 1;
        }
        best
    }

    /// The first socket that has produced a whole `Logon`, if any.
    pub fn settled(&self) -> (r: Option<usize>)
        ensures
            r matches Some(i) ==> i < self.spec_slots().len() && self.spec_slots()[i as int].spec_settled() is Some
                && forall|j: int| 0 <= j < i ==> (#[trigger] self.spec_slots()[j]).spec_settled() is None,
            r is None ==> forall|j: int|
                0 <= j < self.spec_slots().len() ==> (#[trigger] self.spec_slots()[j]).spec_settled() is None,
    {
        let mut i: usize = 0;
        while i < self.slots.len()
            invariant
                i <= self.slots@.len(),
                forall|j: int| 0 <= j < i ==> (#[trigger] self.slots@[j]).settled is None,
            decreases self.slots@.len() - i,
        {
            if self.slots[i].settled.is_some() {
                return Some(i);
            }
            i = i + 1;
        }
        None
    }

    /// Who the socket at `i` says it is: `None` when there is no such slot,
    /// when it has not settled, or when its `Logon` named only one side.
    pub fn identity_at(&self, i: usize) -> (r: Option<Identity<'_>>)
        ensures
            (i >= self.spec_slots().len() || self.spec_slots()[i as int].spec_settled() is None) ==> r is None,
            i < self.spec_slots().len() ==> (self.spec_slots()[i as int].spec_settled() matches Some((n, _)) ==> {
                let b = self.spec_slots()[i as int].spec_bytes();
                let msg = b.take(if n < b.len() {
                    n as int
                } else {
                    b.len() as int
                });
                &&& r is Some <==> (spec_field_value(msg, tag_sender()) is Some && spec_field_value(msg, tag_target()) is Some)
                &&& r matches Some(id) ==> Some(id.sender@) == spec_field_value(msg, tag_sender())
                    && Some(id.target@) == spec_field_value(msg, tag_target())
            }),
    {
        if i >= self.slots.len() {
            return None;
        }
        let slot = &self.slots[i];
        match slot.settled {
            Some((n, _)) => {
                identity_of(slot.rx.bytes(n))
            },
            None => None,
        }
    }

    /// Take the socket at `i` out, with everything read off it; the last
    /// socket takes its place.
    pub fn take(&mut self, i: usize) -> (r: Option<Pending<T, C, PRE>>)
        ensures
            final(self).spec_limits() == old(self).spec_limits(),
            i >= old(self).spec_slots().len() ==> r is None && final(self).spec_slots() == old(self).spec_slots(),
            i < old(self).spec_slots().len() ==> r == Some(old(self).spec_slots()[i as int])
                && final(self).spec_slots() == old(self).spec_slots().update(
                i as int,
                old(self).spec_slots().last(),
            ).drop_last(),
    {
        if i < self.slots.len() {
            Some(self.slots.swap_remove(i))
        } else {
            None
        }
    }
}

/// Which shard takes a connection, once it has said who it is. It belongs to
/// the caller: a shard index in `0..shards`, and one out of range is refused
/// by whoever asked, not clamped.
pub trait Route: Send {
    /// A shard index in `0..shards`.
    fn shard_for(&mut self, id: Identity<'_>, shards: usize) -> usize;
}

/// The default route: a stable hash of `(sender, target)`, the same on every
/// run, so one counterparty always reaches one shard.
#[derive(Debug, Default, Clone, Copy)]
pub struct HashRoute;

/// FNV-1a's starting value.
pub const FNV_OFFSET: u64 = 0xcbf2_9ce4_8422_2325u64;

/// FNV-1a's multiplier.
pub const FNV_PRIME: u64 = 0x0000_0100_0000_01b3u64;

/// One byte into an FNV-1a state.
pub open spec fn fnv_step(h: u64, b: u8) -> u64 {
    vstd::wrapping::u64_specs::wrapping_mul(h ^ (b as u64), FNV_PRIME)
}

/// A run of bytes into an FNV-1a state, first byte first.
pub open spec fn fnv_fold(h: u64, s: Seq<u8>) -> u64
    decreases s.len(),
{
    if s.len() == 0 {
        h
    } else {
        fnv_step(fnv_fold(h, s.drop_last()), s.last())
    }
}

/// FNV-1a, 64-bit, over `sender`, one SOH and `target`. The separator keeps
/// `("AB", "C")` and `("A", "BC")` apart.
pub open spec fn spec_fnv1a(sender: Seq<u8>, target: Seq<u8>) -> u64 {
    fnv_fold(fnv_step(fnv_fold(FNV_OFFSET, sender), 1u8), target)
}

fn fnv_bytes(h: u64, s: &[u8]) -> (r: u64)
    ensures
        r == fnv_fold(h, s@),
{
    let mut acc = h;
    let mut i: usize = 0;
    while i < s.len()
        invariant
            i <= s@.len(),
            acc == fnv_fold(h, s@.subrange(0, i as int)),
        decreases s@.len() - i,
    {
        assert(s@.subrange(0, i + 1).drop_last() =~= s@.subrange(0, i as int));
        acc = (acc ^ s[i] as u64).wrapping_mul(FNV_PRIME);
        i = i + 1;
    }
    assert(s@.subrange(0, s@.len() as int) =~= s@);
    acc
}

/// FNV-1a over both halves of an identity.
fn fnv1a(sender: &[u8], target: &[u8]) -> (r: u64)
    ensures
        r == spec_fnv1a(sender@, target@),
{
    let h = fnv_bytes(FNV_OFFSET, sender);
    let h = (h ^ 1u64).wrapping_mul(FNV_PRIME);
    fnv_bytes(h, target)
}

/// The shard [`HashRoute`] names: the hash modulo the shard count, or 0
/// where there are no shards.
pub open spec fn spec_hash_shard(sender: Seq<u8>, target: Seq<u8>, shards: usize) -> usize {
    if shards == 0 {
        0
    } else {
        (spec_fnv1a(sender, target) % (shards as u64)) as usize
    }
}

impl Route for HashRoute {
    fn shard_for(&mut self, id: Identity<'_>, shards: usize) -> (r: usize)
        ensures
            r == spec_hash_shard(id.sender@, id.target@, shards),
    {
        if shards == 0 {
            return 0;
        }
        (fnv1a(id.sender, id.target) % (shards as u64)) as usize
    }
}

/// The hash route always names a shard that exists, and names the same one
/// for the same identity.
pub proof fn law_hash_route_names_a_shard(sender: Seq<u8>, target: Seq<u8>, shards: usize)
    requires
        shards > 0,
    ensures
        spec_hash_shard(sender, target, shards) < shards,
{
}

} // verus!
