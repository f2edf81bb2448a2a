//! Persistence is a policy, and it is off the hot path.
//!
//! | Policy | Type | Survives a restart |
//! |---|---|---|
//! | in memory | [`MemJournal`] | no |
//! | `Async` | a file journal with [`Durability::Async`] | yes, once the writer thread catches up |
//! | `Fsync` | a file journal with [`Durability::Fsync`] | yes, before the message is on the wire |
//!
//! A `ResendRequest` has to be answered *now*, on the engine thread, from a
//! `&[u8]`. So a ring in memory answers `get`, and a file answers the restart.
//! This module holds the ring, the on-disk format — how a record is written,
//! how a file is read back and replayed into a ring — and the small state
//! machine a retired writer thread is counted by. A message holding a field
//! [`crate::redact::masked`] names is kept in the ring verbatim, and the file
//! gets only the outbound mark for its number.

use vstd::prelude::*;
use vstd::bytes::{
    spec_u32_from_le_bytes, spec_u32_to_le_bytes, spec_u64_from_le_bytes, spec_u64_to_le_bytes,
    u32_from_le_bytes, u32_to_le_bytes, u64_from_le_bytes, u64_to_le_bytes,
};

verus! {

/// How many messages a [`MemJournal`] keeps by default.
pub const SLOTS: usize = 4096;

/// The longest message a slot holds, by default.
pub const SLOT_LEN: usize = 512;

/// What a session asks of the store it keeps its outbound messages in.
///
/// The session says *keep this* and asks *do you still have it*; it owns
/// neither the bytes nor the policy. It also asks for the two numbers a
/// restart needs: the highest inbound number delivered and the highest
/// outbound number spent.
pub trait Journal {
    /// The bytes kept under `seq`, if they can still be answered for.
    spec fn spec_get(&self, seq: u32) -> Option<Seq<u8>>;

    /// The highest inbound number marked.
    spec fn spec_highest_in(&self) -> Option<u32>;

    /// The highest outbound number spent.
    spec fn spec_highest_out(&self) -> Option<u32>;

    /// When the session was last known to be alive.
    spec fn spec_last_active(&self) -> Option<u64>;

    /// Keep `bytes` as the message sent under `seq`. `false` when it was
    /// refused, which the session turns into a gap fill.
    fn put(&mut self, seq: u32, bytes: &[u8]) -> (r: bool)
        ensures
            r && bytes@.len() > 0 ==> final(self).spec_get(seq) == Some(bytes@),
            r ==> final(self).spec_highest_out() == Some(
                match old(self).spec_highest_out() {
                    Some(h) => if h < seq {
                        seq
                    } else {
                        h
                    },
                    None => seq,
                },
            ),
            final(self).spec_highest_in() == old(self).spec_highest_in(),
    ;

    /// The message sent under `seq`, if it is still here.
    fn get(&self, seq: u32) -> (r: Option<&[u8]>)
        ensures
            r matches Some(b) ==> self.spec_get(seq) == Some(b@),
            r is None ==> self.spec_get(seq) is None,
    ;

    /// Record that inbound `seq` was delivered. Never lowers the mark.
    fn mark_in(&mut self, seq: u32)
        ensures
            final(self).spec_highest_in() == Some(
                match old(self).spec_highest_in() {
                    Some(h) => if h < seq {
                        seq
                    } else {
                        h
                    },
                    None => seq,
                },
            ),
            final(self).spec_highest_out() == old(self).spec_highest_out(),
            forall|s: u32| final(self).spec_get(s) == old(self).spec_get(s),
    ;

    /// The highest inbound number delivered.
    fn highest_in(&self) -> (r: Option<u32>)
        ensures
            r == self.spec_highest_in(),
    ;

    /// Record that outbound `seq` was spent, kept or not. Never lowers the
    /// mark.
    fn mark_out(&mut self, seq: u32)
        ensures
            final(self).spec_highest_out() == Some(
                match old(self).spec_highest_out() {
                    Some(h) => if h < seq {
                        seq
                    } else {
                        h
                    },
                    None => seq,
                },
            ),
            final(self).spec_highest_in() == old(self).spec_highest_in(),
            forall|s: u32| final(self).spec_get(s) == old(self).spec_get(s),
    ;

    /// The highest outbound number spent.
    fn highest_out(&self) -> (r: Option<u32>)
        ensures
            r == self.spec_highest_out(),
    ;

    /// When the session was last known to be alive.
    fn last_active(&self) -> (r: Option<u64>)
        ensures
            r == self.spec_last_active(),
    ;
}

/// The larger of a mark and a new number.
pub open spec fn raised(mark: Option<u32>, seq: u32) -> u32 {
    match mark {
        Some(h) => if h < seq {
            seq
        } else {
            h
        },
        None => seq,
    }
}

/// One kept message.
struct Slot<const LEN: usize> {
    seq: u32,
    len: u16,
    buf: [u8; LEN],
}

/// The sequence number a slot holds, and its bytes.
spec fn slot_view<const LEN: usize>(s: Slot<LEN>) -> (u32, Seq<u8>) {
    (s.seq, s.buf@.take(s.len as int))
}

/// Put `slot` in place `at`.
fn replace_slot<const LEN: usize>(slots: &mut Vec<Slot<LEN>>, at: usize, slot: Slot<LEN>)
    requires
        at < old(slots)@.len(),
    ensures
        final(slots)@ == old(slots)@.update(at as int, slot),
    no_unwind
{
    slots[at] = slot;
}

/// The highest number among slots holding any bytes.
pub open spec fn max_kept(k: Seq<(u32, Seq<u8>)>) -> Option<u32>
    decreases k.len(),
{
    if k.len() == 0 {
        None
    } else {
        let rest = max_kept(k.drop_last());
        if k.last().1.len() == 0 {
            rest
        } else {
            match rest {
                Some(m) => if m < k.last().0 {
                    Some(k.last().0)
                } else {
                    Some(m)
                },
                None => Some(k.last().0),
            }
        }
    }
}

/// A ring of `N` slots, addressed by the sequence number modulo `N`. Keeps
/// nothing across a restart, and says so.
pub struct MemJournal<const N: usize, const LEN: usize> {
    slots: Vec<Slot<LEN>>,
    /// The highest number ever kept, for [`MemJournal::oldest`]'s floor.
    /// Monotonic on purpose: winding the outbound count back must not lower
    /// the floor, because the messages above it are still in the ring.
    high_water: Option<u32>,
    /// The highest inbound sequence number delivered to the application.
    highest_in: Option<u32>,
    /// The highest outbound number spent, whether or not its bytes were kept.
    highest_out: Option<u32>,
}

impl<const N: usize, const LEN: usize> MemJournal<N, LEN> {
    #[verifier::type_invariant]
    closed spec fn inv(self) -> bool {
        &&& self.slots@.len() == N
        &&& forall|i: int| 0 <= i < N ==> (#[trigger] self.slots@[i]).len as int <= LEN
    }

    /// What each slot holds: a sequence number and its bytes. Sequence number
    /// 0 is never used by FIX, so an empty slot is `(0, [])`.
    pub closed spec fn kept(self) -> Seq<(u32, Seq<u8>)> {
        self.slots@.map_values(|s: Slot<LEN>| slot_view(s))
    }

    /// The highest number ever kept.
    pub closed spec fn spec_high_water(self) -> Option<u32> {
        self.high_water
    }

    /// The bytes a ring holding `kept` answers for `seq`: the slot `seq`
    /// falls in, if it holds that very number and is not empty.
    pub open spec fn answer(kept: Seq<(u32, Seq<u8>)>, seq: u32) -> Option<Seq<u8>> {
        if N == 0 {
            None
        } else {
            let s = kept[(seq as int) % (N as int)];
            if s.0 == seq && s.1.len() > 0 {
                Some(s.1)
            } else {
                None
            }
        }
    }

    /// The lowest number a ring with this high-water mark can still answer
    /// for. A floor, not a promise that the number itself is here.
    pub open spec fn spec_oldest(high_water: Option<u32>) -> Option<u32> {
        if N == 0 {
            None
        } else {
            let n: u32 = if N > u32::MAX {
                u32::MAX
            } else {
                N as u32
            };
            match high_water {
                None => None,
                Some(h) => {
                    let floor = if h > n - 1 {
                        (h - (n - 1)) as u32
                    } else {
                        0u32
                    };
                    Some(
                        if floor < 1 {
                            1u32
                        } else {
                            floor
                        },
                    )
                },
            }
        }
    }

    /// An empty journal, with its slots allocated.
    pub fn new() -> (r: Self)
        ensures
            r.kept() == Seq::new(N as nat, |i: int| (0u32, Seq::<u8>::empty())),
            r.spec_high_water() is None,
            r.spec_highest_in() is None,
            r.spec_highest_out() is None,
    {
        let mut slots: Vec<Slot<LEN>> = Vec::with_capacity(N);
        let mut i: usize = 0;
        while i < N
            invariant
                i <= N,
                slots@.len() == i,
                forall|j: int| 0 <= j < i ==> (#[trigger] slots@[j]).len == 0 && slots@[j].seq == 0,
            decreases N - i,
        {
            slots.push(Slot { seq: 0, len: 0, buf: [0u8; LEN] });
            i = i + 1;
        }
        let r = Self { slots, high_water: None, highest_in: None, highest_out: None };
        assert forall|j: int| 0 <= j < N implies #[trigger] r.kept()[j] == (0u32, Seq::<u8>::empty()) by {
            assert(r.slots@[j].buf@.take(0) =~= Seq::<u8>::empty());
        }
        assert(r.kept() =~= Seq::new(N as nat, |i: int| (0u32, Seq::<u8>::empty())));
        r
    }

    /// The lowest number this ring can still answer for. See
    /// [`Self::spec_oldest`].
    pub fn oldest(&self) -> (r: Option<u32>)
        ensures
            r == Self::spec_oldest(self.spec_high_water()),
    {
        if N == 0 {
            return None;
        }
        let n: u32 = if N > u32::MAX as usize {
            u32::MAX
        } else {
            N as u32
        };
        match self.high_water {
            None => None,
            Some(h) => {
                let floor = h.saturating_sub(n.saturating_sub(1));
                Some(
                    if floor < 1 {
                        1
                    } else {
                        floor
                    },
                )
            },
        }
    }

    /// The highest number any slot holds bytes for. A scan, deliberately:
    /// it is asked once per connection, by recovery.
    pub fn highest(&self) -> (r: Option<u32>)
        ensures
            r == max_kept(self.kept()),
    {
        proof {
            use_type_invariant(self);
        }
        let mut best: Option<u32> = None;
        let mut i: usize = 0;
        while i < self.slots.len()
            invariant
                i <= self.slots@.len(),
                best == max_kept(self.kept().take(i as int)),
                self.kept().len() == self.slots@.len(),
                self.slots@.len() == N,
                forall|j: int| 0 <= j < N ==> (#[trigger] self.slots@[j]).len as int <= LEN,
            decreases self.slots@.len() - i,
        {
            let s = &self.slots[i];
            proof {
                assert(self.kept().take(i + 1).drop_last() =~= self.kept().take(i as int));
                assert(self.kept().take(i + 1).last() == self.kept()[i as int]);
                assert(self.kept()[i as int] == slot_view(self.slots@[i as int]));
                assert(slot_view(self.slots@[i as int]).1.len() == s.len);
            }
            if s.len > 0 {
                best = match best {
                    Some(m) => if m < s.seq {
                        Some(s.seq)
                    } else {
                        Some(m)
                    },
                    None => Some(s.seq),
                };
            }
            i = i + 1;
        }
        assert(self.kept().take(i as int) =~= self.kept());
        best
    }
}

impl<const N: usize, const LEN: usize> Journal for MemJournal<N, LEN> {
    open spec fn spec_get(&self, seq: u32) -> Option<Seq<u8>> {
        Self::answer(self.kept(), seq)
    }

    closed spec fn spec_highest_in(&self) -> Option<u32> {
        self.highest_in
    }

    closed spec fn spec_highest_out(&self) -> Option<u32> {
        self.highest_out
    }

    open spec fn spec_last_active(&self) -> Option<u64> {
        None
    }

    /// Refused rather than truncated when it is longer than a slot, or longer
    /// than a slot can record (a `u16`), or there are no slots: a truncated
    /// replay is a message that does not checksum, and a refusal becomes a
    /// legal gap fill.
    fn put(&mut self, seq: u32, bytes: &[u8]) -> (r: bool)
        ensures
            r == (bytes@.len() <= LEN && N > 0 && bytes@.len() <= u16::MAX),
            r ==> final(self).kept() == old(self).kept().update(
                (seq as int) % (N as int),
                (seq, bytes@),
            ),
            r ==> final(self).spec_high_water() == Some(raised(old(self).spec_high_water(), seq)),
            !r ==> final(self).kept() == old(self).kept() && final(self).spec_high_water()
                == old(self).spec_high_water() && final(self).spec_highest_out() == old(
                self,
            ).spec_highest_out(),
    {
        proof {
            use_type_invariant(&*self);
        }
        if bytes.len() > LEN || N == 0 || bytes.len() > 65535 {
            return false;
        }
        let at = (seq as usize) % N;
        let mut buf = [0u8; LEN];
        let mut k: usize = 0;
        while k < bytes.len()
            invariant
                k <= bytes@.len() <= LEN,
                buf@.len() == LEN,
                forall|j: int| 0 <= j < k ==> buf@[j] == bytes@[j],
            decreases bytes@.len() - k,
        {
            buf[k] = bytes[k];
            k = k + 1;
        }
        let ghost before = self.kept();
        let slot = Slot { seq, len: bytes.len() as u16, buf };
        assert(slot.len as int <= LEN);
        replace_slot(&mut self.slots, at, slot);
        self.high_water = Some(
            match self.high_water {
                Some(h) => if h < seq {
                    seq
                } else {
                    h
                },
                None => seq,
            },
        );
        self.highest_out = Some(
            match self.highest_out {
                Some(h) => if h < seq {
                    seq
                } else {
                    h
                },
                None => seq,
            },
        );
        proof {
            assert(buf@.take(bytes@.len() as int) =~= bytes@);
            assert(self.kept() =~= before.update(at as int, (seq, bytes@)));
        }
        true
    }

    /// One index and one comparison. The comparison is not a formality:
    /// `seq % N` collides every `N` numbers, so without it a resend for a
    /// number never sent would come back as somebody else's message.
    fn get(&self, seq: u32) -> (r: Option<&[u8]>) {
        proof {
            use_type_invariant(self);
        }
        if N == 0 {
            return None;
        }
        let s = &self.slots[(seq as usize) % N];
        if s.seq == seq && s.len > 0 {
            let b = vstd::slice::slice_subrange(s.buf.as_slice(), 0, s.len as usize);
            assert(b@ =~= slot_view(self.slots@[(seq as int) % (N as int)]).1);
            Some(b)
        } else {
            None
        }
    }

    fn mark_in(&mut self, seq: u32)
        ensures
            final(self).kept() == old(self).kept(),
            final(self).spec_high_water() == old(self).spec_high_water(),
    {
        proof {
            use_type_invariant(&*self);
        }
        self.highest_in = Some(
            match self.highest_in {
                Some(h) => if h < seq {
                    seq
                } else {
                    h
                },
                None => seq,
            },
        );
    }

    fn highest_in(&self) -> (r: Option<u32>) {
        self.highest_in
    }

    fn mark_out(&mut self, seq: u32)
        ensures
            final(self).kept() == old(self).kept(),
            final(self).spec_high_water() == old(self).spec_high_water(),
    {
        proof {
            use_type_invariant(&*self);
        }
        self.highest_out = Some(
            match self.highest_out {
                Some(h) => if h < seq {
                    seq
                } else {
                    h
                },
                None => seq,
            },
        );
    }

    fn highest_out(&self) -> (r: Option<u32>) {
        self.highest_out
    }

    fn last_active(&self) -> (r: Option<u64>) {
        None
    }
}


impl<const N: usize, const LEN: usize> MemJournal<N, LEN> {
    /// **A read gives back what the last write wrote.** After a message is
    /// kept under `seq`, asking for `seq` answers those bytes; a number in
    /// another slot answers what it answered before; and a different number
    /// in the same slot — one `N` apart, or a number reused after the
    /// outbound count was wound back — answers nothing rather than somebody
    /// else's message.
    pub proof fn law_a_read_gives_back_the_last_write(
        kept: Seq<(u32, Seq<u8>)>,
        seq: u32,
        bytes: Seq<u8>,
        other: u32,
    )
        requires
            N > 0,
            kept.len() == N,
            bytes.len() > 0,
        ensures
            Self::answer(kept.update((seq as int) % (N as int), (seq, bytes)), seq) == Some(bytes),
            (other as int) % (N as int) != (seq as int) % (N as int) ==> Self::answer(
                kept.update((seq as int) % (N as int), (seq, bytes)),
                other,
            ) == Self::answer(kept, other),
            other != seq && (other as int) % (N as int) == (seq as int) % (N as int)
                ==> Self::answer(kept.update((seq as int) % (N as int), (seq, bytes)), other)
                is None,
    {
    }

    /// **A mark never goes backwards, and telling it the same number twice
    /// is nothing.** So a `mark_out` following a successful `put` of the same
    /// number changes nothing, and a session telling its journal the same
    /// high-water mark on every turn writes it once.
    pub proof fn law_marks_only_rise(mark: Option<u32>, seq: u32, later: u32)
        ensures
            raised(mark, seq) >= seq,
            mark matches Some(h) ==> raised(mark, seq) >= h,
            raised(Some(raised(mark, seq)), seq) == raised(mark, seq),
            raised(Some(raised(mark, seq)), later) >= raised(mark, seq),
    {
    }
}

// --- the on-disk format ---------------------------------------------------

/// A record's header: its sequence number and its payload's length, both
/// little-endian `u32`.
pub const RECORD_HEADER: usize = 8;

/// Bytes a version-1 record carries after its payload: one CRC32.
pub const RECORD_CRC: usize = 4;

/// How many bytes an activity mark carries: one `u64` of milliseconds.
pub const ACTIVITY_LEN: usize = 8;

/// How many bytes an outbound mark carries: one `u32`.
pub const OUTBOUND_LEN: usize = 4;

/// The record that means *stop* to a writer thread, and nothing else: one
/// byte. Every record this journal writes is at least [`RECORD_HEADER`] bytes,
/// so one byte cannot be mistaken for one.
pub const STOP: u8 = 0xFFu8;

/// The five bytes a version-1 journal starts with: `FXBJ\x01`.
pub open spec fn spec_header_v1() -> Seq<u8> {
    seq![70u8, 88u8, 66u8, 74u8, 1u8]
}

/// One step of the CRC32 polynomial over the low bit.
pub open spec fn crc_bits(c: u32, k: nat) -> u32
    decreases k,
{
    if k == 0 {
        c
    } else {
        let p = crc_bits(c, (k - 1) as nat);
        if p & 1 == 1 {
            0xEDB8_8320u32 ^ (p >> 1u32)
        } else {
            p >> 1u32
        }
    }
}

/// The table entry for a byte value: eight steps of the polynomial.
pub open spec fn crc_entry(i: u32) -> u32 {
    crc_bits(i, 8)
}

/// CRC32's running value after one more byte.
pub open spec fn crc_update(crc: u32, b: u8) -> u32 {
    crc_entry((crc ^ (b as u32)) & 0xFFu32) ^ (crc >> 8u32)
}

/// The running value after all of `s`, from the all-ones start.
pub open spec fn crc_acc(s: Seq<u8>) -> u32
    decreases s.len(),
{
    if s.len() == 0 {
        0xFFFF_FFFFu32
    } else {
        crc_update(crc_acc(s.drop_last()), s.last())
    }
}

/// CRC32, IEEE polynomial, over `s`.
pub open spec fn spec_crc32(s: Seq<u8>) -> u32 {
    crc_acc(s) ^ 0xFFFF_FFFFu32
}

/// The 256-entry CRC32 table.
pub fn crc_table() -> (r: [u32; 256])
    ensures
        forall|i: int| 0 <= i < 256 ==> #[trigger] r@[i] == crc_entry(i as u32),
{
    let mut table = [0u32; 256];
    let mut i: usize = 0;
    while i < 256
        invariant
            i <= 256,
            forall|j: int| 0 <= j < i ==> #[trigger] table@[j] == crc_entry(j as u32),
        decreases 256 - i,
    {
        let mut c = i as u32;
        let mut k: u32 = 0;
        while k < 8
            invariant
                i < 256,
                k <= 8,
                c == crc_bits(i as u32, k as nat),
            decreases 8 - k,
        {
            c = if c & 1 == 1 {
                0xEDB8_8320u32 ^ (c >> 1u32)
            } else {
                c >> 1u32
            };
            k = k + 1;
        }
        table[i] = c;
        i = i + 1;
    }
    table
}

/// The bytes of `parts` laid end to end.
pub open spec fn joined(parts: Seq<&[u8]>) -> Seq<u8>
    decreases parts.len(),
{
    if parts.len() == 0 {
        Seq::empty()
    } else {
        joined(parts.drop_last()) + parts.last()@
    }
}

/// CRC32 over `parts` laid end to end, so the caller never has to join a
/// header and a payload into one buffer first.
pub fn crc32(parts: &[&[u8]]) -> (r: u32)
    ensures
        r == spec_crc32(joined(parts@)),
{
    let table = crc_table();
    let mut crc: u32 = 0xFFFF_FFFFu32;
    let mut p: usize = 0;
    while p < parts.len()
        invariant
            p <= parts@.len(),
            crc == crc_acc(joined(parts@.take(p as int))),
            forall|i: int| 0 <= i < 256 ==> #[trigger] table@[i] == crc_entry(i as u32),
        decreases parts@.len() - p,
    {
        let part: &[u8] = parts[p];
        let ghost base = joined(parts@.take(p as int));
        let mut j: usize = 0;
        while j < part.len()
            invariant
                j <= part@.len(),
                crc == crc_acc(base + part@.take(j as int)),
                forall|i: int| 0 <= i < 256 ==> #[trigger] table@[i] == crc_entry(i as u32),
            decreases part@.len() - j,
        {
            let b = part[j];
            let x = (crc ^ (b as u32)) & 0xFFu32;
            assert(((crc ^ (b as u32)) & 0xFFu32) < 256) by (bit_vector);
            proof {
                let s = base + part@.take(j + 1);
                assert(s.drop_last() =~= base + part@.take(j as int));
                assert(s.last() == b);
            }
            crc = table[x as usize] ^ (crc >> 8u32);
            j = j + 1;
        }
        proof {
            assert(part@.take(j as int) =~= part@);
            assert(parts@.take(p + 1).drop_last() =~= parts@.take(p as int));
            assert(parts@.take(p + 1).last() == part);
        }
        p = p + 1;
    }
    assert(parts@.take(p as int) =~= parts@);
    crc ^ 0xFFFF_FFFFu32
}


/// One record in a journal file: a message, an inbound mark (a record of
/// length zero), an activity mark (sequence number zero, eight bytes of
/// milliseconds), or an outbound mark (sequence number zero, four bytes of
/// the highest outbound number spent).
#[derive(Debug, Clone, Copy, PartialEq, Eq)]
pub enum Record<'a> {
    /// A message this session sent, with the number it went out under.
    Message {
        /// `34=` on the message.
        seq: u32,
        /// The bytes exactly as they went on the wire.
        bytes: &'a [u8],
    },
    /// The highest inbound sequence number seen at that point.
    InboundMark {
        /// The inbound number recorded.
        seq: u32,
    },
    /// When the session was last known to be alive, in milliseconds on the
    /// engine's clock.
    ActivityMark {
        /// The instant recorded.
        at_ms: u64,
    },
    /// The highest outbound sequence number spent at that point, including
    /// the administrative messages the journal holds no bytes for.
    OutboundMark {
        /// The highest outbound number spent.
        seq: u32,
    },
}

/// A record, as a value.
pub ghost enum RecordView {
    Message { seq: u32, bytes: Seq<u8> },
    InboundMark { seq: u32 },
    ActivityMark { at_ms: u64 },
    OutboundMark { seq: u32 },
}

impl<'a> View for Record<'a> {
    type V = RecordView;

    open spec fn view(&self) -> RecordView {
        match *self {
            Record::Message { seq, bytes } => RecordView::Message { seq, bytes: bytes@ },
            Record::InboundMark { seq } => RecordView::InboundMark { seq },
            Record::ActivityMark { at_ms } => RecordView::ActivityMark { at_ms },
            Record::OutboundMark { seq } => RecordView::OutboundMark { seq },
        }
    }
}

impl<'a> Record<'a> {
    /// The sequence number, whichever shape this is. An activity mark answers
    /// `0`, the number it is written under; an outbound mark answers the
    /// number it carries, not the zero it is written under.
    pub fn seq(&self) -> (r: u32)
        ensures
            r == match self@ {
                RecordView::Message { seq, .. } => seq,
                RecordView::InboundMark { seq } => seq,
                RecordView::OutboundMark { seq } => seq,
                RecordView::ActivityMark { .. } => 0u32,
            },
    {
        match *self {
            Record::Message { seq, .. } => seq,
            Record::InboundMark { seq } => seq,
            Record::OutboundMark { seq } => seq,
            Record::ActivityMark { .. } => 0,
        }
    }
}

/// What a record's sequence number and payload mean.
pub open spec fn decode(seq: u32, payload: Seq<u8>) -> RecordView {
    if seq == 0 && payload.len() == ACTIVITY_LEN {
        RecordView::ActivityMark { at_ms: spec_u64_from_le_bytes(payload) }
    } else if seq == 0 && payload.len() == OUTBOUND_LEN {
        RecordView::OutboundMark { seq: spec_u32_from_le_bytes(payload) }
    } else if payload.len() == 0 {
        RecordView::InboundMark { seq }
    } else {
        RecordView::Message { seq, bytes: payload }
    }
}

/// The sequence number and payload a record is written with.
pub open spec fn record_parts(r: RecordView) -> (u32, Seq<u8>) {
    match r {
        RecordView::Message { seq, bytes } => (seq, bytes),
        RecordView::InboundMark { seq } => (seq, Seq::empty()),
        RecordView::ActivityMark { at_ms } => (0u32, spec_u64_to_le_bytes(at_ms)),
        RecordView::OutboundMark { seq } => (0u32, spec_u32_to_le_bytes(seq)),
    }
}

/// `seq ‖ len ‖ payload`, both numbers little-endian.
pub open spec fn spec_frame(seq: u32, payload: Seq<u8>) -> Seq<u8> {
    spec_u32_to_le_bytes(seq) + spec_u32_to_le_bytes(frame_len(payload)) + payload
}

/// The length a record declares for `payload`: its length, or 0 for one too
/// long for 32 bits.
pub open spec fn frame_len(payload: Seq<u8>) -> u32 {
    if payload.len() <= u32::MAX {
        payload.len() as u32
    } else {
        0
    }
}

/// The bytes one record is written as: its frame and, in version 1, the
/// frame's CRC32.
pub open spec fn encode(r: RecordView, v1: bool) -> Seq<u8> {
    let f = spec_frame(record_parts(r).0, record_parts(r).1);
    if v1 {
        f + spec_u32_to_le_bytes(spec_crc32(f))
    } else {
        f
    }
}

/// Every record's bytes, in order.
pub open spec fn encode_all(rs: Seq<RecordView>, v1: bool) -> Seq<u8>
    decreases rs.len(),
{
    if rs.len() == 0 {
        Seq::empty()
    } else {
        encode(rs[0], v1) + encode_all(rs.drop_first(), v1)
    }
}

/// What reading a record at `at` finds.
pub enum Parsed {
    /// A whole record: its number, its payload's length, and where the next
    /// one starts.
    Whole { seq: u32, len: usize, whole: usize },
    /// Not enough bytes for one: the end of the file, or a tear in it.
    Torn,
    /// A version-1 record whose stored checksum does not match its bytes.
    Corrupt,
}

/// What reading a record at `at` of `b` finds, in the format `v1` says.
pub open spec fn spec_parse_at(b: Seq<u8>, v1: bool, at: int) -> Parsed {
    if at < 0 || b.len() > usize::MAX || at + RECORD_HEADER > b.len() {
        Parsed::Torn
    } else {
        let seq = spec_u32_from_le_bytes(b.subrange(at, at + 4));
        let len = spec_u32_from_le_bytes(b.subrange(at + 4, at + 8)) as int;
        let end = at + RECORD_HEADER + len;
        let whole = if v1 {
            end + RECORD_CRC
        } else {
            end
        };
        if whole > b.len() {
            Parsed::Torn
        } else if v1 && spec_u32_from_le_bytes(b.subrange(end, whole)) != spec_crc32(
            b.subrange(at, end),
        ) {
            Parsed::Corrupt
        } else {
            Parsed::Whole { seq, len: len as usize, whole: whole as usize }
        }
    }
}

pub proof fn lemma_parse_at_advances(b: Seq<u8>, v1: bool, at: int)
    ensures
        spec_parse_at(b, v1, at) matches Parsed::Whole { len, whole, .. } ==> {
            &&& 0 <= at
            &&& at + RECORD_HEADER + len <= b.len()
            &&& whole == at + RECORD_HEADER + len + (if v1 {
                RECORD_CRC as int
            } else {
                0
            })
            &&& at < whole <= b.len()
        },
{
}

/// Every whole record from `at` on, until the file ends, tears or fails its
/// checksum.
pub open spec fn records_from(b: Seq<u8>, v1: bool, at: int) -> Seq<RecordView>
    decreases b.len() - at,
{
    match spec_parse_at(b, v1, at) {
        Parsed::Whole { seq, len, whole } => {
            proof {
                lemma_parse_at_advances(b, v1, at);
            }
            seq![decode(seq, b.subrange(at + RECORD_HEADER, at + RECORD_HEADER + len))]
                + records_from(b, v1, whole as int)
        },
        _ => Seq::empty(),
    }
}

/// Where reading stops, and whether it stopped at a bad checksum.
pub open spec fn scan_end(b: Seq<u8>, v1: bool, at: int) -> (int, bool)
    decreases b.len() - at,
{
    match spec_parse_at(b, v1, at) {
        Parsed::Whole { whole, .. } => {
            proof {
                lemma_parse_at_advances(b, v1, at);
            }
            scan_end(b, v1, whole as int)
        },
        Parsed::Torn => (at, false),
        Parsed::Corrupt => (at, true),
    }
}

/// Whether a file's first five bytes are the version-1 header.
pub open spec fn has_header_v1(b: Seq<u8>) -> bool {
    b.len() >= 5 && b.take(5) == spec_header_v1()
}

/// Where a file's records start: after the header in version 1.
pub open spec fn first_record(b: Seq<u8>) -> int {
    if has_header_v1(b) {
        5
    } else {
        0
    }
}

fn starts_with_header_v1(b: &[u8]) -> (r: bool)
    ensures
        r == has_header_v1(b@),
{
    let r = b.len() >= 5 && b[0] == 70u8 && b[1] == 88u8 && b[2] == 66u8 && b[3] == 74u8 && b[4]
        == 1u8;
    proof {
        if b@.len() >= 5 {
            assert(r == (b@.take(5) =~= spec_header_v1()));
        }
    }
    r
}

/// What reading a record at `at` finds.
fn parse_at(b: &[u8], v1: bool, at: usize) -> (r: Parsed)
    ensures
        r == spec_parse_at(b@, v1, at as int),
{
    if at > b.len() || b.len() - at < RECORD_HEADER {
        return Parsed::Torn;
    }
    let seq = u32_from_le_bytes(vstd::slice::slice_subrange(b, at, at + 4));
    let len = u32_from_le_bytes(vstd::slice::slice_subrange(b, at + 4, at + 8)) as usize;
    if len > b.len() - at - RECORD_HEADER {
        return Parsed::Torn;
    }
    let end = at + RECORD_HEADER + len;
    let whole = if v1 {
        if b.len() - end < RECORD_CRC {
            return Parsed::Torn;
        }
        end + RECORD_CRC
    } else {
        end
    };
    if v1 {
        let stored = u32_from_le_bytes(vstd::slice::slice_subrange(b, end, whole));
        let body = vstd::slice::slice_subrange(b, at, end);
        let parts: [&[u8]; 1] = [body];
        let computed = crc32(parts.as_slice());
        proof {
            assert(parts@.len() == 1);
            assert(parts@[0] == body);
            assert(parts@.drop_last() =~= Seq::<&[u8]>::empty());
            assert(joined(parts@.drop_last()) =~= Seq::<u8>::empty());
            assert(joined(parts@) =~= body@);
        }
        if stored != computed {
            return Parsed::Corrupt;
        }
    }
    Parsed::Whole { seq, len, whole }
}

/// Where reading from `at` stops, and whether at a bad checksum.
fn scan(b: &[u8], v1: bool, from: usize) -> (r: (usize, bool))
    requires
        from <= b@.len(),
    ensures
        (r.0 as int, r.1) == scan_end(b@, v1, from as int),
        r.0 <= b@.len(),
{
    let mut at = from;
    loop
        invariant
            at <= b@.len(),
            scan_end(b@, v1, from as int) == scan_end(b@, v1, at as int),
        decreases b@.len() - at,
    {
        match parse_at(b, v1, at) {
            Parsed::Whole { whole, .. } => {
                proof {
                    lemma_parse_at_advances(b@, v1, at as int);
                }
                at = whole;
            },
            Parsed::Torn => return (at, false),
            Parsed::Corrupt => return (at, true),
        }
    }
}

/// Reads a journal file's bytes from outside the process that wrote it.
///
/// A file journal reloads its file into a ring of `N` messages because what
/// it has to answer is the next `ResendRequest`. This answers the other
/// question — *"we sent order X at 10:32, did you receive it?"* — about a
/// message that may be very old. No `N`, no `LEN`, no bound. It does not
/// interpret FIX: records come back as bytes.
pub struct Reader {
    bytes: Vec<u8>,
    torn: usize,
    v1: bool,
    corrupt: usize,
}

impl Reader {
    /// The file's bytes.
    pub closed spec fn spec_bytes(&self) -> Seq<u8> {
        self.bytes@
    }

    /// Read a whole file's bytes: the format is what its first five bytes
    /// say, and reading stops at the first record that is not whole or whose
    /// checksum does not match.
    pub fn from_bytes(bytes: Vec<u8>) -> (r: Self)
        ensures
            r.spec_bytes() == bytes@,
            r.torn_tail() == bytes@.len() - scan_end(
                bytes@,
                has_header_v1(bytes@),
                first_record(bytes@),
            ).0,
            r.corrupt() == (if scan_end(bytes@, has_header_v1(bytes@), first_record(bytes@)).1 {
                1int
            } else {
                0int
            }),
            r.is_v1() == has_header_v1(bytes@),
    {
        let v1 = starts_with_header_v1(bytes.as_slice());
        let mut at: usize = if v1 {
            5
        } else {
            0
        };
        let (end, bad) = scan(bytes.as_slice(), v1, at);
        let at = end;
        let corrupt: usize = if bad {
            1
        } else {
            0
        };
        let torn = bytes.len() - at;
        Self { bytes, torn, v1, corrupt }
    }

    /// Bytes at the end that do not form a whole record, as a number.
    pub closed spec fn torn_tail(&self) -> int {
        self.torn as int
    }

    /// Records whose checksum failed, as a number.
    pub closed spec fn corrupt(&self) -> int {
        self.corrupt as int
    }

    /// Whether the file is in version 1.
    pub closed spec fn is_v1(&self) -> bool {
        self.v1
    }

    /// Records whose stored checksum did not match their bytes. **Zero or
    /// one**: reading stops at the first, so this says *whether* the file was
    /// corrupt. Always zero on a version-0 file, which has no checksums.
    pub fn corrupt_records(&self) -> (r: usize)
        ensures
            r == self.corrupt(),
    {
        self.corrupt
    }

    /// Every whole record, in the order they were written.
    pub fn records(&self) -> (r: Records<'_>)
        ensures
            r.remaining() == records_from(self.spec_bytes(), self.is_v1(), if self.is_v1() {
                5int
            } else {
                0int
            }),
    {
        Records {
            bytes: self.bytes.as_slice(),
            at: if self.v1 {
                5
            } else {
                0
            },
            v1: self.v1,
        }
    }

    /// Bytes at the end that do not form a whole record. **Zero on a file
    /// written by a process that exited cleanly.**
    pub fn torn_tail_bytes(&self) -> (r: usize)
        ensures
            r == self.torn_tail(),
    {
        self.torn
    }

    /// How many bytes the file holds, torn tail included.
    pub fn len(&self) -> (r: usize)
        ensures
            r == self.spec_bytes().len(),
    {
        self.bytes.len()
    }

    /// How many bytes precede the first record: five for version 1, zero for
    /// version 0.
    fn header_len(&self) -> (r: usize)
        ensures
            r == if self.is_v1() {
                5int
            } else {
                0int
            },
    {
        if self.v1 {
            5
        } else {
            0
        }
    }

    /// Whether the file holds nothing to read: no records and no torn tail. A
    /// version-1 journal opened and never written to is five bytes of header,
    /// and is empty.
    pub fn is_empty(&self) -> (r: bool)
        ensures
            r == (self.spec_bytes().len() <= (if self.is_v1() {
                5int
            } else {
                0int
            }) && self.torn_tail() == 0),
    {
        self.bytes.len() <= self.header_len() && self.torn == 0
    }
}

/// Every whole record in a [`Reader`]'s file. See [`Reader::records`].
pub struct Records<'a> {
    bytes: &'a [u8],
    at: usize,
    v1: bool,
}

impl<'a> Records<'a> {
    /// The records still to come.
    pub closed spec fn remaining(&self) -> Seq<RecordView> {
        records_from(self.bytes@, self.v1, self.at as int)
    }

    /// The next whole record, or `None` at the end, at a tear or at a failed
    /// checksum — which [`Reader::torn_tail_bytes`] and
    /// [`Reader::corrupt_records`] then say.
    pub fn next(&mut self) -> (r: Option<Record<'a>>)
        ensures
            match r {
                Some(rec) => old(self).remaining().len() > 0 && rec@ == old(self).remaining()[0]
                    && final(self).remaining() == old(self).remaining().drop_first(),
                None => old(self).remaining().len() == 0,
            },
    {
        match parse_at(self.bytes, self.v1, self.at) {
            Parsed::Whole { seq, len, whole } => {
                proof {
                    lemma_parse_at_advances(self.bytes@, self.v1, self.at as int);
                }
                let start = self.at + RECORD_HEADER;
                let payload = vstd::slice::slice_subrange(self.bytes, start, start + len);
                self.at = whole;
                let rec = if seq == 0 && len == ACTIVITY_LEN {
                    Record::ActivityMark { at_ms: u64_from_le_bytes(payload) }
                } else if seq == 0 && len == OUTBOUND_LEN {
                    Record::OutboundMark { seq: u32_from_le_bytes(payload) }
                } else if len == 0 {
                    Record::InboundMark { seq }
                } else {
                    Record::Message { seq, bytes: payload }
                };
                Some(rec)
            },
            _ => None,
        }
    }
}


/// The activity-or-outbound sequence number: zero, which FIX never uses.
pub const ACTIVITY_MARK: u32 = 0;

fn push_all(out: &mut Vec<u8>, bytes: &[u8])
    ensures
        final(out)@ == old(out)@ + bytes@,
{
    let mut i: usize = 0;
    while i < bytes.len()
        invariant
            i <= bytes@.len(),
            out@ == old(out)@ + bytes@.take(i as int),
        decreases bytes@.len() - i,
    {
        out.push(bytes[i]);
        i = i + 1;
        proof {
            assert(bytes@.take(i as int) =~= bytes@.take(i - 1).push(bytes@[i - 1]));
        }
    }
    assert(bytes@.take(i as int) =~= bytes@);
}

/// `seq ‖ len ‖ payload`: a record as it is pushed to the writer thread, and
/// as a version-0 file holds it.
pub fn frame(seq: u32, payload: &[u8]) -> (r: Vec<u8>)
    ensures
        r@ == spec_frame(seq, payload@),
{
    let mut out = u32_to_le_bytes(seq);
    let len: u32 = if payload.len() as u64 <= u32::MAX as u64 {
        payload.len() as u32
    } else {
        0
    };
    let n = u32_to_le_bytes(len);
    push_all(&mut out, n.as_slice());
    push_all(&mut out, payload);
    out
}

/// A record as a version-1 file holds it: its frame, then the frame's CRC32.
pub fn with_crc(framed: &[u8]) -> (r: Vec<u8>)
    ensures
        r@ == framed@ + spec_u32_to_le_bytes(spec_crc32(framed@)),
{
    let parts: [&[u8]; 1] = [framed];
    proof {
        assert(parts@.drop_last() =~= Seq::<&[u8]>::empty());
        assert(joined(parts@.drop_last()) =~= Seq::<u8>::empty());
        assert(joined(parts@) =~= framed@);
    }
    let c = crc32(parts.as_slice());
    let mut out: Vec<u8> = Vec::new();
    push_all(&mut out, framed);
    let cb = u32_to_le_bytes(c);
    push_all(&mut out, cb.as_slice());
    assert(out@ =~= framed@ + spec_u32_to_le_bytes(spec_crc32(framed@)));
    out
}

/// The record `mark_out(seq)` writes, before its CRC: an outbound mark.
///
/// **One function, three callers**: `mark_out`, and the two places a message
/// that carries a secret is replaced by the mark for its number. One builder
/// is what keeps *"the same bytes `mark_out` writes"* true.
pub fn outbound_mark(seq: u32) -> (r: [u8; 12])
    ensures
        r@ == spec_frame(ACTIVITY_MARK, spec_u32_to_le_bytes(seq)),
{
    let z = u32_to_le_bytes(ACTIVITY_MARK);
    let n = u32_to_le_bytes(OUTBOUND_LEN as u32);
    let v = u32_to_le_bytes(seq);
    proof {
        vstd::bytes::lemma_auto_spec_u32_to_from_le_bytes();
    }
    let mut rec = [0u8; 12];
    rec[0] = z[0];
    rec[1] = z[1];
    rec[2] = z[2];
    rec[3] = z[3];
    rec[4] = n[0];
    rec[5] = n[1];
    rec[6] = n[2];
    rec[7] = n[3];
    rec[8] = v[0];
    rec[9] = v[1];
    rec[10] = v[2];
    rec[11] = v[3];
    assert(rec@ =~= spec_frame(ACTIVITY_MARK, spec_u32_to_le_bytes(seq)));
    rec
}

/// An activity mark: sequence number zero and eight bytes of milliseconds.
pub fn activity_mark(at_ms: u64) -> (r: Vec<u8>)
    ensures
        r@ == spec_frame(ACTIVITY_MARK, spec_u64_to_le_bytes(at_ms)),
{
    let t = u64_to_le_bytes(at_ms);
    frame(ACTIVITY_MARK, t.as_slice())
}

/// An inbound mark: the number, and a length of zero.
pub fn inbound_mark(seq: u32) -> (r: Vec<u8>)
    ensures
        r@ == spec_frame(seq, Seq::empty()),
{
    let empty: [u8; 0] = [];
    assert(empty@ =~= Seq::<u8>::empty());
    frame(seq, empty.as_slice())
}

/// The sequence number of a **message** record — `seq ‖ len ‖ bytes`, as it
/// is pushed to the writer — whose bytes carry a secret, or `None` for
/// anything else: a clean message, or any of the three marks.
pub fn carries_secret_at(record: &[u8]) -> (r: Option<u32>)
    ensures
        r == (if record@.len() < RECORD_HEADER {
            None
        } else {
            let seq = spec_u32_from_le_bytes(record@.take(4));
            let payload = record@.skip(RECORD_HEADER as int);
            if seq != ACTIVITY_MARK && payload.len() > 0 && crate::redact::secret_ranges(
                payload,
            ).len() > 0 {
                Some(seq)
            } else {
                None
            }
        }),
{
    if record.len() < RECORD_HEADER {
        return None;
    }
    let seq = u32_from_le_bytes(vstd::slice::slice_subrange(record, 0, 4));
    let payload = vstd::slice::slice_subrange(record, RECORD_HEADER, record.len());
    assert(record@.subrange(0, 4) =~= record@.take(4));
    assert(payload@ =~= record@.skip(RECORD_HEADER as int));
    if seq != ACTIVITY_MARK && payload.len() > 0 && crate::redact::carries_secret(payload) {
        Some(seq)
    } else {
        None
    }
}

/// What the journal's writer does after one pop of its ring.
#[derive(Debug, Clone, Copy, PartialEq, Eq, Structural)]
pub enum WriterStep {
    /// Nothing usable was popped (a record longer than the buffer was
    /// dropped): carry on with the next.
    Skip,
    /// Flush, let go of the file, and return: the stop record was popped, or
    /// the last look after being told to stop when dry found nothing.
    Stop,
    /// Append the popped record, as [`written_for`] says.
    Write,
    /// Told to stop when dry and found the ring empty: pop once more, and
    /// stop if that finds nothing either.
    LastLook,
    /// Nothing to do: give the core back for a moment.
    Wait,
}

/// The step for a pop that answered `popped` into a buffer whose bytes are
/// `buf`, with `last_look` already taken or not and the ticket reading `told`.
pub open spec fn spec_writer_step(popped: Option<usize>, buf: Seq<u8>, last_look: bool, told: u8) -> WriterStep {
    match popped {
        Some(n) => if n == 0 || n > buf.len() {
            WriterStep::Skip
        } else if n == 1 && buf[0] == STOP {
            WriterStep::Stop
        } else {
            WriterStep::Write
        },
        None => if last_look {
            WriterStep::Stop
        } else if told == RETIRED_STOP_WHEN_DRY {
            WriterStep::LastLook
        } else {
            WriterStep::Wait
        },
    }
}

/// Decide what the writer does with one pop.
pub fn writer_step(popped: Option<usize>, buf: &[u8], last_look: bool, told: u8) -> (r: WriterStep)
    ensures
        r == spec_writer_step(popped, buf@, last_look, told),
{
    match popped {
        Some(n) => if n == 0 || n > buf.len() {
            WriterStep::Skip
        } else if n == 1 && buf[0] == STOP {
            WriterStep::Stop
        } else {
            WriterStep::Write
        },
        None => if last_look {
            WriterStep::Stop
        } else if told == RETIRED_STOP_WHEN_DRY {
            WriterStep::LastLook
        } else {
            WriterStep::Wait
        },
    }
}

/// The bytes the writer appends for one popped record: the record itself,
/// or, for a message carrying a secret, the outbound mark for its number in
/// its place; followed by their CRC32 in a version-1 file.
pub open spec fn spec_written_for(record: Seq<u8>, v1: bool) -> Seq<u8> {
    let body = if record.len() < RECORD_HEADER {
        record
    } else {
        let seq = spec_u32_from_le_bytes(record.take(4));
        let payload = record.skip(RECORD_HEADER as int);
        if seq != ACTIVITY_MARK && payload.len() > 0 && crate::redact::secret_ranges(payload).len()
            > 0 {
            spec_frame(ACTIVITY_MARK, spec_u32_to_le_bytes(seq))
        } else {
            record
        }
    };
    if v1 {
        body + spec_u32_to_le_bytes(spec_crc32(body))
    } else {
        body
    }
}

/// What the writer appends for one popped record. **A message carrying a
/// secret never reaches the file**, not even masked: replayed after a
/// restart, a masked password would be a wrong one on the wire.
pub fn written_for(record: &[u8], v1: bool) -> (r: Vec<u8>)
    ensures
        r@ == spec_written_for(record@, v1),
{
    let mut body: Vec<u8> = Vec::new();
    match carries_secret_at(record) {
        Some(seq) => {
            let mark = outbound_mark(seq);
            push_all(&mut body, mark.as_slice());
        },
        None => push_all(&mut body, record),
    }
    if v1 {
        with_crc(body.as_slice())
    } else {
        body
    }
}

/// The writer's buffer for a journal whose slot holds `len` bytes: the
/// largest record the ring can carry, header included.
pub fn writer_buf(len: usize) -> (r: usize)
    requires
        len <= usize::MAX - RECORD_HEADER,
    ensures
        r == RECORD_HEADER + (if len < ACTIVITY_LEN {
            ACTIVITY_LEN as int
        } else {
            len as int
        }),
{
    let mut most = len;
    if ACTIVITY_LEN > most {
        most = ACTIVITY_LEN;
    }
    if OUTBOUND_LEN > most {
        most = OUTBOUND_LEN;
    }
    RECORD_HEADER + most
}

// --- what a written file reads back as ------------------------------------

/// A record the format can carry back unchanged: a message has a number FIX
/// uses and at least one byte, as every FIX message does.
pub open spec fn writable(r: RecordView) -> bool {
    match r {
        RecordView::Message { seq, bytes } => seq != 0 && bytes.len() > 0 && bytes.len()
            <= u32::MAX,
        _ => true,
    }
}

proof fn lemma_decode_encode(r: RecordView)
    requires
        writable(r),
    ensures
        decode(record_parts(r).0, record_parts(r).1) == r,
        record_parts(r).1.len() <= u32::MAX,
{
    vstd::bytes::lemma_auto_spec_u32_to_from_le_bytes();
    vstd::bytes::lemma_auto_spec_u64_to_from_le_bytes();
}

proof fn lemma_encode_len(r: RecordView, v1: bool)
    requires
        writable(r),
    ensures
        encode(r, v1).len() == RECORD_HEADER + record_parts(r).1.len() + (if v1 {
            RECORD_CRC as int
        } else {
            0
        }),
{
    vstd::bytes::lemma_auto_spec_u32_to_from_le_bytes();
    vstd::bytes::lemma_auto_spec_u64_to_from_le_bytes();
}

/// Reading a record preceded by other bytes is reading it alone, moved.
proof fn lemma_parse_at_shift(p: Seq<u8>, q: Seq<u8>, v1: bool, at: int)
    requires
        0 <= at,
        (p + q).len() <= usize::MAX,
    ensures
        match (spec_parse_at(p + q, v1, p.len() + at), spec_parse_at(q, v1, at)) {
            (Parsed::Whole { seq: s1, len: l1, whole: w1 }, Parsed::Whole {
                seq: s2,
                len: l2,
                whole: w2,
            }) => s1 == s2 && l1 == l2 && w1 == p.len() + w2,
            (Parsed::Torn, Parsed::Torn) => true,
            (Parsed::Corrupt, Parsed::Corrupt) => true,
            _ => false,
        },
{
    let b = p + q;
    let a = p.len() + at;
    if a + RECORD_HEADER <= b.len() {
        assert(b.subrange(a, a + 4) =~= q.subrange(at, at + 4));
        assert(b.subrange(a + 4, a + 8) =~= q.subrange(at + 4, at + 8));
        let len = spec_u32_from_le_bytes(q.subrange(at + 4, at + 8)) as int;
        let end = at + RECORD_HEADER + len;
        let whole = if v1 {
            end + RECORD_CRC
        } else {
            end
        };
        if whole <= q.len() {
            assert(b.subrange(p.len() + end, p.len() + whole) =~= q.subrange(end, whole));
            assert(b.subrange(a, p.len() + end) =~= q.subrange(at, end));
        }
    }
}

proof fn lemma_records_from_shift(p: Seq<u8>, q: Seq<u8>, v1: bool, at: int)
    requires
        0 <= at,
        (p + q).len() <= usize::MAX,
    ensures
        records_from(p + q, v1, p.len() + at) == records_from(q, v1, at),
        scan_end(p + q, v1, p.len() + at) == (p.len() + scan_end(q, v1, at).0, scan_end(
            q,
            v1,
            at,
        ).1),
    decreases q.len() - at,
{
    lemma_parse_at_shift(p, q, v1, at);
    lemma_parse_at_advances(q, v1, at);
    lemma_parse_at_advances(p + q, v1, p.len() + at);
    match spec_parse_at(q, v1, at) {
        Parsed::Whole { seq, len, whole } => {
            lemma_records_from_shift(p, q, v1, whole as int);
            let a = p.len() + at;
            assert((p + q).subrange(a + RECORD_HEADER, a + RECORD_HEADER + len) =~= q.subrange(
                at + RECORD_HEADER,
                at + RECORD_HEADER + len,
            ));
        },
        _ => {},
    }
}

/// **A file reads back as the records written to it.** Records written one
/// after another in either format are read back in order, each exactly as it
/// was written, with no torn tail and no checksum failure.
pub proof fn law_written_records_read_back(rs: Seq<RecordView>, v1: bool)
    requires
        forall|i: int| 0 <= i < rs.len() ==> writable(#[trigger] rs[i]),
        encode_all(rs, v1).len() <= usize::MAX,
    ensures
        records_from(encode_all(rs, v1), v1, 0) == rs,
        scan_end(encode_all(rs, v1), v1, 0) == (encode_all(rs, v1).len() as int, false),
    decreases rs.len(),
{
    if rs.len() > 0 {
        let r = rs[0];
        let e = encode(r, v1);
        let rest = encode_all(rs.drop_first(), v1);
        let b = encode_all(rs, v1);
        assert(b == e + rest);
        assert forall|i: int| 0 <= i < rs.drop_first().len() implies writable(
            #[trigger] rs.drop_first()[i],
        ) by {
            assert(rs.drop_first()[i] == rs[i + 1]);
        }
        law_written_records_read_back(rs.drop_first(), v1);
        lemma_decode_encode(r);
        lemma_encode_len(r, v1);
        vstd::bytes::lemma_auto_spec_u32_to_from_le_bytes();
        let (seq, payload) = record_parts(r);
        let f = spec_frame(seq, payload);
        assert(b.subrange(0, 4) =~= spec_u32_to_le_bytes(seq));
        assert(b.subrange(4, 8) =~= spec_u32_to_le_bytes(payload.len() as u32));
        assert(b.subrange(RECORD_HEADER as int, RECORD_HEADER + payload.len()) =~= payload);
        if v1 {
            assert(b.subrange(0, f.len() as int) =~= f);
            assert(b.subrange(f.len() as int, f.len() + 4int) =~= spec_u32_to_le_bytes(
                spec_crc32(f),
            ));
        }
        lemma_records_from_shift(e, rest, v1, 0);
        assert(records_from(b, v1, 0) =~= seq![r] + rs.drop_first());
        assert(seq![r] + rs.drop_first() =~= rs);
    }
}

/// **What [`Reader`] reads of a version-1 file is what was written.** A file
/// that is the header and then records reads back as those records, with no
/// torn tail and no corrupt record.
pub proof fn law_a_version_one_file_reads_back(rs: Seq<RecordView>)
    requires
        forall|i: int| 0 <= i < rs.len() ==> writable(#[trigger] rs[i]),
        spec_header_v1().len() + encode_all(rs, true).len() <= usize::MAX,
    ensures
        ({
            let b = spec_header_v1() + encode_all(rs, true);
            &&& has_header_v1(b)
            &&& records_from(b, true, first_record(b)) == rs
            &&& scan_end(b, true, first_record(b)) == (b.len() as int, false)
        }),
{
    let b = spec_header_v1() + encode_all(rs, true);
    assert(b.take(5) =~= spec_header_v1());
    law_written_records_read_back(rs, true);
    lemma_records_from_shift(spec_header_v1(), encode_all(rs, true), true, 0);
}


// --- a restart: replaying a file into a ring -----------------------------

/// Everything a ring and its marks hold, as values.
pub ghost struct JournalState {
    pub kept: Seq<(u32, Seq<u8>)>,
    pub high_water: Option<u32>,
    pub highest_in: Option<u32>,
    pub highest_out: Option<u32>,
    pub last_active: Option<u64>,
}

impl<const N: usize, const LEN: usize> MemJournal<N, LEN> {
    /// This journal, as values, with the activity mark a file carried.
    pub open spec fn state(&self, last_active: Option<u64>) -> JournalState {
        JournalState {
            kept: self.kept(),
            high_water: self.spec_high_water(),
            highest_in: self.spec_highest_in(),
            highest_out: self.spec_highest_out(),
            last_active,
        }
    }

    /// A fresh ring.
    pub open spec fn empty_state() -> JournalState {
        JournalState {
            kept: Seq::new(N as nat, |i: int| (0u32, Seq::<u8>::empty())),
            high_water: None,
            highest_in: None,
            highest_out: None,
            last_active: None,
        }
    }

    /// What reading one record back does: a message is kept as `put` keeps
    /// it, a mark raises its number, and the latest activity mark wins.
    pub open spec fn apply(st: JournalState, r: RecordView) -> JournalState {
        match r {
            RecordView::Message { seq, bytes } => if bytes.len() <= LEN && N > 0 && bytes.len()
                <= u16::MAX {
                JournalState {
                    kept: st.kept.update((seq as int) % (N as int), (seq, bytes)),
                    high_water: Some(raised(st.high_water, seq)),
                    highest_out: Some(raised(st.highest_out, seq)),
                    ..st
                }
            } else {
                st
            },
            RecordView::InboundMark { seq } => JournalState {
                highest_in: Some(raised(st.highest_in, seq)),
                ..st
            },
            RecordView::OutboundMark { seq } => JournalState {
                highest_out: Some(raised(st.highest_out, seq)),
                ..st
            },
            RecordView::ActivityMark { at_ms } => JournalState { last_active: Some(at_ms), ..st },
        }
    }

    /// What reading `rs` back, in order, into a fresh ring leaves.
    pub open spec fn replay_all(rs: Seq<RecordView>) -> JournalState
        decreases rs.len(),
    {
        if rs.len() == 0 {
            Self::empty_state()
        } else {
            Self::apply(Self::replay_all(rs.drop_last()), rs.last())
        }
    }
}

impl<const N: usize, const LEN: usize> MemJournal<N, LEN> {
    /// Records that are not activity marks leave the last activity time as
    /// it was.
    proof fn lemma_other_records_keep_last_active(base: Seq<RecordView>, more: Seq<RecordView>)
        requires
            forall|i: int| 0 <= i < more.len() ==> !(#[trigger] more[i] is ActivityMark),
        ensures
            Self::replay_all(base + more).last_active == Self::replay_all(base).last_active,
        decreases more.len(),
    {
        if more.len() > 0 {
            let init = more.drop_last();
            assert forall|i: int| 0 <= i < init.len() implies !(#[trigger] init[i] is ActivityMark) by {
                assert(init[i] == more[i]);
            }
            Self::lemma_other_records_keep_last_active(base, init);
            assert((base + more).drop_last() =~= base + init);
            assert((base + more).last() == more[more.len() - 1]);
        } else {
            assert(base + more =~= base);
        }
    }

    /// **The latest activity mark wins.** However many activity marks a file
    /// holds, reading it back leaves the time of the last one, whatever
    /// records come after it and whatever marks came before.
    pub proof fn law_the_latest_activity_mark_wins(
        before: Seq<RecordView>,
        at_ms: u64,
        after: Seq<RecordView>,
    )
        requires
            forall|i: int| 0 <= i < after.len() ==> !(#[trigger] after[i] is ActivityMark),
        ensures
            Self::replay_all(before.push(RecordView::ActivityMark { at_ms }) + after).last_active
                == Some(at_ms),
    {
        let with_mark = before.push(RecordView::ActivityMark { at_ms });
        Self::lemma_other_records_keep_last_active(with_mark, after);
        assert(with_mark.drop_last() =~= before);
    }

    /// **No activity mark, no last activity time.** A file without an
    /// activity mark reads back with none.
    pub proof fn law_no_activity_mark_reads_back_none(rs: Seq<RecordView>)
        requires
            forall|i: int| 0 <= i < rs.len() ==> !(#[trigger] rs[i] is ActivityMark),
        ensures
            Self::replay_all(rs).last_active is None,
    {
        Self::lemma_other_records_keep_last_active(Seq::empty(), rs);
        assert(Seq::<RecordView>::empty() + rs =~= rs);
    }
}

/// **`highest` is the highest number kept.** It is `None` exactly when no
/// slot holds bytes; otherwise it is the number of a slot holding bytes, and
/// no slot holding bytes has a higher number.
pub proof fn law_highest_is_the_highest_number_kept(k: Seq<(u32, Seq<u8>)>)
    ensures
        max_kept(k) is None <==> forall|i: int| 0 <= i < k.len() ==> (#[trigger] k[i]).1.len() == 0,
        max_kept(k) matches Some(m) ==> exists|i: int|
            0 <= i < k.len() && (#[trigger] k[i]).1.len() > 0 && k[i].0 == m,
        max_kept(k) matches Some(m) ==> forall|i: int|
            0 <= i < k.len() && (#[trigger] k[i]).1.len() > 0 ==> k[i].0 <= m,
    decreases k.len(),
{
    if k.len() > 0 {
        let init = k.drop_last();
        law_highest_is_the_highest_number_kept(init);
        assert forall|i: int| 0 <= i < init.len() implies #[trigger] init[i] == k[i] by {}
        let last = k.len() - 1;
        assert(k.last() == k[last]);
        if max_kept(k) is None {
            assert forall|i: int| 0 <= i < k.len() implies (#[trigger] k[i]).1.len() == 0 by {
                if i < last {
                    assert(init[i] == k[i]);
                }
            }
        }
        if forall|i: int| 0 <= i < k.len() ==> (#[trigger] k[i]).1.len() == 0 {
            assert forall|i: int| 0 <= i < init.len() implies (#[trigger] init[i]).1.len() == 0 by {
                assert(init[i] == k[i]);
            }
        }
        if max_kept(k) is Some {
            let m = max_kept(k).unwrap();
            if k[last].1.len() > 0 && (max_kept(init) is None || max_kept(init).unwrap() < k[last].0) {
                assert(m == k[last].0);
            } else {
                let w = choose|i: int| 0 <= i < init.len() && (#[trigger] init[i]).1.len() > 0 && init[i].0 == m;
                assert(k[w] == init[w]);
            }
            assert forall|i: int| 0 <= i < k.len() && (#[trigger] k[i]).1.len() > 0 implies k[i].0 <= m by {
                if i < last {
                    assert(init[i] == k[i]);
                }
            }
        }
    }
}

/// Whether a file a journal opens is in version 1: one that is empty, or
/// starts with the header. A file that exists without it stays version 0 for
/// as long as it is appended to.
pub open spec fn opens_as_v1(b: Seq<u8>) -> bool {
    b.len() == 0 || has_header_v1(b)
}

/// What a journal file held when it was opened: every whole record put back
/// into a ring, how many bytes at the end were not a whole record, whether a
/// checksum failed, the latest activity mark, and the format.
pub struct Replayed<const N: usize, const LEN: usize> {
    /// The ring, with everything the file held put back into it.
    pub journal: MemJournal<N, LEN>,
    /// Bytes at the end that did not form a whole record.
    pub torn: usize,
    /// `1` when reading stopped at a record whose checksum did not match.
    pub corrupt: usize,
    /// The latest activity mark.
    pub last_active: Option<u64>,
    /// Whether the file is in version 1.
    pub v1: bool,
}

/// **Read before appending.** Everything already in a journal file is put
/// back into a ring, so `get` and `highest` answer for messages this process
/// never sent. A tail that is not a whole record, and a record whose checksum
/// fails, stop the read: everything before stands, and the bytes dropped are
/// counted rather than replayed, because a gap fill is a legal answer to a
/// `ResendRequest` and a corrupt message is not.
pub fn replay<const N: usize, const LEN: usize>(bytes: &[u8]) -> (r: Replayed<N, LEN>)
    ensures
        r.v1 == opens_as_v1(bytes@),
        ({
            let start = if r.v1 && bytes@.len() > 0 {
                5int
            } else {
                0int
            };
            let rs = records_from(bytes@, r.v1, start);
            let end = scan_end(bytes@, r.v1, start);
            &&& r.journal.state(r.last_active) == MemJournal::<N, LEN>::replay_all(rs)
            &&& r.torn == bytes@.len() - end.0
            &&& r.corrupt == (if end.1 {
                1int
            } else {
                0int
            })
        }),
{
    let v1 = bytes.len() == 0 || starts_with_header_v1(bytes);
    let start: usize = if v1 && bytes.len() > 0 {
        5
    } else {
        0
    };
    let mut journal: MemJournal<N, LEN> = MemJournal::new();
    let mut last_active: Option<u64> = None;
    let mut at = start;
    let ghost mut done: Seq<RecordView> = Seq::empty();
    proof {
        assert(journal.state(last_active) == MemJournal::<N, LEN>::replay_all(done));
    }
    loop
        invariant
            start <= at <= bytes@.len(),
            v1 == opens_as_v1(bytes@),
            start == (if v1 && bytes@.len() > 0 {
                5int
            } else {
                0int
            }),
            records_from(bytes@, v1, start as int) == done + records_from(bytes@, v1, at as int),
            scan_end(bytes@, v1, start as int) == scan_end(bytes@, v1, at as int),
            journal.state(last_active) == MemJournal::<N, LEN>::replay_all(done),
        decreases bytes@.len() - at,
    {
        match parse_at(bytes, v1, at) {
            Parsed::Whole { seq, len, whole } => {
                proof {
                    lemma_parse_at_advances(bytes@, v1, at as int);
                }
                let from = at + RECORD_HEADER;
                let payload = vstd::slice::slice_subrange(bytes, from, from + len);
                let ghost rec = decode(seq, payload@);
                if seq == ACTIVITY_MARK && len == ACTIVITY_LEN {
                    last_active = Some(u64_from_le_bytes(payload));
                } else if seq == ACTIVITY_MARK && len == OUTBOUND_LEN {
                    journal.mark_out(u32_from_le_bytes(payload));
                } else if len == 0 {
                    journal.mark_in(seq);
                } else {
                    let _ = journal.put(seq, payload);
                }
                proof {
                    let old_done = done;
                    done = done.push(rec);
                    assert(done.drop_last() =~= old_done);
                    assert(records_from(bytes@, v1, at as int) =~= seq![rec] + records_from(
                        bytes@,
                        v1,
                        whole as int,
                    ));
                    assert(old_done + (seq![rec] + records_from(bytes@, v1, whole as int))
                        =~= done + records_from(bytes@, v1, whole as int));
                }
                at = whole;
            },
            Parsed::Torn => {
                assert(done + records_from(bytes@, v1, at as int) =~= done);
                return Replayed {
                    journal,
                    torn: bytes.len() - at,
                    corrupt: 0,
                    last_active,
                    v1,
                };
            },
            Parsed::Corrupt => {
                assert(done + records_from(bytes@, v1, at as int) =~= done);
                return Replayed {
                    journal,
                    torn: bytes.len() - at,
                    corrupt: 1,
                    last_active,
                    v1,
                };
            },
        }
    }
}


/// When a file journal considers a message written.
#[derive(Debug, Clone, Copy, PartialEq, Eq, Structural)]
pub enum Durability {
    /// Handed to a writer thread and returned from immediately. The default:
    /// nothing blocks on the engine thread, and a crash can lose whatever the
    /// writer had not reached.
    Async,
    /// Written and `fsync`ed before `put` returns. This blocks the engine
    /// thread, on purpose.
    Fsync,
}

impl Default for Durability {
    fn default() -> (r: Self)
        ensures
            r == Durability::Async,
    {
        Durability::Async
    }
}

// --- a retired writer's ticket --------------------------------------------

/// The writer has not been told anything: it stops at its stop record, and
/// nobody counts it.
pub const RUNNING: u8 = 0;
/// Retired, with the stop record in its ring. It stops there, and uncounts
/// itself.
pub const RETIRED: u8 = 1;
/// Retired while its ring was full, so no stop record could be pushed. It
/// stops the first time the ring runs dry after reading this.
pub const RETIRED_STOP_WHEN_DRY: u8 = 2;
/// A retired writer that has lowered the count, or a writer that finished
/// unretired and was retired after. Nothing leaves this state.
pub const FINISHED: u8 = 3;
/// A writer that finished before anyone retired it: it lowered nothing. The
/// first retire to meet it moves it to [`FINISHED`] and counts one retire
/// act, with nothing to wait for.
pub const FINISHED_UNRETIRED: u8 = 4;

/// What a writer's ticket has been told, as the writer reads it.
#[derive(Debug, Clone, Copy, PartialEq, Eq, Structural)]
pub enum TicketState {
    /// Not retired.
    Running,
    /// Retired, and the stop record is in the writer's queue.
    Retired,
    /// Retired while the writer's queue had no room for a stop record: stop
    /// the first time the queue is found empty after reading this.
    RetiredStopWhenDry,
    /// The writer has finished. Nothing leaves this state.
    Finished,
}

/// What a ticket's stored code means to its writer: *finished, never
/// retired* reads as finished.
pub fn ticket_state(code: u8) -> (r: TicketState)
    ensures
        code == RUNNING ==> r == TicketState::Running,
        code == RETIRED ==> r == TicketState::Retired,
        code == RETIRED_STOP_WHEN_DRY ==> r == TicketState::RetiredStopWhenDry,
        code != RUNNING && code != RETIRED && code != RETIRED_STOP_WHEN_DRY ==> r
            == TicketState::Finished,
{
    if code == RUNNING {
        TicketState::Running
    } else if code == RETIRED {
        TicketState::Retired
    } else if code == RETIRED_STOP_WHEN_DRY {
        TicketState::RetiredStopWhenDry
    } else {
        TicketState::Finished
    }
}

/// What a retire does to a ticket holding `code`: the code it leaves, whether
/// it leaves a writer to wait for, and whether it counts a retire act.
pub open spec fn spec_on_retire(code: u8, stop_pushed: bool) -> (u8, bool, bool) {
    if code == RUNNING {
        (
            if stop_pushed {
                RETIRED
            } else {
                RETIRED_STOP_WHEN_DRY
            },
            true,
            true,
        )
    } else if code == FINISHED_UNRETIRED {
        (FINISHED, false, true)
    } else {
        (code, false, false)
    }
}

/// What the writer's last act does to a ticket holding `code`: the code it
/// leaves, and whether it lowers the count of writers to wait for.
pub open spec fn spec_on_finish(code: u8) -> (u8, bool) {
    if code == RUNNING {
        (FINISHED_UNRETIRED, false)
    } else if code == RETIRED || code == RETIRED_STOP_WHEN_DRY {
        (FINISHED, true)
    } else {
        (code, false)
    }
}

/// A retire, on the engine thread: from *running* it leaves a writer to wait
/// for and counts a retire act; the first retire after the writer finished
/// unretired counts a retire act and leaves nothing to wait for; any other
/// changes nothing. `stop_pushed` is whether the journal's one push of its
/// stop record succeeded.
pub fn on_retire(code: u8, stop_pushed: bool) -> (r: (u8, bool, bool))
    ensures
        r == spec_on_retire(code, stop_pushed),
{
    if code == RUNNING {
        (
            if stop_pushed {
                RETIRED
            } else {
                RETIRED_STOP_WHEN_DRY
            },
            true,
            true,
        )
    } else if code == FINISHED_UNRETIRED {
        (FINISHED, false, true)
    } else {
        (code, false, false)
    }
}

/// The writer's last act: from a retired state it lowers the count of writers
/// to wait for; from *running* it lowers nothing and leaves *finished, never
/// retired*; on a finished ticket it does nothing.
pub fn on_finish(code: u8) -> (r: (u8, bool))
    ensures
        r == spec_on_finish(code),
{
    if code == RUNNING {
        (FINISHED_UNRETIRED, false)
    } else if code == RETIRED || code == RETIRED_STOP_WHEN_DRY {
        (FINISHED, true)
    } else {
        (code, false)
    }
}

/// **No order of a retire and a finish strands a count.** Whichever comes
/// first, a writer that is retired once and finishes once leaves nothing to
/// wait for and is counted as retired exactly once, and its ticket ends
/// finished. A second retire, in either order, changes nothing.
pub proof fn law_no_order_strands_a_count(stop_pushed: bool, again: bool)
    ensures
        ({
            let (a, raise, act) = spec_on_retire(RUNNING, stop_pushed);
            let (b, lower) = spec_on_finish(a);
            let (c, raise2, act2) = spec_on_retire(b, again);
            &&& raise && lower && act
            &&& b == FINISHED
            &&& c == FINISHED && !raise2 && !act2
        }),
        ({
            let (a, lower) = spec_on_finish(RUNNING);
            let (b, raise, act) = spec_on_retire(a, stop_pushed);
            let (c, raise2, act2) = spec_on_retire(b, again);
            &&& !lower && !raise && act
            &&& b == FINISHED
            &&& c == FINISHED && !raise2 && !act2
        }),
        ticket_state_of(spec_on_retire(RUNNING, stop_pushed).0) == if stop_pushed {
            TicketState::Retired
        } else {
            TicketState::RetiredStopWhenDry
        },
        ticket_state_of(spec_on_finish(RUNNING).0) == TicketState::Finished,
{
}

/// What [`ticket_state`] answers for a code.
pub open spec fn ticket_state_of(code: u8) -> TicketState {
    if code == RUNNING {
        TicketState::Running
    } else if code == RETIRED {
        TicketState::Retired
    } else if code == RETIRED_STOP_WHEN_DRY {
        TicketState::RetiredStopWhenDry
    } else {
        TicketState::Finished
    }
}

} // verus!

verus! {

/// The payload bytes a record stands for.
pub open spec fn record_size(r: RecordView) -> nat {
    match r {
        RecordView::Message { bytes, .. } => bytes.len(),
        RecordView::InboundMark { .. } => 0,
        RecordView::ActivityMark { .. } => ACTIVITY_LEN as nat,
        RecordView::OutboundMark { .. } => OUTBOUND_LEN as nat,
    }
}

/// The bytes a run of records takes in a file: each its header, its payload
/// and, in version 1, its checksum.
pub open spec fn records_bytes(rs: Seq<RecordView>, crc: nat) -> nat
    decreases rs.len(),
{
    if rs.len() == 0 {
        0
    } else {
        RECORD_HEADER as nat + record_size(rs[0]) + crc + records_bytes(rs.drop_first(), crc)
    }
}

proof fn lemma_records_take_what_the_scan_passed(b: Seq<u8>, v1: bool, at: int)
    requires
        0 <= at <= b.len(),
    ensures
        at <= scan_end(b, v1, at).0 <= b.len(),
        records_bytes(records_from(b, v1, at), if v1 {
            RECORD_CRC as nat
        } else {
            0
        }) == scan_end(b, v1, at).0 - at,
    decreases b.len() - at,
{
    lemma_parse_at_advances(b, v1, at);
    match spec_parse_at(b, v1, at) {
        Parsed::Whole { seq, len, whole } => {
            lemma_records_take_what_the_scan_passed(b, v1, whole as int);
            let payload = b.subrange(at + RECORD_HEADER, at + RECORD_HEADER + len);
            let rs = records_from(b, v1, at);
            let rest = records_from(b, v1, whole as int);
            assert(rs == seq![decode(seq, payload)] + rest);
            assert(rs.drop_first() =~= rest);
            assert(record_size(decode(seq, payload)) == len);
        },
        _ => {},
    }
}

/// The records a reader shows and its torn tail together account for every
/// byte of the file after its header: each record its header, payload and
/// (in version 1) checksum, and the tail the rest.
pub proof fn law_records_and_torn_tail_cover_the_file(b: Seq<u8>)
    ensures
        ({
            let v1 = has_header_v1(b);
            let h = first_record(b);
            let end = scan_end(b, v1, h).0;
            &&& h <= end <= b.len()
            &&& records_bytes(records_from(b, v1, h), if v1 {
                RECORD_CRC as nat
            } else {
                0
            }) + (b.len() - end) == b.len() - h
        }),
{
    lemma_records_take_what_the_scan_passed(b, has_header_v1(b), first_record(b));
}

} // verus!
