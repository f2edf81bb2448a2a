//! The queue behind the other-thread door: messages an application originates
//! from wherever it happens to be running, taken by the engine on its next
//! turn.
//!
//! Fixed slots, filled once when the queue is built and never grown. A
//! message that is empty, longer than a slot, or that finds the queue full is
//! refused at the call: a lost origination is never silent. The lock and the
//! relaxed `waiting` load that guard this queue across threads live with the
//! `Sender` handle that owns it; what is here is the queue itself.

use vstd::prelude::*;

use crate::dispatch::ConnId;

verus! {

/// How many originated messages may wait for the engine's next turn.
pub const ORIGIN_CAPACITY: usize = 64;

/// The longest message the queue will take, in bytes: the journal's slot
/// length, because a message too long to keep for a resend should not go out.
pub const ORIGIN_LEN: usize = 512;

/// One queued message: who it is for and its bytes, in a fixed buffer.
#[derive(Clone, Copy)]
struct OriginSlot {
    id: ConnId,
    len: u16,
    bytes: [u8; 512],
}

/// What a slot holds: the connection and the message's bytes.
spec fn origin_slot_view(s: OriginSlot) -> (ConnId, Seq<u8>) {
    (s.id, s.bytes@.subrange(0, s.len as int))
}

fn put_origin_slot(slots: &mut Vec<OriginSlot>, at: usize, slot: OriginSlot)
    requires
        at < old(slots)@.len(),
    ensures
        final(slots)@ == old(slots)@.update(at as int, slot),
    no_unwind
{
    slots[at] = slot;
}

/// How many of `delivered` are `false`: messages whose connection had gone.
pub open spec fn undelivered(delivered: Seq<bool>) -> nat
    decreases delivered.len(),
{
    if delivered.len() == 0 {
        0
    } else {
        undelivered(delivered.drop_last()) + if delivered.last() {
            0nat
        } else {
            1nat
        }
    }
}

/// One message taken from the queue.
pub struct Originated {
    /// The connection it was queued for.
    pub id: ConnId,
    /// The whole message, as it was submitted.
    pub bytes: Vec<u8>,
}

/// What a drain handed out, each as (connection, bytes).
pub open spec fn originated_view(out: Seq<Originated>) -> Seq<(ConnId, Seq<u8>)> {
    Seq::new(out.len(), |i: int| (out[i].id, out[i].bytes@))
}

/// The origination queue: submitted from the application's side, drained on
/// the engine's turn, oldest first.
pub struct Origin {
    slots: Vec<OriginSlot>,
    head: usize,
    len: usize,
    drains: u64,
    undeliverable: u64,
}

impl Origin {
    #[verifier::type_invariant]
    closed spec fn inv(self) -> bool {
        &&& self.slots@.len() == ORIGIN_CAPACITY
        &&& self.head < ORIGIN_CAPACITY
        &&& self.len <= ORIGIN_CAPACITY
        &&& forall|i: int| 0 <= i < ORIGIN_CAPACITY ==> #[trigger] self.slots@[i].len <= ORIGIN_LEN
    }

    /// The messages waiting, oldest first, each as (connection, bytes).
    pub closed spec fn queued(&self) -> Seq<(ConnId, Seq<u8>)> {
        Seq::new(
            self.len as nat,
            |i: int| origin_slot_view(self.slots@[(self.head + i) % 64]),
        )
    }

    /// How many times the engine has reached for the queue.
    pub closed spec fn spec_drains(&self) -> u64 {
        self.drains
    }

    /// Messages drained for a connection that had already gone.
    pub closed spec fn spec_undeliverable(&self) -> u64 {
        self.undeliverable
    }

    /// `after` is `before` with `(id, msg)` taken into the queue, behind
    /// everything already waiting; the counts are as they were.
    pub open spec fn took(before: Origin, after: Origin, id: ConnId, msg: Seq<u8>) -> bool {
        &&& after.queued() == before.queued().push((id, msg))
        &&& after.spec_drains() == before.spec_drains()
        &&& after.spec_undeliverable() == before.spec_undeliverable()
    }

    /// `after` is `before` with everything waiting handed out as `out`,
    /// oldest first, and one more drain counted.
    pub open spec fn drained(before: Origin, after: Origin, out: Seq<(ConnId, Seq<u8>)>) -> bool {
        &&& out == before.queued()
        &&& after.queued() == Seq::<(ConnId, Seq<u8>)>::empty()
        &&& after.spec_drains() == before.spec_drains().wrapping_add(1)
        &&& after.spec_undeliverable() == before.spec_undeliverable()
    }

    /// `after` is `before` with the undelivered among `delivered` counted.
    pub open spec fn noted(before: Origin, after: Origin, delivered: Seq<bool>) -> bool {
        &&& after.queued() == before.queued()
        &&& after.spec_drains() == before.spec_drains()
        &&& after.spec_undeliverable() == before.spec_undeliverable().wrapping_add(
            undelivered(delivered) as u64,
        )
    }

    /// An empty queue, its slots allocated once, here.
    pub fn new() -> (r: Self)
        ensures
            r.queued() == Seq::<(ConnId, Seq<u8>)>::empty(),
            r.spec_drains() == 0,
            r.spec_undeliverable() == 0,
    {
        let empty = OriginSlot { id: 0, len: 0, bytes: [0u8; 512] };
        let mut slots: Vec<OriginSlot> = Vec::new();
        let mut k: usize = 0;
        while k < ORIGIN_CAPACITY
            invariant
                k <= ORIGIN_CAPACITY,
                empty.len == 0,
                slots@.len() == k,
                forall|i: int| 0 <= i < k ==> #[trigger] slots@[i].len == 0,
            decreases ORIGIN_CAPACITY - k,
        {
            slots.push(empty);
            k = k + 1;
        }
        let r = Origin { slots, head: 0, len: 0, drains: 0, undeliverable: 0 };
        assert(r.queued() =~= Seq::<(ConnId, Seq<u8>)>::empty());
        r
    }

    /// Queue one whole message for `id`. `false` means **nothing was taken**:
    /// the message was empty or longer than [`ORIGIN_LEN`], or the queue was
    /// full.
    pub fn submit(&mut self, id: ConnId, msg: &[u8]) -> (r: bool)
        ensures
            r == (0 < msg@.len() <= ORIGIN_LEN && old(self).queued().len() < ORIGIN_CAPACITY),
            r ==> Origin::took(*old(self), *final(self), id, msg@),
            !r ==> final(self).queued() == old(self).queued(),
            final(self).spec_drains() == old(self).spec_drains(),
            final(self).spec_undeliverable() == old(self).spec_undeliverable(),
    {
        proof {
            use_type_invariant(&*self);
        }
        if msg.len() == 0 || msg.len() > ORIGIN_LEN {
            return false;
        }
        if self.len == ORIGIN_CAPACITY {
            return false;
        }
        let at = (self.head + self.len) % ORIGIN_CAPACITY;
        let mut bytes = [0u8; 512];
        let mut k: usize = 0;
        while k < msg.len()
            invariant
                k <= msg@.len() <= ORIGIN_LEN,
                bytes@.len() == ORIGIN_LEN,
                forall|j: int| 0 <= j < k ==> bytes@[j] == msg@[j],
            decreases msg@.len() - k,
        {
            bytes[k] = msg[k];
            k = k + 1;
        }
        let slot = OriginSlot { id, len: msg.len() as u16, bytes };
        assert(slot.bytes@.subrange(0, slot.len as int) =~= msg@);
        let ghost before = self.queued();
        proof {
            assert forall|i: int| #![trigger self.slots@[(self.head + i) % 64]]
                0 <= i < self.len implies (self.head + i) % 64 != at as int by {}
        }
        put_origin_slot(&mut self.slots, at, slot);
        self.len = self.len + 1;
        assert(self.queued() =~= before.push((id, msg@)));
        true
    }

    /// Is there anything at all to take?
    pub fn waiting(&self) -> (r: bool)
        ensures
            r == (self.queued().len() > 0),
    {
        self.len != 0
    }

    /// Take every waiting message, oldest first. The queue is left empty and
    /// the count of drains goes up by one.
    pub fn drain(&mut self) -> (r: Vec<Originated>)
        ensures
            r@.len() == old(self).queued().len(),
            forall|i: int|
                0 <= i < r@.len() ==> (#[trigger] r@[i]).id == old(self).queued()[i].0
                    && r@[i].bytes@ == old(self).queued()[i].1,
            final(self).queued() == Seq::<(ConnId, Seq<u8>)>::empty(),
            Origin::drained(*old(self), *final(self), originated_view(r@)),
    {
        proof {
            use_type_invariant(&*self);
        }
        let ghost q = self.queued();
        let n = self.len;
        let mut out: Vec<Originated> = Vec::new();
        let mut head = self.head;
        let mut k: usize = 0;
        while k < n
            invariant
                k <= n <= ORIGIN_CAPACITY,
                self.slots@.len() == ORIGIN_CAPACITY,
                self.head < ORIGIN_CAPACITY,
                head == (self.head + k) % 64,
                forall|i: int| 0 <= i < ORIGIN_CAPACITY ==> #[trigger] self.slots@[i].len <= ORIGIN_LEN,
                q.len() == n,
                forall|i: int| 0 <= i < n ==> #[trigger] q[i] == origin_slot_view(self.slots@[(self.head + i) % 64]),
                out@.len() == k,
                forall|i: int|
                    0 <= i < k ==> (#[trigger] out@[i]).id == q[i].0 && out@[i].bytes@ == q[i].1,
            decreases n - k,
        {
            let s = self.slots[head];
            let mut bytes: Vec<u8> = Vec::new();
            let len = s.len as usize;
            let mut j: usize = 0;
            while j < len
                invariant
                    j <= len <= ORIGIN_LEN,
                    s.bytes@.len() == ORIGIN_LEN,
                    bytes@ == s.bytes@.subrange(0, j as int),
                decreases len - j,
            {
                bytes.push(s.bytes[j]);
                j = j + 1;
                assert(bytes@ =~= s.bytes@.subrange(0, j as int));
            }
            assert(q[k as int] == origin_slot_view(s));
            out.push(Originated { id: s.id, bytes });
            head = (head + 1) % ORIGIN_CAPACITY;
            k = k + 1;
        }
        self.drains = self.drains.wrapping_add(1);
        self.len = 0;
        assert(self.queued() =~= Seq::<(ConnId, Seq<u8>)>::empty());
        assert(originated_view(out@) =~= q);
        out
    }

    /// Count what became of the messages one drain handed out, in order:
    /// `delivered[i]` is whether the `i`-th reached its connection. Each one
    /// that did not was drained for a connection that had already gone, and
    /// the running count rises by how many those are. It wraps, as an atomic
    /// counter does.
    pub fn note_deliveries(&mut self, delivered: &[bool])
        ensures
            Origin::noted(*old(self), *final(self), delivered@),
    {
        proof {
            use_type_invariant(&*self);
        }
        let mut gone: u64 = 0;
        let mut i: usize = 0;
        while i < delivered.len()
            invariant
                i <= delivered@.len(),
                gone == undelivered(delivered@.subrange(0, i as int)),
                gone <= i,
            decreases delivered@.len() - i,
        {
            assert(delivered@.subrange(0, i + 1).drop_last() =~= delivered@.subrange(0, i as int));
            if !delivered[i] {
                gone = gone + 1;
            }
            i = i + 1;
        }
        assert(delivered@.subrange(0, delivered@.len() as int) =~= delivered@);
        self.undeliverable = self.undeliverable.wrapping_add(gone);
    }

    /// How many times the engine has reached for the queue.
    pub fn drains(&self) -> (r: u64)
        ensures
            r == self.spec_drains(),
    {
        self.drains
    }

    /// Messages drained for a connection that had already gone. Zero on a
    /// healthy engine.
    pub fn undeliverable(&self) -> (r: u64)
        ensures
            r == self.spec_undeliverable(),
    {
        self.undeliverable
    }
}

/// Fewer messages went undelivered than were handed out.
pub proof fn lemma_undelivered_at_most(delivered: Seq<bool>)
    ensures
        undelivered(delivered) <= delivered.len(),
    decreases delivered.len(),
{
    if delivered.len() > 0 {
        lemma_undelivered_at_most(delivered.drop_last());
    }
}

/// Submissions that were taken, one after another, wait in the order they
/// were taken.
proof fn lemma_took_in_order(states: Seq<Origin>, msgs: Seq<(ConnId, Seq<u8>)>, j: int)
    requires
        states.len() == msgs.len() + 1,
        0 <= j <= msgs.len(),
        forall|i: int|
            0 <= i < msgs.len() ==> #[trigger] Origin::took(states[i], states[i + 1], msgs[i].0, msgs[i].1),
    ensures
        states[j].queued() == states[0].queued() + msgs.take(j),
        states[j].spec_drains() == states[0].spec_drains(),
        states[j].spec_undeliverable() == states[0].spec_undeliverable(),
    decreases j,
{
    if j > 0 {
        lemma_took_in_order(states, msgs, j - 1);
        assert(Origin::took(states[j - 1], states[j], msgs[j - 1].0, msgs[j - 1].1));
        assert(msgs.take(j) =~= msgs.take(j - 1).push(msgs[j - 1]));
        assert(states[0].queued() + msgs.take(j) =~= (states[0].queued() + msgs.take(j - 1)).push(
            msgs[j - 1],
        ));
    }
}

/// **What one drain hands out.** Messages taken into an empty queue one after
/// another come out of the next drain all together, in the order they were
/// taken, each with its own connection and bytes. The queue is then empty,
/// one more drain is counted, and once what became of each is noted the count
/// of undelivered messages has risen by how many did not reach their
/// connection, never more than were handed out.
pub proof fn law_a_drain_hands_out_what_was_taken_in_order(
    states: Seq<Origin>,
    msgs: Seq<(ConnId, Seq<u8>)>,
    after_drain: Origin,
    out: Seq<(ConnId, Seq<u8>)>,
    delivered: Seq<bool>,
    after_note: Origin,
)
    requires
        states.len() == msgs.len() + 1,
        states[0].queued().len() == 0,
        forall|i: int|
            0 <= i < msgs.len() ==> #[trigger] Origin::took(states[i], states[i + 1], msgs[i].0, msgs[i].1),
        Origin::drained(states.last(), after_drain, out),
        Origin::noted(after_drain, after_note, delivered),
    ensures
        out == msgs,
        after_note.queued().len() == 0,
        after_note.spec_drains() == states[0].spec_drains().wrapping_add(1),
        after_note.spec_undeliverable() == states[0].spec_undeliverable().wrapping_add(
            undelivered(delivered) as u64,
        ),
        undelivered(delivered) <= delivered.len(),
{
    lemma_took_in_order(states, msgs, msgs.len() as int);
    assert(msgs.take(msgs.len() as int) =~= msgs);
    assert(states[0].queued() + msgs =~= msgs);
    lemma_undelivered_at_most(delivered);
}

} // verus!
