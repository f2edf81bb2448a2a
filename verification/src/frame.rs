//! Cutting a byte stream into messages.
//!
//! One connection, one [`Framer`], one fixed buffer. Nothing here allocates
//! and nothing here parses: the only field it reads is `9=`, and the only
//! question it answers is where one message ends.
//!
//! # The rule
//!
//! **Take `9=` at its word.** Count to where it says the body ends; if a `10=`
//! trailer is not there, the whole buffer is rubbish, which is why a length
//! that is too long takes the message after it with it. A length that is too
//! short leaves the rest of the real body in front of the next cut, where it
//! is rubbish of its own. The rubbish still goes to the session, which decides
//! whether an unreadable frame is fatal: [`Cut::Garbage`] is how this says so.

use vstd::prelude::*;

verus! {

/// What the front of the buffer holds.
#[derive(Debug, Clone, Copy, PartialEq, Eq, Structural)]
pub enum Cut {
    /// A whole message occupies the first `n` bytes.
    Message(usize),
    /// The first `n` bytes are not a message and never will be. Hand them to
    /// the session once, and then take them.
    Garbage(usize),
    /// Not enough bytes yet.
    Need,
}

/// The field separator.
pub const SOH: u8 = 1;

/// One connection's receive buffer.
///
/// `N` is the largest message this connection will accept. Anything bigger is
/// [`Cut::Garbage`]: a buffer that fills and never empties is a connection
/// wedged by a number the counterparty chose.
pub struct Framer<const N: usize> {
    buf: [u8; N],
    len: usize,
}

impl<const N: usize> View for Framer<N> {
    type V = Seq<u8>;

    /// The bytes received and not yet taken.
    closed spec fn view(&self) -> Seq<u8> {
        self.buf@.subrange(0, self.len as int)
    }
}

impl<const N: usize> Framer<N> {
    #[verifier::type_invariant]
    closed spec fn inv(self) -> bool {
        self.len <= N
    }

    /// The whole buffer, used and unused, for saying what [`Self::spare`]
    /// hands out.
    pub closed spec fn spec_buf(self) -> Seq<u8> {
        self.buf@
    }

    /// An empty buffer.
    pub fn new() -> (r: Self)
        ensures
            r@ == Seq::<u8>::empty(),
            r.spec_buf() == Seq::new(N as nat, |i: int| 0u8),
    {
        let r = Self { buf: [0u8; N], len: 0 };
        assert(r.buf@ =~= Seq::new(N as nat, |i: int| 0u8));
        r
    }

    /// How many bytes are held.
    pub fn len(&self) -> (r: usize)
        ensures
            r == self@.len(),
            r <= N,
    {
        proof {
            use_type_invariant(self);
        }
        self.len
    }

    /// Where the next `recv` should write: every byte past what is held.
    ///
    /// Empty when the buffer is full, which [`Self::cut`] then reports as
    /// [`Cut::Garbage`] rather than leaving the caller to spin.
    pub fn spare(&mut self) -> (r: &mut [u8])
        ensures
            r@.len() == N - old(self)@.len(),
            final(self)@ == old(self)@,
            final(self).spec_buf().len() == N,
            final(self).spec_buf() == old(self)@ + final(r)@,
    {
        proof {
            use_type_invariant(&*self);
        }
        let len = self.len;
        let whole: &mut [u8] = &mut self.buf;
        let (_, rest) = whole.split_at_mut(len);
        rest
    }

    /// Say how many bytes [`Self::spare`] was given. Never more than the
    /// buffer: a count past the end stops at the end.
    pub fn filled(&mut self, n: usize)
        ensures
            final(self)@ == old(self).spec_buf().subrange(
                0,
                if old(self)@.len() + n > N {
                    N as int
                } else {
                    old(self)@.len() + n
                },
            ),
            final(self).spec_buf() == old(self).spec_buf(),
            final(self)@.subrange(0, old(self)@.len() as int) == old(self)@,
            final(self)@.len() == if old(self)@.len() + n > N {
                N as int
            } else {
                old(self)@.len() + n
            },
            forall|d: Seq<u8>, rest: Seq<u8>|
                #![trigger framer_after_step(old(self)@, FramerStep::Append(d, rest), N as nat)]
                old(self).spec_buf() == old(self)@ + (d + rest) && d.len() == n ==> final(self)@
                    == framer_after_step(old(self)@, FramerStep::Append(d, rest), N as nat),
    {
        proof {
            use_type_invariant(&*self);
        }
        if n > N - self.len {
            self.len = N;
        } else {
            self.len = self.len + n;
        }
    }

    /// The first `n` bytes, for handing to the session; all of them when
    /// fewer than `n` are held.
    pub fn bytes(&self, n: usize) -> (r: &[u8])
        ensures
            r@ == self@.take(if n < self@.len() {
                n as int
            } else {
                self@.len() as int
            }),
    {
        proof {
            use_type_invariant(self);
        }
        let n = if n < self.len {
            n
        } else {
            self.len
        };
        let r = vstd::slice::slice_subrange(self.buf.as_slice(), 0, n);
        assert(r@ =~= self@.take(n as int));
        r
    }

    /// Everything in the buffer, whether or not it is a whole message.
    ///
    /// [`Self::bytes`] answers *"the message you just cut"*; this answers
    /// *"everything that has arrived"* — what a pre-session stage must hand on
    /// when a counterparty pipelines behind its `Logon`.
    pub fn all(&self) -> (r: &[u8])
        ensures
            r@ == self@,
    {
        proof {
            use_type_invariant(self);
        }
        vstd::slice::slice_subrange(self.buf.as_slice(), 0, self.len)
    }

    /// The buffer and how much of it is used, for moving the whole thing.
    pub fn into_parts(self) -> (r: ([u8; N], usize))
        ensures
            r.1 == self@.len(),
            r.0@.subrange(0, r.1 as int) == self@,
            r.0@ == self.spec_buf(),
    {
        proof {
            use_type_invariant(&self);
        }
        (self.buf, self.len)
    }

    /// Drop the first `n` bytes, or all of them when fewer are held, and
    /// shuffle the rest down.
    pub fn take(&mut self, n: usize)
        ensures
            final(self)@ == old(self)@.skip(if n < old(self)@.len() {
                n as int
            } else {
                old(self)@.len() as int
            }),
            final(self)@ == framer_after_step(old(self)@, FramerStep::Take(n as nat), N as nat),
    {
        proof {
            use_type_invariant(&*self);
        }
        let n = if n > self.len {
            self.len
        } else {
            n
        };
        let len = self.len;
        let ghost before = self.buf@;
        let mut buf = self.buf;
        let mut i: usize = n;
        while i < len
            invariant
                n <= i <= len <= N,
                buf@.len() == N,
                forall|k: int| 0 <= k < i - n ==> buf@[k] == before[k + n],
                forall|k: int| i <= k < N ==> buf@[k] == before[k],
            decreases len - i,
        {
            let b = buf[i];
            buf[i - n] = b;
            i = i + 1;
        }
        self.buf = buf;
        self.len = len - n;
        assert(self@ =~= old(self)@.skip(n as int));
    }
}


/// The first `SOH 9 =` at or after `i`: where the length field's tag starts,
/// one byte early, so a `9=` inside some other value is never read as one.
pub open spec fn find_length_tag(s: Seq<u8>, i: int) -> Option<int>
    decreases s.len() - i,
{
    if i < 0 || i + 3 > s.len() {
        None
    } else if s[i] == SOH && s[i + 1] == 57u8 && s[i + 2] == 61u8 {
        Some(i)
    } else {
        find_length_tag(s, i + 1)
    }
}

/// The first SOH at or after `i`.
pub open spec fn find_soh(s: Seq<u8>, i: int) -> Option<int>
    decreases s.len() - i,
{
    if i < 0 || i >= s.len() {
        None
    } else if s[i] == SOH {
        Some(i)
    } else {
        find_soh(s, i + 1)
    }
}

/// Whether every byte is an ASCII digit.
pub open spec fn all_digits(t: Seq<u8>) -> bool {
    forall|k: int| 0 <= k < t.len() ==> 48 <= #[trigger] t[k] <= 57
}

/// The decimal value of a run of ASCII digits, most significant first.
pub open spec fn digits_value(t: Seq<u8>) -> nat
    decreases t.len(),
{
    if t.len() == 0 {
        0
    } else {
        digits_value(t.drop_last()) * 10 + (t.last() - 48) as nat
    }
}

/// `10^k`.
pub open spec fn pow10(k: nat) -> nat
    decreases k,
{
    if k == 0 {
        1
    } else {
        10 * pow10((k - 1) as nat)
    }
}

/// What a `9=` value says: one to nine ASCII digits, or nothing readable.
pub open spec fn spec_number(t: Seq<u8>) -> Option<usize> {
    if t.len() == 0 || t.len() > 9 || !all_digits(t) {
        None
    } else {
        Some(digits_value(t) as usize)
    }
}

/// Garbage when the buffer is full, and otherwise a wait for more bytes.
pub open spec fn wait_or_garbage(rx: Seq<u8>, cap: nat) -> Cut {
    if rx.len() == cap {
        Cut::Garbage(rx.len() as usize)
    } else {
        Cut::Need
    }
}

/// What the front of `rx` holds, in a buffer of `cap` bytes.
///
/// The length field is the first `SOH 9 =`; its value runs to the next SOH and
/// must be one to nine digits. The body ends that many bytes after the SOH
/// closing the length, and `10=` must start exactly there; the message ends at
/// the first SOH after it. A frame that cannot fit in `cap` bytes, a length
/// that is not a number and a trailer that is not where the length says are
/// all garbage, and garbage is the whole buffer.
pub open spec fn spec_cut(rx: Seq<u8>, cap: nat) -> Cut {
    if rx.len() == 0 {
        Cut::Need
    } else {
        match find_length_tag(rx, 0) {
            None => wait_or_garbage(rx, cap),
            Some(at) => match find_soh(rx, at + 3) {
                None => wait_or_garbage(rx, cap),
                Some(e) => match spec_number(rx.subrange(at + 3, e)) {
                    None => Cut::Garbage(rx.len() as usize),
                    Some(body) => {
                        let stop = e + 1 + body;
                        if rx.len() < stop + 4 {
                            if stop + 4 > cap {
                                Cut::Garbage(rx.len() as usize)
                            } else {
                                Cut::Need
                            }
                        } else if !(rx[stop] == 49u8 && rx[stop + 1] == 48u8 && rx[stop + 2]
                            == 61u8) {
                            Cut::Garbage(rx.len() as usize)
                        } else {
                            match find_soh(rx, stop + 3) {
                                Some(k) => Cut::Message((k + 1) as usize),
                                None => wait_or_garbage(rx, cap),
                            }
                        }
                    },
                },
            },
        }
    }
}

proof fn lemma_digits_value_step(t: Seq<u8>, c: u8)
    ensures
        digits_value(t.push(c)) == digits_value(t) * 10 + (c - 48) as nat,
{
    assert(t.push(c).drop_last() =~= t);
}

proof fn lemma_find_soh_found(s: Seq<u8>, i: int)
    requires
        0 <= i,
        find_soh(s, i) is Some,
    ensures
        i <= find_soh(s, i).unwrap() < s.len(),
        s[find_soh(s, i).unwrap()] == SOH,
        forall|k: int| i <= k < find_soh(s, i).unwrap() ==> s[k] != SOH,
    decreases s.len() - i,
{
    if s[i] != SOH {
        lemma_find_soh_found(s, i + 1);
    }
}

proof fn lemma_find_length_tag_found(s: Seq<u8>, i: int)
    requires
        0 <= i,
        find_length_tag(s, i) is Some,
    ensures
        i <= find_length_tag(s, i).unwrap(),
        find_length_tag(s, i).unwrap() + 3 <= s.len(),
    decreases s.len() - i,
{
    if !(s[i] == SOH && s[i + 1] == 57u8 && s[i + 2] == 61u8) {
        lemma_find_length_tag_found(s, i + 1);
    }
}

/// The first SOH at or after `from`.
fn first_soh(rx: &[u8], from: usize) -> (r: Option<usize>)
    ensures
        r matches Some(k) ==> find_soh(rx@, from as int) == Some(k as int),
        r is None ==> find_soh(rx@, from as int) is None,
{
    let mut i = from;
    while i < rx.len()
        invariant
            from <= i,
            find_soh(rx@, from as int) == find_soh(rx@, i as int),
        decreases rx.len() - i,
    {
        if rx[i] == SOH {
            return Some(i);
        }
        i = i + 1;
    }
    None
}

/// ASCII digits to a length. `None` for anything else: a `9=` that is not a
/// number is a frame that cannot be read.
fn number(text: &[u8]) -> (r: Option<usize>)
    ensures
        r == spec_number(text@),
        r matches Some(v) ==> v < 1_000_000_000,
{
    if text.len() == 0 || text.len() > 9 {
        return None;
    }
    let mut n: usize = 0;
    let mut i: usize = 0;
    proof {
        lemma_pow10_mono(0, 9);
    }
    while i < text.len()
        invariant
            text.len() <= 9,
            i <= text.len(),
            all_digits(text@.take(i as int)),
            n == digits_value(text@.take(i as int)),
            n < pow10(i as nat),
            pow10(i as nat) <= pow10(9),
        decreases text.len() - i,
    {
        let c = text[i];
        if c < 48 || c > 57 {
            assert(!all_digits(text@));
            return None;
        }
        let d = c - 48;
        proof {
            lemma_digits_value_step(text@.take(i as int), c);
            assert(text@.take(i as int).push(c) =~= text@.take(i + 1));
            assert(pow10((i + 1) as nat) == 10 * pow10(i as nat));
            assert(n * 10 + d < 10 * pow10(i as nat)) by (nonlinear_arith)
                requires
                    n < pow10(i as nat),
                    d <= 9,
            ;
            lemma_pow10_mono((i + 1) as nat, 9);
            assert(pow10(9) == 1_000_000_000) by {
                reveal_with_fuel(pow10, 10);
            }
        }
        n = n * 10 + d as usize;
        i = i + 1;
    }
    assert(text@.take(i as int) =~= text@);
    proof {
        assert(pow10(9) == 1_000_000_000) by {
                reveal_with_fuel(pow10, 10);
            }
    }
    Some(n)
}

proof fn lemma_pow10_mono(a: nat, b: nat)
    requires
        a <= b,
    ensures
        pow10(a) <= pow10(b),
    decreases b,
{
    if a < b {
        lemma_pow10_mono(a, (b - 1) as nat);
    }
}


/// Where the length field's tag starts: the first `SOH 9 =`.
fn first_length_tag(rx: &[u8]) -> (r: Option<usize>)
    ensures
        r matches Some(k) ==> find_length_tag(rx@, 0) == Some(k as int),
        r is None ==> find_length_tag(rx@, 0) is None,
{
    let mut i: usize = 0;
    while i < rx.len() && rx.len() - i >= 3
        invariant
            find_length_tag(rx@, 0) == find_length_tag(rx@, i as int),
        decreases rx.len() - i,
    {
        if rx[i] == SOH && rx[i + 1] == 57u8 && rx[i + 2] == 61u8 {
            return Some(i);
        }
        i = i + 1;
    }
    None
}

impl<const N: usize> Framer<N> {
    /// What the front of the buffer holds. See [`spec_cut`] for the rule.
    pub fn cut(&self) -> (r: Cut)
        ensures
            r == spec_cut(self@, N as nat),
    {
        proof {
            use_type_invariant(self);
        }
        let len = self.len;
        if len == 0 {
            return Cut::Need;
        }
        let rx = self.all();
        let wait = if len == N {
            Cut::Garbage(len)
        } else {
            Cut::Need
        };
        let at = match first_length_tag(rx) {
            None => return wait,
            Some(a) => a,
        };
        proof {
            lemma_find_length_tag_found(rx@, 0);
        }
        let end = match first_soh(rx, at + 3) {
            None => return wait,
            Some(e) => e,
        };
        proof {
            lemma_find_soh_found(rx@, at + 3);
        }
        let digits = vstd::slice::slice_subrange(rx, at + 3, end);
        let body = match number(digits) {
            None => return Cut::Garbage(len),
            Some(b) => b,
        };
        // A stop past what `usize` can count is past any buffer there is.
        if body > usize::MAX - (end + 1) || end + 1 + body > usize::MAX - 4 {
            return Cut::Garbage(len);
        }
        let stop = end + 1 + body;
        if len < stop + 4 {
            return if stop + 4 > N {
                Cut::Garbage(len)
            } else {
                Cut::Need
            };
        }
        if !(rx[stop] == 49u8 && rx[stop + 1] == 48u8 && rx[stop + 2] == 61u8) {
            return Cut::Garbage(len);
        }
        match first_soh(rx, stop + 3) {
            Some(k) => {
                proof {
                    lemma_find_soh_found(rx@, stop + 3);
                }
                Cut::Message(k + 1)
            },
            None => wait,
        }
    }
}


proof fn lemma_find_soh_extend(s: Seq<u8>, t: Seq<u8>, i: int)
    requires
        0 <= i,
        find_soh(s, i) is Some,
    ensures
        find_soh(s + t, i) == find_soh(s, i),
    decreases s.len() - i,
{
    if s[i] != SOH {
        lemma_find_soh_extend(s, t, i + 1);
    }
}

proof fn lemma_find_length_tag_extend(s: Seq<u8>, t: Seq<u8>, i: int)
    requires
        0 <= i,
        find_length_tag(s, i) is Some,
    ensures
        find_length_tag(s + t, i) == find_length_tag(s, i),
    decreases s.len() - i,
{
    if !(s[i] == SOH && s[i + 1] == 57u8 && s[i + 2] == 61u8) {
        lemma_find_length_tag_extend(s, t, i + 1);
    }
}

/// **A cut never reaches past the buffer, and garbage is all of it.** A whole
/// message is at least one byte and ends on an SOH; rubbish is handed on
/// whole, so the next cut starts at a field boundary or at nothing.
pub proof fn lemma_cut_within_buffer(rx: Seq<u8>, cap: nat)
    requires
        rx.len() <= cap <= usize::MAX,
    ensures
        spec_cut(rx, cap) matches Cut::Message(n) ==> 0 < n <= rx.len() && rx[n - 1] == SOH,
        spec_cut(rx, cap) matches Cut::Garbage(n) ==> n == rx.len() && n > 0,
{
    if rx.len() > 0 {
        if let Some(at) = find_length_tag(rx, 0) {
            lemma_find_length_tag_found(rx, 0);
            if let Some(e) = find_soh(rx, at + 3) {
                lemma_find_soh_found(rx, at + 3);
                if let Some(body) = spec_number(rx.subrange(at + 3, e)) {
                    let stop = e + 1 + body;
                    if rx.len() >= stop + 4 {
                        if find_soh(rx, stop + 3) is Some {
                            lemma_find_soh_found(rx, stop + 3);
                        }
                    }
                }
            }
        }
    }
}

/// **Bytes that arrive later never change a message already cut.** Whatever
/// follows the first `n` bytes, a buffer whose front was cut as a message of
/// `n` bytes is cut as the same message: `9=` is taken at its word, and
/// nothing after the trailer's SOH is read to decide it.
pub proof fn lemma_message_cut_is_stable(rx: Seq<u8>, more: Seq<u8>, cap: nat)
    requires
        rx.len() <= cap,
        rx.len() + more.len() <= cap,
        spec_cut(rx, cap) is Message,
    ensures
        spec_cut(rx + more, cap) == spec_cut(rx, cap),
{
    let at = find_length_tag(rx, 0).unwrap();
    lemma_find_length_tag_found(rx, 0);
    lemma_find_length_tag_extend(rx, more, 0);
    let e = find_soh(rx, at + 3).unwrap();
    lemma_find_soh_found(rx, at + 3);
    lemma_find_soh_extend(rx, more, at + 3);
    assert((rx + more).subrange(at + 3, e) =~= rx.subrange(at + 3, e));
    let body = spec_number(rx.subrange(at + 3, e)).unwrap();
    let stop = e + 1 + body;
    lemma_find_soh_extend(rx, more, stop + 3);
    lemma_find_soh_found(rx, stop + 3);
}

/// A run of digits is worth less than ten to the power of its length.
proof fn lemma_digits_value_below(t: Seq<u8>)
    requires
        all_digits(t),
    ensures
        digits_value(t) < pow10(t.len()),
    decreases t.len(),
{
    if t.len() > 0 {
        let u = t.drop_last();
        assert(all_digits(u)) by {
            assert forall|k: int| 0 <= k < u.len() implies 48 <= #[trigger] u[k] <= 57 by {
                assert(u[k] == t[k]);
            }
        }
        lemma_digits_value_below(u);
        assert(48 <= t[t.len() - 1] <= 57);
        assert(digits_value(t) == digits_value(u) * 10 + (t.last() - 48) as nat);
        assert(digits_value(u) * 10 + 10 <= pow10(u.len()) * 10) by (nonlinear_arith)
            requires
                digits_value(u) < pow10(u.len()),
        ;
    }
}

/// **A length of one to nine digits reads as its value.** Whatever those
/// digits are: `9=5`, `9=120`, `9=999999999` all read as the number they
/// spell.
pub proof fn law_a_length_of_up_to_nine_digits_reads_as_its_value(t: Seq<u8>)
    requires
        1 <= t.len() <= 9,
        all_digits(t),
    ensures
        digits_value(t) < 1_000_000_000,
        spec_number(t) == Some(digits_value(t) as usize),
{
    lemma_digits_value_below(t);
    lemma_pow10_mono(t.len(), 9);
    assert(pow10(9) == 1_000_000_000) by {
        reveal_with_fuel(pow10, 10);
    }
}

proof fn lemma_find_soh_at(s: Seq<u8>, i: int, e: int)
    requires
        0 <= i <= e < s.len(),
        s[e] == SOH,
        forall|k: int| i <= k < e ==> s[k] != SOH,
    ensures
        find_soh(s, i) == Some(e),
    decreases e - i,
{
    if i < e {
        lemma_find_soh_at(s, i + 1, e);
    }
}

proof fn lemma_find_length_tag_at(s: Seq<u8>, i: int, at: int)
    requires
        0 <= i <= at,
        at + 3 <= s.len(),
        s[at] == SOH && s[at + 1] == 57u8 && s[at + 2] == 61u8,
        forall|k: int| i <= k < at ==> s[k] != SOH,
    ensures
        find_length_tag(s, i) == Some(at),
    decreases at - i,
{
    if i < at {
        lemma_find_length_tag_at(s, i + 1, at);
    }
}

/// **A well-formed message is cut whole.** A buffer holding exactly one
/// message (a first field `head` with no SOH in it, `9=` with one to nine
/// digits saying how long the body is, the body, whatever bytes it holds, and
/// a `10=` trailer) is cut as a message of its full length, for every body
/// length the digits can spell.
pub proof fn law_a_well_formed_message_is_cut_whole(
    head: Seq<u8>,
    digits: Seq<u8>,
    body: Seq<u8>,
    checksum: Seq<u8>,
    cap: nat,
)
    requires
        forall|k: int| 0 <= k < head.len() ==> head[k] != SOH,
        1 <= digits.len() <= 9,
        all_digits(digits),
        digits_value(digits) == body.len(),
        forall|k: int| 0 <= k < checksum.len() ==> checksum[k] != SOH,
        head.len() + digits.len() + body.len() + checksum.len() + 8 <= cap,
        cap <= usize::MAX,
    ensures
        ({
            let rx = head + seq![SOH, 57u8, 61u8] + digits + seq![SOH] + body + seq![
                49u8,
                48u8,
                61u8,
            ] + checksum + seq![SOH];
            spec_cut(rx, cap) == Cut::Message(rx.len() as usize)
        }),
{
    let rx = head + seq![SOH, 57u8, 61u8] + digits + seq![SOH] + body + seq![49u8, 48u8, 61u8]
        + checksum + seq![SOH];
    let at = head.len() as int;
    let e = at + 3 + digits.len();
    let stop = e + 1 + body.len();
    assert(rx.len() == stop + 3 + checksum.len() + 1);
    assert forall|k: int| 0 <= k < at implies rx[k] != SOH by {
        assert(rx[k] == head[k]);
    }
    assert(rx[at] == SOH && rx[at + 1] == 57u8 && rx[at + 2] == 61u8);
    lemma_find_length_tag_at(rx, 0, at);
    assert forall|k: int| at + 3 <= k < e implies rx[k] != SOH by {
        assert(rx[k] == digits[k - at - 3]);
    }
    assert(rx[e] == SOH);
    lemma_find_soh_at(rx, at + 3, e);
    assert(rx.subrange(at + 3, e) =~= digits);
    law_a_length_of_up_to_nine_digits_reads_as_its_value(digits);
    assert(rx[stop] == 49u8 && rx[stop + 1] == 48u8 && rx[stop + 2] == 61u8);
    assert forall|k: int| stop + 3 <= k < rx.len() - 1 implies rx[k] != SOH by {
        assert(rx[k] == checksum[k - stop - 3]);
    }
    lemma_find_soh_at(rx, stop + 3, rx.len() - 1);
}

} // verus!

verus! {

/// One thing a caller does to a framer: fill part of its spare room (`d` at
/// the front of the spare slice, `rest` the rest of it, then `filled` of
/// `d`'s length), or take bytes off the front.
pub ghost enum FramerStep {
    /// Write `d` into the spare room, whose other bytes are `rest`, and say so.
    Append(Seq<u8>, Seq<u8>),
    /// `take(n)`.
    Take(nat),
}

/// What a framer holds after one step: `filled` and `take` state their
/// effect as this.
pub open spec fn framer_after_step(held: Seq<u8>, s: FramerStep, cap: nat) -> Seq<u8> {
    match s {
        FramerStep::Append(d, rest) => {
            let buf = held + (d + rest);
            buf.subrange(0, if held.len() + d.len() > cap {
                cap as int
            } else {
                (held.len() + d.len()) as int
            })
        },
        FramerStep::Take(n) => held.skip(if n < held.len() {
            n as int
        } else {
            held.len() as int
        }),
    }
}

/// What a framer holds after `steps`, from new.
pub open spec fn framer_after(steps: Seq<FramerStep>, cap: nat) -> Seq<u8>
    decreases steps.len(),
{
    if steps.len() == 0 {
        Seq::empty()
    } else {
        framer_after_step(framer_after(steps.drop_last(), cap), steps.last(), cap)
    }
}

/// The bytes appended and not yet taken: a queue of bytes.
pub open spec fn appended_not_taken(steps: Seq<FramerStep>) -> Seq<u8>
    decreases steps.len(),
{
    if steps.len() == 0 {
        Seq::empty()
    } else {
        let q = appended_not_taken(steps.drop_last());
        match steps.last() {
            FramerStep::Append(d, _) => q + d,
            FramerStep::Take(n) => q.skip(if n < q.len() {
                n as int
            } else {
                q.len() as int
            }),
        }
    }
}

/// Every append in `steps` writes into the spare room as it stands then.
pub open spec fn appends_fit(steps: Seq<FramerStep>, cap: nat) -> bool {
    forall|i: int|
        0 <= i < steps.len() ==> (#[trigger] steps[i] matches FramerStep::Append(d, rest) ==> framer_after(
            steps.take(i),
            cap,
        ).len() + d.len() + rest.len() == cap)
}

/// After any sequence of appends and takes from new, a framer holds exactly
/// the bytes appended and not yet taken, in order; what `bytes(n)` answers is
/// then the first `n` of them, and what `all()` answers is all of them.
pub proof fn law_a_framer_holds_what_was_appended_and_not_taken(steps: Seq<FramerStep>, cap: nat)
    requires
        appends_fit(steps, cap),
    ensures
        framer_after(steps, cap) == appended_not_taken(steps),
    decreases steps.len(),
{
    if steps.len() > 0 {
        let init = steps.drop_last();
        assert forall|i: int| 0 <= i < init.len() implies (#[trigger] init[i] matches FramerStep::Append(
            d,
            rest,
        ) ==> framer_after(init.take(i), cap).len() + d.len() + rest.len() == cap) by {
            assert(init.take(i) =~= steps.take(i));
            assert(init[i] == steps[i]);
        }
        law_a_framer_holds_what_was_appended_and_not_taken(init, cap);
        let i = steps.len() - 1;
        assert(steps.take(i) =~= init);
        assert(steps[i] == steps.last());
        let held = framer_after(init, cap);
        match steps.last() {
            FramerStep::Append(d, rest) => {
                assert((held + (d + rest)).subrange(0, (held.len() + d.len()) as int) =~= held + d);
            },
            FramerStep::Take(n) => {},
        }
    }
}

} // verus!
