//! What must never reach the disk, and how it is found in a message.
//!
//! The message log masks a secret's value bytes, and the journal file never
//! holds a message that carries one. Both ask this module, and [`masked`] is
//! the one place the list lives.
//!
//! # How a secret is found
//!
//! **Without a dictionary, and it errs towards masking more.** The scanner
//! splits on SOH. A STRING value cannot hold an SOH, so every real `554=` or
//! `925=` begins right after one and is found. Reading bytes *inside* some
//! other DATA field as a field of their own only masks bytes that were not a
//! secret.
//!
//! A DATA secret is masked over **the larger of** its declared length (the
//! most recent length field for it in the message) and the bytes up to the next
//! SOH, then on to the SOH after that, clamped to the buffer. So a `96=`
//! holding an SOH is masked whole, and a lying length masks more rather than
//! less. The scan reads **every** field that begins after an SOH, those inside
//! a DATA value too, and masks only once it has found them all: a tag inside
//! another DATA value may mask more, but it never hides the LENGTH field that
//! follows it, so a LENGTH field directly in front of its DATA is always the
//! one that DATA is masked by. `96` counts as a secret when **any** `35=` in
//! the record is `A` or `BE`, or when there is none.

use vstd::prelude::*;
use crate::frame::{all_digits, digits_value, SOH};

verus! {

/// The byte every masked value byte becomes. `0x2A`.
pub const MASK: u8 = 42u8;

/// How a secret's value is delimited.
#[derive(Clone, Copy, Debug, PartialEq, Eq, Structural)]
pub enum Kind {
    /// Ends at the next SOH, which it cannot contain.
    String,
    /// May contain SOH; its length is declared by the field `length`.
    Data {
        /// The LENGTH field that declares it, e.g. `95` for `96`.
        length: u32,
    },
}

/// Which messages a secret is masked in.
#[derive(Clone, Copy, Debug, PartialEq, Eq, Structural)]
pub enum Scope {
    /// Every message.
    Every,
    /// Only in a record holding a `Logon` (`35=A`) or a `UserRequest`
    /// (`35=BE`) anywhere, or no `35=` at all.
    SignOn,
}

/// One field that never reaches the disk.
#[derive(Clone, Copy, Debug, PartialEq, Eq, Structural)]
pub struct Secret {
    /// The tag.
    pub tag: u32,
    /// How its value is delimited.
    pub kind: Kind,
    /// Where it counts as a secret.
    pub scope: Scope,
}

/// The list: `554` Password and `925` NewPassword, `1402` EncryptedPassword
/// and `1404` EncryptedNewPassword behind their lengths, and `96` RawData in a
/// sign-on only. Not here, deliberately: `553` Username, the length fields,
/// `1400`, `91`, and `96` on anything but a sign-on.
pub open spec fn spec_masked() -> Seq<Secret> {
    seq![
        Secret { tag: 554, kind: Kind::String, scope: Scope::Every },
        Secret { tag: 925, kind: Kind::String, scope: Scope::Every },
        Secret { tag: 1402, kind: Kind::Data { length: 1401 }, scope: Scope::Every },
        Secret { tag: 1404, kind: Kind::Data { length: 1403 }, scope: Scope::Every },
        Secret { tag: 96, kind: Kind::Data { length: 95 }, scope: Scope::SignOn },
    ]
}

/// **The list, in one place.**
pub fn masked() -> (r: [Secret; 5])
    ensures
        r@ == spec_masked(),
{
    let r = [
        Secret { tag: 554, kind: Kind::String, scope: Scope::Every },
        Secret { tag: 925, kind: Kind::String, scope: Scope::Every },
        Secret { tag: 1402, kind: Kind::Data { length: 1401 }, scope: Scope::Every },
        Secret { tag: 1404, kind: Kind::Data { length: 1403 }, scope: Scope::Every },
        Secret { tag: 96, kind: Kind::Data { length: 95 }, scope: Scope::SignOn },
    ];
    assert(r@ =~= spec_masked());
    r
}

/// Where in [`spec_masked`] the secret with this tag is.
pub open spec fn secret_index(tag: u32) -> Option<int> {
    if tag == 554 {
        Some(0)
    } else if tag == 925 {
        Some(1)
    } else if tag == 1402 {
        Some(2)
    } else if tag == 1404 {
        Some(3)
    } else if tag == 96 {
        Some(4)
    } else {
        None
    }
}

/// Which entry of [`spec_masked`] a LENGTH field declares the length of.
pub open spec fn declares_for(tag: u32) -> Option<int> {
    if tag == 1401 {
        Some(2)
    } else if tag == 1403 {
        Some(3)
    } else if tag == 95 {
        Some(4)
    } else {
        None
    }
}

/// The two tables above are the list, read by tag.
pub proof fn lemma_tables_are_the_list(tag: u32)
    ensures
        secret_index(tag) matches Some(i) ==> 0 <= i < 5 && spec_masked()[i].tag == tag,
        secret_index(tag) is None ==> forall|i: int| 0 <= i < 5 ==> spec_masked()[i].tag != tag,
        declares_for(tag) matches Some(i) ==> 0 <= i < 5 && spec_masked()[i].kind == (Kind::Data {
            length: tag,
        }),
        declares_for(tag) is None ==> forall|i: int|
            0 <= i < 5 ==> spec_masked()[i].kind != (Kind::Data { length: tag }),
{
}

/// The index of the first SOH at or after `from`, or the length when there is
/// none.
pub open spec fn spec_next_soh(b: Seq<u8>, from: int) -> int
    decreases b.len() - from,
{
    if from < 0 || from >= b.len() {
        b.len() as int
    } else if b[from] == SOH {
        from
    } else {
        spec_next_soh(b, from + 1)
    }
}

/// Where [`spec_next_soh`] lands: at or after `from`, never past the end, on
/// an SOH unless it is the end, and past every byte in between.
pub proof fn lemma_next_soh(b: Seq<u8>, from: int)
    requires
        0 <= from,
    ensures
        from <= b.len() ==> from <= spec_next_soh(b, from) <= b.len(),
        from > b.len() ==> spec_next_soh(b, from) == b.len(),
        spec_next_soh(b, from) < b.len() ==> b[spec_next_soh(b, from)] == SOH,
        forall|k: int| from <= k < spec_next_soh(b, from) ==> b[k] != SOH,
    decreases b.len() - from,
{
    if from < b.len() && b[from] != SOH {
        lemma_next_soh(b, from + 1);
    }
}

/// The first `=` in a field.
pub open spec fn first_eq(f: Seq<u8>, i: int) -> Option<int>
    decreases f.len() - i,
{
    if i < 0 || i >= f.len() {
        None
    } else if f[i] == 61u8 {
        Some(i)
    } else {
        first_eq(f, i + 1)
    }
}

/// A tag: one or more ASCII digits, and no bigger than a `u32`.
pub open spec fn spec_parse_tag(t: Seq<u8>) -> Option<u32> {
    if t.len() == 0 || !all_digits(t) || digits_value(t) > u32::MAX {
        None
    } else {
        Some(digits_value(t) as u32)
    }
}

/// How many leading bytes of `t`, from `i`, are ASCII digits.
pub open spec fn digit_run(t: Seq<u8>, i: int) -> int
    decreases t.len() - i,
{
    if i < 0 || i >= t.len() || !(48 <= t[i] <= 57) {
        0
    } else {
        1 + digit_run(t, i + 1)
    }
}

/// A declared length: the leading digits, saturated at `usize::MAX`.
pub open spec fn spec_parse_len(t: Seq<u8>) -> usize {
    let v = digits_value(t.take(digit_run(t, 0)));
    if v > usize::MAX {
        usize::MAX
    } else {
        v as usize
    }
}

/// Whether [`Scope::SignOn`] secrets count, from the field at `start` on,
/// having seen a `35=` already when `typed`.
pub open spec fn sign_on_from(b: Seq<u8>, start: int, typed: bool) -> bool
    decreases b.len() - start,
{
    if start < 0 || start > b.len() {
        !typed
    } else {
        let end = spec_next_soh(b, start);
        proof {
            lemma_next_soh(b, start);
        }
        let f = b.subrange(start, end);
        let is_type = f.len() >= 3 && f[0] == 51u8 && f[1] == 53u8 && f[2] == 61u8;
        let v = f.skip(3);
        if is_type && (v =~= seq![65u8] || v =~= seq![66u8, 69u8]) {
            true
        } else if end >= b.len() {
            !(typed || is_type)
        } else {
            sign_on_from(b, end + 1, typed || is_type)
        }
    }
}

/// Whether [`Scope::SignOn`] secrets count in `b`: **any** `35=A` or `35=BE`
/// field in it, or no `35=` at all.
pub open spec fn spec_sign_on(b: Seq<u8>) -> bool {
    sign_on_from(b, 0, false)
}

/// The declared lengths after a field with tag `tag` and value `value`.
pub open spec fn after_length_field(declared: Seq<usize>, tag: u32, value: Seq<u8>) -> Seq<usize> {
    match declares_for(tag) {
        Some(i) => declared.update(i, spec_parse_len(value)),
        None => declared,
    }
}

/// The next secret at or after `at`: its value range `[from, to)`, where the
/// scan resumes (the field after the one that named it), and the declared
/// lengths by then. `None` when the buffer is exhausted.
pub open spec fn scan_from(b: Seq<u8>, sign_on: bool, at: int, declared: Seq<usize>) -> Option<
    (int, int, int, Seq<usize>),
>
    decreases b.len() + 1 - at,
{
    if at < 0 || at >= b.len() {
        None
    } else {
        let field_end = spec_next_soh(b, at);
        proof {
            lemma_next_soh(b, at);
        }
        let next = field_end + 1;
        let field = b.subrange(at, field_end);
        match first_eq(field, 0) {
            None => scan_from(b, sign_on, next, declared),
            Some(eq) => match spec_parse_tag(field.take(eq)) {
                None => scan_from(b, sign_on, next, declared),
                Some(tag) => {
                    let from = at + eq + 1;
                    let d2 = after_length_field(declared, tag, field.skip(eq + 1));
                    match secret_index(tag) {
                        None => scan_from(b, sign_on, next, d2),
                        Some(i) => if spec_masked()[i].scope == Scope::SignOn && !sign_on {
                            scan_from(b, sign_on, next, d2)
                        } else {
                            let to = if spec_masked()[i].kind == Kind::String {
                                field_end
                            } else {
                                let dl = if 0 <= i < d2.len() {
                                    d2[i] as int
                                } else {
                                    0
                                };
                                let by_len = if from + dl < b.len() {
                                    from + dl
                                } else {
                                    b.len() as int
                                };
                                if by_len > field_end {
                                    spec_next_soh(b, by_len)
                                } else {
                                    field_end
                                }
                            };
                            Some((from, to, next, d2))
                        },
                    }
                },
            },
        }
    }
}

proof fn lemma_first_eq(f: Seq<u8>, i: int)
    requires
        0 <= i,
    ensures
        first_eq(f, i) matches Some(e) ==> i <= e < f.len() && f[e] == 61u8,
    decreases f.len() - i,
{
    if i < f.len() && f[i] != 61u8 {
        lemma_first_eq(f, i + 1);
    }
}

/// A secret the scan finds lies after where it started and inside the
/// buffer, and the scan resumes at the field after the one that named it.
pub proof fn lemma_scan_from(b: Seq<u8>, sign_on: bool, at: int, declared: Seq<usize>)
    requires
        0 <= at,
        declared.len() == 5,
    ensures
        scan_from(b, sign_on, at, declared) matches Some((from, to, next, d2)) ==> {
            &&& at < from <= to <= b.len()
            &&& from < next <= to + 1
            &&& (next - 1 == b.len() || b[next - 1] == SOH)
            &&& d2.len() == declared.len()
            &&& b[from - 1] == 61u8
            &&& (to == b.len() || b[to] == SOH)
        },
    decreases b.len() + 1 - at,
{
    if at < b.len() {
        let field_end = spec_next_soh(b, at);
        lemma_next_soh(b, at);
        let next = field_end + 1;
        let field = b.subrange(at, field_end);
        lemma_first_eq(field, 0);
        match first_eq(field, 0) {
            None => lemma_scan_from(b, sign_on, next, declared),
            Some(eq) => match spec_parse_tag(field.take(eq)) {
                None => lemma_scan_from(b, sign_on, next, declared),
                Some(tag) => {
                    let d2 = after_length_field(declared, tag, field.skip(eq + 1));
                    match secret_index(tag) {
                        None => lemma_scan_from(b, sign_on, next, d2),
                        Some(i) => if spec_masked()[i].scope == Scope::SignOn && !sign_on {
                            lemma_scan_from(b, sign_on, next, d2);
                        } else {
                            let from = at + eq + 1;
                            let dl = if 0 <= i < d2.len() {
                                d2[i] as int
                            } else {
                                0
                            };
                            let by_len = if from + dl < b.len() {
                                from + dl
                            } else {
                                b.len() as int
                            };
                            lemma_next_soh(b, by_len);
                        },
                    }
                },
            },
        }
    }
}

/// Every secret's value range from `at` on, in order.
pub open spec fn ranges_from(b: Seq<u8>, sign_on: bool, at: int, declared: Seq<usize>) -> Seq<
    (int, int),
>
    decreases b.len() + 1 - at,
{
    if at < 0 {
        Seq::empty()
    } else {
    match scan_from(b, sign_on, at, declared) {
        None => Seq::empty(),
        Some((from, to, next, d2)) => if declared.len() != 5 {
            seq![(from, to)]
        } else {
            proof {
                lemma_scan_from(b, sign_on, at, declared);
            }
            seq![(from, to)] + ranges_from(b, sign_on, next, d2)
        },
    }
    }
}

/// The value range of every secret field in `b`, in order.
pub open spec fn secret_ranges(b: Seq<u8>) -> Seq<(int, int)> {
    ranges_from(b, spec_sign_on(b), 0, seq![0usize, 0usize, 0usize, 0usize, 0usize])
}

/// Whether position `k` is inside one of `ranges`.
pub open spec fn in_ranges(ranges: Seq<(int, int)>, k: int) -> bool {
    exists|i: int| 0 <= i < ranges.len() && ranges[i].0 <= k < #[trigger] ranges[i].1
}

/// `b` with every byte of every secret value replaced by [`MASK`].
pub open spec fn spec_mask(b: Seq<u8>) -> Seq<u8> {
    Seq::new(
        b.len(),
        |k: int|
            if in_ranges(secret_ranges(b), k) {
                MASK
            } else {
                b[k]
            },
    )
}


proof fn lemma_digits_value_push(t: Seq<u8>, c: u8)
    ensures
        digits_value(t.push(c)) == digits_value(t) * 10 + (c - 48) as nat,
{
    assert(t.push(c).drop_last() =~= t);
}

proof fn lemma_digits_value_prefix_le(t: Seq<u8>, j: int)
    requires
        0 <= j <= t.len(),
        all_digits(t),
    ensures
        digits_value(t.take(j)) <= digits_value(t),
    decreases t.len(),
{
    if j < t.len() {
        assert(t.drop_last().take(j) =~= t.take(j));
        lemma_digits_value_prefix_le(t.drop_last(), j);
    } else {
        assert(t.take(j) =~= t);
    }
}

proof fn lemma_digit_run(t: Seq<u8>, j: int, i: int)
    requires
        0 <= j <= i <= t.len(),
        forall|k: int| j <= k < i ==> 48 <= #[trigger] t[k] <= 57,
        i == t.len() || !(48 <= t[i] <= 57),
    ensures
        digit_run(t, j) == i - j,
    decreases i - j,
{
    if j < i {
        lemma_digit_run(t, j + 1, i);
    }
}

/// The index of the first SOH at or after `from`, or `bytes.len()`.
pub(crate) fn next_soh(bytes: &[u8], from: usize) -> (r: usize)
    ensures
        r == spec_next_soh(bytes@, from as int),
{
    let mut i = from;
    while i < bytes.len()
        invariant
            from <= i,
            spec_next_soh(bytes@, from as int) == spec_next_soh(bytes@, i as int),
        decreases bytes.len() - i,
    {
        if bytes[i] == SOH {
            return i;
        }
        i = i + 1;
    }
    bytes.len()
}

/// A tag, all ASCII digits. `None` for anything else, or one that overflows.
fn parse_tag(digits: &[u8]) -> (r: Option<u32>)
    ensures
        r == spec_parse_tag(digits@),
{
    if digits.len() == 0 {
        return None;
    }
    let mut n: u32 = 0;
    let mut i: usize = 0;
    while i < digits.len()
        invariant
            i <= digits.len(),
            all_digits(digits@.take(i as int)),
            n == digits_value(digits@.take(i as int)),
        decreases digits.len() - i,
    {
        let c = digits[i];
        if c < 48 || c > 57 {
            assert(!all_digits(digits@));
            return None;
        }
        proof {
            lemma_digits_value_push(digits@.take(i as int), c);
            assert(digits@.take(i as int).push(c) =~= digits@.take(i + 1));
        }
        let d = (c - 48) as u32;
        let next = match n.checked_mul(10) {
            Some(m) => m.checked_add(d),
            None => None,
        };
        match next {
            Some(v) => n = v,
            None => {
                proof {
                    if all_digits(digits@) {
                        lemma_digits_value_prefix_le(digits@, i + 1);
                    }
                }
                return None;
            },
        }
        i = i + 1;
    }
    assert(digits@.take(i as int) =~= digits@);
    Some(n)
}

/// A declared length. Stops at the first non-digit and saturates, because it
/// arrived from the network: a huge one only masks more, clamped to the
/// buffer.
fn parse_len(digits: &[u8]) -> (r: usize)
    ensures
        r == spec_parse_len(digits@),
{
    let mut n: usize = 0;
    let mut i: usize = 0;
    while i < digits.len() && 48 <= digits[i] && digits[i] <= 57
        invariant
            i <= digits.len(),
            forall|k: int| 0 <= k < i ==> 48 <= #[trigger] digits@[k] <= 57,
            n as int == (if digits_value(digits@.take(i as int)) > usize::MAX {
                usize::MAX as int
            } else {
                digits_value(digits@.take(i as int)) as int
            }),
        decreases digits.len() - i,
    {
        let c = digits[i];
        let d = (c - 48) as usize;
        let ghost before = digits_value(digits@.take(i as int));
        proof {
            lemma_digits_value_push(digits@.take(i as int), c);
            assert(digits@.take(i as int).push(c) =~= digits@.take(i + 1));
        }
        n = match n.checked_mul(10) {
            Some(m) => if m > usize::MAX - d {
                usize::MAX
            } else {
                m + d
            },
            None => usize::MAX,
        };
        proof {
            let after = digits_value(digits@.take(i + 1));
            assert(after == before * 10 + d);
            if before > usize::MAX {
                assert(after > usize::MAX) by (nonlinear_arith)
                    requires
                        after == before * 10 + d,
                        before > usize::MAX,
                ;
            }
        }
        i = i + 1;
    }
    proof {
        lemma_digit_run(digits@, 0, i as int);
    }
    n
}

/// Whether [`Scope::SignOn`] secrets count in `bytes`.
fn sign_on(bytes: &[u8]) -> (r: bool)
    ensures
        r == spec_sign_on(bytes@),
{
    let mut start: usize = 0;
    let mut typed = false;
    loop
        invariant
            start <= bytes.len(),
            spec_sign_on(bytes@) == sign_on_from(bytes@, start as int, typed),
        decreases bytes.len() - start,
    {
        let end = next_soh(bytes, start);
        proof {
            lemma_next_soh(bytes@, start as int);
        }
        let f = vstd::slice::slice_subrange(bytes, start, end);
        let is_type = f.len() >= 3 && f[0] == 51u8 && f[1] == 53u8 && f[2] == 61u8;
        if is_type {
            let a = f.len() == 4 && f[3] == 65u8;
            let be = f.len() == 5 && f[3] == 66u8 && f[4] == 69u8;
            proof {
                let v = f@.skip(3);
                assert(v.len() == f@.len() - 3);
                if f@.len() >= 4 {
                    assert(v[0] == f@[3]);
                }
                if f@.len() >= 5 {
                    assert(v[1] == f@[4]);
                }
                assert(a <==> (v =~= seq![65u8]));
                assert(be <==> (v =~= seq![66u8, 69u8]));
            }
            if a || be {
                return true;
            }
        }
        if end >= bytes.len() {
            return !(typed || is_type);
        }
        typed = typed || is_type;
        start = end + 1;
    }
}

/// The scan's position and what it has learned so far. It moves one field at
/// a time, so a secret's value that reaches past an SOH is read again field by
/// field; [`mask`] writes only once the scan is done.
struct Scan {
    /// Where the next field starts.
    at: usize,
    /// Whether [`Scope::SignOn`] secrets count in this message.
    sign_on: bool,
    /// The most recent declared length for each entry of the list.
    declared: [usize; 5],
}

impl Scan {
    fn new(bytes: &[u8]) -> (r: Self)
        ensures
            r.at == 0,
            r.sign_on == spec_sign_on(bytes@),
            r.declared@ == seq![0usize, 0usize, 0usize, 0usize, 0usize],
    {
        let r = Self { at: 0, sign_on: sign_on(bytes), declared: [0usize; 5] };
        assert(r.declared@ =~= seq![0usize, 0usize, 0usize, 0usize, 0usize]);
        r
    }

    /// The value range `[from, to)` of the next secret field, or `None` when
    /// the buffer is exhausted.
    fn next(&mut self, bytes: &[u8]) -> (r: Option<(usize, usize)>)
        requires
            old(self).at <= bytes@.len() + 1,
            bytes@.len() < usize::MAX,
        ensures
            final(self).sign_on == old(self).sign_on,
            final(self).at <= bytes@.len() + 1,
            match scan_from(bytes@, old(self).sign_on, old(self).at as int, old(self).declared@) {
                None => r is None,
                Some((from, to, next, d2)) => r == Some((from as usize, to as usize))
                    && final(self).at == next && final(self).declared@ == d2,
            },
    {
        let ghost so = self.sign_on;
        let ghost goal = scan_from(bytes@, so, self.at as int, self.declared@);
        loop
            invariant
                self.sign_on == so,
                so == old(self).sign_on,
                goal == scan_from(bytes@, old(self).sign_on, old(self).at as int, old(self).declared@),
                self.at <= bytes@.len() + 1,
                goal == scan_from(bytes@, so, self.at as int, self.declared@),
                self.declared@.len() == 5,
                bytes@.len() < usize::MAX,
            decreases bytes@.len() + 1 - self.at,
        {
            if self.at >= bytes.len() {
                return None;
            }
            let start = self.at;
            let field_end = next_soh(bytes, start);
            proof {
                lemma_next_soh(bytes@, start as int);
            }
            self.at = field_end + 1;
            let field = vstd::slice::slice_subrange(bytes, start, field_end);
            let mut eq: usize = 0;
            while eq < field.len() && field[eq] != 61u8
                invariant
                    eq <= field.len(),
                    first_eq(field@, 0) == first_eq(field@, eq as int),
                decreases field.len() - eq,
            {
                eq = eq + 1;
            }
            if eq >= field.len() {
                continue;
            }
            let tag = match parse_tag(vstd::slice::slice_subrange(field, 0, eq)) {
                None => {
                    assert(field@.take(eq as int) =~= field@.subrange(0, eq as int));
                    continue;
                },
                Some(t) => t,
            };
            assert(field@.take(eq as int) =~= field@.subrange(0, eq as int));
            let value = vstd::slice::slice_subrange(field, eq + 1, field.len());
            assert(value@ =~= field@.skip(eq + 1));
            let from = start + eq + 1;
            if tag == 1401 {
                self.declared[2] = parse_len(value);
            } else if tag == 1403 {
                self.declared[3] = parse_len(value);
            } else if tag == 95 {
                self.declared[4] = parse_len(value);
            }
            let idx: usize = if tag == 554 {
                0
            } else if tag == 925 {
                1
            } else if tag == 1402 {
                2
            } else if tag == 1404 {
                3
            } else if tag == 96 {
                4
            } else {
                continue;
            };
            if idx == 4 && !self.sign_on {
                continue;
            }
            let to = if idx < 2 {
                field_end
            } else {
                let dl = self.declared[idx];
                let by_len = if dl < bytes.len() - from {
                    from + dl
                } else {
                    bytes.len()
                };
                if by_len > field_end {
                    next_soh(bytes, by_len)
                } else {
                    field_end
                }
            };
            proof {
                if idx >= 2 {
                    lemma_next_soh(bytes@, (from + self.declared@[idx as int]) as int);
                    lemma_next_soh(bytes@, bytes@.len() as int);
                }
            }
            return Some((from, to));
        }
    }
}


/// The value range of every secret field in `bytes`, in the order the scan
/// finds them.
fn find_all(bytes: &[u8]) -> (r: Vec<(usize, usize)>)
    requires
        bytes@.len() < usize::MAX,
    ensures
        r.len() == secret_ranges(bytes@).len(),
        forall|i: int|
            0 <= i < r.len() ==> (r@[i].0 as int, r@[i].1 as int) == #[trigger] secret_ranges(
                bytes@,
            )[i],
{
    let ghost b = bytes@;
    let ghost so = spec_sign_on(b);
    let ghost zero = seq![0usize, 0usize, 0usize, 0usize, 0usize];
    let mut scan = Scan::new(bytes);
    let mut found: Vec<(usize, usize)> = Vec::new();
    let ghost mut seen: Seq<(int, int)> = Seq::empty();
    loop
        invariant
            b == bytes@,
            b.len() < usize::MAX,
            so == spec_sign_on(b),
            zero == seq![0usize, 0usize, 0usize, 0usize, 0usize],
            scan.sign_on == so,
            scan.at <= b.len() + 1,
            scan.declared@.len() == 5,
            found.len() == seen.len(),
            found.len() <= scan.at,
            forall|i: int|
                0 <= i < found.len() ==> (found@[i].0 as int, found@[i].1 as int) == #[trigger] seen[i],
            seen + ranges_from(b, so, scan.at as int, scan.declared@) == ranges_from(b, so, 0, zero),
        decreases b.len() + 1 - scan.at,
    {
        let ghost at0 = scan.at as int;
        let ghost d0 = scan.declared@;
        proof {
            lemma_scan_from(b, so, at0, d0);
        }
        match scan.next(bytes) {
            None => {
                assert(seen =~= ranges_from(b, so, 0, zero));
                return found;
            },
            Some((from, to)) => {
                proof {
                    let old_seen = seen;
                    seen = seen.push((from as int, to as int));
                    assert(ranges_from(b, so, at0, d0) =~= seq![(from as int, to as int)]
                        + ranges_from(b, so, scan.at as int, scan.declared@));
                    assert(seen + ranges_from(b, so, scan.at as int, scan.declared@) =~= old_seen
                        + ranges_from(b, so, at0, d0));
                }
                found.push((from, to));
            },
        }
    }
}

/// Overwrite every value byte of every secret field in `bytes` with [`MASK`],
/// **keeping the length**. Returns how many secret fields were found (an empty
/// value counts).
///
/// Every value byte that a LENGTH field directly in front of its DATA field
/// declares is masked, whatever else the message holds. Only value bytes
/// change, so a message whose `9=` comes before its first secret still frames,
/// and deliberately no longer checksums.
pub fn mask(bytes: &mut [u8]) -> (r: usize)
    requires
        old(bytes)@.len() < usize::MAX,
    ensures
        final(bytes)@ == spec_mask(old(bytes)@),
        r == secret_ranges(old(bytes)@).len(),
        forall|p: int, k: int|
            #![trigger length_pair_at(old(bytes)@, p), final(bytes)@[k]]
            length_pair_at(old(bytes)@, p) matches Some((v, n)) && v <= k < v + n && k
                < old(bytes)@.len() ==> final(bytes)@[k] == MASK,
{
    let ghost orig = bytes@;
    let ghost all = secret_ranges(orig);
    proof {
        lemma_ranges_from_shape(orig, spec_sign_on(orig), 0, seq![0usize, 0usize, 0usize, 0usize, 0usize]);
    }
    let found = find_all(bytes);
    let mut i: usize = 0;
    while i < found.len()
        invariant
            bytes@.len() == orig.len(),
            orig == old(bytes)@,
            all == secret_ranges(orig),
            found.len() == all.len(),
            0 <= i <= found.len(),
            forall|j: int|
                0 <= j < found.len() ==> (found@[j].0 as int, found@[j].1 as int) == #[trigger] all[j],
            forall|j: int| 0 <= j < all.len() ==> (#[trigger] all[j]).0 <= all[j].1 <= orig.len(),
            forall|k: int|
                0 <= k < orig.len() ==> bytes@[k] == if in_ranges(all.take(i as int), k) {
                    MASK
                } else {
                    orig[k]
                },
        decreases found.len() - i,
    {
        let (from, to) = found[i];
        proof {
            assert(all[i as int] == (from as int, to as int));
        }
        let ghost before = bytes@;
        let mut k = from;
        while k < to
            invariant
                from <= to <= orig.len(),
                from <= k <= to,
                bytes@.len() == orig.len(),
                forall|j: int| 0 <= j < orig.len() ==> bytes@[j] == if from <= j < k {
                    MASK
                } else {
                    before[j]
                },
            decreases to - k,
        {
            bytes[k] = MASK;
            k = k + 1;
        }
        proof {
            let done = all.take(i as int);
            let now = all.take(i + 1);
            assert forall|j: int| 0 <= j < orig.len() implies bytes@[j] == if in_ranges(now, j) {
                MASK
            } else {
                orig[j]
            } by {
                if in_ranges(done, j) {
                    let x = choose|x: int| 0 <= x < done.len() && done[x].0 <= j < #[trigger] done[x].1;
                    assert(now[x] == done[x]);
                }
                if from <= j < to {
                    assert(now[i as int] == (from as int, to as int));
                }
                if in_ranges(now, j) && !(from <= j < to) {
                    let x = choose|x: int| 0 <= x < now.len() && now[x].0 <= j < #[trigger] now[x].1;
                    assert(x < i);
                    assert(done[x] == now[x]);
                }
            }
        }
        i = i + 1;
    }
    proof {
        assert(all.take(i as int) =~= all);
        assert(bytes@ =~= spec_mask(orig));
        assert forall|p: int, k: int|
            #![trigger length_pair_at(orig, p), bytes@[k]]
            length_pair_at(orig, p) matches Some((v, n)) && v <= k < v + n && k < orig.len()
                implies bytes@[k] == MASK by {
            law_a_declared_value_is_masked_whole(orig, p, k);
        }
    }
    found.len()
}

/// Whether `bytes` holds any secret field at all, by the same rules as
/// [`mask`].
pub fn carries_secret(bytes: &[u8]) -> (r: bool)
    requires
        bytes@.len() < usize::MAX,
    ensures
        r == (secret_ranges(bytes@).len() > 0),
{
    let mut scan = Scan::new(bytes);
    let found = scan.next(bytes);
    proof {
        lemma_scan_from(bytes@, spec_sign_on(bytes@), 0, seq![0usize, 0usize, 0usize, 0usize, 0usize]);
    }
    found.is_some()
}


/// The ranges from `at` on lie after `at`, each starts just past an `=` and
/// ends on an SOH or at the end, and each starts after the one before.
proof fn lemma_ranges_from_shape(b: Seq<u8>, sign_on: bool, at: int, d: Seq<usize>)
    requires
        0 <= at,
        d.len() == 5,
    ensures
        ({
            let r = ranges_from(b, sign_on, at, d);
            &&& forall|i: int|
                0 <= i < r.len() ==> {
                    &&& at < (#[trigger] r[i]).0 <= r[i].1 <= b.len()
                    &&& b[r[i].0 - 1] == 61u8
                    &&& (r[i].1 == b.len() || b[r[i].1] == SOH)
                }
            &&& forall|i: int, j: int| 0 <= i < j < r.len() ==> (#[trigger] r[i]).0 < (#[trigger] r[j]).0
        }),
    decreases b.len() + 1 - at,
{
    lemma_scan_from(b, sign_on, at, d);
    match scan_from(b, sign_on, at, d) {
        None => {},
        Some((from, to, next, d2)) => {
            lemma_ranges_from_shape(b, sign_on, next, d2);
            let rest = ranges_from(b, sign_on, next, d2);
            let r = ranges_from(b, sign_on, at, d);
            assert(r =~= seq![(from, to)] + rest);
            assert forall|i: int| 0 <= i < r.len() implies {
                &&& at < (#[trigger] r[i]).0 <= r[i].1 <= b.len()
                &&& b[r[i].0 - 1] == 61u8
                &&& (r[i].1 == b.len() || b[r[i].1] == SOH)
            } by {
                if i > 0 {
                    assert(r[i] == rest[i - 1]);
                }
            }
            assert forall|i: int, j: int| 0 <= i < j < r.len() implies (#[trigger] r[i]).0 < (
            #[trigger] r[j]).0 by {
                assert(r[j] == rest[j - 1]);
                if i > 0 {
                    assert(r[i] == rest[i - 1]);
                }
            }
        },
    }
}

/// **What masking does and does not touch.** The length is kept; a byte inside
/// a secret's value becomes [`MASK`] and every other byte is left as it was.
/// Each masked value starts just past an `=` and ends on an SOH or at the end
/// of the buffer, and the values are found in the order they start.
pub proof fn law_mask_touches_only_secret_values(b: Seq<u8>)
    ensures
        spec_mask(b).len() == b.len(),
        forall|k: int|
            0 <= k < b.len() ==> spec_mask(b)[k] == if in_ranges(secret_ranges(b), k) {
                MASK
            } else {
                b[k]
            },
        forall|i: int|
            0 <= i < secret_ranges(b).len() ==> {
                &&& 0 < (#[trigger] secret_ranges(b)[i]).0 <= secret_ranges(b)[i].1 <= b.len()
                &&& b[secret_ranges(b)[i].0 - 1] == 61u8
                &&& (secret_ranges(b)[i].1 == b.len() || b[secret_ranges(b)[i].1] == SOH)
            },
        forall|i: int, j: int|
            0 <= i < j < secret_ranges(b).len() ==> (#[trigger] secret_ranges(b)[i]).0 < (
            #[trigger] secret_ranges(b)[j]).0,
{
    lemma_ranges_from_shape(b, spec_sign_on(b), 0, seq![0usize, 0usize, 0usize, 0usize, 0usize]);
}

/// Whether a field begins at `p`: at the start, or just past an SOH.
pub open spec fn field_starts(b: Seq<u8>, p: int) -> bool {
    0 <= p < b.len() && (p == 0 || b[p - 1] == SOH)
}

/// A LENGTH field at `p` directly followed by the DATA field it declares, that
/// DATA field a secret in `b`: where the DATA value starts, and how many bytes
/// the LENGTH field declares. `None` for anything else.
pub open spec fn length_pair_at(b: Seq<u8>, p: int) -> Option<(int, int)> {
    if !field_starts(b, p) {
        None
    } else {
        let e = spec_next_soh(b, p);
        let field = b.subrange(p, e);
        match first_eq(field, 0) {
            None => None,
            Some(eq) => match spec_parse_tag(field.take(eq)) {
                None => None,
                Some(lt) => match declares_for(lt) {
                    None => None,
                    Some(i) => if e + 1 >= b.len() {
                        None
                    } else {
                        let q = e + 1;
                        let f2 = b.subrange(q, spec_next_soh(b, q));
                        match first_eq(f2, 0) {
                            None => None,
                            Some(eq2) => if spec_parse_tag(f2.take(eq2)) == Some(
                                spec_masked()[i].tag,
                            ) && (spec_masked()[i].scope == Scope::Every || spec_sign_on(b)) {
                                Some((q + eq2 + 1, spec_parse_len(field.skip(eq + 1)) as int))
                            } else {
                                None
                            },
                        }
                    },
                },
            },
        }
    }
}

/// The scan from a field start `at` at or before a length pair at `p` covers
/// every byte the pair declares, whatever lengths it has seen so far.
proof fn lemma_scan_covers_pair(b: Seq<u8>, so: bool, at: int, d: Seq<usize>, p: int, k: int)
    requires
        so == spec_sign_on(b),
        d.len() == 5,
        0 <= at <= p,
        at == 0 || b[at - 1] == SOH,
        length_pair_at(b, p) matches Some((v, n)) && v <= k < v + n && k < b.len(),
    ensures
        in_ranges(ranges_from(b, so, at, d), k),
    decreases p - at,
{
    lemma_scan_from(b, so, at, d);
    let e = spec_next_soh(b, at);
    lemma_next_soh(b, at);
    let field = b.subrange(at, e);
    lemma_first_eq(field, 0);
    if at < p {
        // The field at `at` ends on the SOH in front of `p` or earlier.
        assert(b[p - 1] == SOH);
        assert(e <= p - 1);
        let next = e + 1;
        let d2 = match first_eq(field, 0) {
            None => d,
            Some(eq) => match spec_parse_tag(field.take(eq)) {
                None => d,
                Some(tag) => after_length_field(d, tag, field.skip(eq + 1)),
            },
        };
        lemma_scan_covers_pair(b, so, next, d2, p, k);
        match scan_from(b, so, at, d) {
            None => {
                assert(scan_from(b, so, next, d2) is None);
            },
            Some((from, to, nx, d3)) => {
                if scan_from(b, so, at, d) == scan_from(b, so, next, d2) {
                    assert(ranges_from(b, so, at, d) == ranges_from(b, so, next, d2));
                } else {
                    assert(nx == next && d3 == d2);
                    let rs = ranges_from(b, so, at, d);
                    let rest = ranges_from(b, so, next, d2);
                    assert(rs =~= seq![(from, to)] + rest);
                    let x = choose|x: int| 0 <= x < rest.len() && rest[x].0 <= k < #[trigger] rest[x].1;
                    assert(rs[x + 1] == rest[x]);
                    assert(rs[x + 1].0 <= k < rs[x + 1].1);
                }
            },
        }
    } else {
        // At the pair: the LENGTH field sets the declared length, and the DATA
        // field after it is a secret masked at least that far.
        let eq = first_eq(field, 0).unwrap();
        let lt = spec_parse_tag(field.take(eq)).unwrap();
        let i = declares_for(lt).unwrap();
        lemma_tables_are_the_list(lt);
        assert(secret_index(lt) is None);
        let d2 = after_length_field(d, lt, field.skip(eq + 1));
        let q = e + 1;
        assert(scan_from(b, so, at, d) == scan_from(b, so, q, d2));
        let e2 = spec_next_soh(b, q);
        lemma_next_soh(b, q);
        let f2 = b.subrange(q, e2);
        lemma_first_eq(f2, 0);
        let eq2 = first_eq(f2, 0).unwrap();
        let tag = spec_masked()[i].tag;
        lemma_tables_are_the_list(tag);
        assert(secret_index(tag) == Some(i));
        assert(declares_for(tag) is None);
        let d3 = after_length_field(d2, tag, f2.skip(eq2 + 1));
        assert(d3 == d2);
        let from = q + eq2 + 1;
        let dl = d2[i] as int;
        assert(dl == spec_parse_len(field.skip(eq + 1)) as int);
        let by_len = if from + dl < b.len() {
            from + dl
        } else {
            b.len() as int
        };
        lemma_next_soh(b, by_len);
        assert(f2.take(eq2) == b.subrange(q, e2).take(eq2));
        assert(spec_parse_tag(f2.take(eq2)) == Some(tag));
        assert(spec_masked()[i].scope == Scope::Every || so);
        assert(scan_from(b, so, q, d2) is Some);
        match scan_from(b, so, q, d2) {
            None => {},
            Some((f, t, nx, d4)) => {
                assert(f == from);
                assert(t >= by_len);
                let rs = ranges_from(b, so, at, d);
                assert(rs[0] == (f, t));
                assert(rs[0].0 <= k < rs[0].1);
            },
        }
    }
}

/// **A declared value is masked whole.** Where a LENGTH field comes directly in
/// front of the DATA secret it declares (`95` before `96` in a sign-on, `1401`
/// before `1402`, `1403` before `1404`), every byte of that value up to the
/// declared length is masked, SOH bytes in it included, whatever fields the
/// rest of the message holds, inside other DATA values too.
pub proof fn law_a_declared_value_is_masked_whole(b: Seq<u8>, p: int, k: int)
    requires
        length_pair_at(b, p) matches Some((v, n)) && v <= k < v + n && k < b.len(),
    ensures
        spec_mask(b)[k] == MASK,
{
    lemma_scan_covers_pair(b, spec_sign_on(b), 0, seq![0usize, 0usize, 0usize, 0usize, 0usize], p, k);
    lemma_next_soh(b, p);
    let q = spec_next_soh(b, p) + 1;
    lemma_first_eq(b.subrange(q, spec_next_soh(b, q)), 0);
    assert(0 <= k);
}

} // verus!

verus! {

/// Bytes in which masking finds no secret (exactly the bytes `carries_secret`
/// answers `false` for) are written exactly as they are.
pub proof fn law_a_buffer_without_secrets_is_written_as_it_is(b: Seq<u8>)
    ensures
        secret_ranges(b).len() == 0 ==> spec_mask(b) == b,
{
    if secret_ranges(b).len() == 0 {
        assert forall|k: int| 0 <= k < b.len() implies !in_ranges(secret_ranges(b), k) by {}
        assert(spec_mask(b) =~= b);
    }
}

} // verus!
