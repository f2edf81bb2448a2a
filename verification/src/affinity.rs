//! Pinning a thread to a core, and proving it happened.
//!
//! The system calls live with the caller; what is here is everything they
//! are given and everything they answer: the CPU mask that names one core,
//! the cores a mask names, what a refused call means, and where the
//! scheduler says a thread last ran.

use vstd::prelude::*;

verus! {

/// A logical CPU as the kernel numbers it.
#[derive(Debug, Clone, Copy, PartialEq, Eq, Structural, PartialOrd, Ord, Hash)]
pub struct CoreId(pub usize);

/// Why an affinity request was refused. Carries the offending core, so that
/// the message names what to change.
#[derive(Debug, Clone, PartialEq, Eq)]
#[non_exhaustive]
pub enum AffinityError {
    /// The kernel will not schedule anything on this id.
    NoSuchCore(CoreId),
    /// Present on this machine but currently offline.
    NotOnline(CoreId),
    /// Not in `isolcpus`, so the scheduler will put other work there.
    NotIsolated(CoreId),
    /// Two shards on two SMT threads of one physical core.
    SmtSiblingOf(CoreId, CoreId),
    /// The same core named twice.
    DuplicateCore(CoreId),
    /// `EPERM`.
    Denied(CoreId),
    /// The call succeeded and the kernel's answer disagrees with the request.
    ReadbackMismatch(CoreId),
    /// A system call failed for a reason this enum does not model, with its
    /// `errno`.
    Failed(i32),
    /// A `/proc` or `/sys` file could not be read or made sense of; the text
    /// is the path.
    Unreadable(&'static str),
}

/// Words in a CPU mask: room for 1024 CPUs.
pub const MASK_WORDS: usize = 16;

/// Is core `i` in `mask`?
pub open spec fn in_mask(mask: Seq<u64>, i: int) -> bool {
    mask[i / 64] & (1u64 << ((i % 64) as u64)) != 0
}

/// The cores among `0..n` that `mask` names, ascending.
pub open spec fn cores_below(mask: Seq<u64>, n: int) -> Seq<CoreId>
    decreases n,
{
    if n <= 0 {
        Seq::empty()
    } else if in_mask(mask, n - 1) {
        cores_below(mask, n - 1).push(CoreId((n - 1) as usize))
    } else {
        cores_below(mask, n - 1)
    }
}

/// The mask naming core `core` and nothing else.
pub open spec fn spec_mask_of(core: usize) -> Seq<u64> {
    Seq::new(
        MASK_WORDS as nat,
        |w: int|
            if w == core / 64 {
                1u64 << ((core % 64) as u64)
            } else {
                0u64
            },
    )
}

/// The mask that names `core` alone, or `NoSuchCore` for a core beyond what
/// the mask can express.
pub fn mask_of(core: CoreId) -> (r: Result<[u64; 16], AffinityError>)
    ensures
        core.0 >= 1024 ==> r == Err::<[u64; 16], AffinityError>(AffinityError::NoSuchCore(core)),
        core.0 < 1024 ==> (r matches Ok(m) && m@ == spec_mask_of(core.0)),
{
    if core.0 >= MASK_WORDS * 64 {
        return Err(AffinityError::NoSuchCore(core));
    }
    let mut wanted = [0u64; 16];
    let bit = (core.0 % 64) as u64;
    wanted[core.0 / 64] = 1u64 << bit;
    assert(wanted@ =~= spec_mask_of(core.0));
    Ok(wanted)
}

/// The cores a mask names, ascending.
pub fn cores_of(mask: &[u64; 16]) -> (r: Vec<CoreId>)
    ensures
        r@ == cores_below(mask@, 1024),
{
    let mut cores: Vec<CoreId> = Vec::new();
    let mut word: usize = 0;
    while word < MASK_WORDS
        invariant
            word <= MASK_WORDS,
            mask@.len() == MASK_WORDS,
            cores@ == cores_below(mask@, (word * 64) as int),
        decreases MASK_WORDS - word,
    {
        let bits = mask[word];
        let mut bit: u64 = 0;
        while bit < 64
            invariant
                word < MASK_WORDS,
                bit <= 64,
                mask@.len() == MASK_WORDS,
                bits == mask@[word as int],
                cores@ == cores_below(mask@, (word * 64 + bit) as int),
            decreases 64 - bit,
        {
            let ghost i: int = (word * 64 + bit) as int;
            assert(i / 64 == word as int && i % 64 == bit as int) by (nonlinear_arith)
                requires
                    i == word * 64 + bit,
                    bit < 64,
            ;
            if bits & (1u64 << bit) != 0 {
                cores.push(CoreId(word * 64 + bit as usize));
            }
            bit = bit + 1;
        }
        word = word + 1;
    }
    cores
}

proof fn lemma_one_bit(s: u64, t: u64)
    requires
        s < 64,
        t < 64,
    ensures
        (1u64 << s) & (1u64 << t) != 0 <==> s == t,
{
    assert((1u64 << s) & (1u64 << t) != 0 <==> s == t) by (bit_vector)
        requires
            s < 64,
            t < 64,
    ;
}

proof fn lemma_cores_below_one(core: usize, n: int)
    requires
        core < 1024,
        0 <= n <= 1024,
    ensures
        cores_below(spec_mask_of(core), n) == if n > core {
            seq![CoreId(core)]
        } else {
            Seq::<CoreId>::empty()
        },
    decreases n,
{
    if n > 0 {
        lemma_cores_below_one(core, n - 1);
        let i = n - 1;
        let m = spec_mask_of(core);
        assert(0 <= i / 64 < 16 && 0 <= i % 64 < 64 && (i == core as int <==> (i / 64 == core
            / 64 && i % 64 == core % 64))) by (nonlinear_arith)
            requires
                0 <= i < 1024,
                core < 1024,
        ;
        if i / 64 == core / 64 {
            lemma_one_bit((core % 64) as u64, (i % 64) as u64);
        } else {
            assert(m[i / 64] == 0u64);
            assert(0u64 & (1u64 << ((i % 64) as u64)) == 0u64) by (bit_vector);
        }
        assert(in_mask(m, i) <==> i == core as int);
        if i == core as int {
            assert(cores_below(m, i) =~= Seq::<CoreId>::empty());
        }
    }
}

/// The mask that names one core reads back as exactly that core: what the
/// pin's readback compares against.
pub proof fn law_a_mask_of_one_core_names_it(core: usize)
    requires
        core < 1024,
    ensures
        cores_below(spec_mask_of(core), 1024) == seq![CoreId(core)],
{
    lemma_cores_below_one(core, 1024);
}

/// `libc::EINVAL` on Linux, per the `libc` crate: 22.
#[verifier::external_body]
fn errno_einval() -> (r: i32)
    ensures
        r == 22,
{
    libc::EINVAL
}

/// `libc::EPERM` on Linux, per the `libc` crate: 1.
#[verifier::external_body]
fn errno_eperm() -> (r: i32)
    ensures
        r == 1,
{
    libc::EPERM
}

/// What a refused `sched_setaffinity` for `core` means: an invalid mask is
/// no such core, a refusal of permission is denied, anything else is the raw
/// failure.
pub fn pin_refused(core: CoreId, errno: i32) -> (r: AffinityError)
    ensures
        r == if errno == 22 {
            AffinityError::NoSuchCore(core)
        } else if errno == 1 {
            AffinityError::Denied(core)
        } else {
            AffinityError::Failed(errno)
        },
{
    if errno == errno_einval() {
        AffinityError::NoSuchCore(core)
    } else if errno == errno_eperm() {
        AffinityError::Denied(core)
    } else {
        AffinityError::Failed(errno)
    }
}

/// Does a read-back set of cores say the thread is pinned to `core` alone?
pub fn reads_back_as(cores: &[CoreId], core: CoreId) -> (r: bool)
    ensures
        r == (cores@ == seq![core]),
{
    if cores.len() == 1 && cores[0].0 == core.0 {
        assert(cores@ =~= seq![core]);
        true
    } else {
        assert(cores@.len() != 1 ==> cores@ != seq![core]);
        false
    }
}

/// The path the scheduler's own view of this thread is read from.
pub const THREAD_STAT: &'static str = "/proc/thread-self/stat";

/// The position of the last `)` in `text`, if any.
pub open spec fn last_paren(text: Seq<u8>, n: int) -> Option<int>
    decreases n,
{
    if n <= 0 {
        None
    } else if text[n - 1] == 41u8 {
        Some(n - 1)
    } else {
        last_paren(text, n - 1)
    }
}

/// Is `b` whitespace as `split_whitespace` reads ASCII?
pub open spec fn is_space(b: u8) -> bool {
    b == 32u8 || b == 9u8 || b == 10u8 || b == 13u8 || b == 12u8 || b == 11u8
}

/// The first byte at or after `i` that is not whitespace, or the end.
pub open spec fn skip_space(t: Seq<u8>, i: int) -> int
    decreases t.len() - i,
{
    if i < 0 || i >= t.len() {
        t.len() as int
    } else if is_space(t[i]) {
        skip_space(t, i + 1)
    } else {
        i
    }
}

/// The first whitespace byte at or after `i`, or the end.
pub open spec fn skip_word(t: Seq<u8>, i: int) -> int
    decreases t.len() - i,
{
    if i < 0 || i >= t.len() {
        t.len() as int
    } else if is_space(t[i]) {
        i
    } else {
        skip_word(t, i + 1)
    }
}

pub proof fn lemma_skips(t: Seq<u8>, i: int)
    requires
        0 <= i <= t.len(),
    ensures
        i <= skip_space(t, i) <= t.len(),
        i <= skip_word(t, i) <= t.len(),
        skip_space(t, i) < t.len() ==> !is_space(t[skip_space(t, i)]),
    decreases t.len() - i,
{
    if i < t.len() {
        lemma_skips(t, i + 1);
    }
}

/// The `k`-th whitespace-separated word of `t` from `i`, as a range.
pub open spec fn nth_word(t: Seq<u8>, i: int, k: nat) -> Option<(int, int)>
    decreases t.len() - i, k,
{
    let s = skip_space(t, i);
    if i < 0 || i > t.len() || s >= t.len() {
        None
    } else {
        let e = skip_word(t, s);
        proof {
            lemma_skips(t, i);
            lemma_skips(t, s);
        }
        if k == 0 {
            Some((s, e))
        } else if e <= i {
            None
        } else {
            nth_word(t, e, (k - 1) as nat)
        }
    }
}

/// The decimal value of `d`, if it is a run of one or more ASCII digits that
/// fits a `usize`.
pub open spec fn decimal_value(d: Seq<u8>) -> Option<usize>
    decreases d.len(),
{
    if d.len() == 0 {
        None
    } else if !(48u8 <= d.last() <= 57u8) {
        None
    } else {
        let lead: Option<usize> = if d.len() == 1 {
            Some(0usize)
        } else {
            decimal_value(d.drop_last())
        };
        match lead {
            Some(v) => if v * 10 + (d.last() - 48) <= usize::MAX {
                Some((v * 10 + (d.last() - 48)) as usize)
            } else {
                None
            },
            None => None,
        }
    }
}

/// A word read as `usize::from_str` reads it: an optional `+`, then decimal
/// digits.
pub open spec fn spec_parse_usize(d: Seq<u8>) -> Option<usize> {
    if d.len() > 1 && d[0] == 43u8 {
        decimal_value(d.drop_first())
    } else {
        decimal_value(d)
    }
}

/// The processor field of a `/proc/<pid>/stat` text: after the last `)`, the
/// thirty-seventh word separated by ASCII whitespace, read as a core number.
pub open spec fn spec_processor(text: Seq<u8>) -> Option<CoreId> {
    match last_paren(text, text.len() as int) {
        None => None,
        Some(p) => match nth_word(text, p + 1, 36) {
            None => None,
            Some((s, e)) => match spec_parse_usize(text.subrange(s, e)) {
                Some(v) => Some(CoreId(v)),
                None => None,
            },
        },
    }
}

fn is_space_byte(b: u8) -> (r: bool)
    ensures
        r == is_space(b),
{
    b == 32u8 || b == 9u8 || b == 10u8 || b == 13u8 || b == 12u8 || b == 11u8
}

fn decimal(d: &[u8]) -> (r: Option<usize>)
    ensures
        r == decimal_value(d@),
{
    if d.len() == 0 {
        return None;
    }
    let mut v: usize = 0;
    let mut i: usize = 0;
    while i < d.len()
        invariant
            0 < d@.len(),
            i <= d@.len(),
            i > 0 ==> decimal_value(d@.subrange(0, i as int)) == Some(v),
            i == 0 ==> v == 0,
        decreases d@.len() - i,
    {
        let c = d[i];
        let ghost pre = d@.subrange(0, i as int);
        let ghost next = d@.subrange(0, i + 1);
        assert(next.drop_last() =~= pre);
        assert(next.last() == c);
        if c < 48u8 || c > 57u8 {
            proof {
                lemma_decimal_prefix_none(d@, i as int + 1);
            }
            return None;
        }
        let digit = (c - 48u8) as usize;
        if v > (usize::MAX - digit) / 10 {
            proof {
                assert(v * 10 + digit > usize::MAX) by (nonlinear_arith)
                    requires
                        v > (usize::MAX - digit) / 10,
                        digit <= 9,
                ;
                lemma_decimal_prefix_none(d@, i as int + 1);
            }
            return None;
        }
        assert(v * 10 + digit <= usize::MAX) by (nonlinear_arith)
            requires
                v <= (usize::MAX - digit) / 10,
                digit <= 9,
        ;
        v = v * 10 + digit;
        i = i + 1;
    }
    assert(d@.subrange(0, d@.len() as int) =~= d@);
    Some(v)
}

/// A prefix that reads as nothing makes the whole run read as nothing.
proof fn lemma_decimal_prefix_none(d: Seq<u8>, j: int)
    requires
        0 < j <= d.len(),
        decimal_value(d.subrange(0, j)) is None,
    ensures
        decimal_value(d) is None,
    decreases d.len() - j,
{
    if j < d.len() {
        let next = d.subrange(0, j + 1);
        assert(next.drop_last() =~= d.subrange(0, j));
        lemma_decimal_prefix_none(d, j + 1);
    } else {
        assert(d.subrange(0, j) =~= d);
    }
}

/// Where the scheduler last ran a thread, read from the text of its
/// `/proc/<pid>/stat`: field 2 may hold spaces and parentheses of its own,
/// so everything up to the last `)` is skipped.
pub fn processor_of_stat(text: &[u8]) -> (r: Option<CoreId>)
    ensures
        r == spec_processor(text@),
{
    let t = text;
    let mut n = t.len();
    while n > 0 && t[n - 1] != 41u8
        invariant
            n <= t@.len(),
            last_paren(t@, t@.len() as int) == last_paren(t@, n as int),
        decreases n,
    {
        n = n - 1;
    }
    if n == 0 {
        return None;
    }
    let p = n - 1;
    assert(last_paren(t@, t@.len() as int) == Some(p as int));
    let mut i: usize = p + 1;
    let mut k: u32 = 0;
    loop
        invariant
            t@ == text@,
            p < t@.len(),
            last_paren(t@, t@.len() as int) == Some(p as int),
            p + 1 <= i <= t@.len(),
            k <= 36,
            nth_word(t@, (p + 1) as int, 36) == nth_word(t@, i as int, (36 - k) as nat),
        decreases t@.len() - i,
    {
        let mut s = i;
        while s < t.len() && is_space_byte(t[s])
            invariant
                i <= s <= t@.len(),
                skip_space(t@, i as int) == skip_space(t@, s as int),
            decreases t@.len() - s,
        {
            s = s + 1;
        }
        if s >= t.len() {
            assert(skip_space(t@, s as int) == t@.len());
            assert(nth_word(t@, i as int, (36 - k) as nat) is None);
            return None;
        }
        let mut e = s;
        while e < t.len() && !is_space_byte(t[e])
            invariant
                s <= e <= t@.len(),
                skip_word(t@, s as int) == skip_word(t@, e as int),
            decreases t@.len() - e,
        {
            e = e + 1;
        }
        if k == 36 {
            let w = vstd::slice::slice_subrange(t, s, e);
            let digits = if w.len() > 1 && w[0] == 43u8 {
                vstd::slice::slice_subrange(w, 1, w.len())
            } else {
                w
            };
            assert(w@.len() > 1 && w@[0] == 43u8 ==> digits@ =~= w@.drop_first());
            return match decimal(digits) {
                Some(v) => Some(CoreId(v)),
                None => None,
            };
        }
        if e <= i {
            return None;
        }
        i = e;
        k = k + 1;
    }
}

} // verus!
