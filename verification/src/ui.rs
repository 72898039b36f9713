//! The display's own text and classification rules: shortened model ids,
//! context sizes, the unit a size or count is shown in, and a slot's state.
use vstd::prelude::*;

use crate::text::{chars_of, decimal, decimal_chars, string_from_chars};

verus! {

broadcast use vstd::seq_lib::group_seq_properties;

// ----- UTF-8 lengths -----

/// The number of bytes of the UTF-8 encoding of `c`.
pub open spec fn utf8_width(c: char) -> nat {
    if (c as u32) <= 0x7F {
        1
    } else if (c as u32) <= 0x7FF {
        2
    } else if (c as u32) <= 0xFFFF {
        3
    } else {
        4
    }
}

/// The number of bytes of the UTF-8 encoding of `s` (what `str::len` gives).
pub open spec fn byte_len(s: Seq<char>) -> nat
    decreases s.len(),
{
    if s.len() == 0 {
        0
    } else {
        utf8_width(s[0]) + byte_len(s.drop_first())
    }
}

/// `byte_len` is the length of the UTF-8 encoding.
pub proof fn lemma_byte_len_is_utf8_len(s: Seq<char>)
    ensures
        byte_len(s) == vstd::utf8::encode_utf8(s).len(),
    decreases s.len(),
{
    if s.len() > 0 {
        lemma_byte_len_is_utf8_len(s.drop_first());
        let v = s[0] as u32;
        vstd::utf8::char_is_scalar(s[0]);
        assert(vstd::utf8::encode_scalar(v).len() == utf8_width(s[0]));
    }
}

fn width_of(c: char) -> (w: u64)
    ensures
        w == utf8_width(c),
{
    let v = c as u32;
    if v <= 0x7F {
        1
    } else if v <= 0x7FF {
        2
    } else if v <= 0xFFFF {
        3
    } else {
        4
    }
}

/// The number of bytes of the characters of `t` from position `k` on.
pub open spec fn suffix_bytes(t: Seq<char>, k: int) -> nat {
    byte_len(t.subrange(k, t.len() as int))
}

proof fn lemma_suffix_step(t: Seq<char>, k: int)
    requires
        0 <= k < t.len(),
    ensures
        suffix_bytes(t, k) == utf8_width(t[k]) + suffix_bytes(t, k + 1),
{
    assert(t.subrange(k, t.len() as int).drop_first() =~= t.subrange(k + 1, t.len() as int));
}

proof fn lemma_suffix_decreasing(t: Seq<char>, a: int, b: int)
    requires
        0 <= a < b <= t.len(),
    ensures
        suffix_bytes(t, a) > suffix_bytes(t, b),
    decreases b - a,
{
    lemma_suffix_step(t, a);
    if a + 1 < b {
        lemma_suffix_decreasing(t, a + 1, b);
    }
}

proof fn lemma_suffix_end(t: Seq<char>)
    ensures
        suffix_bytes(t, t.len() as int) == 0,
{
    assert(t.subrange(t.len() as int, t.len() as int) =~= Seq::<char>::empty());
}

proof fn lemma_suffix_start(t: Seq<char>)
    ensures
        suffix_bytes(t, 0) == byte_len(t),
{
    assert(t.subrange(0, t.len() as int) =~= t);
}

// ----- shortened model ids -----

/// How many characters of a long id's end the display keeps.
pub const KEPT_CHARS: usize = 30;

/// Ids longer than this many bytes are shortened.
pub const MAX_ID_BYTES: u64 = 32;

/// The text after the last `/` of `id` (all of `id` without one).
pub open spec fn after_last_slash(id: Seq<char>) -> Seq<char>
    decreases id.len(),
{
    if id.len() == 0 {
        id
    } else if id.last() == '/' {
        Seq::empty()
    } else {
        after_last_slash(id.drop_last()).push(id.last())
    }
}

/// The display form of a model id: the part after the last `/`; if that is
/// longer than `MAX_ID_BYTES` bytes, `…` followed by its last `KEPT_CHARS`
/// characters (all of them when it has fewer).
pub open spec fn shortened(id: Seq<char>) -> Seq<char> {
    let t = after_last_slash(id);
    if byte_len(t) <= MAX_ID_BYTES {
        t
    } else if t.len() <= KEPT_CHARS {
        seq!['\u{2026}'] + t
    } else {
        seq!['\u{2026}'] + t.subrange(t.len() - KEPT_CHARS, t.len() as int)
    }
}

/// The part of `id` after its last `/`.
fn tail_after_slash(id: &Vec<char>) -> (t: Vec<char>)
    ensures
        t@ == after_last_slash(id@),
{
    let mut start: usize = 0;
    let mut i: usize = 0;
    while i < id.len()
        invariant
            i <= id@.len(),
            start <= i,
            after_last_slash(id@.take(i as int)) == id@.subrange(start as int, i as int),
        decreases id@.len() - i,
    {
        assert(id@.take(i + 1).drop_last() =~= id@.take(i as int));
        if id[i] == '/' {
            start = i + 1;
            assert(id@.subrange(start as int, i + 1) =~= Seq::<char>::empty());
        } else {
            assert(id@.subrange(start as int, i + 1) =~= id@.subrange(start as int, i as int).push(id@[i as int]));
        }
        i = i + 1;
    }
    assert(id@.take(i as int) =~= id@);
    let mut t: Vec<char> = Vec::new();
    let mut j: usize = start;
    while j < id.len()
        invariant
            start <= j <= id@.len(),
            t@ == id@.subrange(start as int, j as int),
        decreases id@.len() - j,
    {
        t.push(id[j]);
        assert(t@ =~= id@.subrange(start as int, j + 1));
        j = j + 1;
    }
    t
}

/// Whether the characters of `t` take at most `MAX_ID_BYTES` bytes.
fn fits_max_bytes(t: &Vec<char>) -> (r: bool)
    ensures
        r == (byte_len(t@) <= MAX_ID_BYTES),
{
    let mut k: usize = t.len();
    let mut acc: u64 = 0;
    proof {
        lemma_suffix_end(t@);
        lemma_suffix_start(t@);
    }
    while k > 0 && acc <= MAX_ID_BYTES
        invariant
            k <= t@.len(),
            acc == suffix_bytes(t@, k as int),
            acc <= MAX_ID_BYTES + 4,
            suffix_bytes(t@, 0) == byte_len(t@),
        decreases k,
    {
        proof {
            lemma_suffix_step(t@, k - 1);
        }
        k = k - 1;
        acc = acc + width_of(t[k]);
    }
    proof {
        if k > 0 {
            lemma_suffix_decreasing(t@, 0, k as int);
        }
    }
    acc <= MAX_ID_BYTES
}

/// A text has at least as many bytes as characters.
pub proof fn lemma_chars_at_most_bytes(t: Seq<char>)
    ensures
        t.len() <= byte_len(t),
    decreases t.len(),
{
    if t.len() > 0 {
        lemma_chars_at_most_bytes(t.drop_first());
    }
}

/// Shorten long HuggingFace-style model IDs for display
pub fn shorten_model_id(id: &str) -> (r: String)
    ensures
        r@ == shortened(id@),
{
    let cs = chars_of(id);
    let t = tail_after_slash(&cs);
    if fits_max_bytes(&t) {
        return string_from_chars(&t);
    }
    let start: usize = if t.len() <= KEPT_CHARS {
        0
    } else {
        t.len() - KEPT_CHARS
    };
    let mut out: Vec<char> = Vec::new();
    out.push('\u{2026}');
    let mut j: usize = start;
    while j < t.len()
        invariant
            start <= j <= t@.len(),
            out@ == seq!['\u{2026}'] + t@.subrange(start as int, j as int),
        decreases t@.len() - j,
    {
        out.push(t[j]);
        assert(out@ =~= seq!['\u{2026}'] + t@.subrange(start as int, j + 1));
        j = j + 1;
    }
    assert(t@.subrange(0, t@.len() as int) =~= t@);
    string_from_chars(&out)
}

/// A shortened id has at most `MAX_ID_BYTES` characters.
pub proof fn lemma_shortened_fits(id: Seq<char>)
    ensures
        shortened(id).len() <= MAX_ID_BYTES,
{
    lemma_chars_at_most_bytes(after_last_slash(id));
}

// ----- context sizes -----

/// A context size as the display shows it: whole millions as `<n>M`, whole
/// thousands as `<n>k`, else the number.
pub open spec fn ctx_text(n: u64) -> Seq<char> {
    if n >= 1_000_000 {
        decimal((n / 1_000_000) as nat).push('M')
    } else if n >= 1_000 {
        decimal((n / 1_000) as nat).push('k')
    } else {
        decimal(n as nat)
    }
}

pub fn fmt_ctx(n: u64) -> (r: String)
    ensures
        r@ == ctx_text(n),
{
    if n >= 1_000_000 {
        let mut v = decimal_chars(n / 1_000_000);
        v.push('M');
        string_from_chars(&v)
    } else if n >= 1_000 {
        let mut v = decimal_chars(n / 1_000);
        v.push('k');
        string_from_chars(&v)
    } else {
        let v = decimal_chars(n);
        string_from_chars(&v)
    }
}

// ----- units of sizes and counts -----

/// The unit in which a size or a count is shown.
#[derive(Debug, Clone, Copy, PartialEq, Eq, Structural)]
pub enum Magnitude {
    /// billions (of parameters) or GiB (of bytes)
    Giga,
    /// millions (of parameters) or MiB (of bytes)
    Mega,
    /// the number itself
    Units,
}

/// Bytes in a GiB.
pub const GIB: u64 = 1_073_741_824;

/// Bytes in a MiB.
pub const MIB: u64 = 1_048_576;

/// The unit in which a size in bytes is shown: GiB from one GiB on, MiB
/// from one MiB on, else bytes.
pub fn byte_magnitude(bytes: u64) -> (m: Magnitude)
    ensures
        m == if bytes >= GIB {
            Magnitude::Giga
        } else if bytes >= MIB {
            Magnitude::Mega
        } else {
            Magnitude::Units
        },
{
    if bytes >= GIB {
        Magnitude::Giga
    } else if bytes >= MIB {
        Magnitude::Mega
    } else {
        Magnitude::Units
    }
}

/// The unit in which a parameter count is shown: billions from one billion
/// on, millions from one million on, else the count.
pub fn param_magnitude(n: u64) -> (m: Magnitude)
    ensures
        m == if n >= 1_000_000_000 {
            Magnitude::Giga
        } else if n >= 1_000_000 {
            Magnitude::Mega
        } else {
            Magnitude::Units
        },
{
    if n >= 1_000_000_000 {
        Magnitude::Giga
    } else if n >= 1_000_000 {
        Magnitude::Mega
    } else {
        Magnitude::Units
    }
}

/// A size in bytes shown in bytes: `<n>B`.
pub fn fmt_byte_count(bytes: u64) -> (r: String)
    ensures
        r@ == decimal(bytes as nat).push('B'),
{
    let mut v = decimal_chars(bytes);
    v.push('B');
    string_from_chars(&v)
}

/// A parameter count shown as the count itself.
pub fn fmt_count(n: u64) -> (r: String)
    ensures
        r@ == decimal(n as nat),
{
    let v = decimal_chars(n);
    string_from_chars(&v)
}

// ----- slot states -----

/// What a slot is doing, as the display shows it.
#[derive(Debug, Clone, Copy, PartialEq, Eq, Structural)]
pub enum SlotState {
    Prefill,
    Generate,
    Idle,
}

/// A slot in prefill shows as such; else a processing slot is generating;
/// else it is idle.
pub fn slot_state(in_prefill: bool, is_processing: bool) -> (s: SlotState)
    ensures
        s == if in_prefill {
            SlotState::Prefill
        } else if is_processing {
            SlotState::Generate
        } else {
            SlotState::Idle
        },
{
    if in_prefill {
        SlotState::Prefill
    } else if is_processing {
        SlotState::Generate
    } else {
        SlotState::Idle
    }
}

} // verus!
