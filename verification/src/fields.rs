//! Small text fields: the `tag=value` segments of a table value, leading numbers and
//! hexadecimal digits.

use crate::bytes::{decimal_value, index_from, is_digit};
use crate::h1_wire::{find_byte_from, hex_digit, is_hex};
use vstd::prelude::*;
use vstd::slice::slice_subrange;

verus! {

/// What follows `tag` in the first `;`-separated segment, from `from` on, that begins
/// with it.
pub open spec fn field_of(value: Seq<u8>, tag: Seq<u8>, from: int) -> Option<Seq<u8>>
    decreases value.len() - from,
{
    if from < 0 || from > value.len() {
        None
    } else {
        let e = index_from(value, 0x3b, from);
        let seg = value.subrange(from, e);
        if tag.is_prefix_of(seg) {
            Some(seg.skip(tag.len() as int))
        } else if from <= e < value.len() {
            field_of(value, tag, e + 1)
        } else {
            None
        }
    }
}

/// Whether `s` begins with `tag`.
pub fn starts_with(s: &[u8], tag: &[u8]) -> (r: bool)
    ensures
        r == tag@.is_prefix_of(s@),
{
    if s.len() < tag.len() {
        return false;
    }
    let front = slice_subrange(s, 0, tag.len());
    crate::bytes::bytes_eq(front, tag)
}

/// Find a `tag=value` segment.
pub fn dyn_field<'a>(value: &'a [u8], tag: &[u8]) -> (r: Option<&'a [u8]>)
    ensures
        match r {
            Some(v) => field_of(value@, tag@, 0) == Some(v@),
            None => field_of(value@, tag@, 0) is None,
        },
{
    let n: usize = value.len();
    let mut start: usize = 0;
    loop
        invariant
            start <= n,
            n == value@.len(),
            field_of(value@, tag@, start as int) == field_of(value@, tag@, 0),
        decreases n - start,
    {
        let end: usize = find_byte_from(value, 0x3b, start);
        let seg = slice_subrange(value, start, end);
        if starts_with(seg, tag) {
            let r = slice_subrange(seg, tag.len(), seg.len());
            assert(r@ =~= seg@.skip(tag@.len() as int));
            return Some(r);
        }
        if end >= n {
            return None;
        }
        start = end + 1;
    }
}

/// How many of the bytes from `from` on are digits, counted to the first that is not.
pub open spec fn digits_from(s: Seq<u8>, from: int) -> int
    decreases s.len() - from,
{
    if from < 0 || from >= s.len() || !is_digit(s[from]) {
        from
    } else {
        digits_from(s, from + 1)
    }
}

/// The number the leading digits denote, in 32 bits.
pub open spec fn leading_u32(s: Seq<u8>) -> u32 {
    (decimal_value(s.take(digits_from(s, 0))) % 0x1_0000_0000) as u32
}

/// Read the leading digits as a number.
pub fn dyn_u32(s: &[u8]) -> (r: u32)
    ensures
        r == leading_u32(s@),
{
    let mut v: u32 = 0;
    let mut i: usize = 0;
    assert(s@.take(0) =~= Seq::<u8>::empty());
    while i < s.len() && s[i] >= 0x30 && s[i] <= 0x39
        invariant
            i <= s@.len(),
            v == decimal_value(s@.take(i as int)) % 0x1_0000_0000,
            digits_from(s@, i as int) == digits_from(s@, 0),
        decreases s@.len() - i,
    {
        let d: u32 = (s[i] - 0x30) as u32;
        let ghost a = decimal_value(s@.take(i as int));
        assert(s@.take(i + 1).drop_last() =~= s@.take(i as int));
        let t: u64 = v as u64 * 10 + d as u64;
        assert((a * 10 + d) % 0x1_0000_0000 == (v * 10 + d) % 0x1_0000_0000) by (nonlinear_arith)
            requires
                v == a % 0x1_0000_0000,
        ;
        v = (t % 0x1_0000_0000) as u32;
        i += 1;
    }
    v
}

/// The value of a hexadecimal digit.
pub fn hex_val(c: u8) -> (r: Option<u8>)
    ensures
        match r {
            Some(v) => is_hex(c) && v == hex_digit(c) && v < 16,
            None => !is_hex(c),
        },
{
    if c >= 0x30 && c <= 0x39 {
        Some(c - 0x30)
    } else if c >= 0x61 && c <= 0x66 {
        Some(c - 0x57)
    } else if c >= 0x41 && c <= 0x46 {
        Some(c - 0x37)
    } else {
        None
    }
}

// ── Laws ────────────────────────────────────────────────────────────────

/// Segments with a semicolon between each two.
pub open spec fn segments_joined(segs: Seq<Seq<u8>>) -> Seq<u8>
    decreases segs.len(),
{
    if segs.len() == 0 {
        Seq::empty()
    } else if segs.len() == 1 {
        segs[0]
    } else {
        segs[0] + seq![0x3bu8] + segments_joined(segs.skip(1))
    }
}

/// A field is the rest of the first segment that begins with its tag.
pub proof fn law_field_is_its_segment(segs: Seq<Seq<u8>>, i: int, tag: Seq<u8>, rest: Seq<u8>)
    requires
        0 <= i < segs.len(),
        segs[i] == tag + rest,
        forall|k: int| 0 <= k < segs.len() ==> !(#[trigger] segs[k]).contains(0x3b),
        forall|k: int| 0 <= k < i ==> !tag.is_prefix_of(#[trigger] segs[k]),
    ensures
        field_of(segments_joined(segs), tag, 0) == Some(rest),
{
    lemma_segment_field(Seq::empty(), segs, i, tag, rest);
    assert(Seq::<u8>::empty() + segments_joined(segs) =~= segments_joined(segs));
}

proof fn lemma_segment_field(pre: Seq<u8>, segs: Seq<Seq<u8>>, i: int, tag: Seq<u8>, rest: Seq<u8>)
    requires
        0 <= i < segs.len(),
        segs[i] == tag + rest,
        forall|k: int| 0 <= k < segs.len() ==> !(#[trigger] segs[k]).contains(0x3b),
        forall|k: int| 0 <= k < i ==> !tag.is_prefix_of(#[trigger] segs[k]),
    ensures
        field_of(pre + segments_joined(segs), tag, pre.len() as int) == Some(rest),
    decreases segs.len(),
{
    let value = pre + segments_joined(segs);
    let from = pre.len() as int;
    let seg = segs[0];
    let e = from + seg.len();
    assert(!seg.contains(0x3b));
    assert forall|k: int| from <= k < e implies #[trigger] value[k] != 0x3b by {
        assert(value[k] == seg[k - from]);
    }
    if segs.len() > 1 {
        let front = pre + seg + seq![0x3bu8];
        assert(value =~= front + segments_joined(segs.skip(1)));
        assert(value[e] == front[e]);
    }
    crate::bytes::lemma_index_from(value, 0x3b, from);
    assert(index_from(value, 0x3b, from) == e);
    assert(value.subrange(from, e) =~= seg);
    if i == 0 {
        assert(tag.is_prefix_of(seg)) by {
            assert(seg.subrange(0, tag.len() as int) =~= tag);
        }
        assert(seg.skip(tag.len() as int) =~= rest);
    } else {
        let tail = segs.skip(1);
        let front = pre + seg + seq![0x3bu8];
        assert(forall|k: int| 0 <= k < tail.len() ==> tail[k] == segs[k + 1]);
        lemma_segment_field(front, tail, i - 1, tag, rest);
    }
}

/// A number is read up to the first byte that is no digit.
pub proof fn law_leading_number_is_read(n: u32, rest: Seq<u8>)
    requires
        rest.len() == 0 || !(0x30 <= rest[0] <= 0x39),
    ensures
        leading_u32(crate::bytes::decimal(n as nat) + rest) == n,
{
    let d = crate::bytes::decimal(n as nat);
    let s = d + rest;
    crate::bytes::lemma_decimal(n as nat);
    assert forall|k: int| 0 <= k < d.len() implies is_digit(#[trigger] s[k]) by {
        assert(s[k] == d[k]);
    }
    lemma_digits_from(s, 0, d.len() as int);
    assert(s.take(d.len() as int) =~= d);
}

proof fn lemma_digits_from(s: Seq<u8>, from: int, to: int)
    requires
        0 <= from <= to <= s.len(),
        forall|k: int| from <= k < to ==> is_digit(#[trigger] s[k]),
        to == s.len() || !is_digit(s[to]),
    ensures
        digits_from(s, from) == to,
    decreases to - from,
{
    if from < to {
        lemma_digits_from(s, from + 1, to);
    }
}

} // verus!
