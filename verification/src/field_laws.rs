//! What the bytes of compressed fields mean: laws over every form that a peer may choose,
//! not only those that are written here.

use crate::hpack::{entry_at, hpack_static, literal_at, plain_at};
use crate::prefix_int::{int_bytes, law_prefix_int_reads_back, prefix_int_at, prefix_mask};
use crate::qpack::{field_at, section_start, static_field, string_at, FieldLine};
use vstd::prelude::*;

verus! {

// ── HPACK ───────────────────────────────────────────────────────────────

/// A number that its first byte holds.
proof fn lemma_small(buf: Seq<u8>, bits: u32, v: int)
    requires
        buf.len() > 0,
        buf[0] as int % (prefix_mask(bits) + 1) == v,
        v < prefix_mask(bits),
    ensures
        prefix_int_at(buf, bits) == Some((v as u64, 1nat)),
{
}

/// A field that the table holds whole is one byte: its index with the highest bit set. An
/// index that the table lacks is malformed.
pub proof fn law_indexed_field(b: u8, rest: Seq<u8>)
    requires
        128 <= b < 255,
    ensures
        1 <= b - 128 <= 61 ==> entry_at(seq![b] + rest) == Some(
            (Some(hpack_static(b - 128)), 1nat),
        ),
        b == 128 || b - 128 > 61 ==> entry_at(seq![b] + rest) is None,
{
    let buf = seq![b] + rest;
    assert(buf[0] == b);
    assert(prefix_mask(7) == 127);
    assert(b as int % 128 == b - 128);
    lemma_small(buf, 7, b - 128);
}

proof fn lemma_entry_literal(buf: Seq<u8>, bits: u32, f: FieldLine, n: nat)
    requires
        buf.len() > 0,
        (bits == 6 && 0x40 <= buf[0] < 0x80) || (bits == 4 && buf[0] < 0x20),
        literal_at(buf, bits) == Some((f, n)),
    ensures
        entry_at(buf) == Some((Some(f), n)),
{
}

proof fn lemma_plain_string(s: Seq<u8>, rest: Seq<u8>)
    requires
        s.len() <= i64::MAX,
    ensures
        plain_at(int_bytes(s.len() as u64, 7, 0) + s + rest) == Some(
            (s, int_bytes(s.len() as u64, 7, 0).len() + s.len()),
        ),
{
    let b = int_bytes(s.len() as u64, 7, 0);
    let buf = b + s + rest;
    law_prefix_int_reads_back(s.len() as u64, 7, 0, s + rest);
    assert(buf =~= b + (s + rest));
    assert(buf[0] == b[0]);
    assert(buf.subrange(b.len() as int, (b.len() + s.len()) as int) =~= s);
}

proof fn lemma_literal_by_index(i: u64, bits: u32, flags: u8, value: Seq<u8>, rest: Seq<u8>)
    requires
        1 <= i <= 61,
        4 <= bits <= 6,
        flags as int % (prefix_mask(bits) + 1) == 0,
        flags + prefix_mask(bits) <= 255,
        value.len() <= i64::MAX,
    ensures
        ({
            let e = int_bytes(i, bits, flags) + int_bytes(value.len() as u64, 7, 0) + value;
            literal_at(e + rest, bits) == Some(
                (FieldLine { name: hpack_static(i as int).name, value }, e.len()),
            )
        }),
{
    let a = int_bytes(i, bits, flags);
    let b = int_bytes(value.len() as u64, 7, 0);
    let e = a + b + value;
    law_prefix_int_reads_back(i, bits, flags, b + value + rest);
    assert(e + rest =~= a + (b + value + rest));
    lemma_plain_string(value, rest);
    assert((e + rest).skip(a.len() as int) =~= b + value + rest);
}

proof fn lemma_two_strings(buf: Seq<u8>, bits: u32, name: Seq<u8>, value: Seq<u8>, m: nat, k: nat)
    requires
        prefix_int_at(buf, bits) == Some((0u64, 1nat)),
        plain_at(buf.skip(1)) == Some((name, m)),
        plain_at(buf.skip(1 + m as int)) == Some((value, k)),
    ensures
        literal_at(buf, bits) == Some((FieldLine { name, value }, 1 + m + k)),
{
}

proof fn lemma_literal_by_name(bits: u32, flags: u8, name: Seq<u8>, value: Seq<u8>, rest: Seq<u8>)
    requires
        4 <= bits <= 6,
        flags as int % (prefix_mask(bits) + 1) == 0,
        name.len() <= i64::MAX,
        value.len() <= i64::MAX,
    ensures
        ({
            let s = int_bytes(name.len() as u64, 7, 0) + name + int_bytes(value.len() as u64, 7, 0)
                + value;
            literal_at(seq![flags] + s + rest, bits) == Some((FieldLine { name, value }, 1 + s.len()))
        }),
{
    let a = int_bytes(name.len() as u64, 7, 0);
    let b = int_bytes(value.len() as u64, 7, 0);
    let s = a + name + b + value;
    let buf = seq![flags] + s + rest;
    assert(buf[0] == flags);
    lemma_small(buf, bits, 0);
    lemma_plain_string(name, b + value + rest);
    assert(buf.skip(1) =~= a + name + (b + value + rest));
    lemma_plain_string(value, rest);
    let m = a.len() + name.len();
    assert(buf.skip(1 + m as int) =~= b + value + rest);
    lemma_two_strings(buf, bits, name, value, m, b.len() + value.len());
}

proof fn lemma_entry_by_index(i: u64, bits: u32, flags: u8, value: Seq<u8>, rest: Seq<u8>)
    requires
        1 <= i <= 61,
        value.len() <= i64::MAX,
        (bits == 6 && flags == 0x40) || (bits == 4 && (flags == 0 || flags == 0x10)),
    ensures
        ({
            let v = int_bytes(value.len() as u64, 7, 0) + value;
            entry_at(int_bytes(i, bits, flags) + v + rest) == Some(
                (
                    Some(FieldLine { name: hpack_static(i as int).name, value }),
                    int_bytes(i, bits, flags).len() + v.len(),
                ),
            )
        }),
{
    let b = int_bytes(value.len() as u64, 7, 0);
    let v = b + value;
    assert(prefix_mask(6) == 63 && prefix_mask(4) == 15);
    lemma_literal_by_index(i, bits, flags, value, rest);
    let x = int_bytes(i, bits, flags);
    law_prefix_int_reads_back(i, bits, flags, rest);
    let buf = x + v + rest;
    assert(buf =~= x + b + value + rest);
    assert(buf[0] == x[0]);
    let f = FieldLine { name: hpack_static(i as int).name, value };
    lemma_entry_literal(buf, bits, f, x.len() + v.len());
}

/// A field whose name the table holds may be written with indexing, without it or never to
/// be indexed: it is the same field.
pub proof fn law_literal_field_by_index(i: u64, value: Seq<u8>, rest: Seq<u8>)
    requires
        1 <= i <= 61,
        value.len() <= i64::MAX,
    ensures
        ({
            let v = int_bytes(value.len() as u64, 7, 0) + value;
            let f = FieldLine { name: hpack_static(i as int).name, value };
            &&& entry_at(int_bytes(i, 6, 0x40) + v + rest) == Some(
                (Some(f), int_bytes(i, 6, 0x40).len() + v.len()),
            )
            &&& entry_at(int_bytes(i, 4, 0) + v + rest) == Some(
                (Some(f), int_bytes(i, 4, 0).len() + v.len()),
            )
            &&& entry_at(int_bytes(i, 4, 0x10) + v + rest) == Some(
                (Some(f), int_bytes(i, 4, 0x10).len() + v.len()),
            )
        }),
{
    lemma_entry_by_index(i, 6, 0x40, value, rest);
    lemma_entry_by_index(i, 4, 0, value, rest);
    lemma_entry_by_index(i, 4, 0x10, value, rest);
}

proof fn lemma_entry_by_name(bits: u32, flags: u8, name: Seq<u8>, value: Seq<u8>, rest: Seq<u8>)
    requires
        name.len() <= i64::MAX,
        value.len() <= i64::MAX,
        (bits == 6 && flags == 0x40) || (bits == 4 && (flags == 0 || flags == 0x10)),
    ensures
        ({
            let s = int_bytes(name.len() as u64, 7, 0) + name + int_bytes(value.len() as u64, 7, 0)
                + value;
            entry_at(seq![flags] + s + rest) == Some(
                (Some(FieldLine { name, value }), 1 + s.len()),
            )
        }),
{
    let s = int_bytes(name.len() as u64, 7, 0) + name + int_bytes(value.len() as u64, 7, 0) + value;
    assert(prefix_mask(6) == 63 && prefix_mask(4) == 15);
    lemma_literal_by_name(bits, flags, name, value, rest);
    let buf = seq![flags] + s + rest;
    assert(buf[0] == flags);
    lemma_entry_literal(buf, bits, FieldLine { name, value }, 1 + s.len());
}

/// So may a field with a name of its own.
pub proof fn law_literal_field_by_name(name: Seq<u8>, value: Seq<u8>, rest: Seq<u8>)
    requires
        name.len() <= i64::MAX,
        value.len() <= i64::MAX,
    ensures
        ({
            let s = int_bytes(name.len() as u64, 7, 0) + name + int_bytes(value.len() as u64, 7, 0)
                + value;
            let f = FieldLine { name, value };
            &&& entry_at(seq![0x40u8] + s + rest) == Some((Some(f), 1 + s.len()))
            &&& entry_at(seq![0x00u8] + s + rest) == Some((Some(f), 1 + s.len()))
            &&& entry_at(seq![0x10u8] + s + rest) == Some((Some(f), 1 + s.len()))
        }),
{
    lemma_entry_by_name(6, 0x40, name, value, rest);
    lemma_entry_by_name(4, 0x00, name, value, rest);
    lemma_entry_by_name(4, 0x10, name, value, rest);
}

/// A peer may say again that the table holds nothing, and nothing else of its size.
pub proof fn law_table_stays_empty(size: u8, rest: Seq<u8>)
    requires
        size < 31,
    ensures
        size == 0 ==> entry_at(seq![(0x20 + size) as u8] + rest) == Some(
            (None::<FieldLine>, 1nat),
        ),
        size > 0 ==> entry_at(seq![(0x20 + size) as u8] + rest) is None,
{
    let buf = seq![(0x20 + size) as u8] + rest;
    assert(buf[0] == 0x20 + size);
    assert(prefix_mask(5) == 31);
    assert(prefix_int_at(buf, 5) == Some((size as u64, 1nat)));
}

// ── QPACK ───────────────────────────────────────────────────────────────

/// A field of the static table is its index; one beyond the table is malformed.
pub proof fn law_static_field(i: u64, rest: Seq<u8>)
    requires
        i <= i64::MAX,
    ensures
        i < 99 ==> field_at(int_bytes(i, 6, 0xc0) + rest) == Some(
            (static_field(i as int), int_bytes(i, 6, 0xc0).len()),
        ),
        i >= 99 ==> field_at(int_bytes(i, 6, 0xc0) + rest) is None,
{
    let b = int_bytes(i, 6, 0xc0);
    assert(prefix_mask(6) == 63);
    law_prefix_int_reads_back(i, 6, 0xc0, rest);
    assert((b + rest)[0] == b[0]);
}

/// Whatever speaks of the dynamic table, which is empty, is malformed.
pub proof fn law_dynamic_fields_are_malformed(b: u8, rest: Seq<u8>)
    ensures
        b < 0x20 || 0x40 <= b < 0x50 || 0x60 <= b < 0x70 || 0x80 <= b < 0xc0 ==> field_at(
            seq![b] + rest,
        ) is None,
{
    assert((seq![b] + rest)[0] == b);
}

proof fn lemma_string(s: Seq<u8>, bits: u32, flags: u8, rest: Seq<u8>)
    requires
        (bits == 3 && (flags == 0x20 || flags == 0x30)) || (bits == 7 && flags == 0),
        s.len() <= i64::MAX,
    ensures
        string_at(int_bytes(s.len() as u64, bits, flags) + s + rest, bits) == Some(
            (s, int_bytes(s.len() as u64, bits, flags).len() + s.len()),
        ),
{
    let b = int_bytes(s.len() as u64, bits, flags);
    let buf = b + s + rest;
    assert(prefix_mask(3) == 7 && prefix_mask(7) == 127);
    law_prefix_int_reads_back(s.len() as u64, bits, flags, s + rest);
    assert(buf =~= b + (s + rest));
    assert(buf[0] == b[0]);
    assert(buf.subrange(b.len() as int, (b.len() + s.len()) as int) =~= s);
    if bits == 3 {
        assert(b[0] as int / 8 % 2 == 0);
    } else {
        assert(b[0] as int / 128 % 2 == 0);
    }
}

/// That a field is never to be indexed does not change it, be its name from the table or its
/// own.
pub proof fn law_sensitive_field_is_the_same(i: u64, name: Seq<u8>, value: Seq<u8>, rest: Seq<u8>)
    requires
        i < 99,
        name.len() <= i64::MAX,
        value.len() <= i64::MAX,
    ensures
        ({
            let v = int_bytes(value.len() as u64, 7, 0) + value;
            let n = int_bytes(name.len() as u64, 3, 0x30) + name;
            &&& field_at(int_bytes(i, 4, 0x50) + v + rest) == Some(
                (
                    FieldLine { name: static_field(i as int).name, value },
                    int_bytes(i, 4, 0x50).len() + v.len(),
                ),
            )
            &&& field_at(int_bytes(i, 4, 0x70) + v + rest) == Some(
                (
                    FieldLine { name: static_field(i as int).name, value },
                    int_bytes(i, 4, 0x70).len() + v.len(),
                ),
            )
            &&& field_at(n + v + rest) == Some((FieldLine { name, value }, n.len() + v.len()))
        }),
{
    let b = int_bytes(value.len() as u64, 7, 0);
    let v = b + value;
    assert(prefix_mask(4) == 15 && prefix_mask(3) == 7 && prefix_mask(7) == 127);
    lemma_string(value, 7, 0, rest);
    assert(b + value + rest =~= v + rest);
    let x = int_bytes(i, 4, 0x50);
    law_prefix_int_reads_back(i, 4, 0x50, v + rest);
    assert(x + v + rest =~= x + (v + rest));
    assert((x + v + rest).skip(x.len() as int) =~= v + rest);
    assert((x + v + rest)[0] == x[0]);
    let y = int_bytes(i, 4, 0x70);
    law_prefix_int_reads_back(i, 4, 0x70, v + rest);
    assert(y + v + rest =~= y + (v + rest));
    assert((y + v + rest).skip(y.len() as int) =~= v + rest);
    assert((y + v + rest)[0] == y[0]);
    let a = int_bytes(name.len() as u64, 3, 0x30);
    let n = a + name;
    law_prefix_int_reads_back(name.len() as u64, 3, 0x30, name + (v + rest));
    lemma_string(name, 3, 0x30, v + rest);
    assert(n + v + rest =~= a + name + (v + rest));
    assert((n + v + rest).skip(n.len() as int) =~= v + rest);
    assert((n + v + rest)[0] == a[0]);
}

/// A section begins with a required count of zero and a base: no other count can be met.
pub proof fn law_section_needs_no_insertions(count: u8, base: u8, rest: Seq<u8>)
    requires
        count < 255,
        base != 127,
    ensures
        count == 0 && base < 128 ==> section_start(seq![count, base] + rest) == Some(2nat),
        count > 0 ==> section_start(seq![count, base] + rest) is None,
        base >= 128 ==> section_start(seq![count, base] + rest) is None,
{
    let s = seq![count, base] + rest;
    assert(s[0] == count && s[1] == base);
    assert(prefix_mask(8) == 255 && prefix_mask(7) == 127);
    assert(count as int % 256 == count);
    lemma_small(s, 8, count as int);
    if base < 128 {
        assert(s.skip(1)[0] == base);
        assert(base as int % 128 == base);
        lemma_small(s.skip(1), 7, base as int);
    }
}

} // verus!
