//! QPACK field sections under a zero-capacity dynamic table (RFC 9204 §4.5).
//!
//! Only the static table and literals are used in either direction. A reference
//! to the dynamic table is refused on the way in and never written on the way out.

use crate::bytes::{bytes_eq, extend, lit, text, to_vec};
use crate::huffman::{huff_decode, huff_decoded};
use crate::huffman_code::{huff_encoded, law_huffman_reads_back};
use crate::prefix_int::{
    decode_prefix_int, int_bytes, int_vec, lemma_prefix_int_bounds, law_prefix_int_reads_back,
    prefix_int_at, prefix_mask,
};
use vstd::prelude::*;
use vstd::slice::slice_subrange;

verus! {

/// How many entries the static table has.
pub const STATIC_LEN: usize = 99;

/// The static table (RFC 9204 Appendix A).
pub const STATIC_TABLE: [(&'static str, &'static str); 99] = [
    (":authority", ""),
    (":path", "/"),
    ("age", "0"),
    ("content-disposition", ""),
    ("content-length", "0"),
    ("cookie", ""),
    ("date", ""),
    ("etag", ""),
    ("if-modified-since", ""),
    ("if-none-match", ""),
    ("last-modified", ""),
    ("link", ""),
    ("location", ""),
    ("referer", ""),
    ("set-cookie", ""),
    (":method", "CONNECT"),
    (":method", "DELETE"),
    (":method", "GET"),
    (":method", "HEAD"),
    (":method", "OPTIONS"),
    (":method", "POST"),
    (":method", "PUT"),
    (":scheme", "http"),
    (":scheme", "https"),
    (":status", "103"),
    (":status", "200"),
    (":status", "304"),
    (":status", "404"),
    (":status", "503"),
    ("accept", "*/*"),
    ("accept", "application/dns-message"),
    ("accept-encoding", "gzip, deflate, br"),
    ("accept-ranges", "bytes"),
    ("access-control-allow-headers", "cache-control"),
    ("access-control-allow-headers", "content-type"),
    ("access-control-allow-origin", "*"),
    ("cache-control", "max-age=0"),
    ("cache-control", "max-age=2592000"),
    ("cache-control", "max-age=604800"),
    ("cache-control", "no-cache"),
    ("cache-control", "no-store"),
    ("cache-control", "public, max-age=31536000"),
    ("content-encoding", "br"),
    ("content-encoding", "gzip"),
    ("content-type", "application/dns-message"),
    ("content-type", "application/javascript"),
    ("content-type", "application/json"),
    ("content-type", "application/x-www-form-urlencoded"),
    ("content-type", "image/gif"),
    ("content-type", "image/jpeg"),
    ("content-type", "image/png"),
    ("content-type", "text/css"),
    ("content-type", "text/html; charset=utf-8"),
    ("content-type", "text/plain"),
    ("content-type", "text/plain;charset=utf-8"),
    ("range", "bytes=0-"),
    ("strict-transport-security", "max-age=31536000"),
    ("strict-transport-security", "max-age=31536000; includesubdomains"),
    ("strict-transport-security", "max-age=31536000; includesubdomains; preload"),
    ("vary", "accept-encoding"),
    ("vary", "origin"),
    ("x-content-type-options", "nosniff"),
    ("x-xss-protection", "1; mode=block"),
    (":status", "100"),
    (":status", "204"),
    (":status", "206"),
    (":status", "302"),
    (":status", "400"),
    (":status", "403"),
    (":status", "421"),
    (":status", "425"),
    (":status", "500"),
    ("accept-language", ""),
    ("access-control-allow-credentials", "FALSE"),
    ("access-control-allow-credentials", "TRUE"),
    ("access-control-allow-headers", "*"),
    ("access-control-allow-methods", "get"),
    ("access-control-allow-methods", "get, post, options"),
    ("access-control-allow-methods", "options"),
    ("access-control-expose-headers", "content-length"),
    ("access-control-request-headers", "content-type"),
    ("access-control-request-method", "get"),
    ("access-control-request-method", "post"),
    ("alt-svc", "clear"),
    ("authorization", ""),
    ("content-security-policy", "script-src 'none'; object-src 'none'; base-uri 'none'"),
    ("early-data", "1"),
    ("expect-ct", ""),
    ("forwarded", ""),
    ("if-range", ""),
    ("origin", ""),
    ("purpose", "prefetch"),
    ("server", ""),
    ("timing-allow-origin", "*"),
    ("upgrade-insecure-requests", "1"),
    ("user-agent", ""),
    ("x-forwarded-for", ""),
    ("x-frame-options", "deny"),
    ("x-frame-options", "sameorigin"),
];

/// One decoded field: its name and its value.
#[verifier::ext_equal]
pub struct FieldLine {
    pub name: Seq<u8>,
    pub value: Seq<u8>,
}

/// Entry `i` of the static table.
#[verifier::opaque]
pub open spec fn static_field(i: int) -> FieldLine {
    FieldLine { name: text(STATIC_TABLE@[i].0), value: text(STATIC_TABLE@[i].1) }
}

/// A string whose length has a prefix of `bits` bits, the bit above saying
/// whether it is Huffman-coded; with the bytes it takes.
pub open spec fn string_at(buf: Seq<u8>, bits: u32) -> Option<(Seq<u8>, nat)> {
    match prefix_int_at(buf, bits) {
        None => None,
        Some((len, n)) => if n + len > buf.len() {
            None
        } else {
            let raw = buf.subrange(n as int, n + len);
            if buf[0] as int / (prefix_mask(bits) + 1) % 2 == 1 {
                match huff_decoded(raw, 0, 0, 0) {
                    Some(s) => Some((s, (n + len) as nat)),
                    None => None,
                }
            } else {
                Some((raw, (n + len) as nat))
            }
        },
    }
}

/// The field line at the front of `buf`, and the bytes it takes.
pub open spec fn field_at(buf: Seq<u8>) -> Option<(FieldLine, nat)> {
    if buf.len() == 0 {
        None
    } else if buf[0] >= 0xc0 {
        // Indexed, static table.
        match prefix_int_at(buf, 6) {
            Some((i, n)) => if i < STATIC_LEN {
                Some((static_field(i as int), n))
            } else {
                None
            },
            None => None,
        }
    } else if 0x40 <= buf[0] < 0x80 && buf[0] / 16 % 2 == 1 {
        // Literal value, name from the static table.
        match prefix_int_at(buf, 4) {
            Some((i, n)) => if i < STATIC_LEN {
                match string_at(buf.skip(n as int), 7) {
                    Some((value, m)) => Some(
                        (FieldLine { name: static_field(i as int).name, value }, n + m),
                    ),
                    None => None,
                }
            } else {
                None
            },
            None => None,
        }
    } else if 0x20 <= buf[0] < 0x40 {
        // Literal name and value.
        match string_at(buf, 3) {
            Some((name, n)) => match string_at(buf.skip(n as int), 7) {
                Some((value, m)) => Some((FieldLine { name, value }, n + m)),
                None => None,
            },
            None => None,
        }
    } else {
        // Every remaining form refers to the dynamic table.
        None
    }
}

/// [`field_at`], refusing a field of more than `max` bytes of name and value.
pub open spec fn bounded_field_at(buf: Seq<u8>, max: nat) -> Option<(FieldLine, nat)> {
    match field_at(buf) {
        Some((f, n)) => if f.name.len() + f.value.len() <= max {
            Some((f, n))
        } else {
            None
        },
        None => None,
    }
}

/// A field line takes between one byte and what the buffer holds.
pub proof fn lemma_field_bounds(buf: Seq<u8>)
    ensures
        field_at(buf) matches Some((_, n)) ==> 1 <= n <= buf.len(),
{
    lemma_prefix_int_bounds(buf, 6);
    lemma_prefix_int_bounds(buf, 4);
    lemma_prefix_int_bounds(buf, 3);
    if let Some((_, n)) = prefix_int_at(buf, 4) {
        lemma_prefix_int_bounds(buf.skip(n as int), 7);
    }
    if let Some((_, n)) = string_at(buf, 3) {
        lemma_prefix_int_bounds(buf.skip(n as int), 7);
    }
}

fn string_decode(buf: &[u8], bits: u32, max: usize) -> (r: Option<(Vec<u8>, usize)>)
    requires
        1 <= bits <= 7,
    ensures
        match r {
            Some((s, n)) => string_at(buf@, bits) == Some((s@, n as nat)) && 1 <= n <= buf.len()
                && s@.len() <= max,
            None => match string_at(buf@, bits) {
                Some((s, _)) => s.len() > max,
                None => true,
            },
        },
{
    let (len, n) = match decode_prefix_int(buf, bits) {
        Some(x) => x,
        None => return None,
    };
    if len > (buf.len() - n) as u64 {
        return None;
    }
    let end: usize = n + len as usize;
    let raw = slice_subrange(buf, n, end);
    let m: u8 = if bits == 7 {
        128
    } else if bits == 6 {
        64
    } else if bits == 5 {
        32
    } else if bits == 4 {
        16
    } else if bits == 3 {
        8
    } else if bits == 2 {
        4
    } else {
        2
    };
    if buf[0] / m % 2 == 1 {
        match huff_decode(raw, max) {
            Some(s) => Some((s, end)),
            None => None,
        }
    } else if raw.len() > max {
        None
    } else {
        Some((to_vec(raw), end))
    }
}

/// A decoded field line and the bytes it took.
pub struct QpackField {
    pub name: Vec<u8>,
    pub value: Vec<u8>,
    pub consumed: usize,
}

impl QpackField {
    pub open spec fn line(self) -> FieldLine {
        FieldLine { name: self.name@, value: self.value@ }
    }
}

fn static_name(i: usize) -> (r: &'static [u8])
    requires
        i < STATIC_LEN,
    ensures
        r@ == static_field(i as int).name,
{
    proof {
        reveal(static_field);
    }
    lit(STATIC_TABLE[i].0)
}

fn static_value(i: usize) -> (r: &'static [u8])
    requires
        i < STATIC_LEN,
    ensures
        r@ == static_field(i as int).value,
{
    proof {
        reveal(static_field);
    }
    lit(STATIC_TABLE[i].1)
}

/// Decode the field line at the front of `buf`, of at most `max` bytes of name
/// and value together.
pub fn qpack_decode_field(buf: &[u8], max: usize) -> (r: Option<QpackField>)
    ensures
        match r {
            Some(f) => bounded_field_at(buf@, max as nat) == Some((f.line(), f.consumed as nat))
                && 1 <= f.consumed <= buf.len() && f.name@.len() + f.value@.len() <= max,
            None => bounded_field_at(buf@, max as nat) is None,
        },
{
    if buf.len() == 0 {
        return None;
    }
    proof {
        lemma_field_bounds(buf@);
    }
    let b: u8 = buf[0];
    if b >= 0xc0 {
        match decode_prefix_int(buf, 6) {
            Some((i, n)) => {
                if i >= STATIC_LEN as u64 {
                    return None;
                }
                let name = static_name(i as usize);
                let value = static_value(i as usize);
                if name.len() > max || value.len() > max - name.len() {
                    return None;
                }
                Some(QpackField { name: to_vec(name), value: to_vec(value), consumed: n })
            },
            None => None,
        }
    } else if 0x40 <= b && b < 0x80 && b / 16 % 2 == 1 {
        match decode_prefix_int(buf, 4) {
            Some((i, n)) => {
                if i >= STATIC_LEN as u64 {
                    return None;
                }
                let name = static_name(i as usize);
                if name.len() > max {
                    return None;
                }
                let rest = slice_subrange(buf, n, buf.len());
                assert(rest@ =~= buf@.skip(n as int));
                match string_decode(rest, 7, max - name.len()) {
                    Some((value, m)) => Some(
                        QpackField { name: to_vec(name), value, consumed: n + m },
                    ),
                    None => None,
                }
            },
            None => None,
        }
    } else if 0x20 <= b && b < 0x40 {
        match string_decode(buf, 3, max) {
            Some((name, n)) => {
                let rest = slice_subrange(buf, n, buf.len());
                assert(rest@ =~= buf@.skip(n as int));
                let room: usize = max - name.len();
                match string_decode(rest, 7, room) {
                    Some((value, m)) => Some(QpackField { name, value, consumed: n + m }),
                    None => None,
                }
            },
            None => None,
        }
    } else {
        None
    }
}

// ── Section prefix ──────────────────────────────────────────────────────

/// Where the field lines of a section begin.
///
/// With no dynamic table the required insert count is zero, and so the base,
/// counted from it, cannot be below it.
pub open spec fn section_start(block: Seq<u8>) -> Option<nat> {
    match prefix_int_at(block, 8) {
        Some((ric, n)) => if ric != 0 || n >= block.len() || block[n as int] >= 0x80 {
            None
        } else {
            match prefix_int_at(block.skip(n as int), 7) {
                Some((_, m)) => Some(n + m),
                None => None,
            }
        },
        None => None,
    }
}

pub fn qpack_decode_block_prefix(block: &[u8]) -> (r: Option<usize>)
    ensures
        match r {
            Some(n) => section_start(block@) == Some(n as nat) && 2 <= n <= block.len(),
            None => section_start(block@) is None,
        },
{
    match decode_prefix_int(block, 8) {
        Some((ric, n)) => {
            if ric != 0 || n >= block.len() || block[n] >= 0x80 {
                return None;
            }
            let rest = slice_subrange(block, n, block.len());
            assert(rest@ =~= block@.skip(n as int));
            match decode_prefix_int(rest, 7) {
                Some((_, m)) => Some(n + m),
                None => None,
            }
        },
        None => None,
    }
}

/// The fields of a section's lines. `None` when any line does not decode.
pub open spec fn lines_at(buf: Seq<u8>) -> Option<Seq<FieldLine>>
    decreases buf.len(),
{
    if buf.len() == 0 {
        Some(Seq::empty())
    } else {
        match field_at(buf) {
            Some((f, n)) => if n == 0 || n > buf.len() {
                None
            } else {
                match lines_at(buf.skip(n as int)) {
                    Some(rest) => Some(seq![f] + rest),
                    None => None,
                }
            },
            None => None,
        }
    }
}

// ── Encoding ────────────────────────────────────────────────────────────

/// The first static entry from `from` on with this name and value, or the table's
/// length.
pub open spec fn static_index(name: Seq<u8>, value: Seq<u8>, from: int) -> int
    decreases STATIC_LEN - from,
{
    if from >= STATIC_LEN {
        STATIC_LEN as int
    } else if static_field(from).name == name && static_field(from).value == value {
        from
    } else {
        static_index(name, value, from + 1)
    }
}

/// The first static entry from `from` on with this name, or the table's length.
pub open spec fn static_name_index(name: Seq<u8>, from: int) -> int
    decreases STATIC_LEN - from,
{
    if from >= STATIC_LEN {
        STATIC_LEN as int
    } else if static_field(from).name == name {
        from
    } else {
        static_name_index(name, from + 1)
    }
}

/// How a field is written: by index where the static table has it, else with the
/// table's name, else in full. Strings are written plain.
pub open spec fn field_bytes(name: Seq<u8>, value: Seq<u8>) -> Seq<u8> {
    let full = static_index(name, value, 0);
    let named = static_name_index(name, 0);
    if full < STATIC_LEN {
        int_bytes(full as u64, 6, 0xc0)
    } else if named < STATIC_LEN {
        int_bytes(named as u64, 4, 0x50) + int_bytes(value.len() as u64, 7, 0) + value
    } else {
        int_bytes(name.len() as u64, 3, 0x20) + name + int_bytes(value.len() as u64, 7, 0) + value
    }
}

proof fn lemma_static_index(name: Seq<u8>, value: Seq<u8>, from: int)
    requires
        0 <= from <= STATIC_LEN,
    ensures
        from <= static_index(name, value, from) <= STATIC_LEN,
        static_index(name, value, from) < STATIC_LEN ==> static_field(
            static_index(name, value, from),
        ) == (FieldLine { name, value }),
        from <= static_name_index(name, from) <= STATIC_LEN,
        static_name_index(name, from) < STATIC_LEN ==> static_field(
            static_name_index(name, from),
        ).name == name,
    decreases STATIC_LEN - from,
{
    if from < STATIC_LEN {
        lemma_static_index(name, value, from + 1);
    }
}

proof fn lemma_string_roundtrip(s: Seq<u8>, bits: u32, flags: u8, rest: Seq<u8>)
    requires
        bits == 7 && flags == 0 || bits == 3 && flags == 0x20,
        s.len() <= i64::MAX,
    ensures
        string_at(int_bytes(s.len() as u64, bits, flags) + s + rest, bits) == Some(
            (s, int_bytes(s.len() as u64, bits, flags).len() + s.len()),
        ),
{
    let h = int_bytes(s.len() as u64, bits, flags);
    let buf = h + s + rest;
    law_prefix_int_reads_back(s.len() as u64, bits, flags, s + rest);
    assert(buf =~= h + (s + rest));
    assert(buf.subrange(h.len() as int, (h.len() + s.len()) as int) =~= s);
    assert(buf[0] == h[0]);
}

/// An indexed field decodes to its entry.
proof fn lemma_indexed_reads_back(h: Seq<u8>, i: u64, rest: Seq<u8>)
    requires
        h.len() >= 1,
        0xc0 <= h[0],
        prefix_int_at(h + rest, 6) == Some((i, h.len())),
        i < STATIC_LEN,
    ensures
        field_at(h + rest) == Some((static_field(i as int), h.len())),
{
    assert((h + rest)[0] == h[0]);
}

/// A field with an indexed name decodes to the name and its own value.
proof fn lemma_named_reads_back(h: Seq<u8>, i: u64, text_of: Seq<u8>, value: Seq<u8>, rest: Seq<u8>)
    requires
        h.len() >= 1,
        0x50 <= h[0] < 0x60,
        prefix_int_at(h + (text_of + rest), 4) == Some((i, h.len())),
        i < STATIC_LEN,
        string_at(text_of + rest, 7) == Some((value, text_of.len())),
    ensures
        field_at(h + text_of + rest) == Some(
            (FieldLine { name: static_field(i as int).name, value }, h.len() + text_of.len()),
        ),
{
    let buf = h + text_of + rest;
    assert(buf =~= h + (text_of + rest));
    assert(buf[0] == h[0]);
    assert(buf.skip(h.len() as int) =~= text_of + rest);
}

/// A field whose name and value are both written out decodes to them.
proof fn lemma_literal_reads_back(
    name_text: Seq<u8>,
    name: Seq<u8>,
    text_of: Seq<u8>,
    value: Seq<u8>,
    rest: Seq<u8>,
)
    requires
        name_text.len() >= 1,
        0x20 <= name_text[0] < 0x40,
        string_at(name_text + (text_of + rest), 3) == Some((name, name_text.len())),
        string_at(text_of + rest, 7) == Some((value, text_of.len())),
    ensures
        field_at(name_text + text_of + rest) == Some(
            (FieldLine { name, value }, name_text.len() + text_of.len()),
        ),
{
    let buf = name_text + text_of + rest;
    assert(buf =~= name_text + (text_of + rest));
    assert(buf[0] == name_text[0]);
    assert(buf.skip(name_text.len() as int) =~= text_of + rest);
}

/// The head of a field with this prefix and these flags decodes to its number.
proof fn lemma_head_reads_back(v: u64, bits: u32, flags: u8, rest: Seq<u8>)
    requires
        bits == 6 && flags == 0xc0 || bits == 4 && flags == 0x50 || bits == 3 && flags == 0x20,
        v <= i64::MAX,
    ensures
        prefix_int_at(int_bytes(v, bits, flags) + rest, bits) == Some(
            (v, int_bytes(v, bits, flags).len()),
        ),
        int_bytes(v, bits, flags).len() >= 1,
        bits == 6 ==> 0xc0 <= int_bytes(v, bits, flags)[0],
        bits == 4 ==> 0x50 <= int_bytes(v, bits, flags)[0] < 0x60,
        bits == 3 ==> 0x20 <= int_bytes(v, bits, flags)[0] < 0x28,
{
    assert(prefix_mask(6) == 63 && prefix_mask(4) == 15 && prefix_mask(3) == 7);
    assert(0xc0int % 64 == 0 && 0x50int % 16 == 0 && 0x20int % 8 == 0);
    law_prefix_int_reads_back(v, bits, flags, rest);
}

proof fn lemma_full_match(name: Seq<u8>, value: Seq<u8>, full: u64, rest: Seq<u8>)
    requires
        full < STATIC_LEN,
        static_field(full as int) == (FieldLine { name, value }),
    ensures
        field_at(int_bytes(full, 6, 0xc0) + rest) == Some(
            (FieldLine { name, value }, int_bytes(full, 6, 0xc0).len()),
        ),
        int_bytes(full, 6, 0xc0).len() >= 1,
{
    lemma_head_reads_back(full, 6, 0xc0, rest);
    lemma_indexed_reads_back(int_bytes(full, 6, 0xc0), full, rest);
}

proof fn lemma_name_match(name: Seq<u8>, value: Seq<u8>, named: u64, rest: Seq<u8>)
    requires
        named < STATIC_LEN,
        static_field(named as int).name == name,
        value.len() <= i64::MAX,
    ensures
        ({
            let e = int_bytes(named, 4, 0x50) + (int_bytes(value.len() as u64, 7, 0) + value);
            field_at(e + rest) == Some((FieldLine { name, value }, e.len())) && e.len() >= 1
        }),
{
    let h = int_bytes(named, 4, 0x50);
    let v = int_bytes(value.len() as u64, 7, 0) + value;
    lemma_head_reads_back(named, 4, 0x50, v + rest);
    lemma_string_roundtrip(value, 7, 0, rest);
    lemma_named_reads_back(h, named, v, value, rest);
}

proof fn lemma_no_match(name: Seq<u8>, value: Seq<u8>, rest: Seq<u8>)
    requires
        name.len() <= i64::MAX,
        value.len() <= i64::MAX,
    ensures
        ({
            let e = (int_bytes(name.len() as u64, 3, 0x20) + name) + (int_bytes(
                value.len() as u64,
                7,
                0,
            ) + value);
            field_at(e + rest) == Some((FieldLine { name, value }, e.len())) && e.len() >= 1
        }),
{
    let h = int_bytes(name.len() as u64, 3, 0x20);
    let v = int_bytes(value.len() as u64, 7, 0) + value;
    lemma_head_reads_back(name.len() as u64, 3, 0x20, Seq::empty());
    lemma_string_roundtrip(name, 3, 0x20, v + rest);
    lemma_string_roundtrip(value, 7, 0, rest);
    assert((h + name)[0] == h[0]);
    lemma_literal_reads_back(h + name, name, v, value, rest);
}

/// Whether these bytes, whatever follows them, are one field line: this one.
#[verifier::opaque]
spec fn stands_for(e: Seq<u8>, rest: Seq<u8>, name: Seq<u8>, value: Seq<u8>) -> bool {
    field_at(e + rest) == Some((FieldLine { name, value }, e.len())) && e.len() >= 1
}

proof fn lemma_full_stands(name: Seq<u8>, value: Seq<u8>, full: u64, rest: Seq<u8>)
    requires
        full < STATIC_LEN,
        static_field(full as int) == (FieldLine { name, value }),
    ensures
        stands_for(int_bytes(full, 6, 0xc0), rest, name, value),
{
    reveal(stands_for);
    lemma_full_match(name, value, full, rest);
}

proof fn lemma_name_stands(name: Seq<u8>, value: Seq<u8>, named: u64, rest: Seq<u8>)
    requires
        named < STATIC_LEN,
        static_field(named as int).name == name,
        value.len() <= i64::MAX,
    ensures
        stands_for(
            int_bytes(named, 4, 0x50) + int_bytes(value.len() as u64, 7, 0) + value,
            rest,
            name,
            value,
        ),
{
    reveal(stands_for);
    lemma_name_match(name, value, named, rest);
    assert(int_bytes(named, 4, 0x50) + int_bytes(value.len() as u64, 7, 0) + value =~= int_bytes(
        named,
        4,
        0x50,
    ) + (int_bytes(value.len() as u64, 7, 0) + value));
}

proof fn lemma_literal_stands(name: Seq<u8>, value: Seq<u8>, rest: Seq<u8>)
    requires
        name.len() <= i64::MAX,
        value.len() <= i64::MAX,
    ensures
        stands_for(
            int_bytes(name.len() as u64, 3, 0x20) + name + int_bytes(value.len() as u64, 7, 0)
                + value,
            rest,
            name,
            value,
        ),
{
    reveal(stands_for);
    lemma_no_match(name, value, rest);
    let n = int_bytes(name.len() as u64, 3, 0x20) + name;
    let v = int_bytes(value.len() as u64, 7, 0) + value;
    assert(n + int_bytes(value.len() as u64, 7, 0) + value =~= n + v);
}

proof fn lemma_field_stands(name: Seq<u8>, value: Seq<u8>, rest: Seq<u8>)
    requires
        name.len() <= i64::MAX,
        value.len() <= i64::MAX,
    ensures
        stands_for(field_bytes(name, value), rest, name, value),
{
    lemma_static_index(name, value, 0);
    let full = static_index(name, value, 0);
    let named = static_name_index(name, 0);
    if full < STATIC_LEN {
        lemma_full_stands(name, value, full as u64, rest);
    } else if named < STATIC_LEN {
        lemma_name_stands(name, value, named as u64, rest);
    } else {
        lemma_literal_stands(name, value, rest);
    }
}

/// A written field reads back as itself, whatever follows it.
pub proof fn law_field_reads_back(name: Seq<u8>, value: Seq<u8>, rest: Seq<u8>)
    requires
        name.len() <= i64::MAX,
        value.len() <= i64::MAX,
    ensures
        field_at(field_bytes(name, value) + rest) == Some(
            (FieldLine { name, value }, field_bytes(name, value).len()),
        ),
        field_bytes(name, value).len() >= 1,
{
    reveal(stands_for);
    lemma_field_stands(name, value, rest);
}

proof fn lemma_huffman_string(s: Seq<u8>, bits: u32, flags: u8, rest: Seq<u8>)
    requires
        bits == 7 && flags == 0x80 || bits == 3 && flags == 0x28,
        huff_encoded(s).len() <= i64::MAX,
    ensures
        ({
            let e = int_bytes(huff_encoded(s).len() as u64, bits, flags) + huff_encoded(s);
            &&& string_at(e + rest, bits) == Some((s, e.len()))
            &&& e.len() >= 1
            &&& flags <= e[0] <= flags + prefix_mask(bits)
        }),
{
    let c = huff_encoded(s);
    let h = int_bytes(c.len() as u64, bits, flags);
    let e = h + c;
    let buf = e + rest;
    assert(prefix_mask(7) == 127 && prefix_mask(3) == 7);
    assert(0x80int % 128 == 0 && 0x28int % 8 == 0);
    law_prefix_int_reads_back(c.len() as u64, bits, flags, c + rest);
    law_huffman_reads_back(s);
    assert(buf =~= h + (c + rest));
    assert(buf.subrange(h.len() as int, (h.len() + c.len()) as int) =~= c);
    assert(buf[0] == h[0]);
    let b = h[0] as int;
    assert(b / (prefix_mask(bits) + 1) % 2 == 1);
}

/// A field whose name and value are both written in the static Huffman code, as clients
/// write them, reads back as itself, whatever follows it.
pub proof fn law_huffman_field_reads_back(name: Seq<u8>, value: Seq<u8>, rest: Seq<u8>)
    requires
        huff_encoded(name).len() <= i64::MAX,
        huff_encoded(value).len() <= i64::MAX,
    ensures
        ({
            let e = int_bytes(huff_encoded(name).len() as u64, 3, 0x28) + huff_encoded(name)
                + int_bytes(huff_encoded(value).len() as u64, 7, 0x80) + huff_encoded(value);
            field_at(e + rest) == Some((FieldLine { name, value }, e.len()))
        }),
{
    let n = int_bytes(huff_encoded(name).len() as u64, 3, 0x28) + huff_encoded(name);
    let v = int_bytes(huff_encoded(value).len() as u64, 7, 0x80) + huff_encoded(value);
    lemma_huffman_string(name, 3, 0x28, v + rest);
    lemma_huffman_string(value, 7, 0x80, rest);
    assert(prefix_mask(3) == 7);
    lemma_literal_reads_back(n, name, v, value, rest);
    assert(n + v =~= n + int_bytes(huff_encoded(value).len() as u64, 7, 0x80) + huff_encoded(
        value,
    ));
}

/// A field whose name is an entry of the static table and whose value is written in the
/// static Huffman code, as clients write a path, reads back as that name and that value.
pub proof fn law_huffman_value_reads_back(i: u64, value: Seq<u8>, rest: Seq<u8>)
    requires
        i < STATIC_LEN,
        huff_encoded(value).len() <= i64::MAX,
    ensures
        ({
            let e = int_bytes(i, 4, 0x50) + int_bytes(huff_encoded(value).len() as u64, 7, 0x80)
                + huff_encoded(value);
            field_at(e + rest) == Some(
                (FieldLine { name: static_field(i as int).name, value }, e.len()),
            )
        }),
{
    let h = int_bytes(i, 4, 0x50);
    let v = int_bytes(huff_encoded(value).len() as u64, 7, 0x80) + huff_encoded(value);
    lemma_head_reads_back(i, 4, 0x50, v + rest);
    lemma_huffman_string(value, 7, 0x80, rest);
    lemma_named_reads_back(h, i, v, value, rest);
    assert(h + v =~= h + int_bytes(huff_encoded(value).len() as u64, 7, 0x80) + huff_encoded(
        value,
    ));
}

fn find_static(name: &[u8], value: &[u8]) -> (r: usize)
    ensures
        r == static_index(name@, value@, 0),
        r <= STATIC_LEN,
{
    let mut i: usize = 0;
    while i < STATIC_LEN
        invariant
            i <= STATIC_LEN,
            static_index(name@, value@, i as int) == static_index(name@, value@, 0),
        decreases STATIC_LEN - i,
    {
        if bytes_eq(static_name(i), name) && bytes_eq(static_value(i), value) {
            return i;
        }
        i += 1;
    }
    i
}

fn find_static_name(name: &[u8]) -> (r: usize)
    ensures
        r == static_name_index(name@, 0),
        r <= STATIC_LEN,
{
    let mut i: usize = 0;
    while i < STATIC_LEN
        invariant
            i <= STATIC_LEN,
            static_name_index(name@, i as int) == static_name_index(name@, 0),
        decreases STATIC_LEN - i,
    {
        if bytes_eq(static_name(i), name) {
            return i;
        }
        i += 1;
    }
    i
}

/// A field as an owned field line.
pub fn field_vec(name: &[u8], value: &[u8]) -> (r: Vec<u8>)
    ensures
        r@ == field_bytes(name@, value@),
{
    let full: usize = find_static(name, value);
    if full < STATIC_LEN {
        return int_vec(full as u64, 6, 0xc0);
    }
    let named: usize = find_static_name(name);
    if named < STATIC_LEN {
        let mut out: Vec<u8> = int_vec(named as u64, 4, 0x50);
        extend(&mut out, int_vec(value.len() as u64, 7, 0).as_slice());
        extend(&mut out, value);
        return out;
    }
    let mut out: Vec<u8> = int_vec(name.len() as u64, 3, 0x20);
    extend(&mut out, name);
    extend(&mut out, int_vec(value.len() as u64, 7, 0).as_slice());
    extend(&mut out, value);
    out
}

} // verus!
