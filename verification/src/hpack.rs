//! Header compression of HTTP/2, without a dynamic table and without Huffman coding:
//! this server offers a table of size zero and writes its own strings plain.

use crate::bytes::{extend, lit, text, to_vec};
use crate::prefix_int::{
    decode_prefix_int, int_bytes, int_vec, lemma_prefix_int_bounds, law_prefix_int_reads_back, prefix_int_at,
};
use crate::qpack::{FieldLine, QpackField};
use vstd::prelude::*;
use vstd::slice::slice_subrange;

verus! {

/// Entries of the static table. They are numbered from one.
pub const HPACK_STATIC_LEN: usize = 61;

pub const HPACK_STATIC: [(&'static str, &'static str); 61] = [
    (":authority", ""),
    (":method", "GET"),
    (":method", "POST"),
    (":path", "/"),
    (":path", "/index.html"),
    (":scheme", "http"),
    (":scheme", "https"),
    (":status", "200"),
    (":status", "204"),
    (":status", "206"),
    (":status", "304"),
    (":status", "400"),
    (":status", "404"),
    (":status", "500"),
    ("accept-charset", ""),
    ("accept-encoding", "gzip, deflate"),
    ("accept-language", ""),
    ("accept-ranges", ""),
    ("accept", ""),
    ("access-control-allow-origin", ""),
    ("age", ""),
    ("allow", ""),
    ("authorization", ""),
    ("cache-control", ""),
    ("content-disposition", ""),
    ("content-encoding", ""),
    ("content-language", ""),
    ("content-length", ""),
    ("content-location", ""),
    ("content-range", ""),
    ("content-type", ""),
    ("cookie", ""),
    ("date", ""),
    ("etag", ""),
    ("expect", ""),
    ("expires", ""),
    ("from", ""),
    ("host", ""),
    ("if-match", ""),
    ("if-modified-since", ""),
    ("if-none-match", ""),
    ("if-range", ""),
    ("if-unmodified-since", ""),
    ("last-modified", ""),
    ("link", ""),
    ("location", ""),
    ("max-forwards", ""),
    ("proxy-authenticate", ""),
    ("proxy-authorization", ""),
    ("range", ""),
    ("referer", ""),
    ("refresh", ""),
    ("retry-after", ""),
    ("server", ""),
    ("set-cookie", ""),
    ("strict-transport-security", ""),
    ("transfer-encoding", ""),
    ("user-agent", ""),
    ("vary", ""),
    ("via", ""),
    ("www-authenticate", ""),
];

/// Entry `i` of the static table.
#[verifier::opaque]
pub open spec fn hpack_static(i: int) -> FieldLine {
    FieldLine { name: text(HPACK_STATIC@[i - 1].0), value: text(HPACK_STATIC@[i - 1].1) }
}

/// The plain string at the front of `buf`, and the bytes it takes. A Huffman-coded one
/// is not read.
pub open spec fn plain_at(buf: Seq<u8>) -> Option<(Seq<u8>, nat)> {
    if buf.len() == 0 || buf[0] >= 0x80 {
        None
    } else {
        match prefix_int_at(buf, 7) {
            None => None,
            Some((len, n)) => if n + len > buf.len() {
                None
            } else {
                Some((buf.subrange(n as int, n + len), (n + len) as nat))
            },
        }
    }
}

/// A literal field whose name index has a prefix of `bits` bits.
pub open spec fn literal_at(buf: Seq<u8>, bits: u32) -> Option<(FieldLine, nat)> {
    match prefix_int_at(buf, bits) {
        None => None,
        Some((i, n)) => if i > HPACK_STATIC_LEN {
            None
        } else if i > 0 {
            match plain_at(buf.skip(n as int)) {
                Some((value, m)) => Some(
                    (FieldLine { name: hpack_static(i as int).name, value }, n + m),
                ),
                None => None,
            }
        } else {
            match plain_at(buf.skip(n as int)) {
                Some((name, m)) => match plain_at(buf.skip((n + m) as int)) {
                    Some((value, k)) => Some((FieldLine { name, value }, n + m + k)),
                    None => None,
                },
                None => None,
            }
        },
    }
}

/// What stands at the front of a header block: a field, or a change of the dynamic
/// table's size, which can only be to zero; and the bytes it takes.
pub open spec fn entry_at(buf: Seq<u8>) -> Option<(Option<FieldLine>, nat)> {
    if buf.len() == 0 {
        None
    } else if buf[0] >= 0x80 {
        match prefix_int_at(buf, 7) {
            Some((i, n)) => if 1 <= i <= HPACK_STATIC_LEN {
                Some((Some(hpack_static(i as int)), n))
            } else {
                None
            },
            None => None,
        }
    } else if buf[0] >= 0x40 {
        match literal_at(buf, 6) {
            Some((f, n)) => Some((Some(f), n)),
            None => None,
        }
    } else if buf[0] >= 0x20 {
        match prefix_int_at(buf, 5) {
            Some((v, n)) => if v == 0 {
                Some((None, n))
            } else {
                None
            },
            None => None,
        }
    } else {
        match literal_at(buf, 4) {
            Some((f, n)) => Some((Some(f), n)),
            None => None,
        }
    }
}

/// The fields of a header block. `None` when any of it does not decode.
pub open spec fn block_fields(buf: Seq<u8>) -> Option<Seq<FieldLine>>
    decreases buf.len(),
{
    if buf.len() == 0 {
        Some(Seq::empty())
    } else {
        match entry_at(buf) {
            None => None,
            Some((f, n)) => if n == 0 || n > buf.len() {
                None
            } else {
                match block_fields(buf.skip(n as int)) {
                    None => None,
                    Some(rest) => match f {
                        Some(line) => Some(seq![line] + rest),
                        None => Some(rest),
                    },
                }
            },
        }
    }
}

proof fn lemma_plain_bounds(buf: Seq<u8>)
    ensures
        plain_at(buf) matches Some((_, n)) ==> 1 <= n <= buf.len(),
{
    lemma_prefix_int_bounds(buf, 7);
}

proof fn lemma_literal_bounds(buf: Seq<u8>, bits: u32)
    ensures
        literal_at(buf, bits) matches Some((_, n)) ==> 1 <= n <= buf.len(),
{
    lemma_prefix_int_bounds(buf, bits);
    if let Some((i, n)) = prefix_int_at(buf, bits) {
        lemma_plain_bounds(buf.skip(n as int));
        if let Some((name, m)) = plain_at(buf.skip(n as int)) {
            lemma_plain_bounds(buf.skip((n + m) as int));
        }
    }
}

fn static_name(i: usize) -> (r: &'static [u8])
    requires
        1 <= i <= HPACK_STATIC_LEN,
    ensures
        r@ == hpack_static(i as int).name,
{
    proof {
        reveal(hpack_static);
    }
    lit(HPACK_STATIC[i - 1].0)
}

fn static_value(i: usize) -> (r: &'static [u8])
    requires
        1 <= i <= HPACK_STATIC_LEN,
    ensures
        r@ == hpack_static(i as int).value,
{
    proof {
        reveal(hpack_static);
    }
    lit(HPACK_STATIC[i - 1].1)
}

fn decode_plain(buf: &[u8]) -> (r: Option<(Vec<u8>, usize)>)
    ensures
        match r {
            Some((s, n)) => plain_at(buf@) == Some((s@, n as nat)) && 1 <= n <= buf@.len(),
            None => plain_at(buf@) is None,
        },
{
    if buf.len() == 0 || buf[0] >= 0x80 {
        return None;
    }
    match decode_prefix_int(buf, 7) {
        None => None,
        Some((len, n)) => {
            if len > (buf.len() - n) as u64 {
                return None;
            }
            let s = slice_subrange(buf, n, n + len as usize);
            Some((to_vec(s), n + len as usize))
        },
    }
}

fn decode_literal(buf: &[u8], bits: u32) -> (r: Option<QpackField>)
    requires
        1 <= bits <= 8,
    ensures
        match r {
            Some(f) => literal_at(buf@, bits) == Some((f.line(), f.consumed as nat)) && 1
                <= f.consumed <= buf@.len(),
            None => literal_at(buf@, bits) is None,
        },
{
    proof {
        lemma_literal_bounds(buf@, bits);
    }
    match decode_prefix_int(buf, bits) {
        None => None,
        Some((i, n)) => {
            if i > HPACK_STATIC_LEN as u64 {
                return None;
            }
            let rest = slice_subrange(buf, n, buf.len());
            assert(rest@ =~= buf@.skip(n as int));
            if i > 0 {
                return match decode_plain(rest) {
                    Some((value, m)) => Some(
                        QpackField {
                            name: to_vec(static_name(i as usize)),
                            value,
                            consumed: n + m,
                        },
                    ),
                    None => None,
                };
            }
            match decode_plain(rest) {
                None => None,
                Some((name, m)) => {
                    let tail = slice_subrange(buf, n + m, buf.len());
                    assert(tail@ =~= buf@.skip(n + m));
                    match decode_plain(tail) {
                        None => None,
                        Some((value, k)) => Some(QpackField { name, value, consumed: n + m + k }),
                    }
                },
            }
        },
    }
}

/// Decode what stands at the front of a header block: the field, if it is one, and the
/// bytes it takes.
pub fn decode_entry(buf: &[u8]) -> (r: Option<(Option<QpackField>, usize)>)
    ensures
        match r {
            Some((Some(f), n)) => entry_at(buf@) == Some((Some(f.line()), n as nat)) && 1 <= n
                <= buf@.len(),
            Some((None, n)) => entry_at(buf@) == Some((None::<FieldLine>, n as nat)) && 1 <= n
                <= buf@.len(),
            None => entry_at(buf@) is None,
        },
{
    if buf.len() == 0 {
        return None;
    }
    let b: u8 = buf[0];
    if b >= 0x80 {
        match decode_prefix_int(buf, 7) {
            Some((i, n)) => {
                if i < 1 || i > HPACK_STATIC_LEN as u64 {
                    return None;
                }
                let k: usize = i as usize;
                let f = QpackField {
                    name: to_vec(static_name(k)),
                    value: to_vec(static_value(k)),
                    consumed: n,
                };
                Some((Some(f), n))
            },
            None => None,
        }
    } else if b >= 0x40 {
        match decode_literal(buf, 6) {
            Some(f) => {
                let n: usize = f.consumed;
                Some((Some(f), n))
            },
            None => None,
        }
    } else if b >= 0x20 {
        match decode_prefix_int(buf, 5) {
            Some((v, n)) => {
                if v == 0 {
                    Some((None, n))
                } else {
                    None
                }
            },
            None => None,
        }
    } else {
        match decode_literal(buf, 4) {
            Some(f) => {
                let n: usize = f.consumed;
                Some((Some(f), n))
            },
            None => None,
        }
    }
}

// ── Writing ─────────────────────────────────────────────────────────────

/// A field as it is written: in full, and not to be put in a table.
#[verifier::opaque]
pub open spec fn hpack_bytes(name: Seq<u8>, value: Seq<u8>) -> Seq<u8> {
    seq![0u8] + int_bytes(name.len() as u64, 7, 0) + name + int_bytes(value.len() as u64, 7, 0)
        + value
}

/// Write a field.
pub fn encode_header(name: &[u8], value: &[u8]) -> (r: Vec<u8>)
    ensures
        r@ == hpack_bytes(name@, value@),
{
    proof {
        reveal(hpack_bytes);
    }
    let mut v: Vec<u8> = Vec::new();
    v.push(0);
    extend(&mut v, int_vec(name.len() as u64, 7, 0).as_slice());
    extend(&mut v, name);
    extend(&mut v, int_vec(value.len() as u64, 7, 0).as_slice());
    extend(&mut v, value);
    assert(v@ =~= hpack_bytes(name@, value@));
    v
}

proof fn lemma_plain_roundtrip(s: Seq<u8>, rest: Seq<u8>)
    requires
        s.len() <= i64::MAX,
    ensures
        plain_at(int_bytes(s.len() as u64, 7, 0) + s + rest) == Some(
            (s, int_bytes(s.len() as u64, 7, 0).len() + s.len()),
        ),
{
    let h = int_bytes(s.len() as u64, 7, 0);
    let buf = h + s + rest;
    law_prefix_int_reads_back(s.len() as u64, 7, 0, s + rest);
    assert(buf =~= h + (s + rest));
    assert(buf.subrange(h.len() as int, (h.len() + s.len()) as int) =~= s);
    assert(buf[0] == h[0]);
}

/// A written field reads back as itself, whatever follows it.
pub proof fn law_hpack_field_reads_back(name: Seq<u8>, value: Seq<u8>, rest: Seq<u8>)
    requires
        name.len() <= i64::MAX,
        value.len() <= i64::MAX,
    ensures
        entry_at(hpack_bytes(name, value) + rest) == Some(
            (Some(FieldLine { name, value }), hpack_bytes(name, value).len()),
        ),
        hpack_bytes(name, value).len() >= 1,
{
    reveal(hpack_bytes);
    let a = int_bytes(name.len() as u64, 7, 0);
    let b = int_bytes(value.len() as u64, 7, 0);
    let buf = hpack_bytes(name, value) + rest;
    assert(buf.skip(1) =~= a + name + (b + value + rest));
    lemma_plain_roundtrip(name, b + value + rest);
    assert(buf.skip((1 + a.len() + name.len()) as int) =~= b + value + rest);
    lemma_plain_roundtrip(value, rest);
    assert(prefix_int_at(buf, 4) == Some((0u64, 1nat)));
}

/// Fields as they are written, one behind the other.
pub open spec fn hpack_block(lines: Seq<FieldLine>) -> Seq<u8>
    decreases lines.len(),
{
    if lines.len() == 0 {
        Seq::empty()
    } else {
        hpack_bytes(lines[0].name, lines[0].value) + hpack_block(lines.skip(1))
    }
}

pub proof fn lemma_block_cons(f: FieldLine, rest: Seq<FieldLine>)
    ensures
        hpack_block(seq![f] + rest) == hpack_bytes(f.name, f.value) + hpack_block(rest),
{
    assert((seq![f] + rest).skip(1) =~= rest);
}

/// A header block reads back as the fields it was made of, in their order.
pub proof fn law_hpack_block_reads_back(lines: Seq<FieldLine>)
    requires
        forall|i: int|
            0 <= i < lines.len() ==> (#[trigger] lines[i]).name.len() <= i64::MAX
                && lines[i].value.len() <= i64::MAX,
    ensures
        block_fields(hpack_block(lines)) == Some(lines),
    decreases lines.len(),
{
    if lines.len() == 0 {
        assert(lines =~= Seq::empty());
    } else {
        let f = lines[0];
        let rest = lines.skip(1);
        assert(forall|i: int| 0 <= i < rest.len() ==> rest[i] == lines[i + 1]);
        law_hpack_block_reads_back(rest);
        law_hpack_field_reads_back(f.name, f.value, hpack_block(rest));
        let first = hpack_bytes(f.name, f.value);
        let buf = first + hpack_block(rest);
        assert(buf.skip(first.len() as int) =~= hpack_block(rest));
        assert(FieldLine { name: f.name, value: f.value } == f);
        assert(seq![f] + rest =~= lines);
    }
}

} // verus!
