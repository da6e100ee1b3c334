//! HTTP/3 responses: encoding them, and choosing one for a request.

use crate::bytes::{copy_into, extend, lit, splice, text};
use crate::h3_wire::{
    frame_at, frame_bytes, frame_header_vec, law_h3_frame_reads_back, payload_of, H3_FRAME_DATA,
    H3_FRAME_HEADERS,
};
use crate::qpack::{field_bytes, field_vec, law_field_reads_back, lines_at, FieldLine};
use crate::varint::VARINT_MAX;
use vstd::prelude::*;

verus! {

/// Largest encoded field section of a response.
pub const H3_BLOCK_MAX: usize = 512;
/// Largest rendered template a response carries.
pub const H3_TEMPLATE_BUF: usize = 1024;

// ── Field sections ──────────────────────────────────────────────────────

/// The fields of a list of name and value slices.
pub open spec fn lines_of(fields: Seq<(&[u8], &[u8])>) -> Seq<FieldLine> {
    Seq::new(fields.len(), |i: int| FieldLine { name: fields[i].0@, value: fields[i].1@ })
}

/// Field lines, one after another.
pub open spec fn lines_bytes(lines: Seq<FieldLine>) -> Seq<u8>
    decreases lines.len(),
{
    if lines.len() == 0 {
        Seq::empty()
    } else {
        lines_bytes(lines.drop_last()) + field_bytes(lines.last().name, lines.last().value)
    }
}

/// The fields of a response: `:status` first.
pub open spec fn response_lines(status: Seq<u8>, fields: Seq<FieldLine>) -> Seq<FieldLine> {
    seq![FieldLine { name: text(":status"), value: status }] + fields
}

/// A response's field section: a prefix that refers to no dynamic table, then the
/// lines.
pub open spec fn section_bytes(status: Seq<u8>, fields: Seq<FieldLine>) -> Seq<u8> {
    seq![0u8, 0u8] + lines_bytes(response_lines(status, fields))
}

/// The encoded section of a response.
fn section_vec(status: &[u8], fields: &[(&[u8], &[u8])]) -> (r: Vec<u8>)
    ensures
        r@ == section_bytes(status@, lines_of(fields@)),
{
    let ghost all = response_lines(status@, lines_of(fields@));
    let mut out: Vec<u8> = vec![0, 0];
    extend(&mut out, field_vec(lit(":status"), status).as_slice());
    proof {
        assert(all.take(1).last() == all[0]);
        assert(all.take(1).drop_last() =~= Seq::empty());
        assert(lines_bytes(all.take(1)) =~= field_bytes(all[0].name, all[0].value)) by {
            reveal_with_fuel(lines_bytes, 2);
        }
        assert(out@ =~= seq![0u8, 0u8] + lines_bytes(all.take(1)));
    }
    let mut i: usize = 0;
    while i < fields.len()
        invariant
            i <= fields@.len(),
            all == response_lines(status@, lines_of(fields@)),
            out@ == seq![0u8, 0u8] + lines_bytes(all.take(i + 1)),
        decreases fields@.len() - i,
    {
        let (name, value) = fields[i];
        extend(&mut out, field_vec(name, value).as_slice());
        proof {
            assert(all.take(i + 2).drop_last() =~= all.take(i + 1));
            assert(all.take(i + 2).last() == (FieldLine { name: name@, value: value@ }));
            assert(out@ =~= seq![0u8, 0u8] + lines_bytes(all.take(i + 2)));
        }
        i += 1;
    }
    assert(all.take(fields@.len() as int + 1) =~= all);
    out
}

/// Whether every string has a length that can be written: nine groups of a prefix-coded
/// integer reach to `i64::MAX`, past which there is no buffer either.
pub open spec fn encodable(status: Seq<u8>, fields: Seq<FieldLine>) -> bool {
    &&& status.len() <= i64::MAX
    &&& forall|i: int|
        0 <= i < fields.len() ==> (#[trigger] fields[i]).name.len() <= i64::MAX
            && fields[i].value.len() <= i64::MAX
}

fn is_encodable(status: &[u8], fields: &[(&[u8], &[u8])]) -> (r: bool)
    ensures
        r == encodable(status@, lines_of(fields@)),
{
    let most: u64 = 0x7fff_ffff_ffff_ffff;
    if status.len() as u64 > most {
        return false;
    }
    let ghost lines = lines_of(fields@);
    let mut i: usize = 0;
    while i < fields.len()
        invariant
            i <= fields@.len(),
            lines == lines_of(fields@),
            most == i64::MAX,
            forall|k: int|
                0 <= k < i ==> (#[trigger] lines[k]).name.len() <= i64::MAX && lines[k].value.len()
                    <= i64::MAX,
        decreases fields@.len() - i,
    {
        let (name, value) = fields[i];
        assert(lines[i as int].name == name@ && lines[i as int].value == value@);
        if name.len() as u64 > most || value.len() as u64 > most {
            return false;
        }
        i += 1;
    }
    true
}

/// Encode a response's field section at the front of `out`.
///
/// Returns the bytes written, or 0 (writing nothing) when it does not fit whole.
pub fn encode_response_headers(
    status: &[u8],
    fields: &[(&[u8], &[u8])],
    out: &mut [u8],
) -> (n: usize)
    ensures
        ({
            let s = section_bytes(status@, lines_of(fields@));
            if encodable(status@, lines_of(fields@)) && s.len() <= old(out)@.len() {
                n == s.len() && n > 0 && final(out)@ == splice(old(out)@, 0, s)
            } else {
                n == 0 && final(out)@ == old(out)@
            }
        }),
        n > 0 ==> final(out)@.take(2) == seq![
            0u8,
            0u8,
        ] && lines_at(final(out)@.subrange(2, n as int)) == Some(
            response_lines(status@, lines_of(fields@)),
        ),
{
    if !is_encodable(status, fields) {
        return 0;
    }
    let s: Vec<u8> = section_vec(status, fields);
    if s.len() > out.len() {
        return 0;
    }
    copy_into(out, 0, s.as_slice());
    proof {
        law_response_section_reads_back(status@, lines_of(fields@));
        assert(out@.take(2) =~= s@.take(2));
        assert(out@.subrange(2, s@.len() as int) =~= s@.skip(2));
    }
    s.len()
}

/// What a list of fields counts against a field-section limit: name, value and 32
/// bytes each, uncompressed.
pub open spec fn lines_size(lines: Seq<FieldLine>) -> int
    decreases lines.len(),
{
    if lines.len() == 0 {
        0
    } else {
        lines_size(lines.drop_last()) + lines.last().name.len() + lines.last().value.len() + 32
    }
}

/// What a response's field section counts (RFC 9114 §4.2.2).
pub fn field_section_size(status: &[u8], fields: &[(&[u8], &[u8])]) -> (r: usize)
    requires
        lines_size(response_lines(status@, lines_of(fields@))) <= usize::MAX,
    ensures
        r == lines_size(response_lines(status@, lines_of(fields@))),
{
    let ghost all = response_lines(status@, lines_of(fields@));
    proof {
        lemma_lines_size_prefix(all, 1);
        assert(all.take(1).last() == all[0]);
        assert(all.take(1).drop_last() =~= Seq::empty());
        reveal_with_fuel(lines_size, 2);
    }
    let mut total: usize = lit(":status").len() + status.len() + 32;
    let mut i: usize = 0;
    while i < fields.len()
        invariant
            i <= fields@.len(),
            all == response_lines(status@, lines_of(fields@)),
            lines_size(all) <= usize::MAX,
            total == lines_size(all.take(i + 1)),
        decreases fields@.len() - i,
    {
        let (name, value) = fields[i];
        proof {
            assert(all.take(i + 2).drop_last() =~= all.take(i + 1));
            assert(all.take(i + 2).last() == (FieldLine { name: name@, value: value@ }));
            lemma_lines_size_prefix(all, i + 2);
        }
        total = total + name.len() + value.len() + 32;
        i += 1;
    }
    assert(all.take(fields@.len() as int + 1) =~= all);
    total
}

proof fn lemma_lines_size_prefix(lines: Seq<FieldLine>, n: int)
    requires
        0 <= n <= lines.len(),
    ensures
        0 <= lines_size(lines.take(n)) <= lines_size(lines),
    decreases lines.len(),
{
    if n == lines.len() {
        assert(lines.take(n) =~= lines);
        if n > 0 {
            lemma_lines_size_prefix(lines.drop_last(), n - 1);
        }
    } else {
        lemma_lines_size_prefix(lines.drop_last(), n);
        assert(lines.drop_last().take(n) =~= lines.take(n));
    }
}

/// Whether a section of this size is within a peer's limit; `u32::MAX` is no limit.
pub open spec fn within_limit(limit: u32, size: int) -> bool {
    limit == u32::MAX || size <= limit
}

/// Whether the peer will accept a response's field section.
pub fn fits_peer_field_limit(limit: u32, status: &[u8], fields: &[(&[u8], &[u8])]) -> (r: bool)
    requires
        lines_size(response_lines(status@, lines_of(fields@))) <= usize::MAX,
    ensures
        r == within_limit(limit, lines_size(response_lines(status@, lines_of(fields@)))),
{
    limit == u32::MAX || field_section_size(status, fields) as u64 <= limit as u64
}

// ── Whole responses ─────────────────────────────────────────────────────

/// A whole response: a HEADERS frame, and a DATA frame when there is a body.
pub open spec fn response_bytes(status: Seq<u8>, fields: Seq<FieldLine>, body: Seq<u8>) -> Seq<u8> {
    frame_bytes(H3_FRAME_HEADERS, section_bytes(status, fields)) + if body.len() == 0 {
        Seq::empty()
    } else {
        frame_bytes(H3_FRAME_DATA, body)
    }
}

/// Whether a response can be framed into `cap` bytes.
pub open spec fn response_fits(
    status: Seq<u8>,
    fields: Seq<FieldLine>,
    body: Seq<u8>,
    cap: int,
) -> bool {
    &&& encodable(status, fields)
    &&& section_bytes(status, fields).len() <= H3_BLOCK_MAX
    &&& body.len() <= VARINT_MAX
    &&& response_bytes(status, fields, body).len() <= cap
}

/// The response as an owned buffer, unless it does not fit `cap` bytes whole.
pub fn response_vec(
    status: &[u8],
    fields: &[(&[u8], &[u8])],
    body: &[u8],
    cap: usize,
) -> (r: Option<Vec<u8>>)
    ensures
        match r {
            Some(v) => response_fits(status@, lines_of(fields@), body@, cap as int) && v@
                == response_bytes(status@, lines_of(fields@), body@) && 0 < v@.len() <= cap,
            None => !response_fits(status@, lines_of(fields@), body@, cap as int),
        },
{
    if !is_encodable(status, fields) {
        return None;
    }
    let block: Vec<u8> = section_vec(status, fields);
    if block.len() > H3_BLOCK_MAX || body.len() as u64 > VARINT_MAX {
        return None;
    }
    let mut out: Vec<u8> = frame_header_vec(H3_FRAME_HEADERS, block.len() as u64);
    extend(&mut out, block.as_slice());
    if body.len() > 0 {
        let h: Vec<u8> = frame_header_vec(H3_FRAME_DATA, body.len() as u64);
        let ghost before = out@;
        extend(&mut out, h.as_slice());
        extend(&mut out, body);
        assert(out@ =~= before + frame_bytes(H3_FRAME_DATA, body@));
    } else {
        assert(out@ =~= out@ + Seq::<u8>::empty());
    }
    assert(out@ =~= response_bytes(status@, lines_of(fields@), body@));
    if out.len() > cap {
        return None;
    }
    Some(out)
}

/// Frame a whole response at the front of `out`.
///
/// Returns the bytes written, or 0 (writing nothing) when it does not fit whole.
pub fn build_response(
    status: &[u8],
    fields: &[(&[u8], &[u8])],
    body: &[u8],
    out: &mut [u8],
) -> (n: usize)
    ensures
        if response_fits(status@, lines_of(fields@), body@, old(out)@.len() as int) {
            &&& n == response_bytes(status@, lines_of(fields@), body@).len()
            &&& n > 0
            &&& final(out)@ == splice(
                old(out)@,
                0,
                response_bytes(status@, lines_of(fields@), body@),
            )
        } else {
            n == 0 && final(out)@ == old(out)@
        },
{
    match response_vec(status, fields, body, out.len()) {
        Some(v) => {
            copy_into(out, 0, v.as_slice());
            v.len()
        },
        None => 0,
    }
}

/// A field section reads back: behind a prefix that refers to no dynamic table stand
/// `:status` and the fields, in their order and nothing else.
pub proof fn law_response_section_reads_back(status: Seq<u8>, fields: Seq<FieldLine>)
    requires
        encodable(status, fields),
    ensures
        section_bytes(status, fields).take(2) == seq![0u8, 0u8],
        lines_at(section_bytes(status, fields).skip(2)) == Some(response_lines(status, fields)),
{
    let s = section_bytes(status, fields);
    let all = response_lines(status, fields);
    assert(s.take(2) =~= seq![0u8, 0u8]);
    assert(s.skip(2) =~= lines_bytes(all));
    reveal_strlit(":status");
    crate::bytes::lemma_text(":status");
    lemma_lines_read_back(all, Seq::empty());
    assert(lines_bytes(all) + Seq::<u8>::empty() =~= lines_bytes(all));
    assert(all + Seq::<FieldLine>::empty() =~= all);
}

/// A peer reading a response as we read requests finds its fields and its body.
pub proof fn law_response_reads_back(status: Seq<u8>, fields: Seq<FieldLine>, body: Seq<u8>)
    requires
        encodable(status, fields),
        section_bytes(status, fields).len() <= VARINT_MAX,
        body.len() <= VARINT_MAX,
    ensures
        ({
            let r = response_bytes(status, fields, body);
            let h = frame_at(r);
            &&& h matches Some(f) && f.frame_type == H3_FRAME_HEADERS && lines_at(
                payload_of(r, f).skip(2),
            ) == Some(response_lines(status, fields)) && (if body.len() == 0 {
                f.end == r.len()
            } else {
                frame_at(r.skip(f.end)) matches Some(g) && g.frame_type == H3_FRAME_DATA
                    && payload_of(r.skip(f.end), g) == body && f.end + g.end == r.len()
            })
        }),
{
    let s = section_bytes(status, fields);
    let tail = if body.len() == 0 {
        Seq::<u8>::empty()
    } else {
        frame_bytes(H3_FRAME_DATA, body)
    };
    let r = response_bytes(status, fields, body);
    law_h3_frame_reads_back(H3_FRAME_HEADERS, s, tail);
    let f = frame_at(r)->0;
    law_response_section_reads_back(status, fields);
    assert(r.skip(f.end) =~= tail);
    if body.len() > 0 {
        law_h3_frame_reads_back(H3_FRAME_DATA, body, Seq::empty());
        assert(tail + Seq::<u8>::empty() =~= tail);
    }
}

proof fn lemma_lines_read_back(lines: Seq<FieldLine>, rest: Seq<u8>)
    requires
        forall|i: int|
            0 <= i < lines.len() ==> (#[trigger] lines[i]).name.len() <= i64::MAX
                && lines[i].value.len() <= i64::MAX,
        lines_at(rest) is Some,
    ensures
        lines_at(lines_bytes(lines) + rest) == Some(lines + lines_at(rest)->0),
    decreases lines.len(),
{
    if lines.len() == 0 {
        assert(lines_bytes(lines) + rest =~= rest);
        assert(lines + lines_at(rest)->0 =~= lines_at(rest)->0);
    } else {
        let l = lines.last();
        let fb = field_bytes(l.name, l.value);
        law_field_reads_back(l.name, l.value, rest);
        assert((fb + rest).skip(fb.len() as int) =~= rest);
        assert(lines_at(fb + rest) == Some(seq![l] + lines_at(rest)->0));
        assert forall|i: int| 0 <= i < lines.drop_last().len() implies (
        #[trigger] lines.drop_last()[i]).name.len() <= i64::MAX
            && lines.drop_last()[i].value.len() <= i64::MAX by {
            assert(lines.drop_last()[i] == lines[i]);
        }
        lemma_lines_read_back(lines.drop_last(), fb + rest);
        assert(lines_bytes(lines) + rest =~= lines_bytes(lines.drop_last()) + (fb + rest));
        assert(lines.drop_last() + (seq![l] + lines_at(rest)->0) =~= lines + lines_at(rest)->0);
    }
}

} // verus!
