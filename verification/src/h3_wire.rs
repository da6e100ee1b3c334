//! HTTP/3 frames on the wire (RFC 9114 §7).

use crate::bytes::{copy_into, extend, splice};
use crate::varint::{
    lemma_varint_bounds, law_varint_reads_back, varint_at, varint_bytes, varint_decode, varint_len, varint_vec,
    VARINT_MAX,
};
use vstd::prelude::*;

verus! {

pub const H3_FRAME_DATA: u64 = 0x00;
pub const H3_FRAME_HEADERS: u64 = 0x01;
pub const H3_FRAME_CANCEL_PUSH: u64 = 0x03;
pub const H3_FRAME_SETTINGS: u64 = 0x04;
pub const H3_FRAME_GOAWAY: u64 = 0x07;
pub const H3_FRAME_MAX_PUSH_ID: u64 = 0x0d;
pub const H3_FRAME_PRIORITY_UPDATE_REQUEST: u64 = 0xf0700;
pub const H3_FRAME_PRIORITY_UPDATE_PUSH: u64 = 0xf0701;

pub const H3_SETTING_QPACK_MAX_TABLE_CAPACITY: u64 = 0x01;
pub const H3_SETTING_MAX_FIELD_SECTION_SIZE: u64 = 0x06;
pub const H3_SETTING_QPACK_BLOCKED_STREAMS: u64 = 0x07;
pub const H3_SETTING_ENABLE_CONNECT_PROTOCOL: u64 = 0x08;

pub const H3_UNI_STREAM_CONTROL: u64 = 0x00;
pub const H3_UNI_STREAM_PUSH: u64 = 0x01;
pub const H3_UNI_STREAM_QPACK_ENCODER: u64 = 0x02;
pub const H3_UNI_STREAM_QPACK_DECODER: u64 = 0x03;

/// One whole frame, borrowed from the buffer it was parsed out of.
pub struct H3Frame<'a> {
    pub frame_type: u64,
    pub payload: &'a [u8],
}

/// Where the frame at the front of a buffer lies.
pub struct FrameSpan {
    pub frame_type: u64,
    /// Offset of the payload.
    pub start: int,
    /// Offset just past the payload.
    pub end: int,
}

/// The frame at the front of `buf`. `None` while any of it is missing.
pub open spec fn frame_at(buf: Seq<u8>) -> Option<FrameSpan> {
    match varint_at(buf) {
        None => None,
        Some((t, n)) => match varint_at(buf.skip(n as int)) {
            None => None,
            Some((len, m)) => if n + m + len <= buf.len() {
                Some(FrameSpan { frame_type: t, start: (n + m) as int, end: n + m + len })
            } else {
                None
            },
        },
    }
}

/// The payload bytes of a frame within its buffer.
pub open spec fn payload_of(buf: Seq<u8>, f: FrameSpan) -> Seq<u8> {
    buf.subrange(f.start, f.end)
}

/// A frame lies inside its buffer and takes at least its two header varints.
pub proof fn lemma_frame_bounds(buf: Seq<u8>)
    ensures
        frame_at(buf) matches Some(f) ==> 2 <= f.start <= f.end <= buf.len(),
{
    lemma_varint_bounds(buf);
    if let Some((_, n)) = varint_at(buf) {
        lemma_varint_bounds(buf.skip(n as int));
    }
}

/// Parse the frame at the front of `buf`, with the number of bytes it takes.
pub fn parse_h3_frame(buf: &[u8]) -> (r: Option<(H3Frame<'_>, usize)>)
    ensures
        match r {
            Some((f, n)) => match frame_at(buf@) {
                Some(s) => s.frame_type == f.frame_type && f.payload@ == payload_of(buf@, s) && n
                    == s.end && f.payload@.len() == s.end - s.start && 2 <= s.start <= s.end
                    <= buf.len(),
                None => false,
            },
            None => frame_at(buf@) is None,
        },
{
    let (t, n) = match varint_decode(buf) {
        Some(x) => x,
        None => return None,
    };
    let rest = vstd::slice::slice_subrange(buf, n, buf.len());
    assert(rest@ =~= buf@.skip(n as int));
    let (len, m) = match varint_decode(rest) {
        Some(x) => x,
        None => return None,
    };
    let start: usize = n + m;
    if len > (buf.len() - start) as u64 {
        return None;
    }
    let end: usize = start + len as usize;
    let payload = vstd::slice::slice_subrange(buf, start, end);
    Some((H3Frame { frame_type: t, payload }, end))
}

/// A frame header: type, then payload length.
pub open spec fn frame_header(frame_type: u64, len: nat) -> Seq<u8> {
    varint_bytes(frame_type) + varint_bytes(len as u64)
}

/// A whole frame.
pub open spec fn frame_bytes(frame_type: u64, payload: Seq<u8>) -> Seq<u8> {
    frame_header(frame_type, payload.len()) + payload
}

/// Parsing a frame that was framed here gives its type and payload back,
/// whatever follows it.
pub proof fn law_h3_frame_reads_back(frame_type: u64, payload: Seq<u8>, rest: Seq<u8>)
    requires
        frame_type <= VARINT_MAX,
        payload.len() <= VARINT_MAX,
    ensures
        ({
            let buf = frame_bytes(frame_type, payload) + rest;
            let n = varint_len(frame_type) + varint_len(payload.len() as u64);
            &&& frame_at(buf) == Some(
                FrameSpan { frame_type, start: n as int, end: (n + payload.len()) as int },
            )
            &&& payload_of(buf, frame_at(buf)->0) == payload
            &&& n + payload.len() == frame_bytes(frame_type, payload).len()
        }),
{
    let len = payload.len() as u64;
    let buf = frame_bytes(frame_type, payload) + rest;
    let after = varint_bytes(len) + (payload + rest);
    assert(buf =~= varint_bytes(frame_type) + after);
    law_varint_reads_back(frame_type, after);
    law_varint_reads_back(len, payload + rest);
    assert(buf.skip(varint_len(frame_type) as int) =~= after);
    let n = (varint_len(frame_type) + varint_len(len)) as int;
    assert(buf.subrange(n, n + payload.len()) =~= payload);
}

/// Write a frame header at the front of `out`.
///
/// Returns the bytes written, or 0 (writing nothing) when a number is beyond
/// what a varint carries or `out` is too small.
pub fn build_h3_frame_header(frame_type: u64, len: usize, out: &mut [u8]) -> (n: usize)
    ensures
        if frame_type <= VARINT_MAX && len <= VARINT_MAX && frame_header(
            frame_type,
            len as nat,
        ).len() <= old(out)@.len() {
            &&& n == frame_header(frame_type, len as nat).len()
            &&& final(out)@ == splice(old(out)@, 0, frame_header(frame_type, len as nat))
        } else {
            &&& n == 0
            &&& final(out)@ == old(out)@
        },
{
    if frame_type > VARINT_MAX || len as u64 > VARINT_MAX {
        return 0;
    }
    let h: Vec<u8> = frame_header_vec(frame_type, len as u64);
    if h.len() > out.len() {
        return 0;
    }
    copy_into(out, 0, h.as_slice());
    h.len()
}

/// A frame header as an owned buffer.
pub fn frame_header_vec(frame_type: u64, len: u64) -> (r: Vec<u8>)
    requires
        frame_type <= VARINT_MAX,
        len <= VARINT_MAX,
    ensures
        r@ == frame_header(frame_type, len as nat),
        r@.len() == varint_len(frame_type) + varint_len(len),
{
    let mut h: Vec<u8> = varint_vec(frame_type);
    let l: Vec<u8> = varint_vec(len);
    extend(&mut h, l.as_slice());
    h
}

/// A SETTINGS payload: identifier and value varints, pair by pair.
pub open spec fn settings_bytes(pairs: Seq<(u64, u64)>) -> Seq<u8>
    decreases pairs.len(),
{
    if pairs.len() == 0 {
        Seq::empty()
    } else {
        varint_bytes(pairs[0].0) + varint_bytes(pairs[0].1) + settings_bytes(pairs.skip(1))
    }
}

/// The pairs of a SETTINGS payload. `None` unless it is a whole number of them.
pub open spec fn settings_pairs(payload: Seq<u8>) -> Option<Seq<(u64, u64)>>
    decreases payload.len(),
{
    if payload.len() == 0 {
        Some(Seq::empty())
    } else {
        match varint_at(payload) {
            None => None,
            Some((id, n)) => match varint_at(payload.skip(n as int)) {
                None => None,
                Some((val, m)) => {
                    proof {
                        lemma_varint_bounds(payload);
                        lemma_varint_bounds(payload.skip(n as int));
                    }
                    match settings_pairs(payload.skip((n + m) as int)) {
                        None => None,
                        Some(rest) => Some(seq![(id, val)] + rest),
                    }
                },
            },
        }
    }
}

/// A SETTINGS payload built from a list of pairs parses back to that list.
pub proof fn law_settings_read_back(pairs: Seq<(u64, u64)>)
    requires
        forall|i: int|
            0 <= i < pairs.len() ==> (#[trigger] pairs[i]).0 <= VARINT_MAX && pairs[i].1
                <= VARINT_MAX,
    ensures
        settings_pairs(settings_bytes(pairs)) == Some(pairs),
    decreases pairs.len(),
{
    if pairs.len() == 0 {
        assert(pairs =~= Seq::empty());
    } else {
        let (id, val) = pairs[0];
        let tail = settings_bytes(pairs.skip(1));
        let p = settings_bytes(pairs);
        assert(p =~= varint_bytes(id) + (varint_bytes(val) + tail));
        law_varint_reads_back(id, varint_bytes(val) + tail);
        law_varint_reads_back(val, tail);
        let n = varint_len(id) as int;
        let m = varint_len(val) as int;
        assert(p.skip(n) =~= varint_bytes(val) + tail);
        assert(p.skip(n + m) =~= tail);
        law_settings_read_back(pairs.skip(1));
        assert(seq![(id, val)] + pairs.skip(1) =~= pairs);
    }
}

/// Write a SETTINGS payload at the front of `out`.
///
/// Returns the bytes written, or 0 (writing nothing) when a number is beyond
/// what a varint carries or `out` is too small. No pairs is no payload: 0.
pub fn build_h3_settings_payload(pairs: &[(u64, u64)], out: &mut [u8]) -> (n: usize)
    ensures
        if (forall|i: int|
            0 <= i < pairs.len() ==> (#[trigger] pairs@[i]).0 <= VARINT_MAX && pairs@[i].1
                <= VARINT_MAX) && settings_bytes(pairs@).len() <= old(out)@.len() {
            &&& n == settings_bytes(pairs@).len()
            &&& final(out)@ == splice(old(out)@, 0, settings_bytes(pairs@))
        } else {
            &&& n == 0
            &&& final(out)@ == old(out)@
        },
{
    let mut body: Vec<u8> = Vec::new();
    let mut i: usize = pairs.len();
    assert(pairs@.skip(pairs.len() as int) =~= Seq::empty());
    while i > 0
        invariant
            i <= pairs.len(),
            body@ == settings_bytes(pairs@.skip(i as int)),
            forall|k: int|
                i <= k < pairs.len() ==> (#[trigger] pairs@[k]).0 <= VARINT_MAX && pairs@[k].1
                    <= VARINT_MAX,
            out@ == old(out)@,
        decreases i,
    {
        i -= 1;
        let (id, val) = pairs[i];
        if id > VARINT_MAX || val > VARINT_MAX {
            return 0;
        }
        let mut head: Vec<u8> = varint_vec(id);
        extend(&mut head, varint_vec(val).as_slice());
        extend(&mut head, body.as_slice());
        assert(pairs@.skip(i as int).skip(1) =~= pairs@.skip(i + 1));
        body = head;
    }
    assert(pairs@.skip(0) =~= pairs@);
    if body.len() > out.len() {
        return 0;
    }
    copy_into(out, 0, body.as_slice());
    body.len()
}

} // verus!
