//! HTTP/2 frames: their header, and the frames this server writes.

use crate::bytes::extend;
use vstd::prelude::*;
use vstd::slice::slice_subrange;

verus! {

/// Bytes of a frame header.
pub const FRAME_HEADER_LEN: usize = 9;

pub const FRAME_DATA: u8 = 0;
pub const FRAME_HEADERS: u8 = 1;
pub const FRAME_PRIORITY: u8 = 2;
pub const FRAME_RST_STREAM: u8 = 3;
pub const FRAME_SETTINGS: u8 = 4;
pub const FRAME_PUSH_PROMISE: u8 = 5;
pub const FRAME_PING: u8 = 6;
pub const FRAME_GOAWAY: u8 = 7;
pub const FRAME_WINDOW_UPDATE: u8 = 8;
pub const FRAME_CONTINUATION: u8 = 9;

pub const FLAG_END_STREAM: u8 = 0x01;
pub const FLAG_ACK: u8 = 0x01;
pub const FLAG_END_HEADERS: u8 = 0x04;
pub const FLAG_PADDED: u8 = 0x08;
pub const FLAG_PRIORITY: u8 = 0x20;

pub const SETTINGS_HEADER_TABLE_SIZE: u16 = 1;
pub const SETTINGS_ENABLE_PUSH: u16 = 2;
pub const SETTINGS_MAX_CONCURRENT_STREAMS: u16 = 3;
pub const SETTINGS_INITIAL_WINDOW_SIZE: u16 = 4;
pub const SETTINGS_ENABLE_CONNECT_PROTOCOL: u16 = 8;

pub const ERR_NO_ERROR: u32 = 0;
pub const ERR_PROTOCOL_ERROR: u32 = 1;
pub const ERR_INTERNAL_ERROR: u32 = 2;
pub const ERR_FLOW_CONTROL_ERROR: u32 = 3;
pub const ERR_STREAM_CLOSED: u32 = 5;
pub const ERR_FRAME_SIZE_ERROR: u32 = 6;
pub const ERR_REFUSED_STREAM: u32 = 7;
pub const ERR_COMPRESSION_ERROR: u32 = 9;
pub const ERR_ENHANCE_YOUR_CALM: u32 = 11;

/// Whether a flag, given by its bit, is set.
pub open spec fn flag_set(flags: u8, bit: u8) -> bool {
    flags / bit % 2 == 1
}

/// A frame header.
#[derive(Clone, Copy, PartialEq, Eq, Structural, Debug)]
pub struct FrameHead {
    pub length: u32,
    pub kind: u8,
    pub flags: u8,
    pub stream_id: u32,
}

/// The number of four bytes, most significant first.
pub open spec fn be32_at(s: Seq<u8>, at: int) -> u32 {
    (0x100_0000 * s[at] + 0x1_0000 * s[at + 1] + 0x100 * s[at + 2] + s[at + 3]) as u32
}

/// The number of two bytes, most significant first.
pub open spec fn be16_at(s: Seq<u8>, at: int) -> u16 {
    (0x100 * s[at] + s[at + 1]) as u16
}

pub open spec fn be32(v: u32) -> Seq<u8> {
    seq![
        (v / 0x100_0000) as u8,
        (v / 0x1_0000 % 256) as u8,
        (v / 0x100 % 256) as u8,
        (v % 256) as u8,
    ]
}

pub fn get_be32(s: &[u8], at: usize) -> (r: u32)
    requires
        at + 4 <= s@.len(),
    ensures
        r == be32_at(s@, at as int),
{
    0x100_0000 * (s[at] as u32) + 0x1_0000 * (s[at + 1] as u32) + 0x100 * (s[at + 2] as u32) + s[at
        + 3] as u32
}

pub fn get_be16(s: &[u8], at: usize) -> (r: u16)
    requires
        at + 2 <= s@.len(),
    ensures
        r == be16_at(s@, at as int),
{
    0x100 * (s[at] as u16) + s[at + 1] as u16
}

/// The frame header at the front of `s`. The reserved bit of the stream number is
/// ignored.
pub open spec fn frame_head_at(s: Seq<u8>) -> Option<FrameHead> {
    if s.len() < FRAME_HEADER_LEN {
        None
    } else {
        Some(
            FrameHead {
                length: (0x1_0000 * s[0] + 0x100 * s[1] + s[2]) as u32,
                kind: s[3],
                flags: s[4],
                stream_id: be32_at(s, 5) % 0x8000_0000,
            },
        )
    }
}

/// Read the frame header at the front of `s`.
pub fn parse_header(s: &[u8]) -> (r: Option<FrameHead>)
    ensures
        r == frame_head_at(s@),
{
    if s.len() < FRAME_HEADER_LEN {
        return None;
    }
    Some(
        FrameHead {
            length: 0x1_0000 * (s[0] as u32) + 0x100 * (s[1] as u32) + s[2] as u32,
            kind: s[3],
            flags: s[4],
            stream_id: get_be32(s, 5) % 0x8000_0000,
        },
    )
}

/// A frame.
pub open spec fn h2_frame(kind: u8, flags: u8, stream_id: u32, payload: Seq<u8>) -> Seq<u8> {
    seq![
        (payload.len() / 0x1_0000 % 256) as u8,
        (payload.len() / 0x100 % 256) as u8,
        (payload.len() % 256) as u8,
        kind,
        flags,
    ] + be32(stream_id) + payload
}

pub fn h2_frame_vec(kind: u8, flags: u8, stream_id: u32, payload: &[u8]) -> (r: Vec<u8>)
    ensures
        r@ == h2_frame(kind, flags, stream_id, payload@),
{
    let n: usize = payload.len();
    let mut v: Vec<u8> = Vec::new();
    v.push((n / 0x1_0000 % 256) as u8);
    v.push((n / 0x100 % 256) as u8);
    v.push((n % 256) as u8);
    v.push(kind);
    v.push(flags);
    put_be32(&mut v, stream_id);
    extend(&mut v, payload);
    assert(v@ =~= h2_frame(kind, flags, stream_id, payload@));
    v
}

pub fn put_be32(v: &mut Vec<u8>, x: u32)
    ensures
        final(v)@ == old(v)@ + be32(x),
{
    v.push((x / 0x100_0000) as u8);
    v.push((x / 0x1_0000 % 256) as u8);
    v.push((x / 0x100 % 256) as u8);
    v.push((x % 256) as u8);
    assert(v@ =~= old(v)@ + be32(x));
}

/// A written frame reads back: its header says what it is, and its payload is what was
/// written, whatever follows it.
pub proof fn law_h2_frame_reads_back(kind: u8, flags: u8, stream_id: u32, payload: Seq<u8>, rest: Seq<u8>)
    requires
        payload.len() < 0x100_0000,
        stream_id < 0x8000_0000,
    ensures
        ({
            let f = h2_frame(kind, flags, stream_id, payload) + rest;
            &&& frame_head_at(f) == Some(
                FrameHead { length: payload.len() as u32, kind, flags, stream_id },
            )
            &&& f.subrange(9, 9 + payload.len() as int) == payload
        }),
{
    let f = h2_frame(kind, flags, stream_id, payload) + rest;
    let b = be32(stream_id);
    assert(f[5] == b[0] && f[6] == b[1] && f[7] == b[2] && f[8] == b[3]);
    assert(f.subrange(9, 9 + payload.len() as int) =~= payload);
    let n = payload.len() as int;
    assert(0x1_0000 * (n / 0x1_0000 % 256) + 0x100 * (n / 0x100 % 256) + n % 256 == n)
        by (nonlinear_arith)
        requires
            0 <= n < 0x100_0000,
    ;
    assert(0x100_0000 * (stream_id / 0x100_0000) + 0x1_0000 * (stream_id / 0x1_0000 % 256) + 0x100 * (
    stream_id / 0x100 % 256) + stream_id % 256 == stream_id) by (nonlinear_arith);
}

// ── The frames this server writes ───────────────────────────────────────

/// Settings as a payload.
pub open spec fn settings_payload(pairs: Seq<(u16, u32)>) -> Seq<u8>
    decreases pairs.len(),
{
    if pairs.len() == 0 {
        Seq::empty()
    } else {
        settings_payload(pairs.drop_last()) + seq![
            (pairs.last().0 / 256) as u8,
            (pairs.last().0 % 256) as u8,
        ] + be32(pairs.last().1)
    }
}

pub fn write_settings(pairs: &[(u16, u32)]) -> (r: Vec<u8>)
    ensures
        r@ == h2_frame(FRAME_SETTINGS, 0, 0, settings_payload(pairs@)),
{
    let mut p: Vec<u8> = Vec::new();
    let mut i: usize = 0;
    assert(pairs@.take(0) =~= Seq::<(u16, u32)>::empty());
    while i < pairs.len()
        invariant
            i <= pairs@.len(),
            p@ == settings_payload(pairs@.take(i as int)),
        decreases pairs@.len() - i,
    {
        let (id, value) = pairs[i];
        let ghost before = p@;
        p.push((id / 256) as u8);
        p.push((id % 256) as u8);
        put_be32(&mut p, value);
        i += 1;
        assert(pairs@.take(i as int).drop_last() =~= pairs@.take(i - 1));
        assert(p@ =~= before + seq![(id / 256) as u8, (id % 256) as u8] + be32(value));
    }
    assert(pairs@.take(i as int) =~= pairs@);
    h2_frame_vec(FRAME_SETTINGS, 0, 0, p.as_slice())
}

/// Acknowledge the peer's settings.
pub open spec fn settings_ack() -> Seq<u8> {
    h2_frame(FRAME_SETTINGS, FLAG_ACK, 0, Seq::empty())
}

pub fn write_settings_ack() -> (r: Vec<u8>)
    ensures
        r@ == settings_ack(),
{
    let none: Vec<u8> = Vec::new();
    assert(none@ =~= Seq::<u8>::empty());
    h2_frame_vec(FRAME_SETTINGS, FLAG_ACK, 0, none.as_slice())
}

/// Answer a ping with its own bytes.
pub fn write_ping_ack(payload: &[u8]) -> (r: Vec<u8>)
    ensures
        r@ == h2_frame(FRAME_PING, FLAG_ACK, 0, payload@),
{
    h2_frame_vec(FRAME_PING, FLAG_ACK, 0, payload)
}

/// End a stream with an error.
pub open spec fn rst_stream(stream_id: u32, code: u32) -> Seq<u8> {
    h2_frame(FRAME_RST_STREAM, 0, stream_id, be32(code))
}

pub fn write_rst_stream(stream_id: u32, code: u32) -> (r: Vec<u8>)
    ensures
        r@ == rst_stream(stream_id, code),
{
    let mut p: Vec<u8> = Vec::new();
    put_be32(&mut p, code);
    assert(p@ =~= be32(code));
    h2_frame_vec(FRAME_RST_STREAM, 0, stream_id, p.as_slice())
}

/// End the connection with an error.
pub open spec fn goaway(last_stream_id: u32, code: u32) -> Seq<u8> {
    h2_frame(FRAME_GOAWAY, 0, 0, be32(last_stream_id) + be32(code))
}

pub fn write_goaway(last_stream_id: u32, code: u32) -> (r: Vec<u8>)
    ensures
        r@ == goaway(last_stream_id, code),
{
    let mut p: Vec<u8> = Vec::new();
    put_be32(&mut p, last_stream_id);
    put_be32(&mut p, code);
    assert(p@ =~= be32(last_stream_id) + be32(code));
    h2_frame_vec(FRAME_GOAWAY, 0, 0, p.as_slice())
}

/// Let the peer send `delta` more bytes.
pub open spec fn window_update(stream_id: u32, delta: u32) -> Seq<u8> {
    h2_frame(FRAME_WINDOW_UPDATE, 0, stream_id, be32(delta))
}

pub fn write_window_update(stream_id: u32, delta: u32) -> (r: Vec<u8>)
    ensures
        r@ == window_update(stream_id, delta),
{
    let mut p: Vec<u8> = Vec::new();
    put_be32(&mut p, delta);
    assert(p@ =~= be32(delta));
    h2_frame_vec(FRAME_WINDOW_UPDATE, 0, stream_id, p.as_slice())
}

/// Data on a stream, which it may end.
pub open spec fn data_frame(stream_id: u32, data: Seq<u8>, end: bool) -> Seq<u8> {
    h2_frame(
        FRAME_DATA,
        if end {
            FLAG_END_STREAM
        } else {
            0
        },
        stream_id,
        data,
    )
}

pub fn write_data(stream_id: u32, data: &[u8], end: bool) -> (r: Vec<u8>)
    ensures
        r@ == data_frame(stream_id, data@, end),
{
    h2_frame_vec(
        FRAME_DATA,
        if end {
            FLAG_END_STREAM
        } else {
            0
        },
        stream_id,
        data,
    )
}

/// A whole header block on a stream, which it may end.
pub open spec fn headers_frame(stream_id: u32, block: Seq<u8>, end: bool) -> Seq<u8> {
    h2_frame(
        FRAME_HEADERS,
        if end {
            5u8
        } else {
            FLAG_END_HEADERS
        },
        stream_id,
        block,
    )
}

pub fn write_headers(stream_id: u32, block: &[u8], end: bool) -> (r: Vec<u8>)
    ensures
        r@ == headers_frame(stream_id, block@, end),
{
    h2_frame_vec(
        FRAME_HEADERS,
        if end {
            5
        } else {
            FLAG_END_HEADERS
        },
        stream_id,
        block,
    )
}

// ── Padding ─────────────────────────────────────────────────────────────

/// The data of a DATA payload, without its padding. `None` when the padding is longer
/// than the payload.
pub open spec fn data_of(payload: Seq<u8>, flags: u8) -> Option<Seq<u8>> {
    if !flag_set(flags, FLAG_PADDED) {
        Some(payload)
    } else if payload.len() == 0 || 1 + payload[0] > payload.len() {
        None
    } else {
        Some(payload.subrange(1, payload.len() - payload[0]))
    }
}

pub fn data_payload<'a>(payload: &'a [u8], flags: u8) -> (r: Option<&'a [u8]>)
    ensures
        match r {
            Some(d) => data_of(payload@, flags) == Some(d@),
            None => data_of(payload@, flags) is None,
        },
{
    if flags / FLAG_PADDED % 2 != 1 {
        return Some(payload);
    }
    let n: usize = payload.len();
    if n == 0 || 1 + payload[0] as usize > n {
        return None;
    }
    Some(slice_subrange(payload, 1, n - payload[0] as usize))
}

/// The header block of a HEADERS payload, without its padding and priority. `None` when
/// they are longer than the payload.
pub open spec fn block_of(payload: Seq<u8>, flags: u8) -> Option<Seq<u8>> {
    match data_of(payload, flags) {
        None => None,
        Some(d) => if !flag_set(flags, FLAG_PRIORITY) {
            Some(d)
        } else if d.len() < 5 {
            None
        } else {
            Some(d.skip(5))
        },
    }
}

pub fn headers_block<'a>(payload: &'a [u8], flags: u8) -> (r: Option<&'a [u8]>)
    ensures
        match r {
            Some(b) => block_of(payload@, flags) == Some(b@),
            None => block_of(payload@, flags) is None,
        },
{
    match data_payload(payload, flags) {
        None => None,
        Some(d) => {
            if flags / FLAG_PRIORITY % 2 != 1 {
                return Some(d);
            }
            if d.len() < 5 {
                return None;
            }
            let b = slice_subrange(d, 5, d.len());
            assert(b@ =~= d@.skip(5));
            Some(b)
        },
    }
}

/// The header of a frame goes by its bytes: three of length, the type, the flags, and four
/// of stream, the most significant first and the first bit of the stream left out.
pub proof fn law_h2_header_goes_by_its_bytes(s: Seq<u8>)
    ensures
        frame_head_at(s) is None <==> s.len() < 9,
        frame_head_at(s) matches Some(h) ==> {
            &&& h.length == 256 * (256 * s[0] + s[1]) + s[2]
            &&& h.kind == s[3]
            &&& h.flags == s[4]
            &&& h.stream_id == 256 * (256 * (256 * (s[5] % 128) + s[6]) + s[7]) + s[8]
        },
{
    if s.len() >= 9 {
        let b = s[5] as int;
        assert(b == 128 * (b / 128) + b % 128);
        assert(b / 128 == 0 || b / 128 == 1);
    }
}

} // verus!
