//! What HTTP/2 frames mean: laws stated by the bytes and numbers that go over the wire.

use crate::bytes::text;
use crate::h2::{settings_applied, stream_of, H2Model, StreamModel, MAX_STREAMS};
use crate::h2_frames::{
    connection_failed, data_taken, frame_effect, frame_status, ping_taken, settings_taken,
    window_update_taken,
};
use crate::h2_request::{request_of, with_field, DoneModel};
use crate::h2_send::{our_h2_settings, room_of};
use crate::h2_wire::{
    be16_at, be32, be32_at, block_of, data_of, goaway, rst_stream, settings_ack, settings_payload, window_update,
    FrameHead,
};
use crate::method::method_of;
use crate::qpack::FieldLine;
use crate::reqbody::body_limit;
use crate::routes::{MAX_PATH, Route};
use vstd::prelude::*;

verus! {

/// A number of four bytes, the most significant first.
pub open spec fn number4(a: u8, b: u8, c: u8, d: u8) -> int {
    256 * (256 * (256 * a + b) + c) + d
}

// ── Padding and priority ────────────────────────────────────────────────

/// The data of a padded frame is what stands between the length of the padding and the
/// padding; padding that leaves no room for itself is an error. A frame that is not padded
/// is all data.
pub proof fn law_padding_is_taken_off(flags: u8, pad: u8, data: Seq<u8>, padding: Seq<u8>)
    ensures
        (flags / 8) % 2 == 1 && padding.len() == pad ==> data_of(
            seq![pad] + data + padding,
            flags,
        ) == Some(data),
        (flags / 8) % 2 == 1 && data.len() < pad ==> data_of(seq![pad] + data, flags) is None,
        (flags / 8) % 2 == 0 ==> data_of(data, flags) == Some(data),
{
    let s = seq![pad] + data + padding;
    assert(s[0] == pad);
    if padding.len() == pad {
        assert(s.subrange(1, s.len() - pad) =~= data);
    }
    assert((seq![pad] + data)[0] == pad);
}

/// Five bytes of priority stand before a header block where the flags say so.
pub proof fn law_priority_is_taken_off(flags: u8, priority: Seq<u8>, block: Seq<u8>)
    requires
        priority.len() == 5,
        (flags / 8) % 2 == 0,
    ensures
        (flags / 32) % 2 == 1 ==> block_of(priority + block, flags) == Some(block),
        (flags / 32) % 2 == 0 ==> block_of(block, flags) == Some(block),
{
    assert((priority + block).skip(5) =~= block);
}

// ── Settings ────────────────────────────────────────────────────────────

proof fn lemma_settings_shift(m: H2Model, pre: Seq<u8>, s: Seq<u8>, p: int)
    requires
        0 <= p,
    ensures
        settings_applied(m, pre + s, pre.len() + p) == settings_applied(m, s, p),
    decreases s.len() - p,
{
    let t = pre + s;
    let at = pre.len() + p;
    if p + 6 <= s.len() {
        assert(t[at] == s[p]);
        assert(t[at + 1] == s[p + 1]);
        assert(t[at + 2] == s[p + 2]);
        assert(t[at + 3] == s[p + 3]);
        assert(t[at + 4] == s[p + 4]);
        assert(t[at + 5] == s[p + 5]);
        assert(be16_at(t, at) == be16_at(s, p));
        assert(be32_at(t, at + 2) == be32_at(s, p + 2));
        assert(at + 6 == pre.len() + (p + 6));
        if be16_at(s, p) == 4 {
            let v = be32_at(s, p + 2);
            if v <= 0x7fff_ffff {
                lemma_settings_shift(
                    crate::h2::peer_window_set(m, v as i32),
                    pre,
                    s,
                    p + 6,
                );
            }
        } else {
            lemma_settings_shift(m, pre, s, p + 6);
        }
    }
}

/// Of a peer's settings number 4 counts, the window of a stream: every open stream's window
/// moves by as much as it does, and new streams begin with it. One beyond 31 bits is a flow
/// control error. Other settings change nothing.
pub proof fn law_window_setting_moves_open_streams(
    m: H2Model,
    hi: u8,
    lo: u8,
    a: u8,
    b: u8,
    c: u8,
    d: u8,
    rest: Seq<u8>,
)
    requires
        forall|i: int|
            0 <= i < m.streams.len() ==> i32::MIN <= (#[trigger] m.streams[i]).send_window + number4(
                a,
                b,
                c,
                d,
            ) - m.peer_window <= i32::MAX,
    ensures
        ({
            let v = number4(a, b, c, d);
            let p = seq![hi, lo, a, b, c, d] + rest;
            &&& 256 * hi + lo != 4 ==> settings_applied(m, p, 0) == settings_applied(m, rest, 0)
            &&& 256 * hi + lo == 4 && v > 0x7fff_ffff ==> settings_applied(m, p, 0) == (
                m,
                Some(3u32),
            )
            &&& 256 * hi + lo == 4 && v <= 0x7fff_ffff ==> exists|n: H2Model|
                {
                    &&& settings_applied(m, p, 0) == #[trigger] settings_applied(n, rest, 0)
                    &&& n == (H2Model { peer_window: v as i32, streams: n.streams, ..m })
                    &&& n.streams.len() == m.streams.len()
                    &&& forall|i: int|
                        0 <= i < m.streams.len() ==> (#[trigger] n.streams[i]) == (StreamModel {
                            send_window: if m.streams[i].state is Idle {
                                m.streams[i].send_window
                            } else {
                                (m.streams[i].send_window + v - m.peer_window) as i32
                            },
                            ..m.streams[i]
                        })
                }
        }),
{
    let v = number4(a, b, c, d);
    let front = seq![hi, lo, a, b, c, d];
    let p = front + rest;
    assert(p[0] == hi && p[1] == lo && p[2] == a && p[3] == b && p[4] == c && p[5] == d);
    assert(be16_at(p, 0) == 256 * hi + lo);
    assert(be32_at(p, 2) == v);
    if 256 * hi + lo != 4 {
        lemma_settings_shift(m, front, rest, 0);
    } else if v <= 0x7fff_ffff {
        let n = crate::h2::peer_window_set(m, v as i32);
        lemma_settings_shift(n, front, rest, 0);
        assert(settings_applied(m, p, 0) == settings_applied(n, rest, 0));
        assert forall|i: int| 0 <= i < m.streams.len() implies (#[trigger] n.streams[i]) == (
        StreamModel {
            send_window: if m.streams[i].state is Idle {
                m.streams[i].send_window
            } else {
                (m.streams[i].send_window + v - m.peer_window) as i32
            },
            ..m.streams[i]
        }) by {}
    }
}

/// Settings are acknowledged with an empty frame of their kind, and what acknowledges ours
/// is not. Settings belong to the connection, and take six bytes each.
pub proof fn law_settings_are_acknowledged(m: H2Model, flags: u8, stream: u32, payload: Seq<u8>)
    requires
        payload.len() <= 0xff_ffff,
    ensures
        ({
            let h = FrameHead { length: payload.len() as u32, kind: 4, flags, stream_id: stream };
            let (n, done) = settings_taken(m, h, payload);
            &&& stream != 0 ==> done.error == Some(1u32) && n == m
            &&& stream == 0 && flags % 2 == 1 && payload.len() > 0 ==> done.error == Some(6u32)
                && n == m
            &&& stream == 0 && flags % 2 == 1 && payload.len() == 0 ==> done.error is None
                && done.out.len() == 0 && n.settings_acked
            &&& stream == 0 && flags % 2 == 0 && payload.len() % 6 != 0 ==> done.error == Some(6u32)
                && n == m
            &&& stream == 0 && flags % 2 == 0 && payload.len() == 0 ==> done.error is None && n == m
                && done.out == seq![0u8, 0, 0, 4, 1, 0, 0, 0, 0]
        }),
{
    assert(settings_ack() =~= seq![0u8, 0, 0, 4, 1, 0, 0, 0, 0]);
}

// ── Windows, pings, resets ──────────────────────────────────────────────

proof fn lemma_found(s: Seq<StreamModel>, id: u32, from: int)
    requires
        0 <= from,
    ensures
        stream_of(s, id, from) matches Some(i) ==> from <= i < s.len() && s[i].id == id && !(
        s[i].state is Idle),
    decreases s.len() - from,
{
    if from < s.len() {
        lemma_found(s, id, from + 1);
    }
}

/// A window update raises the window it names by as much as it says, the connection's or one
/// open stream's, and no other. The highest bit does not count; nothing is an error.
pub proof fn law_window_update_raises_its_window(m: H2Model, stream: u32, a: u8, b: u8, c: u8, d: u8)
    requires
        m.send_window + number4(a, b, c, d) <= i32::MAX,
        forall|i: int|
            0 <= i < m.streams.len() ==> (#[trigger] m.streams[i]).send_window + number4(
                a,
                b,
                c,
                d,
            ) <= i32::MAX,
        a < 128,
    ensures
        ({
            let v = number4(a, b, c, d);
            let h = FrameHead { length: 4, kind: 8, flags: 0, stream_id: stream };
            let (n, done) = window_update_taken(m, h, seq![a, b, c, d]);
            &&& v == 0 ==> done.error == Some(1u32) && n == m
            &&& v > 0 ==> done.error is None && done.out.len() == 0
            &&& v > 0 && stream == 0 ==> n.send_window == m.send_window + v && n.streams == m.streams
            &&& v > 0 && stream != 0 ==> n.send_window == m.send_window && n.streams.len()
                == m.streams.len()
            &&& v > 0 && stream != 0 ==> (stream_of(m.streams, stream, 0) matches Some(i) ==> {
                &&& n.streams[i].send_window == m.streams[i].send_window + v
                &&& m.streams[i].id == stream
                &&& forall|k: int|
                    0 <= k < m.streams.len() && k != i ==> #[trigger] n.streams[k] == m.streams[k]
            })
            &&& v > 0 && stream != 0 && stream_of(m.streams, stream, 0) is None ==> n == m
        }),
{
    let p = seq![a, b, c, d];
    assert(be32_at(p, 0) == number4(a, b, c, d));
    lemma_found(m.streams, stream, 0);
}

/// The reserved bit of a window update does not count.
pub proof fn law_reserved_bit_of_a_window_update(m: H2Model, h: FrameHead, a: u8, b: u8, c: u8, d: u8)
    requires
        a < 128,
    ensures
        window_update_taken(m, h, seq![(a + 128) as u8, b, c, d]) == window_update_taken(
            m,
            h,
            seq![a, b, c, d],
        ),
{
    let p = seq![a, b, c, d];
    let q = seq![(a + 128) as u8, b, c, d];
    assert(be32_at(p, 0) == number4(a, b, c, d));
    assert(be32_at(q, 0) == number4(a, b, c, d) + 0x8000_0000);
}

/// A ping is answered with the eight bytes that it brought; an answer is not answered.
pub proof fn law_ping_is_echoed(flags: u8, stream: u32, payload: Seq<u8>)
    requires
        payload.len() <= 0xff_ffff,
    ensures
        ({
            let h = FrameHead { length: payload.len() as u32, kind: 6, flags, stream_id: stream };
            let done = ping_taken(h, payload);
            &&& stream != 0 || payload.len() != 8 ==> done.error == Some(1u32)
            &&& stream == 0 && payload.len() == 8 && flags % 2 == 1 ==> done.error is None
                && done.out.len() == 0
            &&& stream == 0 && payload.len() == 8 && flags % 2 == 0 ==> done.error is None
                && done.out == seq![0u8, 0, 8, 6, 1, 0, 0, 0, 0] + payload
        }),
{
    if payload.len() == 8 {
        assert(crate::h2_wire::h2_frame(6, 1, 0, payload) =~= seq![0u8, 0, 8, 6, 1, 0, 0, 0, 0]
            + payload);
    }
}

/// What is sent to end a stream, to end the connection and to open a window, byte by byte.
pub proof fn law_short_frames_are_their_bytes(a: u8, b: u8, c: u8, d: u8, e: u8, f: u8, g: u8, h: u8)
    ensures
        ({
            let id = number4(a, b, c, d) as u32;
            let code = number4(e, f, g, h) as u32;
            &&& rst_stream(id, code) == seq![0u8, 0, 4, 3, 0, a, b, c, d, e, f, g, h]
            &&& goaway(id, code) == seq![0u8, 0, 8, 7, 0, 0, 0, 0, 0, a, b, c, d, e, f, g, h]
            &&& window_update(id, code) == seq![0u8, 0, 4, 8, 0, a, b, c, d, e, f, g, h]
        }),
{
    let id = number4(a, b, c, d) as u32;
    let code = number4(e, f, g, h) as u32;
    lemma_four_bytes(a, b, c, d);
    lemma_four_bytes(e, f, g, h);
    assert(be32(0) =~= seq![0u8, 0, 0, 0]);
    assert(rst_stream(id, code) =~= seq![0u8, 0, 4, 3, 0, a, b, c, d, e, f, g, h]);
    assert(goaway(id, code) =~= seq![0u8, 0, 8, 7, 0, 0, 0, 0, 0, a, b, c, d, e, f, g, h]);
    assert(window_update(id, code) =~= seq![0u8, 0, 4, 8, 0, a, b, c, d, e, f, g, h]);
}

proof fn lemma_four_bytes(a: u8, b: u8, c: u8, d: u8)
    ensures
        be32(number4(a, b, c, d) as u32) == seq![a, b, c, d],
{
    let v = number4(a, b, c, d) as u32;
    assert(v % 256 == d);
    assert(v / 256 == 256 * (256 * a + b) + c);
    assert(v / 0x100 % 256 == c);
    assert(v / 0x1_0000 == 256 * a + b);
    assert(v / 0x100_0000 == a);
    assert(be32(v) =~= seq![a, b, c, d]);
}

/// A connection that fails says with which error, and which stream was the last it took.
pub proof fn law_failed_connection_says_why(m: H2Model, done: DoneModel, code: u32)
    ensures
        ({
            let (n, after) = connection_failed(m, done, code);
            &&& n.sub is Closing
            &&& n.streams == m.streams
            &&& after.error == Some(code)
            &&& after.out == goaway(m.last_stream_id, code)
        }),
{
}

// ── Frames by their kind ────────────────────────────────────────────────

/// What becomes of the frames that need no more than a look at their kind: a server takes no
/// promise and no continuation, a peer that goes away is let go, and an unknown kind is let
/// be.
pub proof fn law_frame_goes_by_its_kind(m: H2Model, h: FrameHead, payload: Seq<u8>, routes: Seq<Route>, max_body: u32)
    ensures
        ({
            let (n, done) = frame_effect(m, h, payload, routes, max_body);
            &&& h.kind == 5 || h.kind == 9 ==> done.error == Some(1u32) && n == m
            &&& h.kind == 7 ==> done.error is None && n.sub is Closing && n.streams == m.streams
            &&& h.kind == 2 || h.kind > 9 ==> n == m && done.error is None && done.out.len() == 0
            &&& h.kind == 1 && (h.stream_id % 2 == 0 || h.stream_id <= m.last_stream_id || h.flags / 4
                % 2 == 0) ==> done.error == Some(1u32) && n == m
            &&& h.kind == 0 && h.stream_id == 0 ==> done.error == Some(1u32) && n == m
            &&& h.kind == 8 && h.length != 4 ==> done.error == Some(6u32) && n == m
            &&& h.kind == 0 && h.stream_id != 0 && stream_of(m.streams, h.stream_id, 0) is None
                ==> done.error is None && done.out == rst_stream(h.stream_id, 5)
        }),
{
}

/// A frame is taken once it is there whole; one that can never be is too big.
pub proof fn law_frame_is_taken_whole(a: u8, b: u8, c: u8, head: Seq<u8>, payload: Seq<u8>)
    requires
        head.len() == 6,
    ensures
        ({
            let n = 256 * (256 * a + b) + c;
            let s = seq![a, b, c] + head + payload;
            &&& frame_status(s) is TooBig <==> 9 + n > crate::conn::RECV_BUF_SIZE
            &&& frame_status(s) is Complete <==> 9 + n <= crate::conn::RECV_BUF_SIZE && payload.len()
                >= n
            &&& frame_status(head) is NeedMore
        }),
{
    let s = seq![a, b, c] + head + payload;
    crate::h2_wire::law_h2_header_goes_by_its_bytes(s);
    crate::h2_wire::law_h2_header_goes_by_its_bytes(head);
    assert(s[0] == a && s[1] == b && s[2] == c);
}

/// Data is appended to the body of its stream, and ends it where the flag says so. What is
/// more than a body may hold ends the stream with an error.
pub proof fn law_data_is_appended(m: H2Model, i: int, data: Seq<u8>, flags: u8, max_body: u32)
    requires
        stream_of(m.streams, m.streams[i].id, 0) == Some(i),
        0 <= i < m.streams.len(),
        m.streams[i].state is Open,
        flags / 8 % 2 == 0,
        0 < data.len() <= 0xff_ffff,
    ensures
        ({
            let h = FrameHead {
                length: data.len() as u32,
                kind: 0,
                flags,
                stream_id: m.streams[i].id,
            };
            let (n, done) = data_taken(m, h, data, max_body);
            let st = m.streams[i];
            &&& st.body.len() + data.len() <= body_limit(max_body) ==> {
                &&& n.streams[i].body == st.body + data
                &&& done.out.len() == 0 && done.error is None
                &&& done.dispatch <==> flags % 2 == 1
                &&& n.streams[i].state is Pending <==> flags % 2 == 1
            }
            &&& st.body.len() + data.len() > body_limit(max_body) ==> done.out == rst_stream(
                st.id,
                11,
            )
        }),
{
    lemma_found(m.streams, m.streams[i].id, 0);
}

/// What is sent at once is bounded by both windows and by what a frame has room for, and by
/// nothing else.
pub proof fn law_room_is_the_narrower_window(m: H2Model, i: int)
    ensures
        ({
            let r = room_of(m, i);
            let cap = crate::cache::SEND_BUF_SIZE - 9;
            let w = m.send_window;
            let v = m.streams[i].send_window;
            &&& 0 <= r <= cap
            &&& r > 0 ==> r <= w && r <= v
            &&& r == cap || r == w || r == v || r == 0
            &&& r == 0 <==> w <= 0 || v <= 0
        }),
{
}

// ── Requests ────────────────────────────────────────────────────────────

/// A pseudo-field gives the request its method or its path, an ordinary field one line of
/// its fields, and neither touches what the others gave.
pub proof fn law_request_goes_by_its_fields(lines: Seq<FieldLine>, name: Seq<u8>, value: Seq<u8>)
    ensures
        ({
            let r = request_of(lines);
            let q = request_of(lines.push(FieldLine { name, value }));
            &&& name == text(":method") ==> q.method == Some(method_of(value)) && q.path == r.path
                && q.fields == r.fields && q.websocket == r.websocket
            &&& name == text(":path") && value.len() <= MAX_PATH ==> q.path == value && q.method
                == r.method && q.fields == r.fields && q.websocket == r.websocket
            &&& name == text(":protocol") ==> q.method == r.method && q.path == r.path && q.fields
                == r.fields && (q.websocket <==> r.websocket || value == text("websocket"))
            &&& name.len() > 0 && name[0] == 0x3a && name != text(":method") && name != text(":path")
                && name != text(":protocol") ==> q == r
            &&& name.len() > 0 && name[0] != 0x3a && r.fields.len() + name.len() + value.len() + 4
                <= crate::h2::H2_HDR_CAP ==> q.fields == r.fields + name + seq![0x3au8, 0x20] + value
                + seq![0x0du8, 0x0a] && q.method == r.method && q.path == r.path && q.websocket
                == r.websocket
        }),
{
    let f = FieldLine { name, value };
    let all = lines.push(f);
    assert(all.drop_last() =~= lines);
    assert(all.last() == f);
    let r = request_of(lines);
    assert(request_of(all) == with_field(r, f));
    reveal(with_field);
    reveal_strlit(":method");
    reveal_strlit(":path");
    reveal_strlit(":protocol");
    reveal_strlit(": ");
    reveal_strlit("\r\n");
    crate::bytes::lemma_text(":method");
    crate::bytes::lemma_text(":path");
    crate::bytes::lemma_text(":protocol");
    crate::bytes::lemma_text(": ");
    crate::bytes::lemma_text("\r\n");
    assert(text(": ") =~= seq![0x3au8, 0x20]);
    assert(text("\r\n") =~= seq![0x0du8, 0x0a]);
    assert(text(":method").len() == 7 && text(":path").len() == 5 && text(":protocol").len() == 9);
    assert(text(":method")[0] == 0x3a && text(":path")[0] == 0x3a && text(":protocol")[0] == 0x3a);
    assert(r.fields + (name + text(": ") + value + text("\r\n")) =~= r.fields + name + seq![
        0x3au8,
        0x20,
    ] + value + seq![0x0du8, 0x0a]);
}

/// What this server says of itself when a connection begins: no pushes, so many streams at
/// once, no dynamic table, and extended CONNECT, six bytes each.
pub proof fn law_our_settings_are_these(id: u16, value: u32)
    ensures
        our_h2_settings() == seq![0u8, 0, 24, 4, 0, 0, 0, 0, 0] + seq![0u8, 2, 0, 0, 0, 0] + seq![
            0u8,
            3,
            0,
            0,
            0,
            MAX_STREAMS as u8,
        ] + seq![0u8, 1, 0, 0, 0, 0] + seq![0u8, 8, 0, 0, 0, 1],
        settings_payload(seq![(id, value)]).len() == 6,
        be16_at(settings_payload(seq![(id, value)]), 0) == id,
        be32_at(settings_payload(seq![(id, value)]), 2) == value,
{
    reveal_with_fuel(settings_payload, 5);
    let one = seq![(id, value)];
    assert(one.drop_last() =~= Seq::empty());
    assert(settings_payload(one) =~= seq![(id / 256) as u8, (id % 256) as u8] + be32(value));
    lemma_be32(value);
    let all = seq![(2u16, 0u32), (3u16, MAX_STREAMS as u32), (1u16, 0u32), (8u16, 1u32)];
    let three = seq![(2u16, 0u32), (3u16, MAX_STREAMS as u32), (1u16, 0u32)];
    let two = seq![(2u16, 0u32), (3u16, MAX_STREAMS as u32)];
    let first = seq![(2u16, 0u32)];
    assert(all.drop_last() =~= three);
    assert(three.drop_last() =~= two);
    assert(two.drop_last() =~= first);
    assert(first.drop_last() =~= Seq::empty());
    assert(be32(0) =~= seq![0u8, 0, 0, 0]);
    assert(be32(1) =~= seq![0u8, 0, 0, 1]);
    assert(be32(MAX_STREAMS as u32) =~= seq![0u8, 0, 0, MAX_STREAMS as u8]);
    assert(settings_payload(first) =~= seq![0u8, 2, 0, 0, 0, 0]);
    assert(settings_payload(two) =~= seq![0u8, 2, 0, 0, 0, 0, 0, 3, 0, 0, 0, MAX_STREAMS as u8]);
    assert(settings_payload(three) =~= settings_payload(two) + seq![0u8, 1, 0, 0, 0, 0]);
    assert(settings_payload(all) =~= settings_payload(three) + seq![0u8, 8, 0, 0, 0, 1]);
    assert(our_h2_settings() =~= seq![0u8, 0, 24, 4, 0, 0, 0, 0, 0] + settings_payload(all));
    assert(our_h2_settings() =~= seq![0u8, 0, 24, 4, 0, 0, 0, 0, 0] + seq![0u8, 2, 0, 0, 0, 0] + seq![
        0u8,
        3,
        0,
        0,
        0,
        MAX_STREAMS as u8,
    ] + seq![0u8, 1, 0, 0, 0, 0] + seq![0u8, 8, 0, 0, 0, 1]);
}

proof fn lemma_be32(v: u32)
    ensures
        0x100_0000 * be32(v)[0] + 0x1_0000 * be32(v)[1] + 0x100 * be32(v)[2] + be32(v)[3] == v,
{
    let a = v / 0x100;
    let b = a / 0x100;
    let c = b / 0x100;
    assert(v / 0x1_0000 == b);
    assert(v / 0x100_0000 == c);
    assert(v == 0x100 * a + v % 0x100);
    assert(a == 0x100 * b + a % 0x100);
    assert(b == 0x100 * c + b % 0x100);
}

} // verus!
