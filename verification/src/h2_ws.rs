//! WebSockets over HTTP/2: the tunnelled frames are echoed, and one may be spread over
//! any number of DATA frames.

use crate::bytes::{extend, to_vec};
use crate::h2::{lemma_stream_of, stream_of, Freed, H2Model, H2State, StreamModel, WS_BUF_SIZE};
use crate::h2_hold::taken_off;
use crate::h2_send::room_of;
use crate::h2_wire::{data_frame, rst_stream, write_data, write_rst_stream, ERR_INTERNAL_ERROR};
use crate::ws_wire::{
    client_frame, law_client_frame_reads_back, lemma_ws_header_prefix, masked_with, parse_frame, unmask, write_frame, ws_frame_bytes, ws_header_at,
    WsHeader, CLOSE_MESSAGE_TOO_BIG, CLOSE_PROTOCOL_ERROR, OP_BINARY, OP_CLOSE, OP_PING, OP_PONG, OP_TEXT,
};
use vstd::prelude::*;
use vstd::slice::slice_subrange;

verus! {

/// A WebSocket frame on the tunnel's stream, which it may end.
pub open spec fn tunnel_frame(id: u32, opcode: u8, payload: Seq<u8>, end: bool) -> Seq<u8> {
    data_frame(id, ws_frame_bytes(true, opcode, payload), end)
}

/// A close code as a payload.
pub open spec fn code_bytes(code: u16) -> Seq<u8> {
    seq![(code / 256) as u8, (code % 256) as u8]
}

/// How many bytes the tunnel may send now.
pub open spec fn tunnel_room(m: H2Model) -> int {
    match stream_of(m.streams, m.ws_stream->0, 0) {
        Some(i) => room_of(m, i),
        None => 0,
    }
}

/// The connection after `n` bytes of data on the tunnel's stream.
pub open spec fn tunnel_off(m: H2Model, n: int) -> H2Model {
    match stream_of(m.streams, m.ws_stream->0, 0) {
        Some(i) => taken_off(m, i, n),
        None => m,
    }
}

/// How long a WebSocket frame is.
pub open spec fn answer_len(opcode: u8, payload: Seq<u8>) -> int {
    ws_frame_bytes(true, opcode, payload).len() as int
}

/// The connection after its tunnel has ended.
pub open spec fn tunnel_gone(m: H2Model) -> H2Model {
    let id = m.ws_stream->0;
    let n = match stream_of(m.streams, id, 0) {
        Some(i) => m.freed(i),
        None => m,
    };
    H2Model { ws_stream: None, ws_buf: Seq::empty(), ..n }
}

/// What the end of the tunnel leaves to be done.
pub open spec fn tunnel_freeing(m: H2Model) -> Freed {
    match stream_of(m.streams, m.ws_stream->0, 0) {
        Some(i) => m.freeing(i),
        None => Freed::nothing(),
    }
}

/// The connection after it has closed the tunnel with a code, and what is sent. Where the
/// windows have no room for the close, the stream is reset.
pub open spec fn tunnel_closed(m: H2Model, code: u16) -> (H2Model, Seq<u8>, Freed) {
    let n = answer_len(OP_CLOSE, code_bytes(code));
    if n <= tunnel_room(m) {
        (
            tunnel_gone(tunnel_off(m, n)),
            tunnel_frame(m.ws_stream->0, OP_CLOSE, code_bytes(code), true),
            tunnel_freeing(m),
        )
    } else {
        (tunnel_gone(m), rst_stream(m.ws_stream->0, ERR_INTERNAL_ERROR), tunnel_freeing(m))
    }
}

/// How a frame of the client's is answered: a ping by a pong, anything else by itself.
pub open spec fn echo_opcode(opcode: u8) -> u8 {
    if opcode == OP_PING {
        OP_PONG
    } else {
        opcode
    }
}

/// The tunnel after one whole frame at the front of what it received. `None` where there
/// is none, or where the windows have no room for its answer yet.
#[verifier::opaque]
pub open spec fn tunnel_one(m: H2Model) -> Option<(H2Model, Seq<u8>, Freed)> {
    if m.ws_stream is None {
        None
    } else {
        let id = m.ws_stream->0;
        match ws_header_at(m.ws_buf) {
            WsHeader::Incomplete => None,
            WsHeader::Malformed => Some(tunnel_closed(m, CLOSE_PROTOCOL_ERROR)),
            WsHeader::Frame { opcode, masked, key, header_len, payload_len, .. } => {
                let end = (header_len + payload_len) as int;
                if end > m.ws_buf.len() || end <= 0 {
                    None
                } else if !masked {
                    Some(tunnel_closed(m, CLOSE_PROTOCOL_ERROR))
                } else {
                    let payload = masked_with(m.ws_buf.subrange(header_len as int, end), key);
                    let n = answer_len(echo_opcode(opcode), payload);
                    let c = tunnel_off(m, n);
                    if opcode == OP_PONG {
                        Some(
                            (
                                H2Model { ws_buf: m.ws_buf.skip(end), ..m },
                                Seq::empty(),
                                Freed::nothing(),
                            ),
                        )
                    } else if n > tunnel_room(m) {
                        None
                    } else if opcode == OP_CLOSE {
                        Some(
                            (
                                tunnel_gone(c),
                                tunnel_frame(id, OP_CLOSE, payload, true),
                                tunnel_freeing(m),
                            ),
                        )
                    } else {
                        Some(
                            (
                                H2Model { ws_buf: m.ws_buf.skip(end), ..c },
                                tunnel_frame(id, echo_opcode(opcode), payload, false),
                                Freed::nothing(),
                            ),
                        )
                    }
                }
            },
        }
    }
}

/// The tunnel after frames at the front of what it received, up to the first that is
/// answered; and the answer.
pub open spec fn tunnel_next(m: H2Model) -> (H2Model, Seq<u8>, Freed)
    decreases m.ws_buf.len(),
{
    match tunnel_one(m) {
        None => (m, Seq::empty(), Freed::nothing()),
        Some((n, out, freed)) => if out.len() > 0 || n.ws_buf.len() >= m.ws_buf.len() {
            (n, out, freed)
        } else {
            tunnel_next(n)
        },
    }
}

/// The tunnel with more bytes received.
pub open spec fn tunnel_fed(m: H2Model, data: Seq<u8>) -> H2Model {
    H2Model { ws_buf: m.ws_buf + data, ..m }
}

/// What data on the tunnel's stream comes to. More than is held closes it.
pub open spec fn tunnel_data(m: H2Model, data: Seq<u8>) -> (H2Model, Seq<u8>, Freed) {
    if m.ws_stream is None {
        (m, Seq::empty(), Freed::nothing())
    } else if m.ws_buf.len() + data.len() > WS_BUF_SIZE {
        tunnel_closed(m, CLOSE_MESSAGE_TOO_BIG)
    } else {
        tunnel_next(tunnel_fed(m, data))
    }
}

/// The tunnel after everything at the front of what it received, and all its answers.
pub open spec fn tunnel_all(m: H2Model) -> (H2Model, Seq<u8>)
    decreases m.ws_buf.len(),
{
    match tunnel_one(m) {
        None => (m, Seq::empty()),
        Some((n, out, freed)) => if n.ws_buf.len() >= m.ws_buf.len() {
            (n, out)
        } else {
            let (last, more) = tunnel_all(n);
            (last, out + more)
        },
    }
}

impl H2State {
    /// Send a frame on the tunnel's stream, if the windows have room for it.
    fn queue_ws_frame(&mut self, id: u32, opcode: u8, payload: &[u8], end: bool) -> (r: Option<Vec<u8>>)
        requires
            old(self).wf(),
            old(self)@.ws_stream == Some(id),
            opcode < 0x80,
        ensures
            final(self).wf(),
            match r {
                Some(out) => {
                    &&& answer_len(opcode, payload@) <= tunnel_room(old(self)@)
                    &&& out@ == tunnel_frame(id, opcode, payload@, end)
                    &&& final(self)@ == tunnel_off(old(self)@, answer_len(opcode, payload@))
                },
                None => answer_len(opcode, payload@) > tunnel_room(old(self)@) && *final(self)
                    == *old(self),
            },
    {
        proof {
            lemma_stream_of(self@.streams, id, 0);
        }
        let f: Vec<u8> = write_frame(true, opcode, payload);
        match self.slot_for_id(id) {
            Some(i) => {
                if f.len() > self.data_room(i) {
                    return None;
                }
                self.take_off(i, f.len());
                Some(write_data(id, f.as_slice(), end))
            },
            None => {
                assert(f@.len() > 0);
                None
            },
        }
    }

    /// End the tunnel.
    fn end_tunnel(&mut self, id: u32) -> (r: Freed)
        requires
            old(self).wf(),
            old(self)@.ws_stream == Some(id),
        ensures
            final(self).wf(),
            final(self)@ == tunnel_gone(old(self)@),
            r == tunnel_freeing(old(self)@),
    {
        proof {
            lemma_stream_of(self@.streams, id, 0);
        }
        let freed = match self.slot_for_id(id) {
            Some(i) => self.free_stream(i),
            None => Freed::none(),
        };
        self.ws_stream = None;
        self.ws_buf = Vec::new();
        assert(self@ =~= tunnel_gone(old(self)@));
        freed
    }

    /// Close the tunnel with a code.
    fn queue_ws_close(&mut self, id: u32, code: u16) -> (r: (Vec<u8>, Freed))
        requires
            old(self).wf(),
            old(self)@.ws_stream == Some(id),
        ensures
            final(self).wf(),
            (final(self)@, r.0@, r.1) == tunnel_closed(old(self)@, code),
    {
        let mut p: Vec<u8> = Vec::new();
        p.push((code / 256) as u8);
        p.push((code % 256) as u8);
        assert(p@ =~= code_bytes(code));
        let out: Vec<u8> = match self.queue_ws_frame(id, OP_CLOSE, p.as_slice(), true) {
            Some(out) => out,
            None => write_rst_stream(id, ERR_INTERNAL_ERROR),
        };
        proof {
            lemma_off_keeps_stream(old(self)@, answer_len(OP_CLOSE, p@));
        }
        let freed = self.end_tunnel(id);
        (out, freed)
    }

    /// Act on one whole frame at the front of what the tunnel received.
    fn tunnel_frame_in(&mut self) -> (r: Option<(Vec<u8>, Freed)>)
        requires
            old(self).wf(),
        ensures
            final(self).wf(),
            match r {
                None => tunnel_one(old(self)@) is None && final(self)@ == old(self)@,
                Some((out, freed)) => tunnel_one(old(self)@) == Some(
                    (final(self)@, out@, freed),
                ),
            },
    {
        proof {
            reveal(tunnel_one);
        }
        let id: u32 = match self.ws_stream {
            Some(id) => id,
            None => {
                return None;
            },
        };
        let f = match parse_frame(self.ws_buf.as_slice()) {
            Ok(Some(f)) => f,
            Ok(None) => {
                return None;
            },
            Err(_) => {
                return Some(self.queue_ws_close(id, CLOSE_PROTOCOL_ERROR));
            },
        };
        let len: usize = self.ws_buf.len();
        if f.payload_len > (len - f.header_len) as u64 {
            return None;
        }
        let end: usize = f.header_len + f.payload_len as usize;
        if !f.masked {
            return Some(self.queue_ws_close(id, CLOSE_PROTOCOL_ERROR));
        }
        let raw = slice_subrange(self.ws_buf.as_slice(), f.header_len, end);
        let payload: Vec<u8> = unmask(raw, &f.mask_key);
        let rest: Vec<u8> = to_vec(slice_subrange(self.ws_buf.as_slice(), end, len));
        assert(rest@ =~= self.ws_buf@.skip(end as int));
        if f.opcode == OP_PONG {
            self.ws_buf = rest;
            assert(self@ =~= (H2Model { ws_buf: old(self)@.ws_buf.skip(end as int), ..old(self)@ }));
            let none: Vec<u8> = Vec::new();
            assert(none@ =~= Seq::<u8>::empty());
            return Some((none, Freed::none()));
        }
        let opcode: u8 = if f.opcode == OP_PING {
            OP_PONG
        } else {
            f.opcode
        };
        let out: Vec<u8> = match self.queue_ws_frame(id, opcode, payload.as_slice(), f.opcode == OP_CLOSE) {
            Some(out) => out,
            None => {
                return None;
            },
        };
        proof {
            lemma_off_keeps_stream(old(self)@, answer_len(opcode, payload@));
        }
        if f.opcode == OP_CLOSE {
            let freed = self.end_tunnel(id);
            return Some((out, freed));
        }
        let ghost c = self@;
        self.ws_buf = rest;
        assert(self@ =~= (H2Model { ws_buf: old(self)@.ws_buf.skip(end as int), ..c }));
        Some((out, Freed::none()))
    }

    /// Act on what the tunnel received, up to the first frame that is answered. Returns
    /// the answer.
    pub fn ws_drain_buf(&mut self) -> (r: (Vec<u8>, Freed))
        requires
            old(self).wf(),
        ensures
            final(self).wf(),
            (final(self)@, r.0@, r.1) == tunnel_next(old(self)@),
    {
        loop
            invariant
                self.wf(),
                tunnel_next(self@) == tunnel_next(old(self)@),
            decreases self@.ws_buf.len(),
        {
            let len: usize = self.ws_buf.len();
            match self.tunnel_frame_in() {
                None => {
                    let none: Vec<u8> = Vec::new();
                    assert(none@ =~= Seq::<u8>::empty());
                    return (none, Freed::none());
                },
                Some((out, freed)) => {
                    if out.len() > 0 || self.ws_buf.len() >= len {
                        return (out, freed);
                    }
                },
            }
        }
    }

    /// Act on data of the tunnel's stream.
    pub fn ws_handle_data(&mut self, data: &[u8]) -> (r: (Vec<u8>, Freed))
        requires
            old(self).wf(),
        ensures
            final(self).wf(),
            (final(self)@, r.0@, r.1) == tunnel_data(old(self)@, data@),
    {
        let id: u32 = match self.ws_stream {
            Some(id) => id,
            None => {
                let none: Vec<u8> = Vec::new();
                assert(none@ =~= Seq::<u8>::empty());
                return (none, Freed::none());
            },
        };
        if data.len() > WS_BUF_SIZE - self.ws_buf.len() {
            return self.queue_ws_close(id, CLOSE_MESSAGE_TOO_BIG);
        }
        extend(&mut self.ws_buf, data);
        assert(self@ =~= tunnel_fed(old(self)@, data@));
        self.ws_drain_buf()
    }
}

/// Taking data off the windows leaves the tunnel and what ending it frees as they were.
proof fn lemma_off_keeps_stream(m: H2Model, n: int)
    requires
        m.ws_stream is Some,
    ensures
        tunnel_off(m, n).ws_stream == m.ws_stream,
        tunnel_off(m, n).ws_buf == m.ws_buf,
        stream_of(tunnel_off(m, n).streams, m.ws_stream->0, 0) == stream_of(
            m.streams,
            m.ws_stream->0,
            0,
        ),
        tunnel_freeing(tunnel_off(m, n)) == tunnel_freeing(m),
{
    let id = m.ws_stream->0;
    lemma_stream_of(m.streams, id, 0);
    if let Some(i) = stream_of(m.streams, id, 0) {
        lemma_same_streams(m.streams, taken_off(m, i, n).streams, id, 0);
    }
}

/// Whether stream `k` is as it was, and the tunnel, if it is still there, the same.
pub open spec fn kept(m: H2Model, n: H2Model, k: int) -> bool {
    &&& n.streams[k] == m.streams[k]
    &&& n.streams.len() == m.streams.len()
    &&& n.ws_stream is Some ==> n.ws_stream == m.ws_stream
}

/// What the tunnel does to its own stream it does to no other.
pub proof fn lemma_tunnel_keeps_others(m: H2Model, k: int)
    requires
        m.ws_stream is Some,
        0 <= k < m.streams.len(),
        m.streams[k].id != m.ws_stream->0,
    ensures
        forall|n: int| kept(m, #[trigger] tunnel_off(m, n), k),
        forall|n: int| kept(m, #[trigger] tunnel_gone(tunnel_off(m, n)), k),
        kept(m, tunnel_gone(m), k),
        forall|code: u16| kept(m, (#[trigger] tunnel_closed(m, code)).0, k),
{
    lemma_stream_of(m.streams, m.ws_stream->0, 0);
    assert forall|n: int| kept(m, #[trigger] tunnel_gone(tunnel_off(m, n)), k) by {
        lemma_off_keeps_stream(m, n);
    }
}

/// A frame of the tunnel's leaves every other stream as it was.
pub proof fn lemma_one_keeps_others(m: H2Model, k: int)
    requires
        0 <= k < m.streams.len(),
        m.ws_stream matches Some(id) ==> m.streams[k].id != id,
    ensures
        tunnel_one(m) matches Some((n, out, freed)) ==> kept(m, n, k),
{
    reveal(tunnel_one);
    if m.ws_stream is Some {
        lemma_tunnel_keeps_others(m, k);
        match ws_header_at(m.ws_buf) {
            WsHeader::Frame { opcode, masked, key, header_len, payload_len, .. } => {
                let end = (header_len + payload_len) as int;
                let payload = masked_with(m.ws_buf.subrange(header_len as int, end), key);
                let n = answer_len(echo_opcode(opcode), payload);
                assert(kept(m, tunnel_off(m, n), k));
                assert(kept(m, tunnel_gone(tunnel_off(m, n)), k));
                assert(kept(m, tunnel_closed(m, CLOSE_PROTOCOL_ERROR).0, k));
            },
            _ => {
                assert(kept(m, tunnel_closed(m, CLOSE_PROTOCOL_ERROR).0, k));
            },
        }
    }
}

proof fn lemma_same_streams(s: Seq<StreamModel>, t: Seq<StreamModel>, id: u32, from: int)
    requires
        s.len() == t.len(),
        forall|k: int|
            0 <= k < s.len() ==> (#[trigger] s[k]).id == t[k].id && (s[k].state is Idle <==> t[k].state is Idle),
    ensures
        stream_of(s, id, from) == stream_of(t, id, from),
    decreases s.len() - from,
{
    if id != 0 && 0 <= from < s.len() {
        assert(s[from].id == t[from].id);
        lemma_same_streams(s, t, id, from + 1);
    }
}

// ── Laws ────────────────────────────────────────────────────────────────

/// Whatever the tunnel makes of a whole frame, it makes of it with more bytes behind.
proof fn lemma_one_fed(m: H2Model, more: Seq<u8>)
    requires
        tunnel_one(m) is Some,
    ensures
        ({
            let (n, out, freed) = tunnel_one(m)->0;
            let (k, fed_out, fed_freed) = tunnel_one(tunnel_fed(m, more))->0;
            &&& tunnel_one(tunnel_fed(m, more)) is Some
            &&& fed_out == out
            &&& n.ws_stream is Some ==> k == tunnel_fed(n, more)
            &&& n.ws_stream is None ==> k == n
        }),
{
    reveal(tunnel_one);
    let fed = tunnel_fed(m, more);
    lemma_ws_header_prefix(m.ws_buf, more);
    match ws_header_at(m.ws_buf) {
        WsHeader::Frame { opcode, masked, key, header_len, payload_len, .. } => {
            let end = (header_len + payload_len) as int;
            assert(fed.ws_buf.subrange(header_len as int, end) =~= m.ws_buf.subrange(
                header_len as int,
                end,
            ));
            assert(fed.ws_buf.skip(end) =~= m.ws_buf.skip(end) + more);
        },
        _ => {},
    }
}

/// A frame is taken off the front, or it ends the tunnel; an ended tunnel takes none.
proof fn lemma_one_moves(m: H2Model)
    ensures
        m.ws_stream is None ==> tunnel_one(m) is None,
        tunnel_one(m) matches Some((n, out, freed)) ==> n.ws_buf.len() < m.ws_buf.len()
            || n.ws_stream is None,
{
    reveal(tunnel_one);
}

/// How tunnelled frames are cut into DATA frames does not matter: what arrives in two
/// pieces is answered like what arrives in one, as long as the tunnel stays open.
pub proof fn law_h2_tunnel_may_be_split(m: H2Model, more: Seq<u8>)
    requires
        tunnel_all(m).0.ws_stream is Some,
    ensures
        ({
            let (n, out) = tunnel_all(m);
            let (last, rest) = tunnel_all(tunnel_fed(n, more));
            tunnel_all(tunnel_fed(m, more)) == (last, out + rest)
        }),
    decreases m.ws_buf.len(),
{
    let fed = tunnel_fed(m, more);
    lemma_one_moves(m);
    match tunnel_one(m) {
        None => {
            let (last, rest) = tunnel_all(fed);
            assert(Seq::<u8>::empty() + rest =~= rest);
        },
        Some((n, out, freed)) => {
            lemma_one_fed(m, more);
            lemma_one_moves(n);
            let (a, b) = tunnel_all(n);
            law_h2_tunnel_may_be_split(n, more);
            let (last, rest) = tunnel_all(tunnel_fed(a, more));
            assert(out + (b + rest) =~= out + b + rest);
        },
    }
}

/// What the tunnel sends stays within both windows: nothing is sent, or no more than
/// either allowed, and the connection's window is lowered by it.
pub proof fn law_h2_tunnel_keeps_windows(m: H2Model)
    requires
        m.wf(),
        m.ws_stream is Some,
        stream_of(m.streams, m.ws_stream->0, 0) is Some,
        tunnel_one(m) is Some,
    ensures
        ({
            let i = stream_of(m.streams, m.ws_stream->0, 0)->0;
            let sent = m.send_window - (tunnel_one(m)->0).0.send_window;
            sent == 0 || (0 < sent <= m.send_window && sent <= m.streams[i].send_window)
        }),
{
    reveal(tunnel_one);
    lemma_stream_of(m.streams, m.ws_stream->0, 0);
}

/// A message is echoed as it came: unmasked, with the same opcode, on the tunnel's
/// stream, which stays open. The windows have room for the echo.
pub proof fn law_h2_tunnel_echoes(m: H2Model)
    requires
        m.ws_stream is Some,
        ws_header_at(m.ws_buf) matches WsHeader::Frame { opcode, masked, key, header_len, payload_len, .. }
            && masked && (opcode == OP_TEXT || opcode == OP_BINARY) && 0 < header_len + payload_len
            <= m.ws_buf.len() && answer_len(
            opcode,
            m.ws_buf.subrange(header_len as int, (header_len + payload_len) as int),
        ) <= tunnel_room(m),
    ensures
        ws_header_at(m.ws_buf) matches WsHeader::Frame { opcode, masked, key, header_len, payload_len, .. }
            && {
            let end = (header_len + payload_len) as int;
            let payload = masked_with(m.ws_buf.subrange(header_len as int, end), key);
            tunnel_next(m) == (
                H2Model { ws_buf: m.ws_buf.skip(end), ..tunnel_off(m, answer_len(opcode, payload)) },
                tunnel_frame(m.ws_stream->0, opcode, payload, false),
                Freed::nothing(),
            )
        },
{
    reveal(tunnel_one);
}

/// What a client sends comes back: for the bytes of a masked message or ping, of any
/// length that fits, the tunnel sends the payload as the client had it, a ping's as a
/// pong, and keeps what follows.
pub proof fn law_h2_tunnel_echoes_clients(
    m: H2Model,
    fin: bool,
    opcode: u8,
    key: Seq<u8>,
    payload: Seq<u8>,
    rest: Seq<u8>,
)
    requires
        m.ws_stream is Some,
        m.ws_buf == client_frame(fin, opcode, key, payload) + rest,
        m.ws_buf.len() <= WS_BUF_SIZE,
        key.len() == 4,
        opcode <= 2 || (opcode == 9 && fin && payload.len() <= 125),
        ws_frame_bytes(
            true,
            if opcode == 9 {
                10
            } else {
                opcode
            },
            payload,
        ).len() <= tunnel_room(m),
    ensures
        ({
            let answer = ws_frame_bytes(
                true,
                if opcode == 9 {
                    10
                } else {
                    opcode
                },
                payload,
            );
            tunnel_next(m) == (
                H2Model { ws_buf: rest, ..tunnel_off(m, answer.len() as int) },
                data_frame(m.ws_stream->0, answer, false),
                Freed::nothing(),
            )
        }),
{
    reveal(tunnel_one);
    law_client_frame_reads_back(fin, opcode, key, payload, rest);
    let end = client_frame(fin, opcode, key, payload).len() as int;
    assert(m.ws_buf.skip(end) =~= rest);
}

/// A client's close ends the tunnel and is answered with the same payload.
pub proof fn law_h2_tunnel_answers_a_close(m: H2Model, key: Seq<u8>, payload: Seq<u8>, rest: Seq<u8>)
    requires
        m.ws_stream is Some,
        m.ws_buf == client_frame(true, 8, key, payload) + rest,
        key.len() == 4,
        payload.len() <= 125,
        ws_frame_bytes(true, 8, payload).len() <= tunnel_room(m),
    ensures
        ({
            let (n, out, freed) = tunnel_next(m);
            &&& n.ws_stream is None
            &&& n.ws_buf.len() == 0
            &&& out == data_frame(m.ws_stream->0, ws_frame_bytes(true, 8, payload), true)
        }),
{
    reveal(tunnel_one);
    law_client_frame_reads_back(true, 8, key, payload, rest);
    assert(m.ws_buf.len() > 0);
    lemma_off_keeps_stream(m, answer_len(8, payload));
}

/// A tunnel that is ended for an error says so with a close frame that carries the code, the
/// high byte first, in the last data of its stream.
pub proof fn law_h2_tunnel_closes_with_its_code(m: H2Model, hi: u8, lo: u8)
    requires
        m.ws_stream is Some,
        tunnel_room(m) >= 4,
    ensures
        ({
            let (n, out, freed) = tunnel_closed(m, (256 * hi + lo) as u16);
            &&& out == data_frame(m.ws_stream->0, seq![0x88u8, 2, hi, lo], true)
            &&& n.ws_stream is None
        }),
{
    let code = (256 * hi + lo) as u16;
    assert(code / 256 == hi && code % 256 == lo);
    assert(code_bytes(code) =~= seq![hi, lo]);
    assert(ws_frame_bytes(true, 8, seq![hi, lo]) =~= seq![0x88u8, 2, hi, lo]);
}

} // verus!
