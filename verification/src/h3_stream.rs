//! Bytes arriving on one HTTP/3 request stream: a request to answer, or a WebSocket
//! tunnel to echo.

use crate::bytes::{extend, to_vec};
use crate::h3::{
    H3StreamSlot, H3StreamState, SlotModel, H3_INTERNAL_ERROR, H3_MESSAGE_ERROR, H3_RECV_BUF,
    H3_SEND_BUF,
};
use crate::h3_dispatch::{dispatch_vec, dispatched, law_no_partial_response, H3Dispatch};
use crate::h3_request::{
    ingest_request_frame, ingested, H3Error, H3Ingest, H3Request, RequestModel,
};
use crate::h3_response::H3_TEMPLATE_BUF;
use crate::h3_wire::{
    frame_at, frame_bytes, frame_header_vec, lemma_frame_bounds, parse_h3_frame, payload_of,
    H3_FRAME_DATA,
};
use crate::site::Site;
use crate::ws_wire::{
    client_frame, law_client_frame_reads_back, lemma_mask_involution, lemma_ws_header_prefix, masked_with, parse_frame, unmask, write_frame, ws_frame_bytes, ws_header_at, WsHeader,
    CLOSE_MESSAGE_TOO_BIG, CLOSE_NORMAL, CLOSE_PROTOCOL_ERROR, OP_CLOSE, OP_PING, OP_PONG,
};
use vstd::prelude::*;
use vstd::slice::slice_subrange;

verus! {

/// Largest WebSocket payload carried over a tunnel.
pub const H3_WS_PAYLOAD_MAX: usize = 512;

/// What feeding a stream produced.
#[derive(Clone, Copy, PartialEq, Eq, Structural, Debug)]
pub enum H3StreamOutcome {
    /// The request head is not whole yet, or waits for the peer's SETTINGS.
    Buffered,
    /// A response of this many bytes is queued on the stream.
    Responded(usize),
    /// A 501 is queued: this handler is not served over HTTP/3.
    HandlerNotShared(u8),
    /// No response fits the peer's field-section limit; the stream is reset.
    PeerFieldLimit,
    /// A session-scoped event was consumed.
    SessionEvent,
    /// The peer broke a rule of the connection, which is failed with this code.
    ConnectionError(u64),
    /// The response does not fit the stream's buffer; the stream is reset.
    ResponseTooLarge,
    /// The request broke a rule; the stream is reset with the error's code.
    StreamError(H3Error),
    /// No slot is free.
    SlotsExhausted,
    /// The endpoint is draining and admits nothing new.
    DrainRefused,
    /// An extended CONNECT was accepted; a 200 of this many bytes is queued.
    WebSocketUpgraded(usize),
    /// Tunnel bytes are queued.
    WebSocketFrame(usize),
    /// The tunnel closed with this code.
    WebSocketClosed(u16),
    /// Nothing to do with it.
    Ignored,
}

// ── Requests ────────────────────────────────────────────────────────────

/// What the frames of a request stream hold: whether a header section, the last
/// request decoded, and how many bytes the whole frames take.
#[verifier::ext_equal]
pub struct Walked {
    pub have: bool,
    pub req: RequestModel,
    pub taken: int,
}

/// Walk the whole frames at the front of `buf`.
pub open spec fn request_walk(buf: Seq<u8>, req: RequestModel, have: bool) -> Result<Walked, H3Error>
    decreases buf.len(),
{
    if frame_at(buf) is None {
        Ok(Walked { have, req, taken: 0 })
    } else {
        proof {
            lemma_frame_bounds(buf);
        }
        let (what, n, next) = ingested(buf, req);
        match what {
            H3Ingest::Error(e) => Err(e),
            _ => match request_walk(
                buf.skip((frame_at(buf)->0).end),
                next,
                have || what is Headers,
            ) {
                Ok(w) => Ok(Walked { taken: w.taken + n, ..w }),
                Err(e) => Err(e),
            },
        }
    }
}

/// A slot that owes the peer a reset.
pub open spec fn reset_with(s: SlotModel, code: u64) -> SlotModel {
    SlotModel { state: H3StreamState::Reset, reset_code: code, ..s }
}

/// A slot with a response queued.
pub open spec fn responded(s: SlotModel, bytes: Seq<u8>) -> SlotModel {
    SlotModel {
        send: bytes,
        send_off: 0,
        state: H3StreamState::HeadersSent,
        recv: Seq::empty(),
        ..s
    }
}

/// What answering a decoded request does to its slot.
pub open spec fn request_answered(s: SlotModel, what: H3Dispatch, bytes: Seq<u8>) -> (
    SlotModel,
    H3StreamOutcome,
) {
    match what {
        H3Dispatch::TooLarge => (
            reset_with(s, H3_INTERNAL_ERROR),
            H3StreamOutcome::ResponseTooLarge,
        ),
        H3Dispatch::PeerFieldLimit => (
            reset_with(s, H3_INTERNAL_ERROR),
            H3StreamOutcome::PeerFieldLimit,
        ),
        H3Dispatch::WebSocketAccepted(n) => (
            SlotModel {
                ws_active: true,
                ws: Seq::empty(),
                ws_data: Seq::empty(),
                ..responded(s, bytes)
            },
            H3StreamOutcome::WebSocketUpgraded(n),
        ),
        H3Dispatch::HandlerNotShared(_, h) => (
            responded(s, bytes),
            H3StreamOutcome::HandlerNotShared(h),
        ),
        H3Dispatch::Response(n) => (responded(s, bytes), H3StreamOutcome::Responded(n)),
        H3Dispatch::NotFound(n) => (responded(s, bytes), H3StreamOutcome::Responded(n)),
    }
}

/// What bytes on a request stream come to, given whether the session's responses are
/// still gated and its field-section limit.
pub open spec fn request_step(
    site: Site,
    s: SlotModel,
    data: Seq<u8>,
    gated: bool,
    peer_limit: u32,
) -> (SlotModel, H3StreamOutcome) {
    let buf = s.recv + data;
    let held = SlotModel { recv: buf, ..s };
    if buf.len() > H3_RECV_BUF {
        (
            reset_with(s, H3_MESSAGE_ERROR),
            H3StreamOutcome::StreamError(H3Error::MessageError),
        )
    } else {
        match request_walk(buf, RequestModel::none(), false) {
            Err(e) => (reset_with(held, e.wire_code()), H3StreamOutcome::StreamError(e)),
            Ok(w) => if !w.have {
                (SlotModel { recv: buf.skip(w.taken), ..s }, H3StreamOutcome::Buffered)
            } else if gated {
                (held, H3StreamOutcome::Buffered)
            } else {
                let (what, bytes) = dispatched(
                    site,
                    w.req,
                    H3_SEND_BUF as int,
                    H3_TEMPLATE_BUF,
                    peer_limit,
                );
                request_answered(held, what, bytes)
            },
        }
    }
}

/// While the peer's SETTINGS are missing, a request is taken in but never answered.
pub proof fn law_gated_stream_queues_nothing(
    site: Site,
    s: SlotModel,
    data: Seq<u8>,
    peer_limit: u32,
)
    ensures
        request_step(site, s, data, true, peer_limit).0.send == s.send,
        !(request_step(site, s, data, true, peer_limit).1 is Responded),
{
}

/// A request held back for want of the peer's SETTINGS gets the same answer, once they
/// have come, that it gets when they are there first.
pub proof fn law_gated_request_is_answered_later(
    site: Site,
    s: SlotModel,
    data: Seq<u8>,
    before: u32,
    peer_limit: u32,
)
    requires
        request_step(site, s, data, true, before).1 is Buffered,
        request_walk(s.recv + data, RequestModel::none(), false) matches Ok(w) && w.have,
    ensures
        request_step(
            site,
            request_step(site, s, data, true, before).0,
            Seq::empty(),
            false,
            peer_limit,
        ) == request_step(site, s, data, false, peer_limit),
{
    assert(s.recv + data + Seq::<u8>::empty() =~= s.recv + data);
}

proof fn lemma_walk_taken(buf: Seq<u8>, req: RequestModel, have: bool)
    ensures
        request_walk(buf, req, have) matches Ok(w) ==> 0 <= w.taken <= buf.len(),
    decreases buf.len(),
{
    if frame_at(buf) is Some {
        lemma_frame_bounds(buf);
        let (what, n, next) = ingested(buf, req);
        lemma_walk_taken(
            buf.skip((frame_at(buf)->0).end),
            next,
            have || what is Headers,
        );
    }
}

/// Feeding a request stream keeps its slot within its bounds.
pub proof fn lemma_request_step_wf(
    site: Site,
    s: SlotModel,
    data: Seq<u8>,
    gated: bool,
    peer_limit: u32,
)
    requires
        s.wf(),
    ensures
        request_step(site, s, data, gated, peer_limit).0.wf(),
{
    let buf = s.recv + data;
    lemma_walk_taken(buf, RequestModel::none(), false);
    if let Ok(w) = request_walk(buf, RequestModel::none(), false) {
        law_no_partial_response(site, w.req, H3_SEND_BUF as int, H3_TEMPLATE_BUF, peer_limit);
    }
}

fn walk_request(buf: &[u8], req: &mut H3Request) -> (r: Result<(bool, usize), H3Error>)
    requires
        old(req)@ == RequestModel::none(),
    ensures
        match request_walk(buf@, RequestModel::none(), false) {
            Ok(w) => r == Ok::<(bool, usize), H3Error>((w.have, w.taken as usize))
                && final(req)@ == w.req && 0 <= w.taken <= buf@.len(),
            Err(e) => r == Err::<(bool, usize), H3Error>(e),
        },
{
    let ghost whole = request_walk(buf@, RequestModel::none(), false);
    proof {
        lemma_walk_taken(buf@, RequestModel::none(), false);
        assert(buf@.skip(0) =~= buf@);
    }
    let mut have: bool = false;
    let mut taken: usize = 0;
    loop
        invariant
            taken <= buf@.len(),
            match request_walk(buf@.skip(taken as int), req@, have) {
                Ok(w) => whole == Ok::<Walked, H3Error>(Walked { taken: w.taken + taken, ..w }),
                Err(e) => whole == Err::<Walked, H3Error>(e),
            },
            whole == request_walk(buf@, RequestModel::none(), false),
        decreases buf@.len() - taken,
    {
        let rest = slice_subrange(buf, taken, buf.len());
        assert(rest@ =~= buf@.skip(taken as int));
        proof {
            lemma_frame_bounds(rest@);
        }
        let (what, n) = ingest_request_frame(rest, req);
        if n == 0 {
            return Ok((have, taken));
        }
        match what {
            H3Ingest::Error(e) => {
                return Err(e);
            },
            H3Ingest::Headers => {
                have = true;
            },
            _ => {},
        }
        assert(rest@.skip(n as int) =~= buf@.skip(taken + n));
        taken += n;
    }
}

impl H3StreamSlot {
    /// Take in request bytes and answer the request once it is whole.
    pub fn request_in(&mut self, site: &Site, data: &[u8], gated: bool, peer_limit: u32) -> (r:
        H3StreamOutcome)
        requires
            old(self)@.wf(),
            site.wf(),
        ensures
            (final(self)@, r) == request_step(*site, old(self)@, data@, gated, peer_limit),
            final(self)@.wf(),
    {
        let ghost s0 = self@;
        let ghost want = request_step(*site, s0, data@, gated, peer_limit);
        proof {
            lemma_request_step_wf(*site, s0, data@, gated, peer_limit);
        }
        if data.len() > H3_RECV_BUF - self.recv_hdr_buf.len() {
            self.state = H3StreamState::Reset;
            self.reset_code = H3_MESSAGE_ERROR;
            assert(self@ =~= want.0);
            return H3StreamOutcome::StreamError(H3Error::MessageError);
        }
        extend(&mut self.recv_hdr_buf, data);
        let mut req = H3Request::empty();
        let (have, taken) = match walk_request(self.recv_hdr_buf.as_slice(), &mut req) {
            Ok(x) => x,
            Err(e) => {
                self.state = H3StreamState::Reset;
                self.reset_code = e.code();
                assert(self@ =~= want.0);
                return H3StreamOutcome::StreamError(e);
            },
        };
        if !have {
            let rest: Vec<u8> = to_vec(
                slice_subrange(self.recv_hdr_buf.as_slice(), taken, self.recv_hdr_buf.len()),
            );
            assert(rest@ =~= self.recv_hdr_buf@.skip(taken as int));
            self.recv_hdr_buf = rest;
            assert(self@ =~= want.0);
            return H3StreamOutcome::Buffered;
        }
        if gated {
            assert(self@ =~= want.0);
            return H3StreamOutcome::Buffered;
        }
        let (what, bytes) = dispatch_vec(site, &req, H3_SEND_BUF, H3_TEMPLATE_BUF, peer_limit);
        let ghost held = SlotModel { recv: s0.recv + data@, ..s0 };
        assert(self@ =~= held);
        self.answer(what, bytes)
    }

    fn answer(&mut self, what: H3Dispatch, bytes: Vec<u8>) -> (r: H3StreamOutcome)
        ensures
            (final(self)@, r) == request_answered(old(self)@, what, bytes@),
    {
        let ghost want = request_answered(self@, what, bytes@);
        match what {
            H3Dispatch::TooLarge => {
                self.state = H3StreamState::Reset;
                self.reset_code = H3_INTERNAL_ERROR;
                assert(self@ =~= want.0);
                return H3StreamOutcome::ResponseTooLarge;
            },
            H3Dispatch::PeerFieldLimit => {
                self.state = H3StreamState::Reset;
                self.reset_code = H3_INTERNAL_ERROR;
                assert(self@ =~= want.0);
                return H3StreamOutcome::PeerFieldLimit;
            },
            _ => {},
        }
        self.send_buf = bytes;
        self.send_off = 0;
        self.state = H3StreamState::HeadersSent;
        self.recv_hdr_buf = Vec::new();
        assert(self.recv_hdr_buf@ =~= Seq::empty());
        match what {
            H3Dispatch::WebSocketAccepted(n) => {
                self.ws_active = true;
                self.ws_buf = Vec::new();
                self.ws_data = Vec::new();
                assert(self.ws_buf@ =~= Seq::empty());
                assert(self.ws_data@ =~= Seq::empty());
                assert(self@ =~= want.0);
                H3StreamOutcome::WebSocketUpgraded(n)
            },
            H3Dispatch::HandlerNotShared(_, h) => {
                assert(self@ =~= want.0);
                H3StreamOutcome::HandlerNotShared(h)
            },
            H3Dispatch::Response(n) => {
                assert(self@ =~= want.0);
                H3StreamOutcome::Responded(n)
            },
            H3Dispatch::NotFound(n) => {
                assert(self@ =~= want.0);
                H3StreamOutcome::Responded(n)
            },
            _ => H3StreamOutcome::Ignored,
        }
    }
}

// ── Tunnels ─────────────────────────────────────────────────────────────

/// A slot with one more WebSocket frame queued, wrapped in an HTTP/3 DATA frame. A
/// frame that does not fit behind what is queued is dropped whole.
pub open spec fn ws_queued(s: SlotModel, opcode: u8, payload: Seq<u8>) -> SlotModel {
    let framed = frame_bytes(H3_FRAME_DATA, ws_frame_bytes(true, opcode, payload));
    if s.send.len() + framed.len() > H3_SEND_BUF {
        s
    } else {
        SlotModel { send: s.send + framed, ..s }
    }
}

pub open spec fn close_body(code: u16) -> Seq<u8> {
    seq![(code / 256) as u8, (code % 256) as u8]
}

/// A slot whose tunnel ends with this code.
pub open spec fn ws_closed(s: SlotModel, code: u16) -> SlotModel {
    SlotModel { ws_active: false, ..ws_queued(s, OP_CLOSE, close_body(code)) }
}

/// The slot once one whole WebSocket frame is taken in, and the close code it earns,
/// if any. Data comes back as it was sent, a ping as a pong.
pub open spec fn ws_frame_step(
    s: SlotModel,
    opcode: u8,
    masked: bool,
    key: Seq<u8>,
    payload: Seq<u8>,
) -> (SlotModel, Option<u16>) {
    let data = masked_with(payload, key);
    if !masked {
        (ws_closed(s, CLOSE_PROTOCOL_ERROR), Some(CLOSE_PROTOCOL_ERROR))
    } else if payload.len() > H3_WS_PAYLOAD_MAX {
        (ws_closed(s, CLOSE_MESSAGE_TOO_BIG), Some(CLOSE_MESSAGE_TOO_BIG))
    } else if opcode == OP_CLOSE {
        (ws_closed(s, CLOSE_NORMAL), Some(CLOSE_NORMAL))
    } else if opcode == OP_PING {
        (ws_queued(s, OP_PONG, data), None)
    } else if opcode == OP_PONG {
        (s, None)
    } else {
        (ws_queued(s, opcode, data), None)
    }
}

/// Take in the whole WebSocket frames at the front of `data`; gives the slot, the bytes
/// left and the close code, if the tunnel closed.
pub open spec fn ws_walk(s: SlotModel, data: Seq<u8>) -> (SlotModel, Seq<u8>, Option<u16>)
    decreases data.len(),
{
    match ws_header_at(data) {
        WsHeader::Incomplete => (s, data, None),
        WsHeader::Malformed => (
            ws_closed(s, CLOSE_PROTOCOL_ERROR),
            data,
            Some(CLOSE_PROTOCOL_ERROR),
        ),
        WsHeader::Frame { opcode, masked, key, header_len, payload_len, .. } => {
            let end = header_len + payload_len;
            if end > data.len() || end == 0 {
                (s, data, None)
            } else {
                let (t, code) = ws_frame_step(
                    s,
                    opcode,
                    masked,
                    key,
                    data.subrange(header_len as int, end as int),
                );
                if code is Some {
                    (t, data, code)
                } else {
                    ws_walk(t, data.skip(end as int))
                }
            }
        },
    }
}

/// Take in the payload of one DATA frame: it follows what was left of those before.
/// More than a slot may hold closes the tunnel.
pub open spec fn ws_payload_step(s: SlotModel, payload: Seq<u8>) -> (SlotModel, Option<u16>) {
    let data = s.ws_data + payload;
    if data.len() > H3_RECV_BUF {
        (ws_closed(s, CLOSE_MESSAGE_TOO_BIG), Some(CLOSE_MESSAGE_TOO_BIG))
    } else {
        let (t, rest, code) = ws_walk(s, data);
        (SlotModel { ws_data: rest, ..t }, code)
    }
}

/// Take in the whole HTTP/3 frames at the front of `buf`. Only DATA frames matter.
pub open spec fn tunnel_walk(s: SlotModel, buf: Seq<u8>) -> (SlotModel, Seq<u8>, Option<u16>)
    decreases buf.len(),
{
    match frame_at(buf) {
        None => (s, buf, None),
        Some(f) => {
            proof {
                lemma_frame_bounds(buf);
            }
            if f.frame_type != H3_FRAME_DATA {
                tunnel_walk(s, buf.skip(f.end))
            } else {
                let (t, code) = ws_payload_step(s, payload_of(buf, f));
                if code is Some {
                    (t, buf, code)
                } else {
                    tunnel_walk(t, buf.skip(f.end))
                }
            }
        },
    }
}

/// What bytes on a tunnel come to.
pub open spec fn tunnel_step(s: SlotModel, data: Seq<u8>) -> (SlotModel, H3StreamOutcome) {
    let buf = s.ws + data;
    if buf.len() > H3_RECV_BUF {
        (
            ws_closed(s, CLOSE_MESSAGE_TOO_BIG),
            H3StreamOutcome::WebSocketClosed(CLOSE_MESSAGE_TOO_BIG),
        )
    } else {
        let (t, rest, code) = tunnel_walk(s, buf);
        let u = SlotModel { ws: rest, ..t };
        match code {
            Some(c) => (u, H3StreamOutcome::WebSocketClosed(c)),
            None => (
                u,
                if u.pending() > 0 {
                    H3StreamOutcome::WebSocketFrame(u.pending() as usize)
                } else {
                    H3StreamOutcome::Buffered
                },
            ),
        }
    }
}

/// A WebSocket frame may be spread over any number of DATA frames: taking in what came
/// first and then the rest behind what was left is taking in all of it, unless the
/// first part closed the tunnel.
pub proof fn law_tunnel_frames_may_be_split(s: SlotModel, a: Seq<u8>, b: Seq<u8>)
    requires
        ws_walk(s, a).2 is None,
    ensures
        ws_walk(ws_walk(s, a).0, ws_walk(s, a).1 + b) == ws_walk(s, a + b),
    decreases a.len(),
{
    match ws_header_at(a) {
        WsHeader::Frame { opcode, masked, key, header_len, payload_len, .. } => {
            lemma_ws_header_prefix(a, b);
            let end = header_len + payload_len;
            if end <= a.len() && end > 0 {
                assert((a + b).subrange(header_len as int, end as int) =~= a.subrange(
                    header_len as int,
                    end as int,
                ));
                let t = ws_frame_step(
                    s,
                    opcode,
                    masked,
                    key,
                    a.subrange(header_len as int, end as int),
                ).0;
                assert((a + b).skip(end as int) =~= a.skip(end as int) + b);
                law_tunnel_frames_may_be_split(t, a.skip(end as int), b);
            }
        },
        _ => {},
    }
}

/// A tunnel echoes: what a client masked comes back plain and whole, under the same
/// opcode; a ping's payload comes back as a pong.
pub proof fn law_tunnel_echoes(s: SlotModel, opcode: u8, key: Seq<u8>, payload: Seq<u8>)
    requires
        payload.len() <= H3_WS_PAYLOAD_MAX,
        opcode != OP_CLOSE,
        opcode != OP_PONG,
    ensures
        ws_frame_step(s, opcode, true, key, masked_with(payload, key)) == (
            ws_queued(
                s,
                if opcode == OP_PING {
                    OP_PONG
                } else {
                    opcode
                },
                payload,
            ),
            None::<u16>,
        ),
{
    lemma_mask_involution(payload, key);
}

/// What a client sends comes back: the bytes of a masked message or ping queue the payload
/// as the client had it, a ping's as a pong, and what follows is taken in behind it.
pub proof fn law_tunnel_echoes_clients(
    s: SlotModel,
    fin: bool,
    opcode: u8,
    key: Seq<u8>,
    payload: Seq<u8>,
    rest: Seq<u8>,
)
    requires
        key.len() == 4,
        payload.len() <= H3_WS_PAYLOAD_MAX,
        opcode <= 2 || (opcode == 9 && fin && payload.len() <= 125),
    ensures
        ({
            let answer = frame_bytes(
                H3_FRAME_DATA,
                ws_frame_bytes(
                    true,
                    if opcode == 9 {
                        10
                    } else {
                        opcode
                    },
                    payload,
                ),
            );
            ws_walk(s, client_frame(fin, opcode, key, payload) + rest) == ws_walk(
                if s.send.len() + answer.len() <= H3_SEND_BUF {
                    SlotModel { send: s.send + answer, ..s }
                } else {
                    s
                },
                rest,
            )
        }),
{
    let buf = client_frame(fin, opcode, key, payload) + rest;
    law_client_frame_reads_back(fin, opcode, key, payload, rest);
    let end = client_frame(fin, opcode, key, payload).len() as int;
    assert(buf.skip(end) =~= rest);
}

proof fn lemma_ws_walk_frame(s: SlotModel, data: Seq<u8>)
    requires
        s.wf(),
    ensures
        ws_walk(s, data).0.wf(),
        ws_walk(s, data).0.ws == s.ws,
        ws_walk(s, data).1.len() <= data.len(),
    decreases data.len(),
{
    match ws_header_at(data) {
        WsHeader::Frame { opcode, masked, key, header_len, payload_len, .. } => {
            let end = header_len + payload_len;
            if end <= data.len() && end > 0 {
                let (t, code) = ws_frame_step(
                    s,
                    opcode,
                    masked,
                    key,
                    data.subrange(header_len as int, end as int),
                );
                if code is None {
                    lemma_ws_walk_frame(t, data.skip(end as int));
                }
            }
        },
        _ => {},
    }
}

proof fn lemma_tunnel_walk_frame(s: SlotModel, buf: Seq<u8>)
    requires
        s.wf(),
    ensures
        tunnel_walk(s, buf).0.wf(),
        tunnel_walk(s, buf).0.ws == s.ws,
        tunnel_walk(s, buf).1.len() <= buf.len(),
    decreases buf.len(),
{
    lemma_frame_bounds(buf);
    if let Some(f) = frame_at(buf) {
        if f.frame_type != H3_FRAME_DATA {
            lemma_tunnel_walk_frame(s, buf.skip(f.end));
        } else {
            lemma_ws_walk_frame(s, s.ws_data + payload_of(buf, f));
            let (t, code) = ws_payload_step(s, payload_of(buf, f));
            if code is None {
                lemma_tunnel_walk_frame(t, buf.skip(f.end));
            }
        }
    }
}

/// Feeding a tunnel keeps its slot within its bounds.
pub proof fn lemma_tunnel_step_wf(s: SlotModel, data: Seq<u8>)
    requires
        s.wf(),
    ensures
        tunnel_step(s, data).0.wf(),
{
    lemma_tunnel_walk_frame(s, s.ws + data);
}

impl H3StreamSlot {
    /// Queue one server-to-client WebSocket frame, wrapped in an HTTP/3 DATA frame.
    pub fn ws_queue_frame(&mut self, opcode: u8, payload: &[u8])
        requires
            old(self)@.wf(),
            opcode < 0x80,
            payload@.len() <= H3_WS_PAYLOAD_MAX,
        ensures
            final(self)@ == ws_queued(old(self)@, opcode, payload@),
            final(self)@.wf(),
    {
        let w: Vec<u8> = write_frame(true, opcode, payload);
        assert(w@.len() <= H3_WS_PAYLOAD_MAX + 10);
        let mut framed: Vec<u8> = frame_header_vec(H3_FRAME_DATA, w.len() as u64);
        extend(&mut framed, w.as_slice());
        assert(framed@ == frame_bytes(H3_FRAME_DATA, w@));
        if self.send_buf.len() + framed.len() > H3_SEND_BUF {
            return;
        }
        extend(&mut self.send_buf, framed.as_slice());
        assert(self@ =~= ws_queued(old(self)@, opcode, payload@));
    }

    /// Queue a CLOSE frame and end the tunnel.
    pub fn ws_queue_close(&mut self, code: u16) -> (r: H3StreamOutcome)
        requires
            old(self)@.wf(),
        ensures
            final(self)@ == ws_closed(old(self)@, code),
            final(self)@.wf(),
            r == H3StreamOutcome::WebSocketClosed(code),
    {
        let body: Vec<u8> = vec![(code / 256) as u8, (code % 256) as u8];
        assert(body@ =~= close_body(code));
        self.ws_queue_frame(OP_CLOSE, body.as_slice());
        self.ws_active = false;
        assert(self@ =~= ws_closed(old(self)@, code));
        H3StreamOutcome::WebSocketClosed(code)
    }

    /// Take in one whole WebSocket frame.
    fn ws_take_frame(&mut self, opcode: u8, masked: bool, key: &[u8; 4], payload: &[u8]) -> (r:
        Option<u16>)
        requires
            old(self)@.wf(),
            opcode < 0x80,
        ensures
            (final(self)@, r) == ws_frame_step(old(self)@, opcode, masked, key@, payload@),
            final(self)@.wf(),
    {
        if !masked {
            self.ws_queue_close(CLOSE_PROTOCOL_ERROR);
            return Some(CLOSE_PROTOCOL_ERROR);
        }
        if payload.len() > H3_WS_PAYLOAD_MAX {
            self.ws_queue_close(CLOSE_MESSAGE_TOO_BIG);
            return Some(CLOSE_MESSAGE_TOO_BIG);
        }
        if opcode == OP_CLOSE {
            self.ws_queue_close(CLOSE_NORMAL);
            return Some(CLOSE_NORMAL);
        }
        let data: Vec<u8> = unmask(payload, key);
        if opcode == OP_PING {
            self.ws_queue_frame(OP_PONG, data.as_slice());
        } else if opcode != OP_PONG {
            self.ws_queue_frame(opcode, data.as_slice());
        }
        None
    }

    /// Take in the payload of one DATA frame. Returns the close code, if the tunnel
    /// closed.
    pub fn ws_drain_payload(&mut self, payload: &[u8]) -> (r: Option<u16>)
        requires
            old(self)@.wf(),
        ensures
            (final(self)@, r) == ws_payload_step(old(self)@, payload@),
            final(self)@.wf(),
    {
        let ghost s0 = self@;
        let ghost want = ws_payload_step(s0, payload@);
        proof {
            lemma_ws_walk_frame(s0, s0.ws_data + payload@);
        }
        if payload.len() > H3_RECV_BUF - self.ws_data.len() {
            self.ws_queue_close(CLOSE_MESSAGE_TOO_BIG);
            return Some(CLOSE_MESSAGE_TOO_BIG);
        }
        let mut data: Vec<u8> = to_vec(self.ws_data.as_slice());
        extend(&mut data, payload);
        let ghost all = data@;
        assert(all =~= s0.ws_data + payload@);
        let mut pos: usize = 0;
        let mut code: Option<u16> = None;
        assert(data@.skip(0) =~= data@);
        loop
            invariant_except_break
                ws_walk(self@, data@.skip(pos as int)) == ws_walk(s0, all),
                code is None,
            invariant
                pos <= data@.len(),
                data@ == all,
                self@.wf(),
            ensures
                (self@, data@.skip(pos as int), code) == ws_walk(s0, all),
            decreases data@.len() - pos,
        {
            let rest = slice_subrange(data.as_slice(), pos, data.len());
            assert(rest@ =~= data@.skip(pos as int));
            match parse_frame(rest) {
                Ok(Some(f)) => {
                    let hl: usize = f.header_len;
                    if f.payload_len > (rest.len() - hl) as u64 {
                        break;
                    }
                    let end: usize = hl + f.payload_len as usize;
                    let body = slice_subrange(rest, hl, end);
                    let c = self.ws_take_frame(f.opcode, f.masked, &f.mask_key, body);
                    if c.is_some() {
                        code = c;
                        break;
                    }
                    assert(rest@.skip(end as int) =~= data@.skip(pos + end));
                    pos += end;
                },
                Ok(None) => {
                    break;
                },
                Err(_) => {
                    self.ws_queue_close(CLOSE_PROTOCOL_ERROR);
                    code = Some(CLOSE_PROTOCOL_ERROR);
                    break;
                },
            }
        }
        let left: Vec<u8> = to_vec(slice_subrange(data.as_slice(), pos, data.len()));
        assert(left@ =~= data@.skip(pos as int));
        self.ws_data = left;
        assert(self@ =~= want.0);
        code
    }

    /// Take in tunnel bytes: the frames ride HTTP/3 DATA frames.
    pub fn ws_stream_in(&mut self, data: &[u8]) -> (r: H3StreamOutcome)
        requires
            old(self)@.wf(),
        ensures
            (final(self)@, r) == tunnel_step(old(self)@, data@),
            final(self)@.wf(),
    {
        let ghost s0 = self@;
        let ghost want = tunnel_step(s0, data@);
        proof {
            lemma_tunnel_step_wf(s0, data@);
        }
        if data.len() > H3_RECV_BUF - self.ws_buf.len() {
            return self.ws_queue_close(CLOSE_MESSAGE_TOO_BIG);
        }
        let mut buf: Vec<u8> = to_vec(self.ws_buf.as_slice());
        extend(&mut buf, data);
        let ghost all = buf@;
        assert(all =~= s0.ws + data@);
        let mut pos: usize = 0;
        let mut code: Option<u16> = None;
        assert(buf@.skip(0) =~= buf@);
        loop
            invariant_except_break
                tunnel_walk(self@, buf@.skip(pos as int)) == tunnel_walk(s0, all),
                code is None,
            invariant
                pos <= buf@.len(),
                buf@ == all,
                self@.wf(),
            ensures
                (self@, buf@.skip(pos as int), code) == tunnel_walk(s0, all),
            decreases buf@.len() - pos,
        {
            let rest = slice_subrange(buf.as_slice(), pos, buf.len());
            assert(rest@ =~= buf@.skip(pos as int));
            match parse_h3_frame(rest) {
                Some((f, n)) => {
                    if f.frame_type == H3_FRAME_DATA {
                        let c = self.ws_drain_payload(f.payload);
                        if c.is_some() {
                            code = c;
                            break;
                        }
                    }
                    assert(rest@.skip(n as int) =~= buf@.skip(pos + n));
                    pos += n;
                },
                None => {
                    break;
                },
            }
        }
        let left: Vec<u8> = to_vec(slice_subrange(buf.as_slice(), pos, buf.len()));
        assert(left@ =~= buf@.skip(pos as int));
        self.ws_buf = left;
        assert(self@ =~= want.0);
        match code {
            Some(c) => H3StreamOutcome::WebSocketClosed(c),
            None => {
                let n: usize = self.pending_out();
                if n > 0 {
                    H3StreamOutcome::WebSocketFrame(n)
                } else {
                    H3StreamOutcome::Buffered
                }
            },
        }
    }
}

} // verus!
