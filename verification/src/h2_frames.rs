//! HTTP/2 frames as they arrive, and what each comes to.

use crate::bytes::{extend, to_vec};
use crate::conn::RECV_BUF_SIZE;
use crate::h2::{
    conn_received, in_state, lemma_stream_of, settings_applied, stream_of, stream_received, window_raised,
    Freed, H2Model, H2State, StreamModel, StreamState, Sub, MAX_STREAMS,
};
use crate::h2_request::{ended_with, headers_taken, DoneModel, FrameDone};
use crate::h2_wire::{
    be32_at, data_of, data_payload, flag_set, frame_head_at, get_be32, goaway, h2_frame, parse_header, rst_stream,
    settings_ack, write_goaway, write_ping_ack, write_rst_stream, write_settings_ack, FrameHead,
    ERR_ENHANCE_YOUR_CALM, ERR_FRAME_SIZE_ERROR, ERR_PROTOCOL_ERROR, ERR_STREAM_CLOSED, FLAG_ACK,
    FLAG_END_STREAM, FRAME_CONTINUATION, FRAME_DATA, FRAME_GOAWAY, FRAME_HEADERS, FRAME_HEADER_LEN, FRAME_PING,
    FRAME_PUSH_PROMISE, FRAME_RST_STREAM, FRAME_SETTINGS, FRAME_WINDOW_UPDATE,
};
use crate::h2_ws::{lemma_one_keeps_others, lemma_tunnel_keeps_others, tunnel_data};
use crate::reqbody::{body_cap, body_limit};
use crate::routes::Route;
use vstd::prelude::*;
use vstd::slice::slice_subrange;

verus! {

// ── DATA ────────────────────────────────────────────────────────────────

/// The data of a DATA frame. An empty frame has none, whatever its flags say.
pub open spec fn data_in(payload: Seq<u8>, flags: u8) -> Option<Seq<u8>> {
    if payload.len() == 0 {
        Some(payload)
    } else {
        data_of(payload, flags)
    }
}

/// A stream's request after data, which may end it.
pub open spec fn body_grown(st: StreamModel, data: Seq<u8>, end: bool) -> StreamModel {
    StreamModel {
        body: st.body + data,
        ended: st.ended || end,
        state: if end && st.state is Open {
            StreamState::Pending
        } else {
            st.state
        },
        ..st
    }
}

/// What a DATA frame comes to.
pub open spec fn data_taken(m: H2Model, h: FrameHead, payload: Seq<u8>, max_body: u32) -> (H2Model, DoneModel) {
    if h.stream_id == 0 {
        (m, DoneModel::failed(ERR_PROTOCOL_ERROR))
    } else {
        let c = conn_received(m, h.length);
        match stream_of(m.streams, h.stream_id, 0) {
            None => (c, DoneModel::sent(rst_stream(h.stream_id, ERR_STREAM_CLOSED))),
            Some(i) => {
                let st = stream_received(m.streams[i], h.length);
                let n = c.with_stream(i, st);
                if st.state is WsActive {
                    let (k, out, freed) = tunnel_data(n, payload);
                    (k, DoneModel { freed, ..DoneModel::sent(out) })
                } else {
                    match data_in(payload, h.flags) {
                        None => (n, DoneModel::failed(ERR_PROTOCOL_ERROR)),
                        Some(d) => if d.len() > 0 && st.body.len() + d.len() > body_limit(max_body) {
                            ended_with(n, i, rst_stream(h.stream_id, ERR_ENHANCE_YOUR_CALM))
                        } else {
                            let end = flag_set(h.flags, FLAG_END_STREAM);
                            (
                                c.with_stream(i, body_grown(st, d, end)),
                                DoneModel { dispatch: end, ..DoneModel::nothing() },
                            )
                        },
                    }
                }
            },
        }
    }
}

impl H2State {
    /// Add to a stream's body, up to the limit. Returns whether it fits.
    #[verifier::rlimit(40)]
    fn append_stream_body(&mut self, i: usize, data: &[u8], end: bool, max_body: u32) -> (r: bool)
        requires
            old(self).wf(),
            i < MAX_STREAMS,
            !(old(self)@.streams[i as int].state is Idle),
        ensures
            final(self).wf(),
            r == !(data@.len() > 0 && old(self)@.streams[i as int].body.len() + data@.len()
                > body_limit(max_body)),
            r ==> final(self)@ == old(self)@.with_stream(
                i as int,
                body_grown(old(self)@.streams[i as int], data@, end),
            ),
            !r ==> final(self)@ == old(self)@,
    {
        assert(self@.streams[i as int] == self.streams@[i as int]@);
        assert(self@.streams[i as int].wf());
        let cap: usize = body_cap(max_body) as usize;
        let have: usize = self.streams[i].body.len();
        if data.len() > 0 && (have > cap || data.len() > cap - have) {
            return false;
        }
        let ghost st = old(self)@.streams[i as int];
        extend(&mut self.streams[i].body, data);
        if end {
            self.streams[i].ended = true;
            if self.streams[i].state == StreamState::Open {
                self.streams[i].state = StreamState::Pending;
            }
        }
        proof {
            let grown = body_grown(st, data@, end);
            assert(self.streams@ =~= old(self).streams@.update(i as int, self.streams@[i as int]));
            assert(self.streams@[i as int]@ =~= grown);
            assert(self@.streams =~= old(self)@.streams.update(i as int, grown));
            assert(self@ =~= old(self)@.with_stream(i as int, grown));
        }
        true
    }

    /// Act on a DATA frame.
    pub fn handle_data(&mut self, h: FrameHead, payload: &[u8], max_body: u32) -> (r: FrameDone)
        requires
            old(self).wf(),
        ensures
            final(self).wf(),
            (final(self)@, r@) == data_taken(old(self)@, h, payload@, max_body),
    {
        if h.stream_id == 0 {
            return FrameDone::failed(ERR_PROTOCOL_ERROR);
        }
        proof {
            lemma_stream_of(self@.streams, h.stream_id, 0);
        }
        self.consume_recv_window(h.length);
        let i: usize = match self.slot_for_id(h.stream_id) {
            Some(i) => i,
            None => {
                return FrameDone::sent(write_rst_stream(h.stream_id, ERR_STREAM_CLOSED));
            },
        };
        self.consume_slot_recv_window(i, h.length);
        assert(self@.streams[i as int] == self.streams@[i as int]@);
        if self.streams[i].state == StreamState::WsActive {
            let (out, freed) = self.ws_handle_data(payload);
            let r = FrameDone { out, error: None, freed, refused: false, dispatch: false };
            return r;
        }
        let data = if payload.len() == 0 {
            payload
        } else {
            match data_payload(payload, h.flags) {
                Some(d) => d,
                None => {
                    return FrameDone::failed(ERR_PROTOCOL_ERROR);
                },
            }
        };
        let end = h.flags / FLAG_END_STREAM % 2 == 1;
        let ghost before = self@;
        if !self.append_stream_body(i, data, end, max_body) {
            return self.end_with(i, write_rst_stream(h.stream_id, ERR_ENHANCE_YOUR_CALM));
        }
        proof {
            let grown = body_grown(before.streams[i as int], data@, end);
            let c = conn_received(old(self)@, h.length);
            assert(before.streams.update(i as int, grown) =~= c.streams.update(i as int, grown));
            assert(before.with_stream(i as int, grown) =~= c.with_stream(i as int, grown));
        }
        let r = FrameDone {
            out: Vec::new(),
            error: None,
            freed: Freed::none(),
            refused: false,
            dispatch: end,
        };
        assert(r@ =~= DoneModel { dispatch: end, ..DoneModel::nothing() });
        r
    }
}

// ── The connection's own frames ─────────────────────────────────────────

/// What a SETTINGS frame comes to.
pub open spec fn settings_taken(m: H2Model, h: FrameHead, payload: Seq<u8>) -> (H2Model, DoneModel) {
    if h.stream_id != 0 {
        (m, DoneModel::failed(ERR_PROTOCOL_ERROR))
    } else if flag_set(h.flags, FLAG_ACK) {
        if h.length != 0 {
            (m, DoneModel::failed(ERR_FRAME_SIZE_ERROR))
        } else {
            (H2Model { settings_acked: true, ..m }, DoneModel::nothing())
        }
    } else if h.length % 6 != 0 {
        (m, DoneModel::failed(ERR_FRAME_SIZE_ERROR))
    } else {
        let (n, err) = settings_applied(m, payload, 0);
        match err {
            Some(code) => (n, DoneModel::failed(code)),
            None => (n, DoneModel::sent(settings_ack())),
        }
    }
}

/// What a PING frame comes to.
pub open spec fn ping_taken(h: FrameHead, payload: Seq<u8>) -> DoneModel {
    if h.stream_id != 0 || h.length != 8 {
        DoneModel::failed(ERR_PROTOCOL_ERROR)
    } else if flag_set(h.flags, FLAG_ACK) {
        DoneModel::nothing()
    } else {
        DoneModel::sent(h2_frame(FRAME_PING, FLAG_ACK, 0, payload))
    }
}

/// What a WINDOW_UPDATE frame comes to.
pub open spec fn window_update_taken(m: H2Model, h: FrameHead, payload: Seq<u8>) -> (H2Model, DoneModel) {
    if h.length != 4 {
        (m, DoneModel::failed(ERR_FRAME_SIZE_ERROR))
    } else {
        let d = be32_at(payload, 0) % 0x8000_0000;
        if d == 0 {
            (m, DoneModel::failed(ERR_PROTOCOL_ERROR))
        } else {
            (window_raised(m, h.stream_id, d), DoneModel::nothing())
        }
    }
}

/// Is nothing being answered or fetched?
pub open spec fn at_rest(m: H2Model) -> bool {
    in_state(m.streams, StreamState::Sending, 0) is None && in_state(
        m.streams,
        StreamState::Fetching,
        0,
    ) is None
}

/// The connection goes back to reading where nothing is under way.
pub open spec fn resting(m: H2Model) -> H2Model {
    if at_rest(m) && !(m.sub is Closing) {
        H2Model { sub: Sub::Active, cursor: None, ..m }
    } else {
        m
    }
}

/// What the peer's end of a stream comes to.
pub open spec fn reset_taken(m: H2Model, stream_id: u32) -> (H2Model, DoneModel) {
    match stream_of(m.streams, stream_id, 0) {
        None => (m, DoneModel::nothing()),
        Some(i) => {
            let n = m.freed(i);
            let k = if m.streams[i].state is WsActive {
                H2Model { ws_stream: None, ws_buf: Seq::empty(), ..n }
            } else {
                n
            };
            (resting(k), DoneModel { freed: m.freeing(i), ..DoneModel::nothing() })
        },
    }
}

impl H2State {
    /// Act on a SETTINGS frame.
    pub fn handle_settings(&mut self, h: FrameHead, payload: &[u8]) -> (r: FrameDone)
        requires
            old(self).wf(),
        ensures
            final(self).wf(),
            (final(self)@, r@) == settings_taken(old(self)@, h, payload@),
    {
        if h.stream_id != 0 {
            return FrameDone::failed(ERR_PROTOCOL_ERROR);
        }
        if h.flags / FLAG_ACK % 2 == 1 {
            if h.length != 0 {
                return FrameDone::failed(ERR_FRAME_SIZE_ERROR);
            }
            self.settings_acked = true;
            assert(self@ =~= (H2Model { settings_acked: true, ..old(self)@ }));
            return FrameDone::nothing();
        }
        if h.length % 6 != 0 {
            return FrameDone::failed(ERR_FRAME_SIZE_ERROR);
        }
        match self.apply_settings(payload) {
            Some(code) => FrameDone::failed(code),
            None => FrameDone::sent(write_settings_ack()),
        }
    }

    /// Act on a WINDOW_UPDATE frame.
    pub fn handle_window_update(&mut self, h: FrameHead, payload: &[u8]) -> (r: FrameDone)
        requires
            old(self).wf(),
            payload@.len() == h.length,
        ensures
            final(self).wf(),
            (final(self)@, r@) == window_update_taken(old(self)@, h, payload@),
    {
        if h.length != 4 {
            return FrameDone::failed(ERR_FRAME_SIZE_ERROR);
        }
        let d: u32 = get_be32(payload, 0) % 0x8000_0000;
        if d == 0 {
            return FrameDone::failed(ERR_PROTOCOL_ERROR);
        }
        self.raise_send_window(h.stream_id, d);
        FrameDone::nothing()
    }

    /// Go back to reading where nothing is being answered or fetched.
    pub fn rest(&mut self)
        requires
            old(self).wf(),
        ensures
            final(self).wf(),
            final(self)@ == resting(old(self)@),
    {
        if self.sub != Sub::Closing && self.find_state(StreamState::Sending, 0).is_none()
            && self.find_state(StreamState::Fetching, 0).is_none() {
            self.sub = Sub::Active;
            self.cursor = None;
        }
        assert(self@ =~= resting(old(self)@));
    }

    /// Act on the peer's end of a stream.
    pub fn handle_rst_stream(&mut self, stream_id: u32) -> (r: FrameDone)
        requires
            old(self).wf(),
        ensures
            final(self).wf(),
            (final(self)@, r@) == reset_taken(old(self)@, stream_id),
    {
        proof {
            lemma_stream_of(self@.streams, stream_id, 0);
        }
        let i: usize = match self.slot_for_id(stream_id) {
            Some(i) => i,
            None => {
                return FrameDone::nothing();
            },
        };
        assert(self@.streams[i as int] == self.streams@[i as int]@);
        let tunnel = self.streams[i].state == StreamState::WsActive;
        let freed = self.free_stream(i);
        let ghost n = self@;
        if tunnel {
            proof {
                assert forall|k: int| 0 <= k < MAX_STREAMS implies !((
                #[trigger] self@.streams[k]).state is WsActive) by {
                    if k != i && n.streams[k].state is WsActive {
                        assert(old(self)@.streams[k].state is WsActive);
                        assert(old(self)@.ws_stream == Some(old(self)@.streams[k].id));
                        assert(old(self)@.ws_stream == Some(old(self)@.streams[i as int].id));
                    }
                }
            }
            self.ws_stream = None;
            self.ws_buf = Vec::new();
            assert(self@ =~= (H2Model { ws_stream: None, ws_buf: Seq::empty(), ..n }));
        }
        self.rest();
        let r = FrameDone {
            out: Vec::new(),
            error: None,
            freed,
            refused: false,
            dispatch: false,
        };
        assert(r@ =~= DoneModel { freed, ..DoneModel::nothing() });
        r
    }
}

/// Act on a PING frame.
pub fn handle_ping(h: FrameHead, payload: &[u8]) -> (r: FrameDone)
    ensures
        r@ == ping_taken(h, payload@),
{
    if h.stream_id != 0 || h.length != 8 {
        return FrameDone::failed(ERR_PROTOCOL_ERROR);
    }
    if h.flags / FLAG_ACK % 2 == 1 {
        return FrameDone::nothing();
    }
    FrameDone::sent(write_ping_ack(payload))
}

// ── Frames ──────────────────────────────────────────────────────────────

/// What a frame comes to, before an error in it has been answered.
pub open spec fn frame_effect(
    m: H2Model,
    h: FrameHead,
    payload: Seq<u8>,
    routes: Seq<Route>,
    max_body: u32,
) -> (H2Model, DoneModel) {
    if h.kind == FRAME_SETTINGS {
        settings_taken(m, h, payload)
    } else if h.kind == FRAME_PING {
        (m, ping_taken(h, payload))
    } else if h.kind == FRAME_HEADERS {
        headers_taken(m, h, payload, routes)
    } else if h.kind == FRAME_DATA {
        data_taken(m, h, payload, max_body)
    } else if h.kind == FRAME_WINDOW_UPDATE {
        window_update_taken(m, h, payload)
    } else if h.kind == FRAME_RST_STREAM {
        reset_taken(m, h.stream_id)
    } else if h.kind == FRAME_GOAWAY {
        (H2Model { sub: Sub::Closing, ..m }, DoneModel::nothing())
    } else if h.kind == FRAME_PUSH_PROMISE || h.kind == FRAME_CONTINUATION {
        (m, DoneModel::failed(ERR_PROTOCOL_ERROR))
    } else {
        (m, DoneModel::nothing())
    }
}

/// A connection that ends with an error: the peer is told, and which stream was the last.
pub open spec fn connection_failed(m: H2Model, done: DoneModel, code: u32) -> (H2Model, DoneModel) {
    (
        H2Model { sub: Sub::Closing, ..m },
        DoneModel { out: goaway(m.last_stream_id, code), error: Some(code), ..done },
    )
}

/// What a frame comes to.
pub open spec fn frame_taken(
    m: H2Model,
    h: FrameHead,
    payload: Seq<u8>,
    routes: Seq<Route>,
    max_body: u32,
) -> (H2Model, DoneModel) {
    let (n, done) = frame_effect(m, h, payload, routes, max_body);
    match done.error {
        Some(code) => connection_failed(n, done, code),
        None => (n, done),
    }
}

/// Is there a frame at the front of what was received?
#[derive(Clone, Copy, PartialEq, Eq, Structural, Debug)]
pub enum FrameStatus {
    Complete,
    NeedMore,
    /// The peer announced a frame that can never be held.
    TooBig,
}

pub open spec fn frame_status(rx: Seq<u8>) -> FrameStatus {
    match frame_head_at(rx) {
        None => FrameStatus::NeedMore,
        Some(h) => if FRAME_HEADER_LEN + h.length > RECV_BUF_SIZE {
            FrameStatus::TooBig
        } else if FRAME_HEADER_LEN + h.length > rx.len() {
            FrameStatus::NeedMore
        } else {
            FrameStatus::Complete
        },
    }
}

/// What the frame at the front of `rx` comes to, and what is left of `rx`.
pub open spec fn received(m: H2Model, rx: Seq<u8>, routes: Seq<Route>, max_body: u32) -> Option<
    (H2Model, DoneModel, Seq<u8>),
> {
    match frame_status(rx) {
        FrameStatus::NeedMore => None,
        FrameStatus::TooBig => {
            let (n, done) = connection_failed(m, DoneModel::nothing(), ERR_FRAME_SIZE_ERROR);
            Some((n, done, rx))
        },
        FrameStatus::Complete => {
            let h = frame_head_at(rx)->0;
            let end = FRAME_HEADER_LEN + h.length;
            let payload = rx.subrange(FRAME_HEADER_LEN as int, end);
            let (n, done) = frame_taken(m, h, payload, routes, max_body);
            Some((n, done, rx.skip(end)))
        },
    }
}

pub fn peek_frame_complete(rx: &[u8]) -> (r: FrameStatus)
    ensures
        r == frame_status(rx@),
{
    match parse_header(rx) {
        None => FrameStatus::NeedMore,
        Some(h) => {
            let total: u64 = FRAME_HEADER_LEN as u64 + h.length as u64;
            if total > RECV_BUF_SIZE as u64 {
                FrameStatus::TooBig
            } else if total > rx.len() as u64 {
                FrameStatus::NeedMore
            } else {
                FrameStatus::Complete
            }
        },
    }
}

impl H2State {
    /// End the connection with an error.
    fn queue_goaway(&mut self, done: FrameDone, code: u32) -> (r: FrameDone)
        requires
            old(self).wf(),
        ensures
            final(self).wf(),
            (final(self)@, r@) == connection_failed(old(self)@, done@, code),
    {
        let out: Vec<u8> = write_goaway(self.last_stream_id, code);
        self.sub = Sub::Closing;
        assert(self@ =~= (H2Model { sub: Sub::Closing, ..old(self)@ }));
        let r = FrameDone {
            out,
            error: Some(code),
            freed: done.freed,
            refused: done.refused,
            dispatch: done.dispatch,
        };
        r
    }

    fn act_on_frame(&mut self, h: FrameHead, payload: &[u8], routes: &Vec<Route>, max_body: u32) -> (r: FrameDone)
        requires
            old(self).wf(),
            payload@.len() == h.length,
        ensures
            final(self).wf(),
            (final(self)@, r@) == frame_effect(old(self)@, h, payload@, routes@, max_body),
    {
        if h.kind == FRAME_SETTINGS {
            self.handle_settings(h, payload)
        } else if h.kind == FRAME_PING {
            handle_ping(h, payload)
        } else if h.kind == FRAME_HEADERS {
            self.handle_headers(h, payload, routes)
        } else if h.kind == FRAME_DATA {
            self.handle_data(h, payload, max_body)
        } else if h.kind == FRAME_WINDOW_UPDATE {
            self.handle_window_update(h, payload)
        } else if h.kind == FRAME_RST_STREAM {
            self.handle_rst_stream(h.stream_id)
        } else if h.kind == FRAME_GOAWAY {
            self.sub = Sub::Closing;
            assert(self@ =~= (H2Model { sub: Sub::Closing, ..old(self)@ }));
            FrameDone::nothing()
        } else if h.kind == FRAME_PUSH_PROMISE || h.kind == FRAME_CONTINUATION {
            FrameDone::failed(ERR_PROTOCOL_ERROR)
        } else {
            FrameDone::nothing()
        }
    }

    /// Act on the frame at the front of `rx` and take it off. `None` when it is not there
    /// in full.
    pub fn process_one_frame(&mut self, rx: &mut Vec<u8>, routes: &Vec<Route>, max_body: u32) -> (r: Option<
        FrameDone,
    >)
        requires
            old(self).wf(),
        ensures
            final(self).wf(),
            match received(old(self)@, old(rx)@, routes@, max_body) {
                None => r is None && *final(self) == *old(self) && *final(rx) == *old(rx),
                Some((m, done, rest)) => {
                    &&& r is Some
                    &&& final(self)@ == m
                    &&& r->0@ == done
                    &&& final(rx)@ == rest
                },
            },
    {
        match peek_frame_complete(rx.as_slice()) {
            FrameStatus::NeedMore => {
                return None;
            },
            FrameStatus::TooBig => {
                return Some(self.queue_goaway(FrameDone::nothing(), ERR_FRAME_SIZE_ERROR));
            },
            FrameStatus::Complete => {},
        }
        let h = match parse_header(rx.as_slice()) {
            Some(h) => h,
            None => {
                return None;
            },
        };
        let end: usize = FRAME_HEADER_LEN + h.length as usize;
        let payload = slice_subrange(rx.as_slice(), FRAME_HEADER_LEN, end);
        let done = self.act_on_frame(h, payload, routes, max_body);
        let rest: Vec<u8> = to_vec(slice_subrange(rx.as_slice(), end, rx.len()));
        assert(rest@ =~= old(rx)@.skip(end as int));
        *rx = rest;
        match done.error {
            Some(code) => Some(self.queue_goaway(done, code)),
            None => Some(done),
        }
    }
}

// ── Laws ────────────────────────────────────────────────────────────────

/// How frames are cut into segments does not matter: more bytes behind a frame change
/// nothing of what it comes to.
pub proof fn law_h2_frames_may_be_split(
    m: H2Model,
    rx: Seq<u8>,
    more: Seq<u8>,
    routes: Seq<Route>,
    max_body: u32,
)
    requires
        received(m, rx, routes, max_body) is Some,
    ensures
        ({
            let (n, done, rest) = received(m, rx, routes, max_body)->0;
            received(m, rx + more, routes, max_body) == Some((n, done, rest + more))
        }),
{
    let all = rx + more;
    assert(forall|i: int| 0 <= i < 9 ==> all[i] == rx[i]);
    assert(frame_head_at(all) == frame_head_at(rx));
    if frame_status(rx) is Complete {
        let h = frame_head_at(rx)->0;
        let end = FRAME_HEADER_LEN + h.length;
        assert(all.subrange(FRAME_HEADER_LEN as int, end) =~= rx.subrange(
            FRAME_HEADER_LEN as int,
            end,
        ));
        assert(all.skip(end) =~= rx.skip(end) + more);
    }
}

/// A connection error is always told to the peer, with the last stream that was taken,
/// and ends the connection; nothing brings an ending connection back.
#[verifier::rlimit(40)]
pub proof fn law_connection_error_ends_it(
    m: H2Model,
    h: FrameHead,
    payload: Seq<u8>,
    routes: Seq<Route>,
    max_body: u32,
)
    ensures
        ({
            let (n, done) = frame_taken(m, h, payload, routes, max_body);
            &&& done.error is Some ==> n.sub is Closing && done.out == goaway(
                n.last_stream_id,
                done.error->0,
            )
            &&& m.sub is Closing ==> n.sub is Closing
        }),
{
    if h.kind == FRAME_SETTINGS {
        lemma_settings_keep_sub(m, payload, 0);
    }
    if h.kind == FRAME_DATA {
        lemma_data_keeps_sub(m, h, payload, max_body);
    }
}

proof fn lemma_settings_keep_sub(m: H2Model, p: Seq<u8>, at: int)
    ensures
        settings_applied(m, p, at).0.sub == m.sub,
    decreases p.len() - at,
{
    reveal_with_fuel(settings_applied, 2);
    if 0 <= at && at + 6 <= p.len() {
        let v = be32_at(p, at + 2);
        lemma_settings_keep_sub(m, p, at + 6);
        lemma_settings_keep_sub(crate::h2::peer_window_set(m, v as i32), p, at + 6);
    }
}

proof fn lemma_tunnel_next_keeps_sub(m: H2Model)
    ensures
        crate::h2_ws::tunnel_next(m).0.sub == m.sub,
    decreases m.ws_buf.len(),
{
    reveal(crate::h2_ws::tunnel_one);
    if let Some((n, out, freed)) = crate::h2_ws::tunnel_one(m) {
        if out.len() == 0 && n.ws_buf.len() < m.ws_buf.len() {
            lemma_tunnel_next_keeps_sub(n);
        }
    }
}

proof fn lemma_data_keeps_sub(m: H2Model, h: FrameHead, payload: Seq<u8>, max_body: u32)
    ensures
        data_taken(m, h, payload, max_body).0.sub == m.sub,
{
    if let Some(i) = stream_of(m.streams, h.stream_id, 0) {
        let st = stream_received(m.streams[i], h.length);
        let n = conn_received(m, h.length).with_stream(i, st);
        lemma_tunnel_next_keeps_sub(crate::h2_ws::tunnel_fed(n, payload));
    }
}

/// A body taken in is never over the limit.
pub proof fn law_h2_body_stays_within_limit(m: H2Model, h: FrameHead, payload: Seq<u8>, max_body: u32, i: int)
    requires
        m.wf(),
        stream_of(m.streams, h.stream_id, 0) == Some(i),
        !(m.streams[i].state is WsActive),
        m.streams[i].body.len() <= body_limit(max_body),
    ensures
        data_taken(m, h, payload, max_body).0.streams[i].body.len() <= body_limit(max_body),
{
    lemma_stream_of(m.streams, h.stream_id, 0);
}

/// Data on one stream leaves every other stream as it was.
pub proof fn law_h2_data_stays_on_its_stream(m: H2Model, h: FrameHead, payload: Seq<u8>, max_body: u32, k: int)
    requires
        m.wf(),
        0 <= k < MAX_STREAMS,
        m.streams[k].id != h.stream_id,
    ensures
        data_taken(m, h, payload, max_body).0.streams[k] == m.streams[k],
{
    lemma_stream_of(m.streams, h.stream_id, 0);
    if let Some(i) = stream_of(m.streams, h.stream_id, 0) {
        let st = stream_received(m.streams[i], h.length);
        let n = conn_received(m, h.length).with_stream(i, st);
        if st.state is WsActive && h.stream_id != 0 {
            lemma_stream_of(n.streams, n.ws_stream->0, 0);
            assert(m.streams[i].id == h.stream_id);
            if n.ws_stream is Some {
                lemma_tunnel_keeps_others(n, k);
            }
            lemma_tunnel_next_keeps_others(crate::h2_ws::tunnel_fed(n, payload), k);
        }
    }
}

proof fn lemma_tunnel_next_keeps_others(m: H2Model, k: int)
    requires
        0 <= k < m.streams.len(),
        m.ws_stream matches Some(id) ==> m.streams[k].id != id,
    ensures
        crate::h2_ws::tunnel_next(m).0.streams[k] == m.streams[k],
    decreases m.ws_buf.len(),
{
    lemma_one_keeps_others(m, k);
    if let Some((n, out, freed)) = crate::h2_ws::tunnel_one(m) {
        if out.len() == 0 && n.ws_buf.len() < m.ws_buf.len() {
            lemma_tunnel_next_keeps_others(n, k);
        }
    }
}

} // verus!
