//! Requests over HTTP/2: the fields of a header block, and the streams they open.

use crate::bytes::{extend, is_text, lit, text, to_vec};
use crate::h2::{in_state, lemma_in_state, Freed, H2Model, H2State, StreamModel, StreamState, H2_HDR_CAP, MAX_STREAMS};
use crate::h2_hold::answer;
use crate::h2_wire::{
    block_of, flag_set, headers_block, headers_frame, rst_stream, write_headers, write_rst_stream, FrameHead,
    ERR_COMPRESSION_ERROR, ERR_PROTOCOL_ERROR, ERR_REFUSED_STREAM, FLAG_END_HEADERS, FLAG_END_STREAM,
    FRAME_HEADERS,
};
use crate::hpack::{
    block_fields, decode_entry, encode_header, entry_at, hpack_block, hpack_bytes, law_hpack_block_reads_back,
};
use crate::method::{
    dispatchable, method_from_token, method_is_dispatchable, method_of, method_sends_response_body,
    sends_response_body, METHOD_CONNECT,
};
use crate::qpack::FieldLine;
use crate::routes::{match_route_path, route_for, Route, HANDLER_WEBSOCKET, MAX_PATH};
use vstd::prelude::*;
use vstd::slice::slice_subrange;

verus! {

// ── The fields of a request ─────────────────────────────────────────────

/// What a header block asks for.
#[verifier::ext_equal]
pub struct RequestModel {
    /// `None` when no method was named.
    pub method: Option<u8>,
    pub path: Seq<u8>,
    pub websocket: bool,
    /// The ordinary fields, one per line, as far as they fit.
    pub fields: Seq<u8>,
}

pub struct H2Request {
    pub method: Option<u8>,
    pub path: Vec<u8>,
    pub websocket: bool,
    pub fields: Vec<u8>,
}

impl View for H2Request {
    type V = RequestModel;

    open spec fn view(&self) -> RequestModel {
        RequestModel {
            method: self.method,
            path: self.path@,
            websocket: self.websocket,
            fields: self.fields@,
        }
    }
}

/// Is this an ordinary field, not one that stands for the request line?
pub open spec fn is_ordinary(f: FieldLine) -> bool {
    f.name.len() > 0 && f.name[0] != 58u8
}

/// A field as a line of text.
pub open spec fn field_line(f: FieldLine) -> Seq<u8> {
    f.name + text(": ") + f.value + text("\r\n")
}

/// The request after one more field.
#[verifier::opaque]
pub open spec fn with_field(r: RequestModel, f: FieldLine) -> RequestModel {
    if f.name == text(":method") {
        RequestModel { method: Some(method_of(f.value)), ..r }
    } else if f.name == text(":path") {
        RequestModel {
            path: if f.value.len() > MAX_PATH {
                f.value.take(MAX_PATH as int)
            } else {
                f.value
            },
            ..r
        }
    } else if f.name == text(":protocol") && f.value == text("websocket") {
        RequestModel { websocket: true, ..r }
    } else if is_ordinary(f) && r.fields.len() + f.name.len() + f.value.len() + 4 <= H2_HDR_CAP {
        RequestModel { fields: r.fields + field_line(f), ..r }
    } else {
        r
    }
}

/// What a list of fields asks for.
pub open spec fn request_of(lines: Seq<FieldLine>) -> RequestModel
    decreases lines.len(),
{
    if lines.len() == 0 {
        RequestModel { method: None, path: Seq::empty(), websocket: false, fields: Seq::empty() }
    } else {
        with_field(request_of(lines.drop_last()), lines.last())
    }
}

proof fn lemma_request_fits(lines: Seq<FieldLine>)
    ensures
        request_of(lines).path.len() <= MAX_PATH,
        request_of(lines).fields.len() <= H2_HDR_CAP,
    decreases lines.len(),
{
    if lines.len() > 0 {
        lemma_request_fits(lines.drop_last());
        reveal(with_field);
        reveal_strlit(": ");
        crate::bytes::lemma_text(": ");
        reveal_strlit("\r\n");
        crate::bytes::lemma_text("\r\n");
    }
}

impl H2Request {
    fn add_field(&mut self, name: &[u8], value: &[u8])
        requires
            old(self).fields@.len() <= H2_HDR_CAP,
        ensures
            final(self)@ == with_field(old(self)@, (FieldLine { name: name@, value: value@ })),
    {
        proof {
            reveal(with_field);
        }
        if is_text(name, ":method") {
            self.method = Some(method_from_token(value));
        } else if is_text(name, ":path") {
            let n: usize = if value.len() > MAX_PATH {
                MAX_PATH
            } else {
                value.len()
            };
            self.path = to_vec(slice_subrange(value, 0, n));
            assert(value@.len() <= MAX_PATH ==> value@.subrange(0, n as int) =~= value@);
            assert(value@.len() > MAX_PATH ==> value@.subrange(0, n as int) =~= value@.take(
                MAX_PATH as int,
            ));
        } else if is_text(name, ":protocol") && is_text(value, "websocket") {
            self.websocket = true;
        } else if name.len() > 0 && name[0] != 58 {
            let room: usize = H2_HDR_CAP - self.fields.len();
            if room >= 4 && name.len() <= room - 4 && value.len() <= room - 4 - name.len() {
                extend(&mut self.fields, name);
                extend(&mut self.fields, lit(": "));
                extend(&mut self.fields, value);
                extend(&mut self.fields, lit("\r\n"));
                assert(self.fields@ =~= old(self).fields@ + field_line(
                    FieldLine { name: name@, value: value@ },
                ));
            }
        }
        assert(self@ =~= with_field(old(self)@, (FieldLine { name: name@, value: value@ })));
    }
}

/// The fields read, followed by those still to be read.
spec fn read_so_far(done: Seq<FieldLine>, rest: Option<Seq<FieldLine>>) -> Option<Seq<FieldLine>> {
    match rest {
        Some(more) => Some(done + more),
        None => None,
    }
}

proof fn lemma_entry_read(done: Seq<FieldLine>, rest: Seq<u8>, f: Option<FieldLine>, n: nat)
    requires
        entry_at(rest) == Some((f, n)),
        1 <= n <= rest.len(),
    ensures
        f matches Some(line) ==> read_so_far(done, block_fields(rest)) == read_so_far(
            done.push(line),
            block_fields(rest.skip(n as int)),
        ),
        f is None ==> read_so_far(done, block_fields(rest)) == read_so_far(
            done,
            block_fields(rest.skip(n as int)),
        ),
{
    if let Some(more) = block_fields(rest.skip(n as int)) {
        if let Some(line) = f {
            assert(done + (seq![line] + more) =~= done.push(line) + more);
        }
    }
}

proof fn lemma_field_added(done: Seq<FieldLine>, line: FieldLine)
    ensures
        request_of(done.push(line)) == with_field(request_of(done), line),
{
    assert(done.push(line).drop_last() =~= done);
}

/// Read a header block. `None` when any of it does not decode.
pub fn decode_request(block: &[u8]) -> (r: Option<H2Request>)
    ensures
        match r {
            Some(q) => block_fields(block@) is Some && q@ == request_of(block_fields(block@)->0),
            None => block_fields(block@) is None,
        },
{
    let mut q = H2Request { method: None, path: Vec::new(), websocket: false, fields: Vec::new() };
    let mut at: usize = 0;
    let ghost mut done: Seq<FieldLine> = Seq::empty();
    assert(q@ =~= request_of(done));
    assert(block@.skip(0) =~= block@);
    proof {
        if let Some(all) = block_fields(block@) {
            assert(done + all =~= all);
        }
    }
    while at < block.len()
        invariant
            at <= block@.len(),
            q@ == request_of(done),
            block_fields(block@) == read_so_far(done, block_fields(block@.skip(at as int))),
        decreases block@.len() - at,
    {
        let rest = slice_subrange(block, at, block.len());
        assert(rest@ =~= block@.skip(at as int));
        match decode_entry(rest) {
            None => {
                assert(rest@.len() > 0);
                return None;
            },
            Some((f, n)) => {
                assert(rest@.skip(n as int) =~= block@.skip(at + n));
                match f {
                    Some(line) => {
                        proof {
                            lemma_request_fits(done);
                            lemma_entry_read(done, rest@, Some(line.line()), n as nat);
                            lemma_field_added(done, line.line());
                            done = done.push(line.line());
                        }
                        q.add_field(line.name.as_slice(), line.value.as_slice());
                    },
                    None => {
                        proof {
                            lemma_entry_read(done, rest@, None, n as nat);
                        }
                    },
                }
                at += n;
            },
        }
    }
    assert(block@.skip(at as int) =~= Seq::<u8>::empty());
    assert(done + Seq::<FieldLine>::empty() =~= done);
    Some(q)
}

// ── What a frame comes to ───────────────────────────────────────────────

/// What acting on a frame comes to, besides the connection's state.
#[verifier::ext_equal]
pub struct DoneModel {
    /// What is sent.
    pub out: Seq<u8>,
    /// The error that ends the connection.
    pub error: Option<u32>,
    pub freed: Freed,
    /// A stream was refused.
    pub refused: bool,
    /// A request may have become complete.
    pub dispatch: bool,
}

pub struct FrameDone {
    pub out: Vec<u8>,
    pub error: Option<u32>,
    pub freed: Freed,
    pub refused: bool,
    pub dispatch: bool,
}

impl View for FrameDone {
    type V = DoneModel;

    open spec fn view(&self) -> DoneModel {
        DoneModel {
            out: self.out@,
            error: self.error,
            freed: self.freed,
            refused: self.refused,
            dispatch: self.dispatch,
        }
    }
}

impl DoneModel {
    pub open spec fn nothing() -> DoneModel {
        DoneModel {
            out: Seq::empty(),
            error: None,
            freed: Freed::nothing(),
            refused: false,
            dispatch: false,
        }
    }

    pub open spec fn sent(out: Seq<u8>) -> DoneModel {
        DoneModel { out, ..DoneModel::nothing() }
    }

    pub open spec fn failed(code: u32) -> DoneModel {
        DoneModel { error: Some(code), ..DoneModel::nothing() }
    }
}

impl FrameDone {
    /// Whether anything is to be done.
    pub fn is_something(&self) -> (r: bool)
        ensures
            r == (self@ != DoneModel::nothing()),
    {
        if self.out.len() == 0 && self.error.is_none() && !self.refused && !self.dispatch
            && self.freed == Freed::none() {
            assert(self@ =~= DoneModel::nothing());
            false
        } else {
            assert(DoneModel::nothing().out.len() == 0);
            true
        }
    }

    pub fn nothing() -> (r: FrameDone)
        ensures
            r@ == DoneModel::nothing(),
    {
        FrameDone::sent(Vec::new())
    }

    pub fn sent(out: Vec<u8>) -> (r: FrameDone)
        ensures
            r@ == DoneModel::sent(out@),
    {
        FrameDone { out, error: None, freed: Freed::none(), refused: false, dispatch: false }
    }

    pub fn failed(code: u32) -> (r: FrameDone)
        ensures
            r@ == DoneModel::failed(code),
    {
        let r = FrameDone {
            out: Vec::new(),
            error: Some(code),
            freed: Freed::none(),
            refused: false,
            dispatch: false,
        };
        assert(r@ =~= DoneModel::failed(code));
        r
    }
}

/// The connection after stream `i` has been answered with `out` and ended.
pub open spec fn ended_with(m: H2Model, i: int, out: Seq<u8>) -> (H2Model, DoneModel) {
    (m.freed(i), DoneModel { freed: m.freeing(i), ..DoneModel::sent(out) })
}

// ── WebSocket upgrades ──────────────────────────────────────────────────

/// What an upgrade request on stream `i` comes to. Only a WebSocket route takes one.
pub open spec fn upgraded(m: H2Model, i: int, routes: Seq<Route>) -> (H2Model, DoneModel) {
    let st = m.streams[i];
    match route_for(routes, st.path) {
        None => answer(m, i, "404", "Not Found\n", true),
        Some(k) => if routes[k].handler != HANDLER_WEBSOCKET {
            answer(m, i, "404", "Not a WebSocket route\n", true)
        } else {
            (
                H2Model {
                    ws_stream: Some(st.id),
                    ws_buf: Seq::empty(),
                    ..m.with_stream(
                        i,
                        StreamModel {
                            state: StreamState::WsActive,
                            route: Some(k as usize),
                            ..st
                        },
                    )
                },
                DoneModel::sent(
                    headers_frame(st.id, hpack_bytes(text(":status"), text("200")), false),
                ),
            )
        },
    }
}

impl H2State {
    /// Answer a stream and end it.
    pub fn end_with(&mut self, i: usize, out: Vec<u8>) -> (r: FrameDone)
        requires
            old(self).wf(),
            i < MAX_STREAMS,
        ensures
            final(self).wf(),
            (final(self)@, r@) == ended_with(old(self)@, i as int, out@),
    {
        let freed = self.free_stream(i);
        let r = FrameDone { out, error: None, freed, refused: false, dispatch: false };
        assert(r@ =~= ended_with(old(self)@, i as int, out@).1);
        r
    }

    /// Take an upgrade request.
    pub fn accept_ws_upgrade(&mut self, i: usize, routes: &Vec<Route>) -> (r: FrameDone)
        requires
            old(self).wf(),
            i < MAX_STREAMS,
            old(self)@.streams[i as int].state is Open,
            old(self)@.ws_stream is None,
        ensures
            final(self).wf(),
            (final(self)@, r@) == upgraded(old(self)@, i as int, routes@),
    {
        assert(self@.streams[i as int] == self.streams@[i as int]@);
        assert(self@.streams[i as int].wf());
        let id: u32 = self.streams[i].id;
        match match_route_path(routes, self.streams[i].path.as_slice()) {
            None => self.emit_response(i, "404", "Not Found\n", true),
            Some(k) => {
                if routes[k].handler != HANDLER_WEBSOCKET {
                    return self.emit_response(i, "404", "Not a WebSocket route\n", true);
                }
                let block: Vec<u8> = encode_header(lit(":status"), lit("200"));
                let out: Vec<u8> = write_headers(id, block.as_slice(), false);
                self.streams[i].state = StreamState::WsActive;
                self.streams[i].route = Some(k);
                self.ws_stream = Some(id);
                self.ws_buf = Vec::new();
                proof {
                    let st = old(self)@.streams[i as int];
                    assert(self.streams@ =~= old(self).streams@.update(
                        i as int,
                        self.streams@[i as int],
                    ));
                    assert(self.streams@[i as int]@ =~= StreamModel {
                        state: StreamState::WsActive,
                        route: Some(k),
                        ..st
                    });
                    assert(self@.streams =~= old(self)@.streams.update(
                        i as int,
                        self.streams@[i as int]@,
                    ));
                    assert(self@ =~= upgraded(old(self)@, i as int, routes@).0);
                }
                FrameDone::sent(out)
            },
        }
    }
}

// ── HEADERS ─────────────────────────────────────────────────────────────

/// What a decoded request on stream `i`, just opened, comes to. `end` says that it has no
/// body.
pub open spec fn request_taken(m: H2Model, i: int, q: RequestModel, end: bool, routes: Seq<Route>) -> (
    H2Model,
    DoneModel,
) {
    let id = m.streams[i].id;
    if q.method is None || q.path.len() == 0 {
        ended_with(m, i, rst_stream(id, ERR_PROTOCOL_ERROR))
    } else {
        let method = q.method->0;
        let st = StreamModel { method, path: q.path, fields: q.fields, ended: end, ..m.streams[i] };
        let n = m.with_stream(i, st);
        if method == METHOD_CONNECT && q.websocket {
            if end {
                ended_with(n, i, rst_stream(id, ERR_PROTOCOL_ERROR))
            } else if m.ws_stream is Some {
                ended_with(n, i, rst_stream(id, ERR_REFUSED_STREAM))
            } else {
                upgraded(n, i, routes)
            }
        } else if !dispatchable(method) {
            answer(n, i, "501", "method unsupported on h2\n", sends_response_body(method))
        } else if end {
            (
                m.with_stream(i, StreamModel { state: StreamState::Pending, ..st }),
                DoneModel { dispatch: true, ..DoneModel::nothing() },
            )
        } else {
            (n, DoneModel::nothing())
        }
    }
}

/// What a HEADERS frame comes to.
pub open spec fn headers_taken(m: H2Model, h: FrameHead, payload: Seq<u8>, routes: Seq<Route>) -> (
    H2Model,
    DoneModel,
) {
    if h.stream_id % 2 == 0 || !flag_set(h.flags, FLAG_END_HEADERS) || h.stream_id
        <= m.last_stream_id {
        (m, DoneModel::failed(ERR_PROTOCOL_ERROR))
    } else {
        match in_state(m.streams, StreamState::Idle, 0) {
            None => (
                m,
                DoneModel {
                    refused: true,
                    ..DoneModel::sent(rst_stream(h.stream_id, ERR_REFUSED_STREAM))
                },
            ),
            Some(i) => match block_of(payload, h.flags) {
                None => (m, DoneModel::failed(ERR_PROTOCOL_ERROR)),
                Some(block) => {
                    let n = m.opening(i, h.stream_id);
                    match block_fields(block) {
                        None => (n.freed(i), DoneModel::failed(ERR_COMPRESSION_ERROR)),
                        Some(lines) => request_taken(
                            n,
                            i,
                            request_of(lines),
                            flag_set(h.flags, FLAG_END_STREAM),
                            routes,
                        ),
                    }
                },
            },
        }
    }
}

impl H2State {
    /// Take a decoded request.
    #[verifier::rlimit(40)]
    fn take_request(&mut self, i: usize, q: H2Request, end: bool, routes: &Vec<Route>) -> (r: FrameDone)
        requires
            old(self).wf(),
            i < MAX_STREAMS,
            old(self)@.streams[i as int].state is Open,
            q.path@.len() <= MAX_PATH,
            q.fields@.len() <= H2_HDR_CAP,
        ensures
            final(self).wf(),
            (final(self)@, r@) == request_taken(old(self)@, i as int, q@, end, routes@),
    {
        assert(self@.streams[i as int] == self.streams@[i as int]@);
        assert(self@.streams[i as int].wf());
        let id: u32 = self.streams[i].id;
        let method: u8 = match q.method {
            Some(method) => method,
            None => {
                return self.end_with(i, write_rst_stream(id, ERR_PROTOCOL_ERROR));
            },
        };
        if q.path.len() == 0 {
            return self.end_with(i, write_rst_stream(id, ERR_PROTOCOL_ERROR));
        }
        let websocket = q.websocket;
        let H2Request { path, fields, .. } = q;
        self.streams[i].method = method;
        self.streams[i].path = path;
        self.streams[i].fields = fields;
        self.streams[i].ended = end;
        let ghost st = StreamModel {
            method,
            path: q.path@,
            fields: q.fields@,
            ended: end,
            ..old(self)@.streams[i as int]
        };
        proof {
            assert(self.streams@ =~= old(self).streams@.update(i as int, self.streams@[i as int]));
            assert(self.streams@[i as int]@ =~= st);
            assert(self@.streams =~= old(self)@.streams.update(i as int, st));
            assert(self@ =~= old(self)@.with_stream(i as int, st));
        }
        if method == METHOD_CONNECT && websocket {
            if end {
                return self.end_with(i, write_rst_stream(id, ERR_PROTOCOL_ERROR));
            }
            if self.ws_stream.is_some() {
                return self.end_with(i, write_rst_stream(id, ERR_REFUSED_STREAM));
            }
            return self.accept_ws_upgrade(i, routes);
        }
        if !method_is_dispatchable(method) {
            let with_body = method_sends_response_body(method);
            return self.emit_response(i, "501", "method unsupported on h2\n", with_body);
        }
        if !end {
            return FrameDone::nothing();
        }
        let ghost before = self.streams@;
        self.streams[i].state = StreamState::Pending;
        proof {
            let last = StreamModel { state: StreamState::Pending, ..st };
            assert(self.streams@ =~= before.update(i as int, self.streams@[i as int]));
            assert(self.streams@[i as int]@ =~= last);
            assert(self@.streams =~= old(self)@.streams.update(i as int, last));
            assert(self@ =~= old(self)@.with_stream(i as int, last));
        }
        let r = FrameDone {
            out: Vec::new(),
            error: None,
            freed: Freed::none(),
            refused: false,
            dispatch: true,
        };
        assert(r@ =~= DoneModel { dispatch: true, ..DoneModel::nothing() });
        r
    }

    /// Act on a HEADERS frame.
    pub fn handle_headers(&mut self, h: FrameHead, payload: &[u8], routes: &Vec<Route>) -> (r: FrameDone)
        requires
            old(self).wf(),
        ensures
            final(self).wf(),
            (final(self)@, r@) == headers_taken(old(self)@, h, payload@, routes@),
    {
        if h.stream_id % 2 == 0 || h.flags / FLAG_END_HEADERS % 2 != 1 || h.stream_id
            <= self.last_stream_id {
            return FrameDone::failed(ERR_PROTOCOL_ERROR);
        }
        proof {
            lemma_in_state(self@.streams, StreamState::Idle, 0);
        }
        let i: usize = match self.find_state(StreamState::Idle, 0) {
            Some(i) => i,
            None => {
                let r = FrameDone {
                    out: write_rst_stream(h.stream_id, ERR_REFUSED_STREAM),
                    error: None,
                    freed: Freed::none(),
                    refused: true,
                    dispatch: false,
                };
                return r;
            },
        };
        let block = match headers_block(payload, h.flags) {
            Some(block) => block,
            None => {
                return FrameDone::failed(ERR_PROTOCOL_ERROR);
            },
        };
        self.alloc_slot(i, h.stream_id);
        match decode_request(block) {
            None => {
                let _ = self.free_stream(i);
                FrameDone::failed(ERR_COMPRESSION_ERROR)
            },
            Some(q) => {
                proof {
                    lemma_request_fits(block_fields(block@)->0);
                }
                self.take_request(i, q, h.flags / FLAG_END_STREAM % 2 == 1, routes)
            },
        }
    }
}

// ── Laws ────────────────────────────────────────────────────────────────

/// The ordinary fields among `lines`.
pub open spec fn ordinary_of(lines: Seq<FieldLine>) -> Seq<FieldLine>
    decreases lines.len(),
{
    if lines.len() == 0 {
        lines
    } else {
        let head = ordinary_of(lines.drop_last());
        if is_ordinary(lines.last()) {
            head.push(lines.last())
        } else {
            head
        }
    }
}

/// A name that begins with a colon never reaches an application as a field: what it is
/// given is what the ordinary fields alone would give it.
pub proof fn law_pseudo_headers_are_not_fields(lines: Seq<FieldLine>)
    ensures
        request_of(lines).fields == request_of(ordinary_of(lines)).fields,
    decreases lines.len(),
{
    if lines.len() > 0 {
        law_pseudo_headers_are_not_fields(lines.drop_last());
        reveal(with_field);
        let f = lines.last();
        let head = ordinary_of(lines.drop_last());
        reveal_strlit(":method");
        crate::bytes::lemma_text(":method");
        reveal_strlit(":path");
        crate::bytes::lemma_text(":path");
        reveal_strlit(":protocol");
        crate::bytes::lemma_text(":protocol");
        assert(f.name == text(":method") ==> f.name[0] == 58u8);
        assert(f.name == text(":path") ==> f.name[0] == 58u8);
        assert(f.name == text(":protocol") ==> f.name[0] == 58u8);
        if is_ordinary(f) {
            assert(head.push(f).drop_last() =~= head);
        }
    }
}

/// A new stream has a higher number than any that was opened before it, and takes a free
/// place: the streams under way stay as they are.
pub proof fn law_streams_rise_and_keep_apart(m: H2Model, h: FrameHead, payload: Seq<u8>, routes: Seq<Route>)
    requires
        m.wf(),
    ensures
        headers_taken(m, h, payload, routes).0.last_stream_id >= m.last_stream_id,
        headers_taken(m, h, payload, routes).1.error is None
            && !headers_taken(m, h, payload, routes).1.refused ==> h.stream_id > m.last_stream_id
            && headers_taken(m, h, payload, routes).0.last_stream_id == h.stream_id,
        forall|k: int|
            0 <= k < MAX_STREAMS && !(m.streams[k].state is Idle) ==> (#[trigger] headers_taken(
                m,
                h,
                payload,
                routes,
            ).0.streams[k]) == m.streams[k],
{
    lemma_in_state(m.streams, StreamState::Idle, 0);
}

/// A refused stream leaves the connection as it was.
pub proof fn law_refused_stream_disturbs_nothing(
    m: H2Model,
    h: FrameHead,
    payload: Seq<u8>,
    routes: Seq<Route>,
)
    requires
        headers_taken(m, h, payload, routes).1.refused,
    ensures
        headers_taken(m, h, payload, routes).0 == m,
        headers_taken(m, h, payload, routes).1.error is None,
        headers_taken(m, h, payload, routes).1.out == rst_stream(h.stream_id, ERR_REFUSED_STREAM),
{
}

/// A request is taken as it was sent: fields written into one unpadded block open a stream
/// with the request they ask for.
pub proof fn law_h2_request_reads_back(
    m: H2Model,
    id: u32,
    lines: Seq<FieldLine>,
    end: bool,
    routes: Seq<Route>,
    i: int,
)
    requires
        m.wf(),
        id % 2 == 1,
        id > m.last_stream_id,
        in_state(m.streams, StreamState::Idle, 0) == Some(i),
        hpack_block(lines).len() <= u32::MAX,
        forall|k: int|
            0 <= k < lines.len() ==> (#[trigger] lines[k]).name.len() <= i64::MAX
                && lines[k].value.len() <= i64::MAX,
    ensures
        headers_taken(
            m,
            (FrameHead {
                length: hpack_block(lines).len() as u32,
                kind: FRAME_HEADERS,
                flags: if end {
                    5u8
                } else {
                    4u8
                },
                stream_id: id,
            }),
            hpack_block(lines),
            routes,
        ) == request_taken(m.opening(i, id), i, request_of(lines), end, routes),
{
    law_hpack_block_reads_back(lines);
    let h = FrameHead {
        length: hpack_block(lines).len() as u32,
        kind: FRAME_HEADERS,
        flags: if end {
            5u8
        } else {
            4u8
        },
        stream_id: id,
    };
    lemma_block_taken(m, h, hpack_block(lines), lines, end, routes, i);
}

proof fn lemma_block_taken(
    m: H2Model,
    h: FrameHead,
    block: Seq<u8>,
    lines: Seq<FieldLine>,
    end: bool,
    routes: Seq<Route>,
    i: int,
)
    requires
        h.stream_id % 2 == 1,
        h.stream_id > m.last_stream_id,
        h.flags == if end {
            5u8
        } else {
            4u8
        },
        in_state(m.streams, StreamState::Idle, 0) == Some(i),
        block_fields(block) == Some(lines),
    ensures
        headers_taken(m, h, block, routes) == request_taken(
            m.opening(i, h.stream_id),
            i,
            request_of(lines),
            end,
            routes,
        ),
{
    assert(flag_set(h.flags, FLAG_END_HEADERS));
    assert(flag_set(h.flags, FLAG_END_STREAM) == end);
    assert(block_of(block, h.flags) == Some(block));
}

} // verus!
