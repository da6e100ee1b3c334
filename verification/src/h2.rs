//! HTTP/2 connection state: the streams, who uses the file channel, and the
//! flow-control windows in both directions.

use crate::cache::SEND_BUF_SIZE;
use crate::h2_wire::{
    be16_at, be32_at, get_be16, get_be32, window_update, write_window_update, ERR_FLOW_CONTROL_ERROR,
    SETTINGS_INITIAL_WINDOW_SIZE,
};
use crate::method::METHOD_NONE;
use crate::routes::MAX_PATH;
use vstd::prelude::*;

verus! {

/// Streams served at once.
pub const MAX_STREAMS: usize = 4;

/// Bytes of a WebSocket frame that is not complete yet.
pub const WS_BUF_SIZE: usize = 512;

/// Longest copy of a request's fields kept for an application.
pub const H2_HDR_CAP: usize = 2048;

pub const RECV_WINDOW_INITIAL: i32 = 65535;
/// A receive window at or below this is refilled.
pub const RECV_WINDOW_THRESHOLD: i32 = 32768;
pub const SEND_WINDOW_INITIAL: i32 = 65535;

/// What the connection is doing.
#[derive(Clone, Copy, PartialEq, Eq, Structural, Debug)]
pub enum Sub {
    /// Our settings are to be sent.
    SendSettings,
    /// Frames are read and acted on.
    Active,
    /// At least one stream is being answered.
    SendingBody,
    /// The connection ends once what is staged has been sent.
    Closing,
}

/// What a stream is doing.
#[derive(Clone, Copy, PartialEq, Eq, Structural, Debug)]
pub enum StreamState {
    Idle,
    /// Its request is not complete, or is with the application.
    Open,
    /// Its request is complete and waits to be dispatched.
    Pending,
    /// It is being answered.
    Sending,
    /// Its body is being fetched.
    Fetching,
    /// It carries a WebSocket.
    WsActive,
}

/// One stream.
pub struct StreamSlot {
    pub id: u32,
    pub state: StreamState,
    pub method: u8,
    /// The peer has ended its side.
    pub ended: bool,
    pub path: Vec<u8>,
    /// The stream's receive window is to be refilled.
    pub refill: bool,
    pub headers_sent: bool,
    pub handler: u8,
    pub route: Option<usize>,
    /// The stream holds a cached body.
    pub holds_cache: bool,
    pub file_index: i16,
    /// Position within the route's body.
    pub pos: usize,
    pub recv_window: i32,
    pub send_window: i32,
    /// The request's body.
    pub body: Vec<u8>,
    /// The request's fields, one per line.
    pub fields: Vec<u8>,
    pub app_pending: bool,
    pub app_deadline_ms: u64,
    /// Bytes of an answer that the peer's windows hold back.
    pub rest: Vec<u8>,
    /// The frame that follows them.
    pub trailer: Vec<u8>,
    /// They are the last of the answer.
    pub rest_last: bool,
}

/// One stream.
#[verifier::ext_equal]
pub struct StreamModel {
    pub id: u32,
    pub state: StreamState,
    pub method: u8,
    pub ended: bool,
    pub path: Seq<u8>,
    pub refill: bool,
    pub headers_sent: bool,
    pub handler: u8,
    pub route: Option<usize>,
    pub holds_cache: bool,
    pub file_index: i16,
    pub pos: usize,
    pub recv_window: i32,
    pub send_window: i32,
    pub body: Seq<u8>,
    pub fields: Seq<u8>,
    pub app_pending: bool,
    pub app_deadline_ms: u64,
    pub rest: Seq<u8>,
    pub trailer: Seq<u8>,
    pub rest_last: bool,
}

impl View for StreamSlot {
    type V = StreamModel;

    open spec fn view(&self) -> StreamModel {
        StreamModel {
            id: self.id,
            state: self.state,
            method: self.method,
            ended: self.ended,
            path: self.path@,
            refill: self.refill,
            headers_sent: self.headers_sent,
            handler: self.handler,
            route: self.route,
            holds_cache: self.holds_cache,
            file_index: self.file_index,
            pos: self.pos,
            recv_window: self.recv_window,
            send_window: self.send_window,
            body: self.body@,
            fields: self.fields@,
            app_pending: self.app_pending,
            app_deadline_ms: self.app_deadline_ms,
            rest: self.rest@,
            trailer: self.trailer@,
            rest_last: self.rest_last,
        }
    }
}

impl StreamModel {
    /// A stream just opened.
    pub open spec fn opened(id: u32, state: StreamState, send_window: i32) -> StreamModel {
        StreamModel {
            id,
            state,
            method: METHOD_NONE,
            ended: false,
            path: Seq::empty(),
            refill: false,
            headers_sent: false,
            handler: 0,
            route: None,
            holds_cache: false,
            file_index: -1i16,
            pos: 0,
            recv_window: RECV_WINDOW_INITIAL,
            send_window,
            body: Seq::empty(),
            fields: Seq::empty(),
            app_pending: false,
            app_deadline_ms: 0,
            rest: Seq::empty(),
            trailer: Seq::empty(),
            rest_last: false,
        }
    }

    /// No stream.
    pub open spec fn none() -> StreamModel {
        StreamModel::opened(0, StreamState::Idle, SEND_WINDOW_INITIAL)
    }

    pub open spec fn wf(self) -> bool {
        &&& self.path.len() <= MAX_PATH
        &&& self.fields.len() <= H2_HDR_CAP
        &&& self.state is Idle ==> self == StreamModel::none()
        &&& !(self.state is Idle) ==> self.id != 0
        &&& self.recv_window <= RECV_WINDOW_INITIAL
        &&& self.app_pending ==> self.id <= u16::MAX
        &&& self.rest.len() <= SEND_BUF_SIZE
        &&& self.rest.len() > 0 ==> self.state is Sending && self.headers_sent
    }
}

impl StreamSlot {
    pub fn opened(id: u32, state: StreamState, send_window: i32) -> (r: StreamSlot)
        ensures
            r@ == StreamModel::opened(id, state, send_window),
    {
        let r = StreamSlot {
            id,
            state,
            method: METHOD_NONE,
            ended: false,
            path: Vec::new(),
            refill: false,
            headers_sent: false,
            handler: 0,
            route: None,
            holds_cache: false,
            file_index: -1,
            pos: 0,
            recv_window: RECV_WINDOW_INITIAL,
            send_window,
            body: Vec::new(),
            fields: Vec::new(),
            app_pending: false,
            app_deadline_ms: 0,
            rest: Vec::new(),
            trailer: Vec::new(),
            rest_last: false,
        };
        assert(r@ =~= StreamModel::opened(id, state, send_window));
        r
    }

    /// No stream.
    pub fn zeroed() -> (r: StreamSlot)
        ensures
            r@ == StreamModel::none(),
    {
        StreamSlot::opened(0, StreamState::Idle, SEND_WINDOW_INITIAL)
    }
}

/// An HTTP/2 connection.
pub struct H2State {
    pub sub: Sub,
    pub settings_acked: bool,
    /// The stream that was served last.
    pub cursor: Option<usize>,
    /// The stream that uses the file channel.
    pub file_owner: Option<usize>,
    pub last_stream_id: u32,
    /// The stream that carries a WebSocket.
    pub ws_stream: Option<u32>,
    /// The connection's receive window is to be refilled.
    pub refill: bool,
    pub recv_window: i32,
    pub send_window: i32,
    /// The window the peer gives a new stream.
    pub peer_window: i32,
    pub streams: Vec<StreamSlot>,
    /// WebSocket bytes received and not consumed.
    pub ws_buf: Vec<u8>,
}

/// An HTTP/2 connection.
#[verifier::ext_equal]
pub struct H2Model {
    pub sub: Sub,
    pub settings_acked: bool,
    pub cursor: Option<usize>,
    pub file_owner: Option<usize>,
    pub last_stream_id: u32,
    pub ws_stream: Option<u32>,
    pub refill: bool,
    pub recv_window: i32,
    pub send_window: i32,
    pub peer_window: i32,
    pub streams: Seq<StreamModel>,
    pub ws_buf: Seq<u8>,
}

/// The streams of a connection.
pub open spec fn stream_models(s: Seq<StreamSlot>) -> Seq<StreamModel> {
    Seq::new(s.len(), |i: int| s[i]@)
}

impl View for H2State {
    type V = H2Model;

    open spec fn view(&self) -> H2Model {
        H2Model {
            sub: self.sub,
            settings_acked: self.settings_acked,
            cursor: self.cursor,
            file_owner: self.file_owner,
            last_stream_id: self.last_stream_id,
            ws_stream: self.ws_stream,
            refill: self.refill,
            recv_window: self.recv_window,
            send_window: self.send_window,
            peer_window: self.peer_window,
            streams: stream_models(self.streams@),
            ws_buf: self.ws_buf@,
        }
    }
}

/// The stream of this number, from `from` on.
pub open spec fn stream_of(s: Seq<StreamModel>, id: u32, from: int) -> Option<int>
    decreases s.len() - from,
{
    if id == 0 || from < 0 || from >= s.len() {
        None
    } else if s[from].id == id && !(s[from].state is Idle) {
        Some(from)
    } else {
        stream_of(s, id, from + 1)
    }
}

/// The first stream in this state, from `from` on.
pub open spec fn in_state(s: Seq<StreamModel>, state: StreamState, from: int) -> Option<int>
    decreases s.len() - from,
{
    if from < 0 || from >= s.len() {
        None
    } else if s[from].state == state {
        Some(from)
    } else {
        in_state(s, state, from + 1)
    }
}

pub proof fn lemma_stream_of(s: Seq<StreamModel>, id: u32, from: int)
    requires
        0 <= from,
    ensures
        match stream_of(s, id, from) {
            Some(i) => from <= i < s.len() && s[i].id == id && !(s[i].state is Idle),
            None => id != 0 ==> forall|k: int|
                from <= k < s.len() ==> !((#[trigger] s[k]).id == id && !(s[k].state is Idle)),
        },
    decreases s.len() - from,
{
    if id != 0 && from < s.len() && !(s[from].id == id && !(s[from].state is Idle)) {
        lemma_stream_of(s, id, from + 1);
    }
}

pub proof fn lemma_in_state(s: Seq<StreamModel>, state: StreamState, from: int)
    requires
        0 <= from,
    ensures
        match in_state(s, state, from) {
            Some(i) => from <= i < s.len() && s[i].state == state,
            None => forall|k: int| from <= k < s.len() ==> (#[trigger] s[k]).state != state,
        },
    decreases s.len() - from,
{
    if from < s.len() && s[from].state != state {
        lemma_in_state(s, state, from + 1);
    }
}

/// What the end of a stream leaves to be done.
#[derive(Clone, Copy, PartialEq, Eq, Structural)]
pub struct Freed {
    /// The file channel is to be given up.
    pub file: bool,
    /// The route whose cached body is no longer held.
    pub route: Option<usize>,
}

impl Freed {
    pub open spec fn nothing() -> Freed {
        Freed { file: false, route: None }
    }

    pub fn none() -> (r: Freed)
        ensures
            r == Freed::nothing(),
    {
        Freed { file: false, route: None }
    }
}

impl H2Model {
    pub open spec fn wf(self) -> bool {
        &&& self.streams.len() == MAX_STREAMS
        &&& self.ws_buf.len() <= WS_BUF_SIZE
        &&& self.recv_window <= RECV_WINDOW_INITIAL
        &&& self.file_owner matches Some(i) ==> i < MAX_STREAMS
        &&& self.cursor matches Some(i) ==> i < MAX_STREAMS
        &&& self.ws_stream matches Some(id) ==> id != 0
        &&& forall|i: int| 0 <= i < MAX_STREAMS ==> (#[trigger] self.streams[i]).wf()
        &&& self.apart()
        &&& self.fetch_owned()
    }

    /// A stream whose body is being fetched uses the file channel.
    pub open spec fn fetch_owned(self) -> bool {
        forall|i: int|
            0 <= i < MAX_STREAMS && (#[trigger] self.streams[i]).state is Fetching
                ==> self.file_owner == Some(i as usize)
    }

    /// No two streams share a number, none is above the highest opened, and one that
    /// carries a WebSocket is the one recorded.
    pub open spec fn apart(self) -> bool {
        &&& forall|i: int, j: int|
            0 <= i < j < MAX_STREAMS && !(self.streams[i].state is Idle) && !(
            self.streams[j].state is Idle) ==> (#[trigger] self.streams[i]).id != (
            #[trigger] self.streams[j]).id
        &&& forall|i: int|
            0 <= i < MAX_STREAMS && !(self.streams[i].state is Idle) ==> (
            #[trigger] self.streams[i]).id <= self.last_stream_id
        &&& forall|i: int|
            0 <= i < MAX_STREAMS && (#[trigger] self.streams[i]).state is WsActive
                ==> self.ws_stream == Some(self.streams[i].id)
    }

    /// The connection with stream `i` replaced.
    pub open spec fn with_stream(self, i: int, st: StreamModel) -> H2Model {
        H2Model { streams: self.streams.update(i, st), ..self }
    }

    /// The connection after a stream has been opened at place `i`.
    pub open spec fn opening(self, i: int, id: u32) -> H2Model {
        H2Model {
            last_stream_id: id,
            ..self.with_stream(i, StreamModel::opened(id, StreamState::Open, self.peer_window))
        }
    }

    /// The connection after stream `i` has ended.
    pub open spec fn freed(self, i: int) -> H2Model {
        H2Model {
            streams: self.streams.update(i, StreamModel::none()),
            file_owner: if self.file_owner == Some(i as usize) {
                None
            } else {
                self.file_owner
            },
            ..self
        }
    }

    /// What the end of stream `i` leaves to be done.
    pub open spec fn freeing(self, i: int) -> Freed {
        Freed {
            file: self.file_owner == Some(i as usize),
            route: if self.streams[i].holds_cache {
                self.streams[i].route
            } else {
                None
            },
        }
    }

    /// A connection that has just begun.
    pub open spec fn begun() -> H2Model {
        H2Model {
            sub: Sub::SendSettings,
            settings_acked: false,
            cursor: None,
            file_owner: None,
            last_stream_id: 0,
            ws_stream: None,
            refill: false,
            recv_window: RECV_WINDOW_INITIAL,
            send_window: SEND_WINDOW_INITIAL,
            peer_window: SEND_WINDOW_INITIAL,
            streams: Seq::new(MAX_STREAMS as nat, |i: int| StreamModel::none()),
            ws_buf: Seq::empty(),
        }
    }
}

impl H2State {
    pub open spec fn wf(self) -> bool {
        self@.wf()
    }

    /// A connection that has just begun.
    pub fn zeroed() -> (r: H2State)
        ensures
            r@ == H2Model::begun(),
            r.wf(),
    {
        let mut streams: Vec<StreamSlot> = Vec::new();
        let mut i: usize = 0;
        while i < MAX_STREAMS
            invariant
                i <= MAX_STREAMS,
                streams@.len() == i,
                forall|k: int| 0 <= k < i ==> (#[trigger] streams@[k])@ == StreamModel::none(),
            decreases MAX_STREAMS - i,
        {
            streams.push(StreamSlot::zeroed());
            i += 1;
        }
        let h = H2State {
            sub: Sub::SendSettings,
            settings_acked: false,
            cursor: None,
            file_owner: None,
            last_stream_id: 0,
            ws_stream: None,
            refill: false,
            recv_window: RECV_WINDOW_INITIAL,
            send_window: SEND_WINDOW_INITIAL,
            peer_window: SEND_WINDOW_INITIAL,
            streams,
            ws_buf: Vec::new(),
        };
        assert(h@ =~= H2Model::begun());
        h
    }

    /// Find the stream of this number.
    pub fn slot_for_id(&self, id: u32) -> (r: Option<usize>)
        requires
            self.wf(),
        ensures
            match r {
                Some(i) => stream_of(self@.streams, id, 0) == Some(i as int) && i < MAX_STREAMS,
                None => stream_of(self@.streams, id, 0) is None,
            },
    {
        if id == 0 {
            return None;
        }
        let mut i: usize = 0;
        while i < MAX_STREAMS
            invariant
                i <= MAX_STREAMS,
                self.wf(),
                id != 0,
                stream_of(self@.streams, id, i as int) == stream_of(self@.streams, id, 0),
            decreases MAX_STREAMS - i,
        {
            assert(self@.streams[i as int] == self.streams@[i as int]@);
            if self.streams[i].id == id && self.streams[i].state != StreamState::Idle {
                return Some(i);
            }
            i += 1;
        }
        None
    }

    /// Find the first stream in a state, from `from` on.
    pub fn find_state(&self, state: StreamState, from: usize) -> (r: Option<usize>)
        requires
            self.wf(),
            from <= MAX_STREAMS,
        ensures
            match r {
                Some(i) => in_state(self@.streams, state, from as int) == Some(i as int) && from
                    <= i < MAX_STREAMS,
                None => in_state(self@.streams, state, from as int) is None,
            },
    {
        let mut i: usize = from;
        while i < MAX_STREAMS
            invariant
                from <= i <= MAX_STREAMS,
                self.wf(),
                in_state(self@.streams, state, i as int) == in_state(
                    self@.streams,
                    state,
                    from as int,
                ),
            decreases MAX_STREAMS - i,
        {
            assert(self@.streams[i as int] == self.streams@[i as int]@);
            if self.streams[i].state == state {
                return Some(i);
            }
            i += 1;
        }
        None
    }

    /// Open a stream at a free place.
    pub fn alloc_slot(&mut self, i: usize, id: u32)
        requires
            old(self).wf(),
            i < MAX_STREAMS,
            old(self)@.streams[i as int].state is Idle,
            id > old(self)@.last_stream_id,
        ensures
            final(self).wf(),
            final(self)@ == old(self)@.opening(i as int, id),
    {
        let st = StreamSlot::opened(id, StreamState::Open, self.peer_window);
        self.last_stream_id = id;
        self.streams.set(i, st);
        assert(self@ =~= old(self)@.opening(i as int, id));
    }

    /// End a stream: nothing of it is left for the next one in its place.
    pub fn free_stream(&mut self, i: usize) -> (r: Freed)
        requires
            old(self).wf(),
            i < MAX_STREAMS,
        ensures
            final(self).wf(),
            final(self)@ == old(self)@.freed(i as int),
            r == old(self)@.freeing(i as int),
    {
        assert(self@.streams[i as int] == self.streams@[i as int]@);
        let file = self.file_owner == Some(i);
        let route = if self.streams[i].holds_cache {
            self.streams[i].route
        } else {
            None
        };
        if file {
            self.file_owner = None;
        }
        self.streams.set(i, StreamSlot::zeroed());
        assert(self@ =~= old(self)@.freed(i as int));
        Freed { file, route }
    }
}

/// The routes whose cached bodies the first `n` streams hold.
pub open spec fn held_by(s: Seq<StreamModel>, n: int) -> Seq<usize>
    decreases n,
{
    if n <= 0 {
        Seq::empty()
    } else if s[n - 1].holds_cache && s[n - 1].route is Some {
        held_by(s, n - 1).push(s[n - 1].route->0)
    } else {
        held_by(s, n - 1)
    }
}

impl H2State {
    /// The routes whose cached bodies are held when the connection ends: one entry for
    /// each stream that holds one.
    pub fn held_routes(&self) -> (r: Vec<usize>)
        requires
            self.wf(),
        ensures
            r@ == held_by(self@.streams, MAX_STREAMS as int),
    {
        let mut v: Vec<usize> = Vec::new();
        let mut i: usize = 0;
        while i < MAX_STREAMS
            invariant
                i <= MAX_STREAMS,
                self.wf(),
                v@ == held_by(self@.streams, i as int),
            decreases MAX_STREAMS - i,
        {
            assert(self@.streams[i as int] == self.streams@[i as int]@);
            if self.streams[i].holds_cache {
                if let Some(r) = self.streams[i].route {
                    v.push(r);
                }
            }
            i += 1;
        }
        v
    }
}

// ── Windows ─────────────────────────────────────────────────────────────

/// `w` less `n`, not below the least number.
pub open spec fn lowered(w: i32, n: u32) -> i32 {
    if w - n < i32::MIN {
        i32::MIN
    } else {
        (w - n) as i32
    }
}

/// `w` and `n` more, not above the greatest number.
pub open spec fn raised(w: i32, n: int) -> i32 {
    if w + n > i32::MAX {
        i32::MAX
    } else if w + n < i32::MIN {
        i32::MIN
    } else {
        (w + n) as i32
    }
}

pub fn lower_window(w: i32, n: u32) -> (r: i32)
    ensures
        r == lowered(w, n),
{
    let v: i64 = w as i64 - n as i64;
    if v < i32::MIN as i64 {
        i32::MIN
    } else {
        v as i32
    }
}

pub fn raise_window(w: i32, n: i64) -> (r: i32)
    requires
        -0x1_0000_0000 <= n <= 0x1_0000_0000,
    ensures
        r == raised(w, n as int),
{
    let v: i64 = w as i64 + n;
    if v > i32::MAX as i64 {
        i32::MAX
    } else if v < i32::MIN as i64 {
        i32::MIN
    } else {
        v as i32
    }
}

/// The connection after `n` bytes of data have arrived on it.
pub open spec fn conn_received(m: H2Model, n: u32) -> H2Model {
    let w = lowered(m.recv_window, n);
    H2Model { recv_window: w, refill: m.refill || w <= RECV_WINDOW_THRESHOLD, ..m }
}

/// A stream after `n` bytes of data have arrived on it.
pub open spec fn stream_received(st: StreamModel, n: u32) -> StreamModel {
    let w = lowered(st.recv_window, n);
    StreamModel { recv_window: w, refill: st.refill || w <= RECV_WINDOW_THRESHOLD, ..st }
}

/// How far a receive window is from full.
pub open spec fn window_gap(w: i32) -> u32 {
    let d = RECV_WINDOW_INITIAL - w;
    if d <= 0 {
        0
    } else if d > 0x7fff_ffff {
        0x7fff_ffff
    } else {
        d as u32
    }
}

fn gap(w: i32) -> (r: u32)
    ensures
        r == window_gap(w),
{
    let d: i64 = RECV_WINDOW_INITIAL as i64 - w as i64;
    if d <= 0 {
        0
    } else if d > 0x7fff_ffff {
        0x7fff_ffff
    } else {
        d as u32
    }
}

/// The first stream whose window is to be refilled, from `from` on.
pub open spec fn refill_of(s: Seq<StreamModel>, from: int) -> Option<int>
    decreases s.len() - from,
{
    if from < 0 || from >= s.len() {
        None
    } else if s[from].id != 0 && s[from].refill && !(s[from].state is Idle) {
        Some(from)
    } else {
        refill_of(s, from + 1)
    }
}

/// The connection after one refill, and the frame that announces it: the connection's
/// own window first, then the streams' one by one.
pub open spec fn refilled(m: H2Model) -> (H2Model, Seq<u8>) {
    if m.refill {
        let d = window_gap(m.recv_window);
        if d > 0 {
            (
                H2Model { recv_window: RECV_WINDOW_INITIAL, refill: false, ..m },
                window_update(0, d),
            )
        } else {
            (H2Model { refill: false, ..m }, Seq::empty())
        }
    } else {
        match refill_of(m.streams, 0) {
            None => (m, Seq::empty()),
            Some(i) => {
                let st = m.streams[i];
                let d = window_gap(st.recv_window);
                if d > 0 {
                    (
                        m.with_stream(
                            i,
                            StreamModel { recv_window: RECV_WINDOW_INITIAL, refill: false, ..st },
                        ),
                        window_update(st.id, d),
                    )
                } else {
                    (m.with_stream(i, StreamModel { refill: false, ..st }), Seq::empty())
                }
            },
        }
    }
}

/// The streams after the peer has changed the window of new ones: those open move by
/// the difference.
pub open spec fn peer_window_set(m: H2Model, v: i32) -> H2Model {
    let d = v - m.peer_window;
    H2Model {
        peer_window: v,
        streams: Seq::new(
            m.streams.len(),
            |i: int|
                if m.streams[i].state is Idle {
                    m.streams[i]
                } else {
                    StreamModel {
                        send_window: raised(m.streams[i].send_window, d),
                        ..m.streams[i]
                    }
                },
        ),
        ..m
    }
}

/// The connection after the peer's settings from `at` on, or the error that ends it.
pub open spec fn settings_applied(m: H2Model, p: Seq<u8>, at: int) -> (H2Model, Option<u32>)
    decreases p.len() - at,
{
    if at < 0 || at + 6 > p.len() {
        (m, None)
    } else if be16_at(p, at) == SETTINGS_INITIAL_WINDOW_SIZE {
        let v = be32_at(p, at + 2);
        if v > 0x7fff_ffff {
            (m, Some(ERR_FLOW_CONTROL_ERROR))
        } else {
            settings_applied(peer_window_set(m, v as i32), p, at + 6)
        }
    } else {
        settings_applied(m, p, at + 6)
    }
}

/// The connection after the peer has let us send `d` more bytes on a stream, or on the
/// connection where the number is zero. A stream that is gone is of no concern.
pub open spec fn window_raised(m: H2Model, stream_id: u32, d: u32) -> H2Model {
    if stream_id == 0 {
        H2Model { send_window: raised(m.send_window, d as int), ..m }
    } else {
        match stream_of(m.streams, stream_id, 0) {
            None => m,
            Some(i) => m.with_stream(
                i,
                StreamModel {
                    send_window: raised(m.streams[i].send_window, d as int),
                    ..m.streams[i]
                },
            ),
        }
    }
}

impl H2State {
    /// Count `n` bytes of data against the connection's receive window.
    pub fn consume_recv_window(&mut self, n: u32)
        requires
            old(self).wf(),
        ensures
            final(self).wf(),
            final(self)@ == conn_received(old(self)@, n),
    {
        self.recv_window = lower_window(self.recv_window, n);
        if self.recv_window <= RECV_WINDOW_THRESHOLD {
            self.refill = true;
        }
        assert(self@ =~= conn_received(old(self)@, n));
    }

    /// Count `n` bytes of data against a stream's receive window.
    pub fn consume_slot_recv_window(&mut self, i: usize, n: u32)
        requires
            old(self).wf(),
            i < MAX_STREAMS,
            !(old(self)@.streams[i as int].state is Idle),
        ensures
            final(self).wf(),
            final(self)@ == old(self)@.with_stream(
                i as int,
                stream_received(old(self)@.streams[i as int], n),
            ),
    {
        assert(self@.streams[i as int] == self.streams@[i as int]@);
        assert(self@.streams[i as int].wf());
        let w: i32 = lower_window(self.streams[i].recv_window, n);
        self.streams[i].recv_window = w;
        if w <= RECV_WINDOW_THRESHOLD {
            self.streams[i].refill = true;
        }
        assert(self@ =~= old(self)@.with_stream(
            i as int,
            stream_received(old(self)@.streams[i as int], n),
        ));
    }

    /// Refill one window. Returns the frame that says so, or nothing.
    pub fn queue_window_update(&mut self) -> (r: Vec<u8>)
        requires
            old(self).wf(),
        ensures
            final(self).wf(),
            (final(self)@, r@) == refilled(old(self)@),
    {
        if self.refill {
            let d: u32 = gap(self.recv_window);
            self.refill = false;
            if d > 0 {
                self.recv_window = RECV_WINDOW_INITIAL;
                assert(self@ =~= refilled(old(self)@).0);
                return write_window_update(0, d);
            }
            assert(self@ =~= refilled(old(self)@).0);
            let none: Vec<u8> = Vec::new();
            assert(none@ =~= Seq::<u8>::empty());
            return none;
        }
        let mut i: usize = 0;
        while i < MAX_STREAMS
            invariant
                i <= MAX_STREAMS,
                self.wf(),
                *self == *old(self),
                !self.refill,
                refill_of(self@.streams, i as int) == refill_of(self@.streams, 0),
            decreases MAX_STREAMS - i,
        {
            assert(self@.streams[i as int] == self.streams@[i as int]@);
            assert(self@.streams[i as int].wf());
            if self.streams[i].id != 0 && self.streams[i].refill && self.streams[i].state
                != StreamState::Idle {
                let d: u32 = gap(self.streams[i].recv_window);
                let id: u32 = self.streams[i].id;
                self.streams[i].refill = false;
                if d > 0 {
                    self.streams[i].recv_window = RECV_WINDOW_INITIAL;
                    assert(self@ =~= refilled(old(self)@).0);
                    return write_window_update(id, d);
                }
                assert(self@ =~= refilled(old(self)@).0);
                let none: Vec<u8> = Vec::new();
                assert(none@ =~= Seq::<u8>::empty());
                return none;
            }
            i += 1;
        }
        let none: Vec<u8> = Vec::new();
        assert(none@ =~= Seq::<u8>::empty());
        none
    }

    /// Take the window the peer gives new streams.
    pub fn apply_initial_window_size(&mut self, v: i32)
        requires
            old(self).wf(),
        ensures
            final(self).wf(),
            final(self)@ == peer_window_set(old(self)@, v),
    {
        let d: i64 = v as i64 - self.peer_window as i64;
        self.peer_window = v;
        let mut i: usize = 0;
        while i < MAX_STREAMS
            invariant
                i <= MAX_STREAMS,
                d == v - old(self)@.peer_window,
                self.streams@.len() == MAX_STREAMS,
                old(self).wf(),
                self@ == (H2Model {
                    peer_window: v,
                    streams: self@.streams,
                    ..old(self)@
                }),
                forall|k: int|
                    0 <= k < MAX_STREAMS ==> (#[trigger] self@.streams[k]) == if k < i
                        && !(old(self)@.streams[k].state is Idle) {
                        StreamModel {
                            send_window: raised(old(self)@.streams[k].send_window, d as int),
                            ..old(self)@.streams[k]
                        }
                    } else {
                        old(self)@.streams[k]
                    },
            decreases MAX_STREAMS - i,
        {
            assert(self@.streams[i as int] == self.streams@[i as int]@);
            if self.streams[i].state != StreamState::Idle {
                let w: i32 = raise_window(self.streams[i].send_window, d);
                let ghost before = self@.streams;
                self.streams[i].send_window = w;
                assert(self@.streams =~= before.update(
                    i as int,
                    StreamModel { send_window: w, ..before[i as int] },
                ));
            }
            i += 1;
        }
        assert(self@ =~= peer_window_set(old(self)@, v));
        assert forall|k: int| 0 <= k < MAX_STREAMS implies (#[trigger] self@.streams[k]).wf() by {
            assert(old(self)@.streams[k].wf());
        }
    }

    /// Take the peer's settings.
    pub fn apply_settings(&mut self, p: &[u8]) -> (err: Option<u32>)
        requires
            old(self).wf(),
        ensures
            final(self).wf(),
            (final(self)@, err) == settings_applied(old(self)@, p@, 0),
    {
        let n: usize = p.len();
        let mut at: usize = 0;
        while n - at >= 6
            invariant
                at <= n,
                n == p@.len(),
                self.wf(),
                settings_applied(self@, p@, at as int) == settings_applied(old(self)@, p@, 0),
            decreases n - at,
        {
            let id: u16 = get_be16(p, at);
            let v: u32 = get_be32(p, at + 2);
            if id == SETTINGS_INITIAL_WINDOW_SIZE {
                if v > 0x7fff_ffff {
                    return Some(ERR_FLOW_CONTROL_ERROR);
                }
                self.apply_initial_window_size(v as i32);
            }
            at += 6;
        }
        None
    }

    /// Let more bytes be sent.
    pub fn raise_send_window(&mut self, stream_id: u32, d: u32)
        requires
            old(self).wf(),
            d <= 0x7fff_ffff,
        ensures
            final(self).wf(),
            final(self)@ == window_raised(old(self)@, stream_id, d),
    {
        if stream_id == 0 {
            self.send_window = raise_window(self.send_window, d as i64);
            assert(self@ =~= window_raised(old(self)@, stream_id, d));
            return;
        }
        proof {
            lemma_stream_of(self@.streams, stream_id, 0);
        }
        match self.slot_for_id(stream_id) {
            Some(i) => {
                assert(self@.streams[i as int] == self.streams@[i as int]@);
                assert(self@.streams[i as int].wf());
                self.streams[i].send_window = raise_window(self.streams[i].send_window, d as i64);
                assert(self@ =~= window_raised(old(self)@, stream_id, d));
            },
            None => {},
        }
    }
}

// ── Laws ────────────────────────────────────────────────────────────────

/// A stream that ends leaves nothing to the next one in its place: it is opened as if
/// the place had never been used.
pub proof fn law_ended_stream_leaves_nothing(m: H2Model, i: int, id: u32)
    requires
        m.wf(),
        0 <= i < MAX_STREAMS,
    ensures
        m.freed(i).streams[i] == StreamModel::none(),
        m.freed(i).wf(),
        forall|k: int|
            0 <= k < MAX_STREAMS && k != i ==> #[trigger] m.freed(i).streams[k] == m.streams[k],
        m.freed(i).file_owner != Some(i as usize),
{
}

/// A refill announces exactly what was received since the last: the peer's window comes
/// back to where it began.
pub proof fn law_refill_restores_the_window(m: H2Model)
    requires
        m.wf(),
        m.refill,
        m.recv_window > -0x7000_0000,
    ensures
        refilled(m).0.recv_window == RECV_WINDOW_INITIAL,
        m.recv_window < RECV_WINDOW_INITIAL ==> refilled(m).1 == window_update(
            0,
            (RECV_WINDOW_INITIAL - m.recv_window) as u32,
        ),
        !refilled(m).0.refill,
{
}

/// Changing the window of new streams and changing it back leaves every open stream as
/// it was, unless its window would have left the range of numbers.
pub proof fn law_window_change_is_undone(m: H2Model, v: i32)
    requires
        m.wf(),
        forall|i: int|
            0 <= i < MAX_STREAMS ==> i32::MIN <= (#[trigger] m.streams[i]).send_window + (v
                - m.peer_window) <= i32::MAX,
    ensures
        peer_window_set(peer_window_set(m, v), m.peer_window) == m,
{
    let a = peer_window_set(m, v);
    let b = peer_window_set(a, m.peer_window);
    assert forall|i: int| 0 <= i < MAX_STREAMS implies #[trigger] b.streams[i] == m.streams[i] by {
        assert(a.streams[i].state == m.streams[i].state);
    }
    assert(b =~= m);
}

} // verus!
