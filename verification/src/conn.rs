//! One HTTP/1 connection: its phase, its buffers and the request it serves.

use crate::cache::SEND_BUF_SIZE;
use crate::method::METHOD_NONE;
use crate::routes::MAX_PATH;
use vstd::prelude::*;

verus! {

/// Bytes of request a connection holds.
pub const RECV_BUF_SIZE: usize = 4096;

/// Where a connection is in serving a request.
#[derive(Clone, Copy, PartialEq, Eq, Structural, Debug)]
pub enum Phase {
    Init,
    Binding,
    WaitBound,
    WaitAccept,
    RecvRequest,
    DispatchRoute,
    /// Reading a request body, between the head and dispatch.
    RecvBody,
    /// The request is with the application; its response is awaited.
    AwaitApp,
    SendHeaders,
    SendBody,
    DrainSend,
    CloseConn,
    FetchContent,
    CacheStream,
    ProxyConnect,
    ProxyWaitConnect,
    ProxySendRequest,
    ProxyRelayHeaders,
    ProxyRelayBody,
    /// The upgrade waits for an admission decision.
    WsAwaitAdmit,
    WsHandshake,
    WsActive,
    WsClose,
    H2Active,
    /// A file is open and its length not known yet.
    AwaitFsStat,
    Error,
}

/// How a request body is delimited.
#[derive(Clone, Copy, PartialEq, Eq, Structural, Debug)]
pub enum BodyMode {
    Absent,
    Length,
    Chunked,
}

/// Where the reader is within a chunked body.
#[derive(Clone, Copy, PartialEq, Eq, Structural, Debug)]
pub enum ChunkState {
    /// Before a chunk-size line.
    Size,
    /// Within a chunk's data.
    Data,
    /// At the line end behind a chunk's data.
    LineEnd,
    /// In the trailer section behind the last chunk.
    Trailer,
}

/// A distributed-trace context: trace, parent span and flags.
#[derive(Clone, Copy, PartialEq, Eq, Structural)]
pub struct TraceCtx {
    pub trace_hi: u64,
    pub trace_lo: u64,
    pub parent: u64,
    pub flags: u8,
}

impl TraceCtx {
    pub open spec fn absent() -> TraceCtx {
        TraceCtx { trace_hi: 0, trace_lo: 0, parent: 0, flags: 0 }
    }

    /// Whether the context was handed on by a caller: its trace is not zero.
    pub open spec fn is_propagated(self) -> bool {
        self.trace_hi != 0 || self.trace_lo != 0
    }

    pub fn none() -> (r: TraceCtx)
        ensures
            r == TraceCtx::absent(),
    {
        TraceCtx { trace_hi: 0, trace_lo: 0, parent: 0, flags: 0 }
    }

    pub fn propagated(self) -> (r: bool)
        ensures
            r == self.is_propagated(),
    {
        self.trace_hi != 0 || self.trace_lo != 0
    }
}

/// The request being served.
pub struct Request {
    /// The request line has been parsed.
    pub parsed: bool,
    /// Method of the request. Per request, not per connection.
    pub method: u8,
    pub path: Vec<u8>,
    pub route: Option<usize>,
}

/// Bytes received and not consumed. The head stays at the front while the body is
/// read behind it.
pub struct Inbox {
    pub buf: Vec<u8>,
    /// Where the head ends; zero before it is known.
    pub head_end: usize,
}

/// Bytes to send, and how many of them have been sent.
pub struct Outbox {
    pub buf: Vec<u8>,
    pub sent: usize,
}

/// A request body being read.
pub struct BodyReader {
    pub mode: BodyMode,
    pub state: ChunkState,
    /// An interim response is still to drain before the body is read.
    pub interim: bool,
    /// Bytes left of the body, or of the current chunk.
    pub remaining: u64,
    /// The decoded body.
    pub data: Vec<u8>,
    /// Bytes reserved for the decoded body.
    pub reserved: u32,
}

/// What is being rendered or streamed as a response body.
#[derive(Clone, Copy, PartialEq, Eq, Structural)]
pub struct Rendering {
    pub file_index: i16,
    pub file_count: u16,
    pub index_pos: u16,
    /// Ticks spent waiting for a file's length.
    pub stat_ticks: u16,
    /// Position within the route's body.
    pub pos: usize,
    /// Open file of the filesystem provider; negative for none.
    pub fd: i32,
    /// Bytes to send; `u32::MAX` when that is not known.
    pub total: u32,
    pub sent: u32,
}

/// A request that is with the application.
#[derive(Clone, Copy, PartialEq, Eq, Structural)]
pub struct AppWait {
    pub pending: bool,
    /// The generation stamped into the request.
    pub generation: u16,
    pub deadline_ms: u64,
    /// The response head went out and more body envelopes are expected.
    pub streaming: bool,
}

/// The WebSocket side of a connection.
#[derive(Clone, Copy, PartialEq, Eq, Structural)]
pub struct WsConn {
    /// The connection subscribes to the fan-out.
    pub fan_out: bool,
    /// An opened event has been reported, so a closed event is owed.
    pub opened_sent: bool,
    pub close_code: u16,
    /// A fan-out message is part way through being sent in fragments.
    pub frag_active: bool,
    pub replay_started: bool,
    pub replay_done: bool,
    pub replay_offset: u32,
    pub replay_target: u32,
}

/// The trace span of the request being served.
#[derive(Clone, Copy, PartialEq, Eq, Structural)]
pub struct SpanState {
    /// Start of the span; zero for none.
    pub start_us: u64,
    pub ctx: TraceCtx,
    /// The connection's own context, for requests that carry none.
    pub conn_ctx: TraceCtx,
}

/// The backend leg of a proxied request.
#[derive(Clone, Copy, PartialEq, Eq, Structural)]
pub struct ProxyLeg {
    pub conn: Option<u16>,
    /// The dynamic backend that was dialled; `None` for a configured one.
    pub dyn_idx: Option<usize>,
    pub ip: u32,
    pub port: u16,
    pub connect_start_ms: u32,
    pub attempt: u8,
    pub connected: bool,
    pub connect_failed: bool,
    pub closed: bool,
    /// How much of what was received has been relayed to the backend.
    pub relayed: usize,
}

/// Per-connection state.
pub struct ConnSlot {
    /// The transport's connection; `None` while the slot is free.
    pub conn_id: Option<u16>,
    pub phase: Phase,
    pub peer_closed: bool,
    /// The connection may serve another request after this one.
    pub keepalive: bool,
    /// The slot holds a content-cache entry it renders from.
    pub cache_retained: bool,
    pub client_ip: u32,
    pub req: Request,
    pub rx: Inbox,
    pub tx: Outbox,
    pub body: BodyReader,
    pub render: Rendering,
    pub app: AppWait,
    pub ws: WsConn,
    pub span: SpanState,
    pub proxy: ProxyLeg,
}

impl Request {
    pub open spec fn wf(self) -> bool {
        self.path@.len() <= MAX_PATH
    }

    pub open spec fn is_blank(self) -> bool {
        !self.parsed && self.method == METHOD_NONE && self.path@.len() == 0 && self.route is None
    }

    pub fn blank() -> (r: Request)
        ensures
            r.is_blank(),
            r.wf(),
    {
        Request { parsed: false, method: METHOD_NONE, path: Vec::new(), route: None }
    }
}

impl Inbox {
    pub open spec fn wf(self) -> bool {
        self.buf@.len() <= RECV_BUF_SIZE && self.head_end <= self.buf@.len()
    }

    pub open spec fn is_blank(self) -> bool {
        self.buf@.len() == 0 && self.head_end == 0
    }

    pub fn blank() -> (r: Inbox)
        ensures
            r.is_blank(),
            r.wf(),
    {
        Inbox { buf: Vec::new(), head_end: 0 }
    }
}

impl Outbox {
    pub open spec fn wf(self) -> bool {
        self.buf@.len() <= SEND_BUF_SIZE && self.sent <= self.buf@.len()
    }

    pub open spec fn is_blank(self) -> bool {
        self.buf@.len() == 0 && self.sent == 0
    }

    /// The bytes still to send.
    pub open spec fn unsent(self) -> Seq<u8> {
        self.buf@.skip(self.sent as int)
    }

    pub fn blank() -> (r: Outbox)
        ensures
            r.is_blank(),
            r.wf(),
    {
        Outbox { buf: Vec::new(), sent: 0 }
    }

    /// How many bytes are still to send.
    pub fn send_remaining(&self) -> (r: usize)
        requires
            self.wf(),
        ensures
            r == self.unsent().len(),
    {
        self.buf.len() - self.sent
    }

    /// The bytes still to send.
    pub fn to_send(&self) -> (r: &[u8])
        requires
            self.wf(),
        ensures
            r@ == self.unsent(),
    {
        let r = vstd::slice::slice_subrange(self.buf.as_slice(), self.sent, self.buf.len());
        assert(r@ =~= self.unsent());
        r
    }

    /// Note that the network took `n` of the bytes to send.
    pub fn note_sent(&mut self, n: usize)
        requires
            old(self).wf(),
            n <= old(self).unsent().len(),
        ensures
            *final(self) == (Outbox { sent: (old(self).sent + n) as usize, ..*old(self) }),
            final(self).unsent() == old(self).unsent().skip(n as int),
            final(self).wf(),
    {
        self.sent = self.sent + n;
        assert(self.unsent() =~= old(self).unsent().skip(n as int));
    }

    /// Replace what is to be sent.
    pub fn stage(&mut self, bytes: Vec<u8>)
        requires
            bytes@.len() <= SEND_BUF_SIZE,
        ensures
            final(self).buf@ == bytes@,
            final(self).sent == 0,
            final(self).unsent() == bytes@,
            final(self).wf(),
    {
        self.buf = bytes;
        self.sent = 0;
        assert(self.unsent() =~= bytes@);
    }

    /// Nothing is left to send.
    pub fn clear(&mut self)
        ensures
            final(self).is_blank(),
            final(self).wf(),
    {
        self.buf = Vec::new();
        self.sent = 0;
    }
}

impl BodyReader {
    pub open spec fn is_blank(self) -> bool {
        &&& self.mode is Absent
        &&& self.state is Size
        &&& !self.interim
        &&& self.remaining == 0
        &&& self.data@.len() == 0
        &&& self.reserved == 0
    }

    pub fn blank() -> (r: BodyReader)
        ensures
            r.is_blank(),
    {
        BodyReader {
            mode: BodyMode::Absent,
            state: ChunkState::Size,
            interim: false,
            remaining: 0,
            data: Vec::new(),
            reserved: 0,
        }
    }
}

impl Rendering {
    /// Nothing is being rendered.
    pub open spec fn idle() -> Rendering {
        Rendering {
            file_index: -1i16,
            file_count: 0,
            index_pos: 0,
            stat_ticks: 0,
            pos: 0,
            fd: -1i32,
            total: 0,
            sent: 0,
        }
    }

    pub fn none() -> (r: Rendering)
        ensures
            r == Rendering::idle(),
    {
        Rendering {
            file_index: -1,
            file_count: 0,
            index_pos: 0,
            stat_ticks: 0,
            pos: 0,
            fd: -1,
            total: 0,
            sent: 0,
        }
    }
}

impl AppWait {
    /// Nothing is with the application.
    pub open spec fn idle() -> AppWait {
        AppWait { pending: false, generation: 0, deadline_ms: 0, streaming: false }
    }

    pub fn none() -> (r: AppWait)
        ensures
            r == AppWait::idle(),
    {
        AppWait { pending: false, generation: 0, deadline_ms: 0, streaming: false }
    }
}

impl WsConn {
    /// Not a WebSocket connection.
    pub open spec fn idle() -> WsConn {
        WsConn {
            fan_out: false,
            opened_sent: false,
            close_code: 0,
            frag_active: false,
            replay_started: false,
            replay_done: false,
            replay_offset: 0,
            replay_target: 0,
        }
    }

    pub fn none() -> (r: WsConn)
        ensures
            r == WsConn::idle(),
    {
        WsConn {
            fan_out: false,
            opened_sent: false,
            close_code: 0,
            frag_active: false,
            replay_started: false,
            replay_done: false,
            replay_offset: 0,
            replay_target: 0,
        }
    }
}

impl SpanState {
    /// No span.
    pub open spec fn idle() -> SpanState {
        SpanState { start_us: 0, ctx: TraceCtx::absent(), conn_ctx: TraceCtx::absent() }
    }

    pub fn none() -> (r: SpanState)
        ensures
            r == SpanState::idle(),
    {
        SpanState { start_us: 0, ctx: TraceCtx::none(), conn_ctx: TraceCtx::none() }
    }
}

impl ProxyLeg {
    /// No backend.
    pub open spec fn idle() -> ProxyLeg {
        ProxyLeg {
            conn: None,
            dyn_idx: None,
            ip: 0,
            port: 0,
            connect_start_ms: 0,
            attempt: 0,
            connected: false,
            connect_failed: false,
            closed: false,
            relayed: 0,
        }
    }

    pub fn none() -> (r: ProxyLeg)
        ensures
            r == ProxyLeg::idle(),
    {
        ProxyLeg {
            conn: None,
            dyn_idx: None,
            ip: 0,
            port: 0,
            connect_start_ms: 0,
            attempt: 0,
            connected: false,
            connect_failed: false,
            closed: false,
            relayed: 0,
        }
    }
}

impl ConnSlot {
    pub open spec fn wf(self) -> bool {
        &&& self.req.wf()
        &&& self.rx.wf()
        &&& self.tx.wf()
    }

    /// Whether a connection can be accepted into the slot.
    pub open spec fn free(self) -> bool {
        self.conn_id is None && (self.phase is Init || self.phase is WaitAccept)
    }

    /// Whether this is the slot of nothing: no connection, empty buffers, every
    /// marker clear.
    pub open spec fn is_blank(self) -> bool {
        &&& self.conn_id is None
        &&& self.phase is Init
        &&& !self.peer_closed
        &&& !self.keepalive
        &&& !self.cache_retained
        &&& self.client_ip == 0
        &&& self.req.is_blank()
        &&& self.rx.is_blank()
        &&& self.tx.is_blank()
        &&& self.body.is_blank()
        &&& self.render == Rendering::idle()
        &&& self.app == AppWait::idle()
        &&& self.ws == WsConn::idle()
        &&& self.span == SpanState::idle()
        &&& self.proxy == ProxyLeg::idle()
    }

    /// A slot of nothing.
    pub fn blank() -> (r: ConnSlot)
        ensures
            r.is_blank(),
            r.wf(),
            r.free(),
    {
        ConnSlot {
            conn_id: None,
            phase: Phase::Init,
            peer_closed: false,
            keepalive: false,
            cache_retained: false,
            client_ip: 0,
            req: Request::blank(),
            rx: Inbox::blank(),
            tx: Outbox::blank(),
            body: BodyReader::blank(),
            render: Rendering::none(),
            app: AppWait::none(),
            ws: WsConn::none(),
            span: SpanState::none(),
            proxy: ProxyLeg::none(),
        }
    }

    pub fn is_free(&self) -> (r: bool)
        ensures
            r == self.free(),
    {
        self.conn_id.is_none() && (self.phase == Phase::Init || self.phase == Phase::WaitAccept)
    }
}

} // verus!
