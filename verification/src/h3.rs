//! HTTP/3 connection state (RFC 9114): sessions, streams and their tables.
//!
//! State is per session and per stream. Two connections advertise their own
//! settings, run their own control and compression streams and drain on their
//! own; requests on one stream never disturb another.

use crate::h3_wire::{
    H3_UNI_STREAM_CONTROL, H3_UNI_STREAM_QPACK_DECODER, H3_UNI_STREAM_QPACK_ENCODER,
};
use crate::varint::varint_at;
use vstd::prelude::*;

verus! {

/// Concurrent request streams.
pub const MAX_H3_STREAMS: usize = 4;
/// Bytes of request head a stream may accumulate.
pub const H3_RECV_BUF: usize = 1024;
/// Bytes of response a stream may hold for the transport.
pub const H3_SEND_BUF: usize = 2048;
/// Concurrent sessions.
pub const MAX_H3_SESSIONS: usize = 2;
/// Peer unidirectional streams tracked per session.
pub const MAX_PEER_UNI: usize = 4;
/// Bytes a peer control stream may hold unparsed.
pub const H3_UNI_BUF: usize = 256;
/// Longest varint.
pub const H3_VARINT_MAX: usize = 8;
/// The field-section limit this endpoint advertises.
pub const LOCAL_MAX_FIELD_SECTION: u64 = 16384;

pub const H3_NO_ERROR: u64 = 0x0100;
pub const H3_GENERAL_PROTOCOL_ERROR: u64 = 0x0101;
pub const H3_INTERNAL_ERROR: u64 = 0x0102;
pub const H3_STREAM_CREATION_ERROR: u64 = 0x0103;
pub const H3_CLOSED_CRITICAL_STREAM: u64 = 0x0104;
pub const H3_FRAME_UNEXPECTED: u64 = 0x0105;
pub const H3_FRAME_ERROR: u64 = 0x0106;
pub const H3_EXCESSIVE_LOAD: u64 = 0x0107;
pub const H3_ID_ERROR: u64 = 0x0108;
pub const H3_SETTINGS_ERROR: u64 = 0x0109;
pub const H3_MISSING_SETTINGS: u64 = 0x010A;
pub const H3_REQUEST_REJECTED: u64 = 0x010B;
pub const H3_REQUEST_CANCELLED: u64 = 0x010C;
pub const H3_REQUEST_INCOMPLETE: u64 = 0x010D;
pub const H3_MESSAGE_ERROR: u64 = 0x010E;
pub const H3_CONNECT_ERROR: u64 = 0x010F;
pub const H3_VERSION_FALLBACK: u64 = 0x0110;
pub const QPACK_DECOMPRESSION_FAILED: u64 = 0x0200;
pub const QPACK_ENCODER_STREAM_ERROR: u64 = 0x0201;
pub const QPACK_DECODER_STREAM_ERROR: u64 = 0x0202;

// ── Request streams ─────────────────────────────────────────────────────

#[derive(Clone, Copy, PartialEq, Eq, Structural)]
pub enum H3StreamState {
    Idle,
    HeadersRecv,
    BodyRecv,
    HeadersSent,
    BodySend,
    Complete,
    Reset,
}

/// One request stream.
pub struct H3StreamSlot {
    /// The session the stream belongs to.
    pub session_id: u32,
    /// The transport's handle for the stream.
    pub stream_id: u64,
    /// The stream's own identity on the wire, which GOAWAY names it by.
    pub quic_stream_id: u64,
    pub state: H3StreamState,
    pub allocated: bool,
    /// Request bytes held until the head is whole.
    pub recv_hdr_buf: Vec<u8>,
    /// The rendered response.
    pub send_buf: Vec<u8>,
    /// How much of the response the transport has taken.
    pub send_off: usize,
    /// The stream is a WebSocket tunnel.
    pub ws_active: bool,
    /// Tunnel bytes held until an HTTP/3 frame is whole.
    pub ws_buf: Vec<u8>,
    /// Tunnel payload held until a WebSocket frame is whole.
    pub ws_data: Vec<u8>,
    /// The error code of a reset owed on the stream; zero for none.
    pub reset_code: u64,
    /// The response has gone out and the stream still owes its close.
    pub close_pending: bool,
    pub headers_sent: bool,
    pub body_done: bool,
    pub matched_route: i16,
    pub file_index: i16,
    pub tmpl_pos: usize,
}

/// What a request stream is, its buffers as the bytes they hold.
#[verifier::ext_equal]
pub struct SlotModel {
    pub session_id: u32,
    pub stream_id: u64,
    pub quic_stream_id: u64,
    pub state: H3StreamState,
    pub allocated: bool,
    pub recv: Seq<u8>,
    pub send: Seq<u8>,
    pub send_off: int,
    pub ws_active: bool,
    pub ws: Seq<u8>,
    pub ws_data: Seq<u8>,
    pub reset_code: u64,
    pub close_pending: bool,
    pub headers_sent: bool,
    pub body_done: bool,
    pub matched_route: i16,
    pub file_index: i16,
    pub tmpl_pos: int,
}

impl View for H3StreamSlot {
    type V = SlotModel;

    open spec fn view(&self) -> SlotModel {
        SlotModel {
            session_id: self.session_id,
            stream_id: self.stream_id,
            quic_stream_id: self.quic_stream_id,
            state: self.state,
            allocated: self.allocated,
            recv: self.recv_hdr_buf@,
            send: self.send_buf@,
            send_off: self.send_off as int,
            ws_active: self.ws_active,
            ws: self.ws_buf@,
            ws_data: self.ws_data@,
            reset_code: self.reset_code,
            close_pending: self.close_pending,
            headers_sent: self.headers_sent,
            body_done: self.body_done,
            matched_route: self.matched_route,
            file_index: self.file_index,
            tmpl_pos: self.tmpl_pos as int,
        }
    }
}

impl SlotModel {
    /// The buffers are within their bounds and no more was sent than held.
    pub open spec fn wf(self) -> bool {
        &&& self.recv.len() <= H3_RECV_BUF
        &&& self.ws.len() <= H3_RECV_BUF
        &&& self.ws_data.len() <= H3_RECV_BUF
        &&& self.send.len() <= H3_SEND_BUF
        &&& 0 <= self.send_off <= self.send.len()
    }

    /// Response bytes the transport has not taken.
    pub open spec fn pending(self) -> int {
        if self.send_off < self.send.len() {
            self.send.len() - self.send_off
        } else {
            0
        }
    }

    /// The slot with nothing in it. The file index alone outlives the request.
    pub open spec fn released(self) -> SlotModel {
        SlotModel {
            session_id: 0,
            stream_id: 0,
            quic_stream_id: 0,
            state: H3StreamState::Idle,
            allocated: false,
            recv: Seq::empty(),
            send: Seq::empty(),
            send_off: 0,
            ws_active: false,
            ws: Seq::empty(),
            ws_data: Seq::empty(),
            reset_code: 0,
            close_pending: false,
            headers_sent: false,
            body_done: false,
            matched_route: -1i16,
            file_index: self.file_index,
            tmpl_pos: 0,
        }
    }

    /// Whether the slot is the one of this stream.
    pub open spec fn is_for(self, session: u32, stream: u64) -> bool {
        self.allocated && self.session_id == session && self.stream_id == stream
    }
}

impl H3StreamSlot {
    pub fn empty() -> (r: H3StreamSlot)
        ensures
            r@ == r@.released(),
            r.file_index == -1,
            r@.wf(),
    {
        let r = H3StreamSlot {
            session_id: 0,
            stream_id: 0,
            quic_stream_id: 0,
            state: H3StreamState::Idle,
            allocated: false,
            recv_hdr_buf: Vec::new(),
            send_buf: Vec::new(),
            send_off: 0,
            ws_active: false,
            ws_buf: Vec::new(),
            ws_data: Vec::new(),
            reset_code: 0,
            close_pending: false,
            headers_sent: false,
            body_done: false,
            matched_route: -1,
            file_index: -1,
            tmpl_pos: 0,
        };
        assert(r@ =~= r@.released());
        r
    }

    /// Free the slot for another stream.
    pub fn release(&mut self)
        ensures
            final(self)@ == old(self)@.released(),
    {
        self.allocated = false;
        self.state = H3StreamState::Idle;
        self.session_id = 0;
        self.stream_id = 0;
        self.quic_stream_id = 0;
        self.reset_code = 0;
        self.recv_hdr_buf.clear();
        self.ws_active = false;
        self.ws_buf.clear();
        self.ws_data.clear();
        self.close_pending = false;
        self.send_buf.clear();
        self.send_off = 0;
        self.headers_sent = false;
        self.body_done = false;
        self.matched_route = -1;
        self.tmpl_pos = 0;
        assert(self@ =~= old(self)@.released());
    }

    /// Response bytes the transport has not taken.
    pub fn pending_out(&self) -> (r: usize)
        ensures
            r == self@.pending(),
    {
        if self.send_off < self.send_buf.len() {
            self.send_buf.len() - self.send_off
        } else {
            0
        }
    }
}

// ── Unidirectional streams ──────────────────────────────────────────────

/// What a peer unidirectional stream turned out to be.
#[derive(Clone, Copy, PartialEq, Eq, Structural, Debug)]
pub enum UniRole {
    /// Its leading varint is still arriving.
    Pending,
    Control,
    Push,
    QpackEncoder,
    QpackDecoder,
    /// A type not implemented here. Such streams are ignored, not refused.
    Unknown,
}

/// One peer unidirectional stream.
pub struct PeerUni {
    pub allocated: bool,
    pub handle: u32,
    pub role: UniRole,
    /// The part of the leading varint that has arrived.
    pub prefix: Vec<u8>,
    /// Control bytes held until a frame is whole.
    pub buf: Vec<u8>,
}

#[verifier::ext_equal]
pub struct PeerUniModel {
    pub allocated: bool,
    pub handle: u32,
    pub role: UniRole,
    pub prefix: Seq<u8>,
    pub buf: Seq<u8>,
}

impl View for PeerUni {
    type V = PeerUniModel;

    open spec fn view(&self) -> PeerUniModel {
        PeerUniModel {
            allocated: self.allocated,
            handle: self.handle,
            role: self.role,
            prefix: self.prefix@,
            buf: self.buf@,
        }
    }
}

impl PeerUniModel {
    pub open spec fn wf(self) -> bool {
        &&& self.prefix.len() <= H3_VARINT_MAX
        &&& self.buf.len() <= H3_UNI_BUF
        &&& self.role is Pending ==> varint_at(self.prefix) is None
    }

    pub open spec fn fresh() -> PeerUniModel {
        PeerUniModel {
            allocated: false,
            handle: 0,
            role: UniRole::Pending,
            prefix: Seq::empty(),
            buf: Seq::empty(),
        }
    }

    /// Whether the connection depends on this stream for its whole life.
    pub open spec fn critical(self) -> bool {
        self.role is Control || self.role is QpackEncoder || self.role is QpackDecoder
    }
}

impl PeerUni {
    pub fn empty() -> (r: PeerUni)
        ensures
            r@ == PeerUniModel::fresh(),
    {
        let r = PeerUni {
            allocated: false,
            handle: 0,
            role: UniRole::Pending,
            prefix: Vec::new(),
            buf: Vec::new(),
        };
        assert(r@ =~= PeerUniModel::fresh());
        r
    }
}

/// How far one of the three streams this endpoint opens has come.
#[derive(Clone, Copy, PartialEq, Eq, Structural, Debug)]
pub enum LocalUniState {
    /// Nothing asked for yet.
    Idle,
    /// An open is outstanding; the transport owes a handle.
    Opening,
    /// There is a handle; the preamble is still to be written.
    Open,
    /// The preamble has been handed over.
    Ready,
    /// The transport refused the open. It is not asked again.
    Refused,
}

#[derive(Clone, Copy, PartialEq, Eq, Structural)]
pub struct LocalUni {
    pub state: LocalUniState,
    pub handle: u32,
    pub stream_type: u64,
}

impl LocalUni {
    pub open spec fn idle(stream_type: u64) -> LocalUni {
        LocalUni { state: LocalUniState::Idle, handle: 0, stream_type }
    }

    pub fn new(stream_type: u64) -> (r: LocalUni)
        ensures
            r == LocalUni::idle(stream_type),
    {
        LocalUni { state: LocalUniState::Idle, handle: 0, stream_type }
    }
}

// ── Sessions ────────────────────────────────────────────────────────────

/// One connection.
pub struct H3Session {
    pub allocated: bool,
    pub session_id: u32,
    /// The connection negotiated HTTP/3.
    pub is_h3: bool,
    pub ctrl: LocalUni,
    pub qpack_enc: LocalUni,
    pub qpack_dec: LocalUni,
    /// Our SETTINGS have gone out.
    pub settings_sent: bool,
    pub peer_uni: [PeerUni; MAX_PEER_UNI],
    pub peer_control_seen: bool,
    pub peer_qpack_enc_seen: bool,
    pub peer_qpack_dec_seen: bool,
    /// The peer's SETTINGS have arrived and validated.
    pub peer_settings_seen: bool,
    /// The peer's field-section limit; `u32::MAX` when it stated none. A stated
    /// zero is a limit like any other.
    pub peer_max_field_section: u32,
    pub peer_enable_connect: bool,
    pub peer_goaway: bool,
    pub peer_goaway_id: u64,
    /// The first connection error raised; zero for none.
    pub conn_error: u64,
    pub conn_error_pending: bool,
    /// The first request stream that will not be processed.
    pub goaway_id: u64,
    pub goaway_sent: bool,
}

#[verifier::ext_equal]
pub struct SessionModel {
    pub allocated: bool,
    pub session_id: u32,
    pub is_h3: bool,
    pub ctrl: LocalUni,
    pub qpack_enc: LocalUni,
    pub qpack_dec: LocalUni,
    pub settings_sent: bool,
    pub peer_uni: Seq<PeerUniModel>,
    pub peer_control_seen: bool,
    pub peer_qpack_enc_seen: bool,
    pub peer_qpack_dec_seen: bool,
    pub peer_settings_seen: bool,
    pub peer_max_field_section: u32,
    pub peer_enable_connect: bool,
    pub peer_goaway: bool,
    pub peer_goaway_id: u64,
    pub conn_error: u64,
    pub conn_error_pending: bool,
    pub goaway_id: u64,
    pub goaway_sent: bool,
}

/// Tracked streams, each as its model.
pub open spec fn peer_models(a: [PeerUni; MAX_PEER_UNI]) -> Seq<PeerUniModel> {
    Seq::new(MAX_PEER_UNI as nat, |i: int| a@[i]@)
}

impl View for H3Session {
    type V = SessionModel;

    open spec fn view(&self) -> SessionModel {
        SessionModel {
            allocated: self.allocated,
            session_id: self.session_id,
            is_h3: self.is_h3,
            ctrl: self.ctrl,
            qpack_enc: self.qpack_enc,
            qpack_dec: self.qpack_dec,
            settings_sent: self.settings_sent,
            peer_uni: peer_models(self.peer_uni),
            peer_control_seen: self.peer_control_seen,
            peer_qpack_enc_seen: self.peer_qpack_enc_seen,
            peer_qpack_dec_seen: self.peer_qpack_dec_seen,
            peer_settings_seen: self.peer_settings_seen,
            peer_max_field_section: self.peer_max_field_section,
            peer_enable_connect: self.peer_enable_connect,
            peer_goaway: self.peer_goaway,
            peer_goaway_id: self.peer_goaway_id,
            conn_error: self.conn_error,
            conn_error_pending: self.conn_error_pending,
            goaway_id: self.goaway_id,
            goaway_sent: self.goaway_sent,
        }
    }
}

impl SessionModel {
    pub open spec fn wf(self) -> bool {
        &&& self.peer_uni.len() == MAX_PEER_UNI
        &&& forall|i: int| 0 <= i < MAX_PEER_UNI ==> (#[trigger] self.peer_uni[i]).wf()
    }

    pub open spec fn fresh() -> SessionModel {
        SessionModel {
            allocated: false,
            session_id: 0,
            is_h3: false,
            ctrl: LocalUni::idle(H3_UNI_STREAM_CONTROL),
            qpack_enc: LocalUni::idle(H3_UNI_STREAM_QPACK_ENCODER),
            qpack_dec: LocalUni::idle(H3_UNI_STREAM_QPACK_DECODER),
            settings_sent: false,
            peer_uni: Seq::new(MAX_PEER_UNI as nat, |i: int| PeerUniModel::fresh()),
            peer_control_seen: false,
            peer_qpack_enc_seen: false,
            peer_qpack_dec_seen: false,
            peer_settings_seen: false,
            peer_max_field_section: u32::MAX,
            peer_enable_connect: false,
            peer_goaway: false,
            peer_goaway_id: 0,
            conn_error: 0,
            conn_error_pending: false,
            goaway_id: 0,
            goaway_sent: false,
        }
    }

    /// Whether a response must still wait for the peer's SETTINGS.
    pub open spec fn gated(self) -> bool {
        self.is_h3 && !self.peer_settings_seen
    }

    /// The session after a connection error: the first one is kept.
    pub open spec fn failed(self, code: u64) -> SessionModel {
        if self.conn_error_pending {
            self
        } else {
            SessionModel { conn_error: code, conn_error_pending: true, ..self }
        }
    }
}

impl H3Session {
    pub fn empty() -> (r: H3Session)
        ensures
            r@ == SessionModel::fresh(),
    {
        let r = H3Session {
            allocated: false,
            session_id: 0,
            is_h3: false,
            ctrl: LocalUni::new(H3_UNI_STREAM_CONTROL),
            qpack_enc: LocalUni::new(H3_UNI_STREAM_QPACK_ENCODER),
            qpack_dec: LocalUni::new(H3_UNI_STREAM_QPACK_DECODER),
            settings_sent: false,
            peer_uni: [PeerUni::empty(), PeerUni::empty(), PeerUni::empty(), PeerUni::empty()],
            peer_control_seen: false,
            peer_qpack_enc_seen: false,
            peer_qpack_dec_seen: false,
            peer_settings_seen: false,
            peer_max_field_section: u32::MAX,
            peer_enable_connect: false,
            peer_goaway: false,
            peer_goaway_id: 0,
            conn_error: 0,
            conn_error_pending: false,
            goaway_id: 0,
            goaway_sent: false,
        };
        assert(r@.peer_uni =~= SessionModel::fresh().peer_uni);
        r
    }

    /// Whether a response must still wait for the peer's SETTINGS. The request need
    /// not: streams arrive in any order.
    pub fn responses_gated(&self) -> (r: bool)
        ensures
            r == self@.gated(),
    {
        self.is_h3 && !self.peer_settings_seen
    }

    /// Raise a connection error. The first cause is the one reported.
    pub fn fail(&mut self, code: u64)
        ensures
            final(self)@ == old(self)@.failed(code),
    {
        if !self.conn_error_pending {
            self.conn_error = code;
            self.conn_error_pending = true;
        }
        assert(self@ =~= old(self)@.failed(code));
    }

    /// Free the entry for another session.
    pub fn release(&mut self)
        ensures
            final(self)@ == SessionModel::fresh(),
    {
        *self = H3Session::empty();
    }
}

// ── The whole state ─────────────────────────────────────────────────────

/// Every session and request stream of this endpoint.
pub struct H3State {
    pub slots: [H3StreamSlot; MAX_H3_STREAMS],
    pub emit_cursor: u8,
    pub sessions: [H3Session; MAX_H3_SESSIONS],
    pub sess_cursor: u8,
    /// The endpoint is shutting down and admits nothing new.
    pub draining: bool,
}

#[verifier::ext_equal]
pub struct H3Model {
    pub slots: Seq<SlotModel>,
    pub emit_cursor: u8,
    pub sessions: Seq<SessionModel>,
    pub sess_cursor: u8,
    pub draining: bool,
}

/// Request streams, each as its model.
pub open spec fn slot_models(a: [H3StreamSlot; MAX_H3_STREAMS]) -> Seq<SlotModel> {
    Seq::new(MAX_H3_STREAMS as nat, |i: int| a@[i]@)
}

/// Sessions, each as its model.
pub open spec fn session_models(a: [H3Session; MAX_H3_SESSIONS]) -> Seq<SessionModel> {
    Seq::new(MAX_H3_SESSIONS as nat, |i: int| a@[i]@)
}

impl View for H3State {
    type V = H3Model;

    open spec fn view(&self) -> H3Model {
        H3Model {
            slots: slot_models(self.slots),
            emit_cursor: self.emit_cursor,
            sessions: session_models(self.sessions),
            sess_cursor: self.sess_cursor,
            draining: self.draining,
        }
    }
}

impl H3Model {
    pub open spec fn wf(self) -> bool {
        &&& self.slots.len() == MAX_H3_STREAMS
        &&& self.sessions.len() == MAX_H3_SESSIONS
        &&& forall|i: int| 0 <= i < MAX_H3_STREAMS ==> (#[trigger] self.slots[i]).wf()
        &&& forall|i: int| 0 <= i < MAX_H3_SESSIONS ==> (#[trigger] self.sessions[i]).wf()
    }

    /// The state with slot `i` replaced.
    pub open spec fn with_slot(self, i: int, s: SlotModel) -> H3Model {
        H3Model { slots: self.slots.update(i, s), ..self }
    }

    /// The state with session `i` replaced.
    pub open spec fn with_session(self, i: int, s: SessionModel) -> H3Model {
        H3Model { sessions: self.sessions.update(i, s), ..self }
    }
}

impl H3State {
    pub fn new() -> (r: H3State)
        ensures
            r@.wf(),
            r.emit_cursor == 0,
            r.sess_cursor == 0,
            !r.draining,
            forall|i: int|
                0 <= i < MAX_H3_STREAMS ==> (#[trigger] r@.slots[i]) == r@.slots[i].released()
                    && r@.slots[i].file_index == -1,
            forall|i: int|
                0 <= i < MAX_H3_SESSIONS ==> (#[trigger] r@.sessions[i]) == SessionModel::fresh(),
    {
        proof {
            crate::varint::lemma_varint_bounds(Seq::empty());
        }
        H3State {
            slots: [
                H3StreamSlot::empty(),
                H3StreamSlot::empty(),
                H3StreamSlot::empty(),
                H3StreamSlot::empty(),
            ],
            emit_cursor: 0,
            sessions: [H3Session::empty(), H3Session::empty()],
            sess_cursor: 0,
            draining: false,
        }
    }
}

} // verus!
