//! The multiplexed-session transport surface HTTP/3 runs over.
//!
//! Every record is `[type u8][length u16 LE][payload]`. A payload begins with the
//! session it concerns and, where it concerns a stream, that stream's handle. The
//! transport moves sessions, streams and bytes; what they mean is decided here.

use vstd::prelude::*;

verus! {

/// Record header: type and payload length.
pub const FRAME_HDR: usize = 3;
/// Session identifier at the front of every payload.
pub const SESSION_ID_BYTES: usize = 4;
/// Session identifier and stream handle at the front of a stream payload.
pub const STREAM_DATA_PREFIX: usize = 8;
/// Status, reserved byte and token length of a session announcement.
pub const SESSION_OPENED_BODY_MIN: usize = 3;
/// Status of an answered stream open.
pub const STREAM_OPENED_BODY: usize = 1;
/// Flags and transport identity of an accepted stream.
pub const STREAM_ACCEPTED_BODY: usize = 9;

pub const STATUS_OK: u8 = 0;
pub const STATUS_PROTOCOL_ERROR: u8 = 1;

/// The stream carries bytes one way only.
pub const STREAM_FLAG_UNI: u8 = 0x01;

pub const MSG_MUX_SESSION_OPENED: u8 = 0xb0;
pub const MSG_MUX_SESSION_CLOSED: u8 = 0xb1;
pub const MSG_MUX_STREAM_OPENED: u8 = 0xb2;
pub const MSG_MUX_STREAM_ACCEPTED: u8 = 0xb3;
pub const MSG_MUX_STREAM_RX: u8 = 0xb4;
pub const MSG_MUX_STREAM_CLOSED: u8 = 0xb5;
pub const MSG_MUX_STREAM_RESET: u8 = 0xb6;
pub const MSG_MUX_STREAM_STOPPED: u8 = 0xb7;
pub const MSG_MUX_PEER_IDENTITY: u8 = 0xb8;
pub const MSG_MUX_DATAGRAM_RX: u8 = 0xb9;

pub const CMD_MUX_STREAM_OPEN: u8 = 0xc0;
pub const CMD_MUX_STREAM_SEND: u8 = 0xc1;
pub const CMD_MUX_STREAM_CLOSE: u8 = 0xc2;
pub const CMD_MUX_STREAM_RESET: u8 = 0xc3;
pub const CMD_MUX_SESSION_CLOSE: u8 = 0xc4;

/// Most bytes one stream send may carry.
pub const MUX_QUIC_STREAM_SEND_MAX: usize = 1200;
/// Most payload bytes of a stream delivery, prefix counted.
pub const MUX_QUIC_STREAM_RX_FRAME_MAX: usize = 2056;

} // verus!
