//! The byte-stream transport surface: records `[type u8][length u16 LE][payload]`,
//! each payload beginning with the connection it concerns.

use crate::bytes::{extend, get_u16, le16, u16_at};
use vstd::prelude::*;
use vstd::slice::slice_subrange;

verus! {

/// Record header: type and payload length.
pub const NET_FRAME_HDR: usize = 3;
/// Most bytes one record takes, header counted.
pub const NET_BUF_SIZE: usize = 2048;
/// One segment: the most one send carries where the transport does not segment.
pub const NET_MSS: usize = 1460;

pub const NET_MSG_ACCEPTED: u8 = 0x01;
pub const NET_MSG_DATA: u8 = 0x02;
pub const NET_MSG_CLOSED: u8 = 0x03;
pub const NET_MSG_BOUND: u8 = 0x04;
pub const NET_MSG_CONNECTED: u8 = 0x05;
pub const NET_MSG_ERROR: u8 = 0x06;
pub const NET_MSG_BIND_REFUSED: u8 = 0x07;
pub const NET_MSG_TRACE_CTX: u8 = 0x08;

pub const NET_CMD_BIND: u8 = 0x10;
pub const NET_CMD_SEND: u8 = 0x11;
pub const NET_CMD_CLOSE: u8 = 0x12;
pub const NET_CMD_CONNECT: u8 = 0x13;

/// A record.
pub open spec fn net_frame(kind: u8, payload: Seq<u8>) -> Seq<u8> {
    seq![kind] + le16(payload.len() as u16) + payload
}

/// Make a record.
pub fn net_frame_vec(kind: u8, payload: &[u8]) -> (r: Vec<u8>)
    requires
        payload@.len() <= u16::MAX,
    ensures
        r@ == net_frame(kind, payload@),
{
    let n: u16 = payload.len() as u16;
    let mut v: Vec<u8> = Vec::new();
    v.push(kind);
    v.push((n % 256) as u8);
    v.push((n / 256) as u8);
    extend(&mut v, payload);
    assert(v@ =~= net_frame(kind, payload@));
    v
}

/// How many of `len` bytes one send carries: as many as fit a record, or one segment
/// where the transport does not segment.
pub open spec fn send_size(len: nat, host_tcp: bool) -> nat {
    let cap = if host_tcp {
        (NET_BUF_SIZE - NET_FRAME_HDR - 2) as nat
    } else {
        NET_MSS as nat
    };
    if len < cap {
        len
    } else {
        cap
    }
}

/// The record that sends `data` on a connection.
pub open spec fn send_frame(conn: u16, data: Seq<u8>) -> Seq<u8> {
    net_frame(NET_CMD_SEND, le16(conn) + data)
}

/// Make the record that sends the front of `data`, and say how much of it that is.
/// `None` when there is nothing to send.
pub fn net_send(conn: u16, data: &[u8], host_tcp: bool) -> (r: Option<(Vec<u8>, usize)>)
    ensures
        match r {
            Some((frame, n)) => n == send_size(data@.len(), host_tcp) && n > 0 && frame@
                == send_frame(conn, data@.take(n as int)) && frame@.len() <= NET_BUF_SIZE,
            None => data@.len() == 0,
        },
{
    let cap: usize = if host_tcp {
        NET_BUF_SIZE - NET_FRAME_HDR - 2
    } else {
        NET_MSS
    };
    let n: usize = if data.len() < cap {
        data.len()
    } else {
        cap
    };
    if n == 0 {
        return None;
    }
    let mut payload: Vec<u8> = Vec::new();
    payload.push((conn % 256) as u8);
    payload.push((conn / 256) as u8);
    assert(payload@ =~= le16(conn));
    let piece = slice_subrange(data, 0, n);
    assert(piece@ =~= data@.take(n as int));
    extend(&mut payload, piece);
    Some((net_frame_vec(NET_CMD_SEND, payload.as_slice()), n))
}

/// The record that closes a connection.
pub fn close_net_conn(conn: u16) -> (r: Vec<u8>)
    ensures
        r@ == net_frame(NET_CMD_CLOSE, le16(conn)),
{
    let mut payload: Vec<u8> = Vec::new();
    payload.push((conn % 256) as u8);
    payload.push((conn / 256) as u8);
    assert(payload@ =~= le16(conn));
    net_frame_vec(NET_CMD_CLOSE, payload.as_slice())
}

/// How many bytes the record that begins with `hdr` takes; never more than one read
/// carries. `None` while its header is not there.
pub fn record_len(hdr: &[u8]) -> (r: Option<usize>)
    ensures
        r == if hdr@.len() < NET_FRAME_HDR {
            None
        } else if NET_FRAME_HDR + u16_at(hdr@, 1) > NET_BUF_SIZE {
            Some(NET_BUF_SIZE)
        } else {
            Some((NET_FRAME_HDR + u16_at(hdr@, 1)) as usize)
        },
{
    if hdr.len() < NET_FRAME_HDR {
        return None;
    }
    let n: usize = NET_FRAME_HDR + get_u16(hdr, 1) as usize;
    if n > NET_BUF_SIZE {
        Some(NET_BUF_SIZE)
    } else {
        Some(n)
    }
}

// ── What a reader sees of a record ──────────────────────────────────────

/// A record is its type, the length of its payload in two bytes, low byte first, and the
/// payload.
pub proof fn law_record_reads_back(kind: u8, payload: Seq<u8>, rest: Seq<u8>)
    requires
        payload.len() <= u16::MAX,
    ensures
        ({
            let s = net_frame(kind, payload) + rest;
            &&& s[0] == kind
            &&& s[1] + 256 * s[2] == payload.len()
            &&& s.subrange(3, 3 + payload.len() as int) == payload
            &&& s.skip(3 + payload.len() as int) == rest
        }),
{
    let s = net_frame(kind, payload) + rest;
    assert(s.subrange(3, 3 + payload.len() as int) =~= payload);
    assert(s.skip(3 + payload.len() as int) =~= rest);
}

/// What is sent names its connection in two bytes, low byte first, and holds the data behind
/// it.
pub proof fn law_send_names_its_connection(conn: u16, data: Seq<u8>)
    requires
        data.len() + 2 <= u16::MAX,
    ensures
        ({
            let s = send_frame(conn, data);
            &&& s.len() == data.len() + 5
            &&& s[0] == 0x11
            &&& s[3] + 256 * s[4] == conn
            &&& s.skip(5) == data
        }),
{
    assert(send_frame(conn, data).skip(5) =~= data);
}

/// One send carries all there is where it fits: 1460 bytes where the transport does not
/// segment, else what a record has room for. Of more it carries as much as fits.
pub proof fn law_send_carries_what_fits(len: nat)
    ensures
        send_size(len, false) <= 1460 && send_size(len, true) + 5 <= 2048,
        len <= 1460 ==> send_size(len, false) == len,
        len + 5 <= 2048 ==> send_size(len, true) == len,
        len > 1460 ==> send_size(len, false) == 1460,
        len + 5 > 2048 ==> send_size(len, true) + 5 == 2048,
{
}

} // verus!
