//! WebSocket frames on the wire (RFC 6455 §5).

use crate::bytes::extend;
use vstd::prelude::*;

verus! {

pub const OP_CONTINUATION: u8 = 0x0;
pub const OP_TEXT: u8 = 0x1;
pub const OP_BINARY: u8 = 0x2;
pub const OP_CLOSE: u8 = 0x8;
pub const OP_PING: u8 = 0x9;
pub const OP_PONG: u8 = 0xa;

pub const CLOSE_NORMAL: u16 = 1000;
pub const CLOSE_GOING_AWAY: u16 = 1001;
pub const CLOSE_PROTOCOL_ERROR: u16 = 1002;
pub const CLOSE_MESSAGE_TOO_BIG: u16 = 1009;

/// A frame's header.
#[derive(Clone, Copy)]
pub struct WsFrame {
    pub fin: bool,
    pub opcode: u8,
    pub masked: bool,
    pub mask_key: [u8; 4],
    pub header_len: usize,
    pub payload_len: u64,
}

/// What the front of a buffer holds.
#[verifier::ext_equal]
pub enum WsHeader {
    /// The header has not all arrived.
    Incomplete,
    /// No frame may begin like this.
    Malformed,
    Frame { fin: bool, opcode: u8, masked: bool, key: Seq<u8>, header_len: nat, payload_len: nat },
}

/// Whether a frame may begin with these two bytes: no reserved bit, a defined
/// opcode, and a control frame whole and of at most 125 bytes.
pub open spec fn ws_start_legal(b0: u8, b1: u8) -> bool {
    let op = b0 % 16;
    &&& b0 / 16 % 8 == 0
    &&& op <= 2 || 8 <= op <= 10
    &&& op >= 8 ==> b0 >= 0x80 && b1 % 128 <= 125
}

/// Width of the length field after the first two bytes.
pub open spec fn ws_ext_len(b1: u8) -> nat {
    if b1 % 128 == 126 {
        2
    } else if b1 % 128 == 127 {
        8
    } else {
        0
    }
}

/// The big-endian number `n` bytes wide at `at`.
pub open spec fn be_at(s: Seq<u8>, at: int, n: nat) -> int
    decreases n,
{
    if n == 0 {
        0
    } else {
        be_at(s, at, (n - 1) as nat) * 256 + s[at + n - 1]
    }
}

/// The frame header at the front of `buf`.
pub open spec fn ws_header_at(buf: Seq<u8>) -> WsHeader {
    if buf.len() < 2 {
        WsHeader::Incomplete
    } else if !ws_start_legal(buf[0], buf[1]) {
        WsHeader::Malformed
    } else {
        let ext = ws_ext_len(buf[1]);
        let masked = buf[1] >= 0x80;
        let hl: nat = 2 + ext + if masked {
            4nat
        } else {
            0nat
        };
        if buf.len() < 2 + ext {
            WsHeader::Incomplete
        } else if ext == 8 && buf[2] >= 0x80 {
            // The length's high bit must be clear.
            WsHeader::Malformed
        } else if buf.len() < hl {
            WsHeader::Incomplete
        } else {
            WsHeader::Frame {
                fin: buf[0] >= 0x80,
                opcode: (buf[0] % 16) as u8,
                masked,
                key: if masked {
                    buf.subrange(2 + ext as int, 6 + ext as int)
                } else {
                    seq![0u8, 0, 0, 0]
                },
                header_len: hl,
                payload_len: if ext == 0 {
                    (buf[1] % 128) as nat
                } else {
                    be_at(buf, 2, ext) as nat
                },
            }
        }
    }
}

impl WsFrame {
    pub open spec fn header(self) -> WsHeader {
        WsHeader::Frame {
            fin: self.fin,
            opcode: self.opcode,
            masked: self.masked,
            key: self.mask_key@,
            header_len: self.header_len as nat,
            payload_len: self.payload_len as nat,
        }
    }
}

/// Parse the frame header at the front of `buf`. The payload need not have arrived.
pub fn parse_frame(buf: &[u8]) -> (r: Result<Option<WsFrame>, ()>)
    ensures
        match r {
            Ok(Some(f)) => ws_header_at(buf@) == f.header() && 2 <= f.header_len <= 14
                && f.header_len <= buf.len(),
            Ok(None) => ws_header_at(buf@) is Incomplete,
            Err(_) => ws_header_at(buf@) is Malformed,
        },
{
    if buf.len() < 2 {
        return Ok(None);
    }
    let b0: u8 = buf[0];
    let b1: u8 = buf[1];
    let op: u8 = b0 % 16;
    if b0 / 16 % 8 != 0 || (op > 2 && op < 8) || op > 10 {
        return Err(());
    }
    if op >= 8 && (b0 < 0x80 || b1 % 128 > 125) {
        return Err(());
    }
    let ext: usize = if b1 % 128 == 126 {
        2
    } else if b1 % 128 == 127 {
        8
    } else {
        0
    };
    if buf.len() < 2 + ext {
        return Ok(None);
    }
    if ext == 8 && buf[2] >= 0x80 {
        return Err(());
    }
    let masked: bool = b1 >= 0x80;
    let header_len: usize = if masked {
        6 + ext
    } else {
        2 + ext
    };
    if buf.len() < header_len {
        return Ok(None);
    }
    proof {
        reveal_with_fuel(be_at, 9);
    }
    let payload_len: u64 = if ext == 0 {
        (b1 % 128) as u64
    } else if ext == 2 {
        (buf[2] as u64) * 256 + buf[3] as u64
    } else {
        (((((((buf[2] as u64) * 256 + buf[3] as u64) * 256 + buf[4] as u64) * 256
            + buf[5] as u64) * 256 + buf[6] as u64) * 256 + buf[7] as u64) * 256
            + buf[8] as u64) * 256 + buf[9] as u64
    };
    let mut mask_key: [u8; 4] = [0, 0, 0, 0];
    if masked {
        mask_key = [buf[2 + ext], buf[3 + ext], buf[4 + ext], buf[5 + ext]];
        assert(mask_key@ =~= buf@.subrange(2 + ext as int, 6 + ext as int));
    } else {
        assert(mask_key@ =~= seq![0u8, 0, 0, 0]);
    }
    Ok(Some(WsFrame { fin: b0 >= 0x80, opcode: op, masked, mask_key, header_len, payload_len }))
}

/// A whole header stays the same header when more bytes follow.
pub proof fn lemma_ws_header_prefix(buf: Seq<u8>, more: Seq<u8>)
    requires
        !(ws_header_at(buf) is Incomplete),
    ensures
        ws_header_at(buf + more) == ws_header_at(buf),
{
    let ext = ws_ext_len(buf[1]);
    assert(forall|i: int| 0 <= i < buf.len() ==> (buf + more)[i] == buf[i]);
    if buf.len() >= 2 + ext {
        lemma_be_at_prefix(buf, more, 2, ext);
    }
    if buf[1] >= 0x80 && buf.len() >= 6 + ext {
        assert((buf + more).subrange(2 + ext as int, 6 + ext as int) =~= buf.subrange(
            2 + ext as int,
            6 + ext as int,
        ));
    }
}

proof fn lemma_be_at_prefix(buf: Seq<u8>, more: Seq<u8>, at: int, n: nat)
    requires
        0 <= at,
        at + n <= buf.len(),
    ensures
        be_at(buf + more, at, n) == be_at(buf, at, n),
    decreases n,
{
    if n > 0 {
        lemma_be_at_prefix(buf, more, at, (n - 1) as nat);
    }
}

// ── Masking ─────────────────────────────────────────────────────────────

/// A payload under a mask: byte `i` exclusive-or key byte `i % 4`.
pub open spec fn masked_with(s: Seq<u8>, key: Seq<u8>) -> Seq<u8> {
    Seq::new(s.len(), |i: int| s[i] ^ key[i % 4])
}

/// Masking twice with one key gives the payload back.
pub proof fn lemma_mask_involution(s: Seq<u8>, key: Seq<u8>)
    ensures
        masked_with(masked_with(s, key), key) == s,
{
    assert forall|i: int| 0 <= i < s.len() implies (s[i] ^ key[i % 4]) ^ key[i % 4] == s[i] by {
        let a = s[i];
        let k = key[i % 4];
        assert((a ^ k) ^ k == a) by (bit_vector);
    }
    assert(masked_with(masked_with(s, key), key) =~= s);
}

/// The payload of a client frame, unmasked.
pub fn unmask(payload: &[u8], key: &[u8; 4]) -> (r: Vec<u8>)
    ensures
        r@ == masked_with(payload@, key@),
{
    let mut out: Vec<u8> = Vec::new();
    let mut i: usize = 0;
    while i < payload.len()
        invariant
            i <= payload.len(),
            out@ =~= masked_with(payload@, key@).take(i as int),
        decreases payload.len() - i,
    {
        let k: u8 = key[i % 4];
        out.push(payload[i] ^ k);
        i += 1;
    }
    out
}

// ── Writing ─────────────────────────────────────────────────────────────

/// The header of an unmasked frame of `n` payload bytes.
pub open spec fn ws_header_bytes(fin: bool, opcode: u8, n: nat) -> Seq<u8> {
    let b0 = (opcode + if fin {
        0x80int
    } else {
        0int
    }) as u8;
    if n < 126 {
        seq![b0, n as u8]
    } else if n < 0x1_0000 {
        seq![b0, 126u8, (n / 0x100) as u8, (n % 0x100) as u8]
    } else {
        seq![
            b0,
            127u8,
            (n / 0x100_0000_0000_0000 % 0x100) as u8,
            (n / 0x1_0000_0000_0000 % 0x100) as u8,
            (n / 0x100_0000_0000 % 0x100) as u8,
            (n / 0x1_0000_0000 % 0x100) as u8,
            (n / 0x100_0000 % 0x100) as u8,
            (n / 0x1_0000 % 0x100) as u8,
            (n / 0x100 % 0x100) as u8,
            (n % 0x100) as u8,
        ]
    }
}

/// A whole server-to-client frame.
pub open spec fn ws_frame_bytes(fin: bool, opcode: u8, payload: Seq<u8>) -> Seq<u8> {
    ws_header_bytes(fin, opcode, payload.len()) + payload
}

/// A written frame parses back: same flags, opcode and length, and the payload
/// right behind the header.
pub proof fn law_ws_frame_reads_back(fin: bool, opcode: u8, payload: Seq<u8>, rest: Seq<u8>)
    requires
        opcode <= 2 || 8 <= opcode <= 10,
        opcode >= 8 ==> fin && payload.len() <= 125,
        payload.len() < 0x8000_0000_0000_0000,
    ensures
        ({
            let buf = ws_frame_bytes(fin, opcode, payload) + rest;
            let h = ws_header_bytes(fin, opcode, payload.len()).len();
            &&& ws_header_at(buf) == (WsHeader::Frame {
                fin,
                opcode,
                masked: false,
                key: seq![0u8, 0, 0, 0],
                header_len: h,
                payload_len: payload.len(),
            })
            &&& buf.subrange(h as int, (h + payload.len()) as int) == payload
        }),
{
    let n = payload.len();
    let hb = ws_header_bytes(fin, opcode, n);
    let buf = ws_frame_bytes(fin, opcode, payload) + rest;
    assert(buf[0] == hb[0] && buf[1] == hb[1]);
    assert(buf.subrange(hb.len() as int, (hb.len() + n) as int) =~= payload);
    if 126 <= n < 0x1_0000 {
        assert(buf[2] == hb[2] && buf[3] == hb[3]);
        reveal_with_fuel(be_at, 3);
    } else if n >= 0x1_0000 {
        assert(forall|i: int| 0 <= i < 10 ==> buf[i] == hb[i]);
        lemma_be8(buf, 2, n);
    }
}

proof fn lemma_be8(s: Seq<u8>, at: int, n: nat)
    requires
        n < 0x8000_0000_0000_0000,
        s[at] == n / 0x100_0000_0000_0000 % 0x100,
        s[at + 1] == n / 0x1_0000_0000_0000 % 0x100,
        s[at + 2] == n / 0x100_0000_0000 % 0x100,
        s[at + 3] == n / 0x1_0000_0000 % 0x100,
        s[at + 4] == n / 0x100_0000 % 0x100,
        s[at + 5] == n / 0x1_0000 % 0x100,
        s[at + 6] == n / 0x100 % 0x100,
        s[at + 7] == n % 0x100,
    ensures
        be_at(s, at, 8) == n,
{
    assert(be_at(s, at, 0) == 0);
    assert(be_at(s, at, 1) == n / 0x100_0000_0000_0000);
    assert(be_at(s, at, 2) == n / 0x1_0000_0000_0000);
    assert(be_at(s, at, 3) == n / 0x100_0000_0000);
    assert(be_at(s, at, 4) == n / 0x1_0000_0000);
    assert(be_at(s, at, 5) == n / 0x100_0000);
    assert(be_at(s, at, 6) == n / 0x1_0000);
    assert(be_at(s, at, 7) == n / 0x100);
}

/// The header a client writes before its mask key: the final flag and the opcode, then
/// the mask flag and the length, in one byte where it is below 126, else in the two or
/// eight bytes that follow, the most significant first.
pub open spec fn client_header(fin: bool, opcode: u8, n: nat) -> Seq<u8> {
    let first = if fin {
        (0x80 + opcode) as u8
    } else {
        opcode
    };
    if n <= 125 {
        seq![first, (0x80 + n) as u8]
    } else if n <= 0xffff {
        seq![first, 0xfeu8, (n / 256) as u8, (n % 256) as u8]
    } else {
        seq![
            first,
            0xffu8,
            (n / 0x100_0000_0000_0000 % 256) as u8,
            (n / 0x1_0000_0000_0000 % 256) as u8,
            (n / 0x100_0000_0000 % 256) as u8,
            (n / 0x1_0000_0000 % 256) as u8,
            (n / 0x100_0000 % 256) as u8,
            (n / 0x1_0000 % 256) as u8,
            (n / 0x100 % 256) as u8,
            (n % 256) as u8,
        ]
    }
}

/// A frame as a client writes it: the header, the four bytes of the key, and each byte of
/// the payload exclusive-or the byte of the key whose turn it is.
pub open spec fn client_frame(fin: bool, opcode: u8, key: Seq<u8>, payload: Seq<u8>) -> Seq<u8> {
    client_header(fin, opcode, payload.len()) + key + Seq::new(
        payload.len(),
        |i: int| payload[i] ^ key[i % 4],
    )
}

/// A frame that a client masked reads back, whatever its length and whatever follows it:
/// same flags and opcode, its key, and behind the key the payload, which the key unmasks.
pub proof fn law_client_frame_reads_back(
    fin: bool,
    opcode: u8,
    key: Seq<u8>,
    payload: Seq<u8>,
    rest: Seq<u8>,
)
    requires
        opcode <= 2 || 8 <= opcode <= 10,
        opcode >= 8 ==> fin && payload.len() <= 125,
        payload.len() <= i64::MAX,
        key.len() == 4,
    ensures
        ({
            let buf = client_frame(fin, opcode, key, payload) + rest;
            let h = client_header(fin, opcode, payload.len()).len() + 4;
            &&& ws_header_at(buf) == (WsHeader::Frame {
                fin,
                opcode,
                masked: true,
                key,
                header_len: h,
                payload_len: payload.len(),
            })
            &&& h + payload.len() == client_frame(fin, opcode, key, payload).len()
            &&& masked_with(buf.subrange(h as int, (h + payload.len()) as int), key) == payload
        }),
{
    let n = payload.len();
    let hb = client_header(fin, opcode, n);
    let masked = Seq::new(n, |i: int| payload[i] ^ key[i % 4]);
    let buf = client_frame(fin, opcode, key, payload) + rest;
    let l = hb.len() as int;
    assert(forall|i: int| 0 <= i < l ==> buf[i] == hb[i]);
    assert(buf.subrange(l, l + 4) =~= key);
    assert(buf.subrange(l + 4, l + 4 + n) =~= masked);
    if 126 <= n <= 0xffff {
        assert(buf[2] == hb[2] && buf[3] == hb[3]);
        reveal_with_fuel(be_at, 3);
    } else if n > 0xffff {
        assert(forall|i: int| 0 <= i < 10 ==> buf[i] == hb[i]);
        lemma_be8(buf, 2, n);
    }
    assert(masked =~= masked_with(payload, key));
    lemma_mask_involution(payload, key);
}

/// A frame of the server is a client's without the mask: the same header but for the mask
/// flag, and behind it the payload as it is.
pub proof fn law_server_frame_is_unmasked(fin: bool, opcode: u8, payload: Seq<u8>)
    requires
        opcode < 0x80,
    ensures
        ({
            let h = client_header(fin, opcode, payload.len());
            ws_frame_bytes(fin, opcode, payload) == h.update(1, (h[1] - 0x80) as u8) + payload
        }),
{
    let n = payload.len();
    let h = client_header(fin, opcode, n);
    assert(ws_header_bytes(fin, opcode, n) =~= h.update(1, (h[1] - 0x80) as u8));
}

/// Build one server-to-client frame.
pub fn write_frame(fin: bool, opcode: u8, payload: &[u8]) -> (r: Vec<u8>)
    requires
        opcode < 0x80,
    ensures
        r@ == ws_frame_bytes(fin, opcode, payload@),
{
    let n: u64 = payload.len() as u64;
    let b0: u8 = if fin {
        opcode + 0x80
    } else {
        opcode
    };
    let mut out: Vec<u8> = if n < 126 {
        vec![b0, n as u8]
    } else if n < 0x1_0000 {
        vec![b0, 126, (n / 0x100) as u8, (n % 0x100) as u8]
    } else {
        vec![
            b0,
            127,
            (n / 0x100_0000_0000_0000 % 0x100) as u8,
            (n / 0x1_0000_0000_0000 % 0x100) as u8,
            (n / 0x100_0000_0000 % 0x100) as u8,
            (n / 0x1_0000_0000 % 0x100) as u8,
            (n / 0x100_0000 % 0x100) as u8,
            (n / 0x1_0000 % 0x100) as u8,
            (n / 0x100 % 0x100) as u8,
            (n % 0x100) as u8,
        ]
    };
    assert(out@ =~= ws_header_bytes(fin, opcode, payload@.len()));
    extend(&mut out, payload);
    out
}

/// What makes the start of a frame malformed: a reserved bit, an opcode that is none, a
/// control frame that is a fragment or longer than 125 bytes.
pub proof fn law_malformed_frames_are_told(b0: u8, b1: u8, rest: Seq<u8>)
    ensures
        ({
            let r = ws_header_at(seq![b0, b1] + rest);
            &&& (b0 / 64) % 2 == 1 || (b0 / 32) % 2 == 1 || (b0 / 16) % 2 == 1 ==> r is Malformed
            &&& 3 <= b0 % 16 <= 7 || b0 % 16 >= 11 ==> r is Malformed
            &&& b0 % 16 >= 8 && b0 < 128 ==> r is Malformed
            &&& b0 % 16 >= 8 && b1 % 128 > 125 ==> r is Malformed
            &&& (b0 / 16) % 8 == 0 && b0 % 16 <= 2 && b1 % 128 < 126 ==> !(r is Malformed)
            &&& b0 >= 128 && (b0 / 16) % 8 == 0 && 8 <= b0 % 16 <= 10 && b1 % 128 <= 125 ==> !(
            r is Malformed)
        }),
{
    let buf = seq![b0, b1] + rest;
    assert(buf[0] == b0 && buf[1] == b1);
}

} // verus!
