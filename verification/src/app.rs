//! Requests handed to an application and the responses it gives back.
//!
//! The server keeps framing, connection state and bounded bodies; the application
//! decides what a request means. Requests leave and responses arrive as envelopes,
//! paired by connection and by a number that is never reused while it matters: the
//! stream on HTTP/2, the generation of the request on HTTP/1.

use crate::bytes::{
    clip, decimal_value, eq_ascii_ci, extend, find_byte, get_u16, index_from, is_digit, le16,
    lemma_decimal_prefix, lemma_text, lit, put_bytes, same_ci, text, u16_at,
};
use crate::cache::SEND_BUF_SIZE;
use crate::conn::{AppWait, ConnSlot, Phase};
use crate::h1_wire::{find_crlf, is_blank, lemma_line_end, line_end, trim_start};
use crate::method::{method_sends_response_body, sends_response_body};
use crate::response::{app_fields, app_head, build_app_header, build_app_header_open_ended};
use vstd::prelude::*;
use vstd::slice::slice_subrange;

verus! {

/// Most bytes one envelope carries.
pub const CHANNEL_BUFFER_SIZE: usize = 2048;

/// Fixed front of a request envelope: connection, stream, method, flags, and the
/// lengths of path, header block and body.
pub const REQ_HDR: usize = 12;

/// Fixed front of a response envelope: connection, stream, status, flags, and the
/// lengths of content type, header block and body.
pub const RESP_HDR: usize = 12;

/// More body follows in another envelope for the same request.
pub const FLAG_MORE_BODY: u8 = 1;

/// Longest header block handed to the application.
pub const MAX_FWD_HEADERS: usize = 2048;

/// How long a request may wait for its response.
pub const APP_TIMEOUT_MS: u64 = 30000;

/// What became of an attempt to hand over a request.
#[derive(Clone, Copy, PartialEq, Eq, Structural, Debug)]
pub enum EmitResult {
    Sent,
    /// Nothing is wired to take requests.
    Unwired,
    /// The envelope is larger than the channel carries.
    TooLarge,
    /// The channel is full; try again.
    Full,
}

// ── Request envelopes ───────────────────────────────────────────────────

/// One request as an envelope.
pub open spec fn request_envelope(
    conn_id: u16,
    stream_id: u16,
    verb: u8,
    path: Seq<u8>,
    headers: Seq<u8>,
    body: Seq<u8>,
) -> Seq<u8> {
    le16(conn_id) + le16(stream_id) + seq![verb, 0u8] + le16(path.len() as u16) + le16(
        headers.len() as u16,
    ) + le16(body.len() as u16) + path + headers + body
}

/// A request as the application reads it.
#[verifier::ext_equal]
pub struct ReqModel {
    pub conn_id: u16,
    pub stream_id: u16,
    pub verb: u8,
    pub flags: u8,
    pub path: Seq<u8>,
    pub headers: Seq<u8>,
    pub body: Seq<u8>,
}

/// The request an envelope carries.
pub open spec fn request_at(buf: Seq<u8>) -> Option<ReqModel> {
    if buf.len() < REQ_HDR {
        None
    } else {
        let a = REQ_HDR + u16_at(buf, 6);
        let b = a + u16_at(buf, 8);
        let c = b + u16_at(buf, 10);
        if buf.len() < c {
            None
        } else {
            Some(
                ReqModel {
                    conn_id: u16_at(buf, 0),
                    stream_id: u16_at(buf, 2),
                    verb: buf[4],
                    flags: buf[5],
                    path: buf.subrange(REQ_HDR as int, a),
                    headers: buf.subrange(a, b),
                    body: buf.subrange(b, c),
                },
            )
        }
    }
}

/// A request envelope reads back as the request it was made from.
pub proof fn law_request_envelope_reads_back(
    conn_id: u16,
    stream_id: u16,
    verb: u8,
    path: Seq<u8>,
    headers: Seq<u8>,
    body: Seq<u8>,
)
    requires
        path.len() <= u16::MAX,
        headers.len() <= u16::MAX,
        body.len() <= u16::MAX,
    ensures
        request_at(request_envelope(conn_id, stream_id, verb, path, headers, body)) == Some(
            ReqModel { conn_id, stream_id, verb, flags: 0, path, headers, body },
        ),
{
    let e = request_envelope(conn_id, stream_id, verb, path, headers, body);
    let a = 12 + path.len() as int;
    let b = a + headers.len();
    let c = b + body.len();
    assert(e.subrange(12, a) =~= path);
    assert(e.subrange(a, b) =~= headers);
    assert(e.subrange(b, c) =~= body);
    assert(e[0] == le16(conn_id)[0] && e[1] == le16(conn_id)[1]);
    assert(e[2] == le16(stream_id)[0] && e[3] == le16(stream_id)[1]);
    assert(e[6] == le16(path.len() as u16)[0] && e[7] == le16(path.len() as u16)[1]);
    assert(e[8] == le16(headers.len() as u16)[0] && e[9] == le16(headers.len() as u16)[1]);
    assert(e[10] == le16(body.len() as u16)[0] && e[11] == le16(body.len() as u16)[1]);
}

fn put_u16(v: &mut Vec<u8>, x: u16)
    ensures
        final(v)@ == old(v)@ + le16(x),
{
    v.push((x % 256) as u8);
    v.push((x / 256) as u8);
    assert(v@ =~= old(v)@ + le16(x));
}

/// Make one request into an envelope. `None` when it is larger than the channel
/// carries.
pub fn write_request_envelope(
    conn_id: u16,
    stream_id: u16,
    verb: u8,
    path: &[u8],
    headers: &[u8],
    body: &[u8],
) -> (r: Option<Vec<u8>>)
    ensures
        match r {
            Some(e) => e@ == request_envelope(conn_id, stream_id, verb, path@, headers@, body@)
                && e@.len() <= CHANNEL_BUFFER_SIZE,
            None => request_envelope(conn_id, stream_id, verb, path@, headers@, body@).len()
                > CHANNEL_BUFFER_SIZE,
        },
{
    let room: usize = CHANNEL_BUFFER_SIZE - REQ_HDR;
    if path.len() > room || headers.len() > room - path.len() || body.len() > room - path.len()
        - headers.len() {
        return None;
    }
    let mut v: Vec<u8> = Vec::new();
    put_u16(&mut v, conn_id);
    put_u16(&mut v, stream_id);
    v.push(verb);
    v.push(0);
    put_u16(&mut v, path.len() as u16);
    put_u16(&mut v, headers.len() as u16);
    put_u16(&mut v, body.len() as u16);
    extend(&mut v, path);
    extend(&mut v, headers);
    extend(&mut v, body);
    assert(v@ =~= request_envelope(conn_id, stream_id, verb, path@, headers@, body@));
    Some(v)
}

/// The header block of a request head: what stands behind its first line, without the
/// blank line that ends the head.
pub open spec fn block_of(head: Seq<u8>) -> Seq<u8> {
    let e = line_end(head, 0);
    if e + 2 > head.len() || head.len() - 2 <= e + 2 {
        Seq::empty()
    } else {
        head.subrange(e + 2, head.len() - 2)
    }
}

pub fn header_block(head: &[u8]) -> (r: &[u8])
    ensures
        r@ == block_of(head@),
{
    let n: usize = head.len();
    let e: usize = find_crlf(head, 0);
    if e >= n || n - 2 <= e + 2 {
        let r = slice_subrange(head, 0, 0);
        assert(r@ =~= Seq::<u8>::empty());
        return r;
    }
    slice_subrange(head, e + 2, n - 2)
}

/// The envelope of a connection's request: its method and path, its headers as far as
/// they are forwarded, and its body.
pub open spec fn slot_envelope(slot: ConnSlot, conn_id: u16, head: Seq<u8>, generation: u16) -> Seq<u8> {
    request_envelope(
        conn_id,
        generation,
        slot.req.method,
        slot.req.path@,
        clip(block_of(head), MAX_FWD_HEADERS as nat),
        slot.body.data@,
    )
}

/// What handing over a request comes to before the channel is asked.
pub enum EmitPlan {
    /// No attempt can succeed.
    Refused(EmitResult),
    /// Write this envelope.
    Write(Vec<u8>),
}

/// Plan to hand over the request of an HTTP/1 connection, stamped with `generation`.
pub fn emit_request(slot: &ConnSlot, head: &[u8], generation: u16, wired: bool) -> (r: EmitPlan)
    requires
        slot.wf(),
    ensures
        match r {
            EmitPlan::Refused(why) => if !wired || slot.conn_id is None {
                why is Unwired
            } else {
                why is TooLarge && slot_envelope(*slot, slot.conn_id->0, head@, generation).len()
                    > CHANNEL_BUFFER_SIZE
            },
            EmitPlan::Write(e) => wired && slot.conn_id is Some && e@ == slot_envelope(
                *slot,
                slot.conn_id->0,
                head@,
                generation,
            ) && e@.len() <= CHANNEL_BUFFER_SIZE,
        },
{
    if !wired {
        return EmitPlan::Refused(EmitResult::Unwired);
    }
    match slot.conn_id {
        None => EmitPlan::Refused(EmitResult::Unwired),
        Some(conn_id) => {
            let block = header_block(head);
            let n: usize = if block.len() > MAX_FWD_HEADERS {
                MAX_FWD_HEADERS
            } else {
                block.len()
            };
            let headers = slice_subrange(block, 0, n);
            assert(headers@ =~= clip(block_of(head@), MAX_FWD_HEADERS as nat));
            match write_request_envelope(
                conn_id,
                generation,
                slot.req.method,
                slot.req.path.as_slice(),
                headers,
                slot.body.data.as_slice(),
            ) {
                Some(e) => EmitPlan::Write(e),
                None => EmitPlan::Refused(EmitResult::TooLarge),
            }
        },
    }
}

/// When a request handed over at `now` runs out of time.
pub open spec fn deadline_after(now: u64) -> u64 {
    if now > u64::MAX - APP_TIMEOUT_MS {
        u64::MAX
    } else {
        (now + APP_TIMEOUT_MS) as u64
    }
}

pub fn app_deadline(now: u64) -> (r: u64)
    ensures
        r == deadline_after(now),
{
    if now > u64::MAX - APP_TIMEOUT_MS {
        u64::MAX
    } else {
        now + APP_TIMEOUT_MS
    }
}

/// Note that a connection's request has been handed over: it waits for its response
/// from now on, under the generation it was stamped with.
pub fn note_emitted(slot: &mut ConnSlot, generation: u16, now: u64)
    ensures
        *final(slot) == (ConnSlot {
            app: AppWait {
                pending: true,
                generation,
                deadline_ms: deadline_after(now),
                ..old(slot).app
            },
            phase: Phase::AwaitApp,
            ..*old(slot)
        }),
{
    slot.app.pending = true;
    slot.app.generation = generation;
    slot.app.deadline_ms = app_deadline(now);
    slot.phase = Phase::AwaitApp;
}

/// Whether a waiting request has run out of time.
pub fn app_deadline_passed(app: AppWait, now: u64) -> (r: bool)
    ensures
        r == (app.pending && app.deadline_ms != 0 && now >= app.deadline_ms),
{
    app.pending && app.deadline_ms != 0 && now >= app.deadline_ms
}

// ── Response envelopes ──────────────────────────────────────────────────

/// A response envelope, as parts of the buffer it was read into.
pub struct RespView<'a> {
    pub conn_id: u16,
    pub stream_id: u16,
    pub status: u16,
    pub flags: u8,
    pub content_type: &'a [u8],
    pub headers: &'a [u8],
    pub body: &'a [u8],
}

/// A response as the application wrote it.
#[verifier::ext_equal]
pub struct RespModel {
    pub conn_id: u16,
    pub stream_id: u16,
    pub status: u16,
    pub flags: u8,
    pub content_type: Seq<u8>,
    pub headers: Seq<u8>,
    pub body: Seq<u8>,
}

impl<'a> View for RespView<'a> {
    type V = RespModel;

    open spec fn view(&self) -> RespModel {
        RespModel {
            conn_id: self.conn_id,
            stream_id: self.stream_id,
            status: self.status,
            flags: self.flags,
            content_type: self.content_type@,
            headers: self.headers@,
            body: self.body@,
        }
    }
}

impl RespModel {
    /// Whether more of the body follows in another envelope.
    pub open spec fn more(self) -> bool {
        self.flags % 2 == 1
    }
}

/// One response as an envelope.
pub open spec fn response_envelope(r: RespModel) -> Seq<u8> {
    le16(r.conn_id) + le16(r.stream_id) + le16(r.status) + seq![
        r.flags,
        r.content_type.len() as u8,
    ] + le16(r.headers.len() as u16) + le16(r.body.len() as u16) + r.content_type + r.headers
        + r.body
}

/// The response at the front of a buffer. `None` when the buffer is too short for what
/// the envelope says of itself.
pub open spec fn response_at(buf: Seq<u8>) -> Option<RespModel> {
    if buf.len() < RESP_HDR {
        None
    } else {
        let a = RESP_HDR + buf[7];
        let b = a + u16_at(buf, 8);
        let c = b + u16_at(buf, 10);
        if buf.len() < c {
            None
        } else {
            Some(
                RespModel {
                    conn_id: u16_at(buf, 0),
                    stream_id: u16_at(buf, 2),
                    status: u16_at(buf, 4),
                    flags: buf[6],
                    content_type: buf.subrange(RESP_HDR as int, a),
                    headers: buf.subrange(a, b),
                    body: buf.subrange(b, c),
                },
            )
        }
    }
}

/// A response envelope reads back as the response it was made from, whatever follows
/// it in the buffer.
pub proof fn law_response_envelope_reads_back(r: RespModel, rest: Seq<u8>)
    requires
        r.content_type.len() <= u8::MAX,
        r.headers.len() <= u16::MAX,
        r.body.len() <= u16::MAX,
    ensures
        response_at(response_envelope(r) + rest) == Some(r),
{
    let e = response_envelope(r) + rest;
    let a = 12 + r.content_type.len() as int;
    let b = a + r.headers.len();
    let c = b + r.body.len();
    assert(e.subrange(12, a) =~= r.content_type);
    assert(e.subrange(a, b) =~= r.headers);
    assert(e.subrange(b, c) =~= r.body);
    assert(e[0] == le16(r.conn_id)[0] && e[1] == le16(r.conn_id)[1]);
    assert(e[2] == le16(r.stream_id)[0] && e[3] == le16(r.stream_id)[1]);
    assert(e[4] == le16(r.status)[0] && e[5] == le16(r.status)[1]);
    assert(e[8] == le16(r.headers.len() as u16)[0] && e[9] == le16(r.headers.len() as u16)[1]);
    assert(e[10] == le16(r.body.len() as u16)[0] && e[11] == le16(r.body.len() as u16)[1]);
}

/// Read a response envelope. One that claims more than it carries is refused.
pub fn parse_response(buf: &[u8]) -> (r: Option<RespView<'_>>)
    ensures
        match r {
            Some(v) => response_at(buf@) == Some(v@),
            None => response_at(buf@) is None,
        },
{
    if buf.len() < RESP_HDR {
        return None;
    }
    let hdr_at: usize = RESP_HDR + buf[7] as usize;
    let body_at: usize = hdr_at + get_u16(buf, 8) as usize;
    let need: usize = body_at + get_u16(buf, 10) as usize;
    if buf.len() < need {
        return None;
    }
    Some(
        RespView {
            conn_id: get_u16(buf, 0),
            stream_id: get_u16(buf, 2),
            status: get_u16(buf, 4),
            flags: buf[6],
            content_type: slice_subrange(buf, RESP_HDR, hdr_at),
            headers: slice_subrange(buf, hdr_at, body_at),
            body: slice_subrange(buf, body_at, need),
        },
    )
}

/// Whether a stream number fits the sixteen bits an envelope carries.
pub fn stream_id_fits(stream_id: u32) -> (r: bool)
    ensures
        r == (stream_id <= u16::MAX),
{
    stream_id <= 0xffff
}

/// Whether a response with this status to this method has a body.
pub open spec fn allows_body(status: u16, verb: u8) -> bool {
    sends_response_body(verb) && status != 204 && status != 304 && !(100 <= status < 200)
}

pub fn status_allows_body(status: u16, verb: u8) -> (r: bool)
    ensures
        r == allows_body(status, verb),
{
    if !method_sends_response_body(verb) {
        return false;
    }
    status != 204 && status != 304 && !(100 <= status && status < 200)
}

// ── Declared lengths ────────────────────────────────────────────────────

/// The first blank at or after `from`, or the end.
pub open spec fn blank_from(s: Seq<u8>, from: int) -> int
    decreases s.len() - from,
{
    if from < 0 || from >= s.len() {
        s.len() as int
    } else if is_blank(s[from]) {
        from
    } else {
        blank_from(s, from + 1)
    }
}

/// The length a `Content-Length` line states: the word behind its colon, if that is a
/// number of 32 bits.
pub open spec fn line_length(line: Seq<u8>) -> Option<u32> {
    let c = index_from(line, 0x3a, 0);
    if c >= line.len() || !same_ci(line.take(c), text("content-length")) {
        None
    } else {
        let t = trim_start(line.skip(c + 1));
        let word = t.take(blank_from(t, 0));
        if word.len() > 0 && (forall|i: int| 0 <= i < word.len() ==> is_digit(#[trigger] word[i]))
            && decimal_value(word) <= u32::MAX {
            Some(decimal_value(word) as u32)
        } else {
            None
        }
    }
}

/// The number a word of digits denotes, if it fits 32 bits.
fn word_value(word: &[u8]) -> (r: Option<u32>)
    ensures
        r == (if word@.len() > 0 && (forall|i: int|
            0 <= i < word@.len() ==> is_digit(#[trigger] word@[i])) && decimal_value(word@)
            <= u32::MAX {
            Some(decimal_value(word@) as u32)
        } else {
            None
        }),
{
    if word.len() == 0 {
        return None;
    }
    let mut v: u64 = 0;
    let mut i: usize = 0;
    assert(word@.take(0) =~= Seq::<u8>::empty());
    while i < word.len()
        invariant
            i <= word@.len(),
            word@.len() > 0,
            forall|k: int| 0 <= k < i ==> is_digit(#[trigger] word@[k]),
            v == decimal_value(word@.take(i as int)),
            v <= u32::MAX,
        decreases word@.len() - i,
    {
        let c: u8 = word[i];
        if c < 0x30 || c > 0x39 {
            assert(!is_digit(word@[i as int]));
            return None;
        }
        v = v * 10 + (c - 0x30) as u64;
        i += 1;
        assert(word@.take(i as int).drop_last() =~= word@.take(i - 1));
        assert(word@.take(i as int).last() == c);
        if v > 0xffff_ffff {
            proof {
                if forall|k: int| 0 <= k < word@.len() ==> is_digit(#[trigger] word@[k]) {
                    lemma_decimal_prefix(word@, i as int);
                }
            }
            return None;
        }
    }
    assert(word@.take(i as int) =~= word@);
    Some(v as u32)
}

fn content_length_of(line: &[u8]) -> (r: Option<u32>)
    ensures
        r == line_length(line@),
{
    let c: usize = match find_byte(line, 0x3a) {
        Some(c) => c,
        None => {
            return None;
        },
    };
    let name = slice_subrange(line, 0, c);
    assert(name@ =~= line@.take(c as int));
    if !eq_ascii_ci(name, lit("content-length")) {
        return None;
    }
    let n: usize = line.len();
    let ghost rest = line@.skip(c + 1);
    let mut a: usize = c + 1;
    while a < n && (line[a] == 0x20 || line[a] == 0x09)
        invariant
            c + 1 <= a <= n,
            n == line@.len(),
            rest == line@.skip(c + 1),
            trim_start(line@.skip(a as int)) == trim_start(rest),
        decreases n - a,
    {
        assert(line@.skip(a as int).skip(1) =~= line@.skip(a + 1));
        a += 1;
    }
    let ghost t = line@.skip(a as int);
    assert(trim_start(rest) == t);
    let mut b: usize = a;
    while b < n && line[b] != 0x20 && line[b] != 0x09
        invariant
            a <= b <= n,
            n == line@.len(),
            t == line@.skip(a as int),
            blank_from(t, b - a) == blank_from(t, 0),
        decreases n - b,
    {
        b += 1;
    }
    let word = slice_subrange(line, a, b);
    assert(blank_from(t, 0) == b - a);
    assert(word@ =~= t.take(blank_from(t, 0)));
    word_value(word)
}

/// The first length a header block states, from `from` on.
pub open spec fn declared_from(headers: Seq<u8>, from: int) -> Option<u32>
    decreases headers.len() - from,
{
    if from < 0 || from >= headers.len() {
        None
    } else {
        let e = line_end(headers, from);
        let n = line_length(headers.subrange(from, e));
        if n is Some || e < from || e + 2 > headers.len() {
            n
        } else {
            declared_from(headers, e + 2)
        }
    }
}

/// The length an application states in its own header block.
pub fn declared_length(headers: &[u8]) -> (r: Option<u32>)
    ensures
        r == declared_from(headers@, 0),
{
    let n: usize = headers.len();
    let mut from: usize = 0;
    while from < n
        invariant
            from <= n,
            n == headers@.len(),
            declared_from(headers@, from as int) == declared_from(headers@, 0),
        decreases n - from,
    {
        let e: usize = find_crlf(headers, from);
        let v = content_length_of(slice_subrange(headers, from, e));
        if v.is_some() || e >= n {
            return v;
        }
        from = e + 2;
    }
    None
}

// ── Composing the response ──────────────────────────────────────────────

/// The content type of a response that names none.
pub open spec fn type_or_default(t: Seq<u8>) -> Seq<u8> {
    if t.len() == 0 {
        text("application/octet-stream")
    } else {
        t
    }
}

/// Whether a response is the first part of one that comes in several envelopes.
pub open spec fn begins_stream(r: RespModel, verb: u8) -> bool {
    r.more() && allows_body(r.status, verb)
}

/// The length a response's head states: that of the body at hand, or the one the
/// application declared for a body still to come.
pub open spec fn stated_length(r: RespModel, verb: u8) -> Option<u32> {
    if begins_stream(r, verb) {
        declared_from(r.headers, 0)
    } else {
        Some(r.body.len() as u32)
    }
}

/// What is sent for the first envelope of a response, before it is cut to the send
/// buffer.
pub open spec fn first_bytes(r: RespModel, verb: u8, keepalive: bool) -> Seq<u8> {
    clip(
        app_head(
            r.status,
            type_or_default(r.content_type),
            stated_length(r, verb),
            keepalive && stated_length(r, verb) is Some,
            r.headers,
        ),
        SEND_BUF_SIZE as nat,
    ) + if allows_body(r.status, verb) {
        r.body
    } else {
        Seq::empty()
    }
}

/// Whether a slot has taken a response envelope as it should: the first one stages
/// head and body, a later one body alone. While more is expected the request stays
/// with the application, and each later part moves its deadline.
pub open spec fn composed(old_slot: ConnSlot, new_slot: ConnSlot, r: RespModel, now: u64) -> bool {
    let verb = old_slot.req.method;
    let streams = begins_stream(r, verb);
    let whole = first_bytes(r, verb, old_slot.keepalive);
    &&& new_slot == (ConnSlot {
        tx: new_slot.tx,
        app: new_slot.app,
        keepalive: new_slot.keepalive,
        phase: Phase::DrainSend,
        ..old_slot
    })
    &&& new_slot.tx.sent == 0
    &&& new_slot.app.generation == old_slot.app.generation
    &&& if old_slot.app.streaming {
        &&& new_slot.tx.buf@ == clip(r.body, SEND_BUF_SIZE as nat)
        &&& new_slot.keepalive == old_slot.keepalive
        &&& new_slot.app.streaming == r.more()
        &&& new_slot.app.pending == (r.more() && old_slot.app.pending)
        &&& new_slot.app.deadline_ms == if r.more() {
            deadline_after(now)
        } else {
            0
        }
    } else {
        &&& new_slot.tx.buf@ == clip(whole, SEND_BUF_SIZE as nat)
        &&& new_slot.app.streaming == streams
        &&& new_slot.app.pending == streams
        &&& new_slot.app.deadline_ms == if streams {
            old_slot.app.deadline_ms
        } else {
            0
        }
        &&& new_slot.keepalive == (old_slot.keepalive && stated_length(r, verb) is Some && (streams
            || whole.len() <= SEND_BUF_SIZE))
    }
}

fn more_follows(flags: u8) -> (r: bool)
    ensures
        r == (flags % 2 == 1),
{
    flags % 2 == 1
}

/// Stage a later part of a response that comes in several envelopes. Only its body is
/// read: its head went out with the first.
fn compose_stream_chunk(slot: &mut ConnSlot, v: &RespView<'_>, now: u64)
    requires
        old(slot).wf(),
        old(slot).app.streaming,
    ensures
        composed(*old(slot), *final(slot), v@, now),
        final(slot).wf(),
{
    let mut out: Vec<u8> = Vec::new();
    put_bytes(&mut out, SEND_BUF_SIZE, v.body);
    assert(Seq::<u8>::empty() + v.body@ =~= v.body@);
    slot.tx.stage(out);
    if more_follows(v.flags) {
        slot.app.deadline_ms = app_deadline(now);
    } else {
        slot.app.streaming = false;
        slot.app.pending = false;
        slot.app.deadline_ms = 0;
    }
    slot.phase = Phase::DrainSend;
}

/// Stage the head and the first part of the body.
fn compose_first(slot: &mut ConnSlot, v: &RespView<'_>, now: u64)
    requires
        old(slot).wf(),
        !old(slot).app.streaming,
        v.body@.len() <= u16::MAX,
    ensures
        composed(*old(slot), *final(slot), v@, now),
        final(slot).wf(),
{
    let verb: u8 = slot.req.method;
    let allowed = status_allows_body(v.status, verb);
    let streams = more_follows(v.flags) && allowed;
    let ct: &[u8] = if v.content_type.len() == 0 {
        lit("application/octet-stream")
    } else {
        v.content_type
    };
    let total: Option<u32> = if streams {
        declared_length(v.headers)
    } else {
        Some(v.body.len() as u32)
    };
    match total {
        Some(n) => {
            build_app_header(slot, v.status, ct, n, v.headers);
        },
        None => {
            slot.keepalive = false;
            build_app_header_open_ended(slot, v.status, ct, v.headers);
        },
    }
    let ghost head = slot.tx.buf@;
    let off: usize = slot.tx.buf.len();
    let mut fits = true;
    if allowed {
        put_bytes(&mut slot.tx.buf, SEND_BUF_SIZE, v.body);
        fits = v.body.len() <= SEND_BUF_SIZE - off;
        assert(slot.tx.buf@ =~= clip(head + v.body@, SEND_BUF_SIZE as nat));
    } else {
        assert(head + Seq::<u8>::empty() =~= head);
    }
    slot.app.streaming = streams;
    slot.app.pending = streams;
    if !streams {
        slot.app.deadline_ms = 0;
        if !fits {
            slot.keepalive = false;
        }
    }
    slot.phase = Phase::DrainSend;
}

/// Take a response envelope onto the connection that waits for it. One that does not
/// parse changes nothing.
pub fn compose_response(slot: &mut ConnSlot, envelope: &[u8], now: u64)
    requires
        old(slot).wf(),
    ensures
        match response_at(envelope@) {
            Some(r) => composed(*old(slot), *final(slot), r, now),
            None => *final(slot) == *old(slot),
        },
        final(slot).wf(),
{
    match parse_response(envelope) {
        None => {},
        Some(v) => {
            if slot.app.streaming {
                compose_stream_chunk(slot, &v, now);
            } else {
                compose_first(slot, &v, now);
            }
        },
    }
}

// ── Laws ────────────────────────────────────────────────────────────────

/// The lines kept of a header block take little more room than the block.
proof fn lemma_app_fields_len(extra: Seq<u8>, from: int)
    requires
        0 <= from,
    ensures
        from <= extra.len() ==> app_fields(extra, from).len() <= extra.len() - from + 2,
        from > extra.len() ==> app_fields(extra, from).len() == 0,
    decreases extra.len() - from,
{
    reveal_strlit("\r\n");
    lemma_text("\r\n");
    if from < extra.len() {
        lemma_line_end(extra, from);
        let e = line_end(extra, from);
        if e + 2 <= extra.len() {
            lemma_app_fields_len(extra, e + 2);
            if e + 2 == extra.len() {
                assert(app_fields(extra, e + 2).len() == 0);
            }
        }
    }
}

/// No response is cut: what the channel can carry, head and body, fits the send
/// buffer.
pub proof fn law_app_response_is_not_cut(envelope: Seq<u8>, verb: u8, keepalive: bool)
    requires
        envelope.len() <= CHANNEL_BUFFER_SIZE,
        response_at(envelope) is Some,
    ensures
        ({
            let r = response_at(envelope)->0;
            &&& first_bytes(r, verb, keepalive).len() <= SEND_BUF_SIZE
            &&& first_bytes(r, verb, keepalive) == app_head(
                r.status,
                type_or_default(r.content_type),
                stated_length(r, verb),
                keepalive && stated_length(r, verb) is Some,
                r.headers,
            ) + (if allows_body(r.status, verb) {
                r.body
            } else {
                Seq::empty()
            })
            &&& clip(r.body, SEND_BUF_SIZE as nat) == r.body
        }),
{
    let r = response_at(envelope)->0;
    lemma_app_fields_len(r.headers, 0);
    let n = match stated_length(r, verb) {
        Some(n) => n as nat,
        None => 0,
    };
    crate::response::lemma_decimal_len(n, 10);
    lemma_small_literals();
}

/// The fixed text of an application head is short.
proof fn lemma_small_literals()
    ensures
        text("HTTP/1.1 ").len() == 9,
        text("\r\nConnection: ").len() == 14,
        text("keep-alive").len() == 10,
        text("close").len() == 5,
        text("\r\nContent-Type: ").len() == 16,
        text("\r\nContent-Length: ").len() == 18,
        text("\r\n").len() == 2,
        text("application/octet-stream").len() == 24,
{
    reveal_strlit("HTTP/1.1 ");
    reveal_strlit("\r\nConnection: ");
    reveal_strlit("keep-alive");
    reveal_strlit("close");
    reveal_strlit("\r\nContent-Type: ");
    reveal_strlit("\r\nContent-Length: ");
    reveal_strlit("\r\n");
    reveal_strlit("application/octet-stream");
    lemma_text("HTTP/1.1 ");
    lemma_text("\r\nConnection: ");
    lemma_text("keep-alive");
    lemma_text("close");
    lemma_text("\r\nContent-Type: ");
    lemma_text("\r\nContent-Length: ");
    lemma_text("\r\n");
    lemma_text("application/octet-stream");
}

/// A response that must have no body has none, whatever the application sent.
pub proof fn law_bodiless_response_has_no_body(r: RespModel, verb: u8, keepalive: bool)
    requires
        !allows_body(r.status, verb),
    ensures
        first_bytes(r, verb, keepalive) == clip(
            app_head(
                r.status,
                type_or_default(r.content_type),
                Some(r.body.len() as u32),
                keepalive,
                r.headers,
            ),
            SEND_BUF_SIZE as nat,
        ),
        !begins_stream(r, verb),
{
    let head = clip(
        app_head(
            r.status,
            type_or_default(r.content_type),
            Some(r.body.len() as u32),
            keepalive,
            r.headers,
        ),
        SEND_BUF_SIZE as nat,
    );
    assert(head + Seq::<u8>::empty() =~= head);
}

/// A response has no body where its status allows none, nor to HEAD; every other has one.
pub proof fn law_bodies_go_by_status(status: u16, token: Seq<u8>)
    ensures
        ({
            let verb = crate::method::method_of(token);
            allows_body(status, verb) <==> token != text("HEAD") && status != 204 && status != 304
                && (status < 100 || status > 199)
        }),
{
    reveal_strlit("GET");
    reveal_strlit("HEAD");
    crate::bytes::lemma_text("GET");
    crate::bytes::lemma_text("HEAD");
    assert(text("GET").len() == 3 && text("HEAD").len() == 4);
}

/// A request envelope byte by byte: connection, stream, method, a byte that is zero, then the
/// lengths of path, headers and body, low bytes first, and the three themselves.
pub proof fn law_request_envelope_is_its_bytes(
    conn_id: u16,
    stream_id: u16,
    verb: u8,
    path: Seq<u8>,
    headers: Seq<u8>,
    body: Seq<u8>,
)
    requires
        path.len() <= u16::MAX,
        headers.len() <= u16::MAX,
        body.len() <= u16::MAX,
    ensures
        ({
            let e = request_envelope(conn_id, stream_id, verb, path, headers, body);
            let a = 12 + path.len() as int;
            let b = a + headers.len();
            &&& e[0] + 256 * e[1] == conn_id
            &&& e[2] + 256 * e[3] == stream_id
            &&& e[4] == verb
            &&& e[5] == 0
            &&& e[6] + 256 * e[7] == path.len()
            &&& e[8] + 256 * e[9] == headers.len()
            &&& e[10] + 256 * e[11] == body.len()
            &&& e.subrange(12, a) == path
            &&& e.subrange(a, b) == headers
            &&& e.skip(b) == body
        }),
{
    let e = request_envelope(conn_id, stream_id, verb, path, headers, body);
    let a = 12 + path.len() as int;
    let b = a + headers.len();
    assert(e.subrange(12, a) =~= path);
    assert(e.subrange(a, b) =~= headers);
    assert(e.skip(b) =~= body);
}

/// A response envelope byte by byte: connection, stream and status, the flags, the length of
/// the content type in one byte, those of headers and body in two, low byte first, and the
/// three themselves.
pub proof fn law_response_envelope_is_its_bytes(
    head: Seq<u8>,
    content_type: Seq<u8>,
    headers: Seq<u8>,
    body: Seq<u8>,
    rest: Seq<u8>,
)
    requires
        head.len() == 12,
        content_type.len() == head[7],
        headers.len() == head[8] + 256 * head[9],
        body.len() == head[10] + 256 * head[11],
    ensures
        response_at(head + content_type + headers + body + rest) == Some(
            RespModel {
                conn_id: (head[0] + 256 * head[1]) as u16,
                stream_id: (head[2] + 256 * head[3]) as u16,
                status: (head[4] + 256 * head[5]) as u16,
                flags: head[6],
                content_type,
                headers,
                body,
            },
        ),
{
    let s = head + content_type + headers + body + rest;
    assert(forall|i: int| 0 <= i < 12 ==> s[i] == head[i]);
    let a = 12 + content_type.len() as int;
    let b = a + headers.len();
    assert(s.subrange(12, a) =~= content_type);
    assert(s.subrange(a, b) =~= headers);
    assert(s.subrange(b, b + body.len()) =~= body);
}

/// An application has thirty seconds to answer: until then a request waits, from then on it
/// is late, as long as it is still pending.
pub proof fn law_app_has_thirty_seconds(now: u64, later: u64)
    requires
        now <= later,
        now + 30000 <= u64::MAX,
    ensures
        later >= deadline_after(now) <==> later - now >= 30000,
        deadline_after(now) != 0,
{
}

} // verus!
