//! Receiving a request: the HTTP/2 preface, the request line, the head, and what the
//! head decides before anything is dispatched.

use crate::bytes::{lemma_text, lit, text, to_vec};
use crate::cache::SEND_BUF_SIZE;
use crate::conn::{BodyReader, ConnSlot, Inbox, Phase, Request, SpanState, TraceCtx, RECV_BUF_SIZE};
use crate::fields::starts_with;
use crate::h1_wire::{
    find_crlf, find_head_end, find_header, head_len, head_request_line, header_of, hex_value, is_hex,
    keeps_alive, line_end, parse_hex, parse_request_line, request_keeps_alive, waits_for_continue,
};
use crate::method::METHOD_NONE;
use crate::proxy::host_of;
use crate::reqbody::{
    body_limit, body_model, body_room, body_step, head_framing, head_kept, plan_body, planned, step_recv_body, BodyPlan,
    BodyStep,
};
use crate::response::{build_error, error_response, staged_head};
use crate::routes::{match_route_path, route_for, Route, HANDLER_PROXY, MAX_PATH};
use vstd::prelude::*;
use vstd::slice::slice_subrange;

verus! {

/// The client's first bytes on HTTP/2.
pub open spec fn preface() -> Seq<u8> {
    text("PRI * HTTP/2.0\r\n\r\nSM\r\n\r\n")
}

/// Whether these bytes may yet be the preface: they begin with its first letter and are too
/// few to tell. A request that begins with it waits until there are as many.
pub open spec fn may_be_preface(buf: Seq<u8>) -> bool {
    buf.len() > 0 && buf[0] == 0x50 && buf.len() < preface().len()
}

// ── Trace context ───────────────────────────────────────────────────────

/// Whether `s` is hexadecimal throughout.
pub open spec fn all_hex(s: Seq<u8>) -> bool {
    forall|i: int| 0 <= i < s.len() ==> is_hex(#[trigger] s[i])
}

/// The context a `traceparent` value carries: version `00`, then trace, parent and
/// flags in hexadecimal. A trace or parent of zero is no context.
pub open spec fn traceparent_of(v: Seq<u8>) -> Option<TraceCtx> {
    let hi = hex_value(v.subrange(3, 19));
    let lo = hex_value(v.subrange(19, 35));
    let parent = hex_value(v.subrange(36, 52));
    if v.len() != 55 || v.take(3) != text("00-") || v[35] != 0x2d || v[52] != 0x2d || !all_hex(
        v.subrange(3, 19),
    ) || !all_hex(v.subrange(19, 35)) || !all_hex(v.subrange(36, 52)) || !all_hex(
        v.subrange(53, 55),
    ) || (hi == 0 && lo == 0) || parent == 0 {
        None
    } else {
        Some(
            TraceCtx {
                trace_hi: hi as u64,
                trace_lo: lo as u64,
                parent: parent as u64,
                flags: hex_value(v.subrange(53, 55)) as u8,
            },
        )
    }
}

proof fn lemma_hex_bound(s: Seq<u8>, k: nat)
    requires
        all_hex(s),
        s.len() <= k,
    ensures
        hex_value(s) < crate::h1_wire::pow16(k),
    decreases k,
{
    if s.len() == 0 {
        lemma_pow16_pos(k);
    } else {
        assert forall|i: int| 0 <= i < s.drop_last().len() implies is_hex(
            #[trigger] s.drop_last()[i],
        ) by {
            assert(is_hex(s[i]));
        }
        assert(is_hex(s[s.len() - 1]));
        lemma_hex_bound(s.drop_last(), (k - 1) as nat);
    }
}

proof fn lemma_pow16_pos(k: nat)
    ensures
        crate::h1_wire::pow16(k) > 0,
    decreases k,
{
    if k > 0 {
        lemma_pow16_pos((k - 1) as nat);
    }
}

/// Read a `traceparent` value.
pub fn parse_traceparent(v: &[u8]) -> (r: Option<TraceCtx>)
    ensures
        r == traceparent_of(v@),
{
    if v.len() != 55 {
        return None;
    }
    let front = slice_subrange(v, 0, 3);
    assert(front@ =~= v@.take(3));
    if !crate::bytes::is_text(front, "00-") || v[35] != 0x2d || v[52] != 0x2d {
        return None;
    }
    let a = slice_subrange(v, 3, 19);
    let b = slice_subrange(v, 19, 35);
    let c = slice_subrange(v, 36, 52);
    let d = slice_subrange(v, 53, 55);
    let hi = match parse_hex(a) {
        Some(x) => x,
        None => {
            return None;
        },
    };
    let lo = match parse_hex(b) {
        Some(x) => x,
        None => {
            return None;
        },
    };
    let parent = match parse_hex(c) {
        Some(x) => x,
        None => {
            return None;
        },
    };
    let flags = match parse_hex(d) {
        Some(x) => x,
        None => {
            return None;
        },
    };
    proof {
        reveal_with_fuel(crate::h1_wire::pow16, 17);
        lemma_hex_bound(a@, 16);
        lemma_hex_bound(b@, 16);
        lemma_hex_bound(c@, 16);
        lemma_hex_bound(d@, 2);
    }
    if (hi == 0 && lo == 0) || parent == 0 {
        return None;
    }
    Some(TraceCtx { trace_hi: hi, trace_lo: lo, parent, flags: flags as u8 })
}

/// Whether a context with these flags is recorded: one the caller handed on carries the
/// caller's decision, a new one is.
pub open spec fn sampled(ctx: TraceCtx) -> bool {
    !ctx.is_propagated() || ctx.flags % 2 == 1
}

/// The context of a request: the caller's where it sent one, else the connection's.
pub open spec fn request_ctx(head: Seq<u8>, span: SpanState, now: u64) -> TraceCtx {
    let given = match header_of(head, text("traceparent")) {
        Some(v) => traceparent_of(v),
        None => None,
    };
    match given {
        Some(c) if now != 0 => c,
        _ => span.conn_ctx,
    }
}

/// The span of a request whose head arrived at `now`; zero when nothing is recorded.
pub open spec fn span_begun(head: Seq<u8>, span: SpanState, now: u64) -> SpanState {
    let ctx = request_ctx(head, span, now);
    SpanState {
        start_us: if sampled(ctx) {
            now
        } else {
            0
        },
        ctx,
        conn_ctx: span.conn_ctx,
    }
}

fn begin_span(head: &[u8], span: SpanState, now: u64) -> (r: SpanState)
    ensures
        r == span_begun(head@, span, now),
{
    let mut ctx = span.conn_ctx;
    if now != 0 {
        match find_header(head, lit("traceparent")) {
            Some(v) => {
                match parse_traceparent(v.as_slice()) {
                    Some(c) => {
                        ctx = c;
                    },
                    None => {},
                }
            },
            None => {},
        }
    }
    let rec = !ctx.propagated() || ctx.flags % 2 == 1;
    SpanState {
        start_us: if rec {
            now
        } else {
            0
        },
        ctx,
        conn_ctx: span.conn_ctx,
    }
}

// ── The head ────────────────────────────────────────────────────────────

/// What the bytes received so far come to.
#[verifier::ext_equal]
pub enum Heard {
    /// Nothing to do until more arrives.
    More,
    /// The client speaks HTTP/2.
    Preface,
    /// The request line is not one, or is too long.
    Malformed,
    /// The method is not implemented.
    Unimplemented,
    /// The head is larger than the buffer: only what may begin its end is kept.
    Overlong,
    /// The head is whole and this long.
    Head(int),
}

/// What the bytes received come to. `parsed` says that the request line has been read
/// before.
pub open spec fn heard(buf: Seq<u8>, parsed: bool) -> Heard {
    if buf.len() == 0 {
        Heard::More
    } else if !parsed && preface().is_prefix_of(buf) {
        Heard::Preface
    } else if !parsed && may_be_preface(buf) {
        Heard::More
    } else if !parsed && line_end(buf, 0) >= buf.len() {
        if buf.len() >= RECV_BUF_SIZE {
            Heard::Malformed
        } else {
            Heard::More
        }
    } else if !parsed && (head_request_line(buf) is None || (head_request_line(
        buf,
    )->0).target.len() > MAX_PATH) {
        Heard::Malformed
    } else if !parsed && (head_request_line(buf)->0).method == METHOD_NONE {
        Heard::Unimplemented
    } else {
        match head_len(buf, 0) {
            Some(n) => Heard::Head(n),
            None => if buf.len() >= RECV_BUF_SIZE {
                Heard::Overlong
            } else {
                Heard::More
            },
        }
    }
}

/// Outcome of one pass over the bytes received.
#[derive(Clone, Copy, PartialEq, Eq, Structural, Debug)]
pub enum RecvStep {
    /// Nothing more to do on this tick.
    Idle,
    /// The connection goes on as HTTP/2.
    Http2,
    /// The request has been refused; the answer is staged.
    Refused,
    /// The head is complete: dispatch, or read the body first.
    Ready,
}

/// The request once its line has been read.
pub open spec fn line_read(before: Request, after: Request, buf: Seq<u8>) -> bool {
    if before.parsed {
        after == before
    } else {
        let l = head_request_line(buf)->0;
        &&& after.parsed
        &&& after.method == l.method
        &&& after.path@ == l.target
        &&& after.route == before.route
    }
}

/// The answer to a request whose body cannot be taken; `None` where it can.
pub open spec fn body_refusal(plan: BodyPlan) -> Option<Seq<u8>> {
    match plan {
        BodyPlan::Invalid => Some(error_response(text("400 Bad Request"), text("Bad Request\n"))),
        BodyPlan::TooLarge => Some(
            error_response(text("413 Content Too Large"), text("Content Too Large\n")),
        ),
        BodyPlan::LengthRequired => Some(
            error_response(text("411 Length Required"), text("Length Required\n")),
        ),
        _ => None,
    }
}

/// The interim response a waiting client gets.
pub open spec fn interim() -> Seq<u8> {
    text("HTTP/1.1 100 Continue\r\n\r\n")
}

/// Whether the body of a request to this path is not read here: it is relayed to a
/// backend as it comes. `dynamic` says that a dynamic route takes the request where no
/// configured one does.
pub open spec fn passes_through(routes: Seq<Route>, path: Seq<u8>, dynamic: bool) -> bool {
    match route_for(routes, path) {
        Some(i) => routes[i].handler == HANDLER_PROXY,
        None => dynamic,
    }
}

fn body_passes_through(routes: &Vec<Route>, path: &[u8], dynamic: bool) -> (r: bool)
    ensures
        r == passes_through(routes@, path@, dynamic),
{
    match match_route_path(routes, path) {
        Some(i) => routes[i].handler == HANDLER_PROXY,
        None => dynamic,
    }
}

/// The host and the path that a whole head asks for. `None` where there is none that can
/// be taken.
pub open spec fn asked_of(slot: ConnSlot) -> Option<(Seq<u8>, Seq<u8>)> {
    let buf = slot.rx.buf@;
    match heard(buf, slot.req.parsed) {
        Heard::Head(n) => Some(
            (
                host_of(buf.take(n)),
                if slot.req.parsed {
                    slot.req.path@
                } else {
                    (head_request_line(buf)->0).target
                },
            ),
        ),
        _ => None,
    }
}

/// Find out what the head that has been received asks for, to look a dynamic route up by
/// it before the body is read.
pub fn head_asked(slot: &ConnSlot) -> (r: Option<(Vec<u8>, Vec<u8>)>)
    requires
        slot.wf(),
    ensures
        match r {
            Some((host, path)) => asked_of(*slot) == Some((host@, path@)),
            None => asked_of(*slot) is None,
        },
{
    let buf = slot.rx.buf.as_slice();
    if buf.len() == 0 {
        return None;
    }
    let path: Vec<u8> = if slot.req.parsed {
        to_vec(slot.req.path.as_slice())
    } else {
        let pre = lit("PRI * HTTP/2.0\r\n\r\nSM\r\n\r\n");
        if starts_with(buf, pre) || (buf[0] == 0x50 && buf.len() < pre.len()) || find_crlf(buf, 0)
            >= buf.len() {
            return None;
        }
        match parse_request_line(buf) {
            Some((verb, target)) => {
                if verb == METHOD_NONE {
                    return None;
                }
                target
            },
            None => {
                return None;
            },
        }
    };
    match find_head_end(buf) {
        Some(n) => {
            let head = slice_subrange(buf, 0, n);
            assert(head@ =~= buf@.take(n as int));
            let host: Vec<u8> = match find_header(head, lit("Host")) {
                Some(v) => v,
                None => Vec::new(),
            };
            assert(host@ =~= host_of(buf@.take(n as int)));
            Some((host, path))
        },
        None => None,
    }
}

/// Whether a slot has taken a whole head as it should. A body is read before dispatch,
/// unless the request is relayed: then its bytes stay where they are and pass through.
pub open spec fn head_taken(
    before: ConnSlot,
    after: ConnSlot,
    n: int,
    max_body: u32,
    routes: Seq<Route>,
    dynamic: bool,
    now: u64,
) -> bool {
    let head = before.rx.buf@.take(n);
    let relayed = passes_through(routes, after.req.path@, dynamic);
    let plan = planned(
        head_framing(head),
        after.req.method,
        waits_for_continue(head),
        body_limit(max_body),
    );
    let reads = plan is Read && !relayed;
    let waits = plan == (BodyPlan::Read { continue_first: true }) && !relayed;
    &&& after == (ConnSlot {
        req: after.req,
        rx: after.rx,
        tx: after.tx,
        body: after.body,
        span: after.span,
        keepalive: after.keepalive,
        phase: after.phase,
        ..before
    })
    &&& line_read(before.req, after.req, before.rx.buf@)
    &&& after.rx.buf@ == before.rx.buf@
    &&& after.rx.head_end == n
    &&& match body_refusal(plan) {
        Some(answer) => {
            &&& after.phase is DrainSend
            &&& !after.keepalive
            &&& after.tx.buf@ == crate::bytes::clip(answer, SEND_BUF_SIZE as nat)
            &&& after.tx.sent == 0
            &&& after.span == before.span
            &&& after.body == before.body
        },
        None => {
            &&& after.phase == if reads {
                Phase::RecvBody
            } else {
                Phase::DispatchRoute
            }
            &&& after.keepalive == keeps_alive(head)
            &&& after.span == span_begun(head, before.span, now)
            &&& after.body.interim == (waits || (!(relayed && plan is Read)
                && before.body.interim))
            &&& after.tx.buf@ == if waits {
                interim()
            } else {
                before.tx.buf@
            }
            &&& after.tx.sent == if waits {
                0
            } else {
                before.tx.sent
            }
            &&& if reads {
                &&& after.body.data@.len() == 0
                &&& after.body.state is Size
                &&& match head_framing(head) {
                    crate::h1_wire::BodyFraming::Length(len) => after.body.mode is Length
                        && after.body.remaining == len,
                    _ => after.body.mode is Chunked && after.body.remaining == 0,
                }
            } else {
                &&& after.body.mode is Absent
                &&& after.body.data@.len() == 0
                &&& after.body.remaining == 0
            }
        },
    }
}

/// Whether a slot has taken a pass over what it received as it should.
pub open spec fn received(
    before: ConnSlot,
    after: ConnSlot,
    max_body: u32,
    routes: Seq<Route>,
    dynamic: bool,
    now: u64,
    r: RecvStep,
) -> bool {
    let buf = before.rx.buf@;
    match heard(buf, before.req.parsed) {
        Heard::More => {
            &&& r is Idle
            &&& after == (ConnSlot { req: after.req, ..before })
            &&& if !before.req.parsed && line_end(buf, 0) < buf.len() && !may_be_preface(buf) {
                line_read(before.req, after.req, buf)
            } else {
                after.req == before.req
            }
        },
        Heard::Preface => {
            &&& r is Http2
            &&& after == (ConnSlot {
                rx: after.rx,
                tx: after.tx,
                phase: Phase::H2Active,
                ..before
            })
            &&& after.tx.is_blank()
            &&& after.rx.buf@ == buf.skip(preface().len() as int)
            &&& after.rx.head_end == 0
        },
        Heard::Malformed => {
            &&& r is Refused
            &&& staged_head(
                ConnSlot { phase: Phase::DrainSend, ..before },
                after,
                error_response(text("400 Bad Request"), text("Bad Request\n")),
                false,
            )
        },
        Heard::Unimplemented => {
            &&& r is Refused
            &&& staged_head(
                ConnSlot { phase: Phase::DrainSend, ..before },
                after,
                error_response(text("501 Not Implemented"), text("Not Implemented\n")),
                false,
            )
        },
        Heard::Overlong => {
            &&& r is Idle
            &&& after == (ConnSlot { req: after.req, rx: after.rx, ..before })
            &&& line_read(before.req, after.req, buf)
            &&& after.rx.buf@ == buf.skip(buf.len() - 3)
            &&& after.rx.head_end == 0
        },
        Heard::Head(n) => {
            &&& r is Ready || r is Refused
            &&& r is Refused <==> after.phase is DrainSend
            &&& head_taken(before, after, n, max_body, routes, dynamic, now)
        },
    }
}

/// Read the request line into `req`. Returns false when it is not one.
fn read_line(req: &mut Request, buf: &[u8]) -> (ok: bool)
    requires
        !old(req).parsed,
        old(req).wf(),
    ensures
        final(req).wf(),
        ok == (head_request_line(buf@) matches Some(l) && l.target.len() <= MAX_PATH),
        !ok ==> *final(req) == *old(req),
        ok && (head_request_line(buf@)->0).method == METHOD_NONE ==> *final(req) == *old(req),
        ok && (head_request_line(buf@)->0).method != METHOD_NONE ==> line_read(
            *old(req),
            *final(req),
            buf@,
        ),
{
    match parse_request_line(buf) {
        None => false,
        Some((verb, target)) => {
            if verb != METHOD_NONE {
                req.method = verb;
                req.path = target;
                req.parsed = true;
            }
            true
        },
    }
}

/// Act on a whole head of `n` bytes.
fn take_head(slot: &mut ConnSlot, n: usize, max_body: u32, routes: &Vec<Route>, dynamic: bool, now: u64) -> (r: RecvStep)
    requires
        old(slot).wf(),
        old(slot).req.parsed,
        old(slot).body.reserved <= body_limit(max_body),
        0 < n <= old(slot).rx.buf@.len(),
    ensures
        final(slot).wf(),
        head_taken(*old(slot), *final(slot), n as int, max_body, routes@, dynamic, now),
        r is Ready || r is Refused,
        r is Refused <==> final(slot).phase is DrainSend,
        final(slot).body.reserved <= body_limit(max_body),
{
    let head: Vec<u8> = to_vec(slice_subrange(slot.rx.buf.as_slice(), 0, n));
    assert(head@ =~= slot.rx.buf@.take(n as int));
    let keepalive = request_keeps_alive(head.as_slice());
    let plan = plan_body(&mut slot.body, slot.req.method, head.as_slice(), max_body);
    match plan {
        BodyPlan::Invalid => {
            build_error(slot, lit("400 Bad Request"), lit("Bad Request\n"));
            slot.rx.head_end = n;
            slot.phase = Phase::DrainSend;
            RecvStep::Refused
        },
        BodyPlan::TooLarge => {
            build_error(slot, lit("413 Content Too Large"), lit("Content Too Large\n"));
            slot.rx.head_end = n;
            slot.phase = Phase::DrainSend;
            RecvStep::Refused
        },
        BodyPlan::LengthRequired => {
            build_error(slot, lit("411 Length Required"), lit("Length Required\n"));
            slot.rx.head_end = n;
            slot.phase = Phase::DrainSend;
            RecvStep::Refused
        },
        BodyPlan::Absent => {
            slot.keepalive = keepalive;
            slot.rx.head_end = n;
            slot.phase = Phase::DispatchRoute;
            slot.span = begin_span(head.as_slice(), slot.span, now);
            RecvStep::Ready
        },
        BodyPlan::Read { continue_first } => {
            slot.keepalive = keepalive;
            slot.rx.head_end = n;
            slot.span = begin_span(head.as_slice(), slot.span, now);
            if body_passes_through(routes, slot.req.path.as_slice(), dynamic) {
                slot.body = BodyReader::blank();
                slot.phase = Phase::DispatchRoute;
                return RecvStep::Ready;
            }
            slot.phase = Phase::RecvBody;
            if continue_first {
                let v: Vec<u8> = to_vec(lit("HTTP/1.1 100 Continue\r\n\r\n"));
                proof {
                    reveal_strlit("HTTP/1.1 100 Continue\r\n\r\n");
                    lemma_text("HTTP/1.1 100 Continue\r\n\r\n");
                }
                slot.tx.stage(v);
                slot.body.interim = true;
            }
            RecvStep::Ready
        },
    }
}

/// One pass over what has been received, in the phase that waits for a request. `dynamic`
/// says whether a dynamic route takes it, `now` when its span starts, or zero when nothing
/// is recorded.
#[verifier::rlimit(40)]
pub fn step_recv_request(slot: &mut ConnSlot, max_body: u32, routes: &Vec<Route>, dynamic: bool, now: u64) -> (r: RecvStep)
    requires
        old(slot).wf(),
        old(slot).body.reserved <= body_limit(max_body),
    ensures
        final(slot).wf(),
        received(*old(slot), *final(slot), max_body, routes@, dynamic, now, r),
        final(slot).body.reserved <= body_limit(max_body),
{
    let ghost buf = slot.rx.buf@;
    if slot.rx.buf.len() == 0 {
        return RecvStep::Idle;
    }
    if !slot.req.parsed {
        let pre = lit("PRI * HTTP/2.0\r\n\r\nSM\r\n\r\n");
        if starts_with(slot.rx.buf.as_slice(), pre) {
            let rest: Vec<u8> = to_vec(
                slice_subrange(slot.rx.buf.as_slice(), pre.len(), slot.rx.buf.len()),
            );
            assert(rest@ =~= buf.skip(preface().len() as int));
            slot.rx = Inbox { buf: rest, head_end: 0 };
            slot.tx.clear();
            slot.phase = Phase::H2Active;
            return RecvStep::Http2;
        }
        if slot.rx.buf[0] == 0x50 && slot.rx.buf.len() < pre.len() {
            return RecvStep::Idle;
        }
        let e: usize = find_crlf(slot.rx.buf.as_slice(), 0);
        if e >= slot.rx.buf.len() {
            if slot.rx.buf.len() >= RECV_BUF_SIZE {
                slot.phase = Phase::DrainSend;
                build_error(slot, lit("400 Bad Request"), lit("Bad Request\n"));
                return RecvStep::Refused;
            }
            return RecvStep::Idle;
        }
        if !read_line(&mut slot.req, slot.rx.buf.as_slice()) {
            slot.phase = Phase::DrainSend;
            build_error(slot, lit("400 Bad Request"), lit("Bad Request\n"));
            return RecvStep::Refused;
        }
        if !slot.req.parsed {
            slot.phase = Phase::DrainSend;
            build_error(slot, lit("501 Not Implemented"), lit("Not Implemented\n"));
            return RecvStep::Refused;
        }
    }
    match find_head_end(slot.rx.buf.as_slice()) {
        Some(n) => take_head(slot, n, max_body, routes, dynamic, now),
        None => {
            if slot.rx.buf.len() >= RECV_BUF_SIZE {
                let len: usize = slot.rx.buf.len();
                let tail: Vec<u8> = to_vec(slice_subrange(slot.rx.buf.as_slice(), len - 3, len));
                assert(tail@ =~= buf.skip(len - 3));
                slot.rx = Inbox { buf: tail, head_end: 0 };
            }
            RecvStep::Idle
        },
    }
}

// ── The body ────────────────────────────────────────────────────────────

/// Whether an interim response is still to be sent before the body is read. Once it has
/// been, the send buffer is cleared for the real response.
pub fn interim_pending(slot: &mut ConnSlot) -> (r: bool)
    requires
        old(slot).wf(),
    ensures
        final(slot).wf(),
        r == (old(slot).body.interim && old(slot).tx.unsent().len() > 0),
        if !old(slot).body.interim || r {
            *final(slot) == *old(slot)
        } else {
            &&& *final(slot) == (ConnSlot {
                body: BodyReader { interim: false, ..old(slot).body },
                tx: final(slot).tx,
                ..*old(slot)
            })
            &&& final(slot).tx.is_blank()
        },
{
    if !slot.body.interim {
        return false;
    }
    if slot.tx.send_remaining() > 0 {
        return true;
    }
    slot.body.interim = false;
    slot.tx.clear();
    false
}

/// Whether a slot has taken a pass over its body as it should: a whole body is
/// dispatched, a body cut short by the peer ends the connection, a bad or too large one
/// is answered and ends it.
pub open spec fn body_received(before: ConnSlot, after: ConnSlot, max_body: u32, out: BodyStep) -> bool {
    let m = body_model(before.rx, before.body);
    let (next, step) = body_step(m, body_limit(max_body), body_room(before.rx));
    let settled = ConnSlot { rx: after.rx, body: after.body, ..before };
    &&& out == step
    &&& body_model(after.rx, after.body) == next
    &&& head_kept(before.rx, after.rx)
    &&& after.body.interim == before.body.interim
    &&& match step {
        BodyStep::Done => after == (ConnSlot { phase: Phase::DispatchRoute, ..settled }),
        BodyStep::NeedMore => after == (ConnSlot {
            phase: if before.peer_closed {
                Phase::CloseConn
            } else {
                before.phase
            },
            ..settled
        }),
        BodyStep::Bad => staged_head(
            ConnSlot { phase: Phase::DrainSend, ..settled },
            after,
            error_response(text("400 Bad Request"), text("Bad Request\n")),
            false,
        ),
        BodyStep::TooLarge => staged_head(
            ConnSlot { phase: Phase::DrainSend, ..settled },
            after,
            error_response(text("413 Content Too Large"), text("Content Too Large\n")),
            false,
        ),
    }
}

/// One pass over the body, in the phase that reads one.
pub fn step_body(slot: &mut ConnSlot, max_body: u32) -> (r: BodyStep)
    requires
        old(slot).wf(),
        old(slot).body.fits(body_limit(max_body)),
    ensures
        final(slot).wf(),
        body_received(*old(slot), *final(slot), max_body, r),
        final(slot).body.fits(body_limit(max_body)),
{
    let step = step_recv_body(&mut slot.rx, &mut slot.body, max_body);
    match step {
        BodyStep::Done => {
            slot.phase = Phase::DispatchRoute;
        },
        BodyStep::NeedMore => {
            if slot.peer_closed {
                slot.phase = Phase::CloseConn;
            }
        },
        BodyStep::Bad => {
            slot.phase = Phase::DrainSend;
            build_error(slot, lit("400 Bad Request"), lit("Bad Request\n"));
        },
        BodyStep::TooLarge => {
            slot.phase = Phase::DrainSend;
            build_error(slot, lit("413 Content Too Large"), lit("Content Too Large\n"));
        },
    }
    step
}

// ── Laws ────────────────────────────────────────────────────────────────

/// A request whose framing contradicts itself is never dispatched: it is answered 400
/// and its connection ends.
pub proof fn law_contradictory_framing_is_refused(
    before: ConnSlot,
    after: ConnSlot,
    n: int,
    max_body: u32,
    routes: Seq<Route>,
    dynamic: bool,
    now: u64,
)
    requires
        head_taken(before, after, n, max_body, routes, dynamic, now),
        head_framing(before.rx.buf@.take(n)) is Invalid,
    ensures
        after.phase is DrainSend,
        !after.keepalive,
        after.tx.buf@ == crate::bytes::clip(
            error_response(text("400 Bad Request"), text("Bad Request\n")),
            SEND_BUF_SIZE as nat,
        ),
{
}

/// A body that will not be read whole is never dispatched: the request is dispatched
/// only once its body is complete.
pub proof fn law_only_whole_bodies_are_dispatched(
    before: ConnSlot,
    after: ConnSlot,
    max_body: u32,
    out: BodyStep,
)
    requires
        before.phase is RecvBody,
        body_received(before, after, max_body, out),
        after.phase is DispatchRoute,
    ensures
        out is Done,
{
}

/// How a head is cut into packets does not matter: a request line that was read before
/// the rest of the head arrived is the one the whole head has.
pub proof fn law_head_may_be_split(buf: Seq<u8>, more: Seq<u8>)
    requires
        heard(buf, false) is More,
        line_end(buf, 0) < buf.len(),
        !may_be_preface(buf),
    ensures
        heard(buf + more, true) == heard(buf + more, false),
        head_request_line(buf + more) == head_request_line(buf),
{
    let all = buf + more;
    crate::h1_wire::lemma_line_end(buf, 0);
    crate::h1_wire::lemma_line_fed(buf, more, 0);
    let e = line_end(buf, 0);
    assert(all.take(e) =~= buf.take(e));
    let p = preface();
    assert(p.len() > 0 && p[0] == 0x50) by {
        reveal_strlit("PRI * HTTP/2.0\r\n\r\nSM\r\n\r\n");
        lemma_text("PRI * HTTP/2.0\r\n\r\nSM\r\n\r\n");
    }
    assert(all[0] == buf[0]);
    if p.is_prefix_of(all) {
        assert(p == all.subrange(0, p.len() as int));
        assert(all[0] == p[0]);
        assert(p =~= buf.subrange(0, p.len() as int));
        assert(p.is_prefix_of(buf));
    }
}

} // verus!
