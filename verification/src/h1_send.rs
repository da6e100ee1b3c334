//! Sending a response: its head, its body from whatever source it has, and what comes
//! after the last byte.

use crate::bytes::{clip, lit, text, to_vec};
use crate::body::{chunk_end, chunk_text, index_lines, index_stop, render_index_into, render_template_route_into};
use crate::cache::{VarTable, SEND_BUF_SIZE};
use crate::conn::{BodyReader, ConnSlot, Inbox, Outbox, Phase, Rendering, Request, SpanState, TraceCtx};
use crate::h1_fs::{refuse, refused, FS_EAGAIN};
use crate::method::{method_sends_response_body, sends_response_body};
use crate::response::{build_header, build_header_with_len, closing_head, sized_head, staged_head};
use crate::routes::{
    Route, HANDLER_FILE, HANDLER_FS_FILE, HANDLER_FS_LIST, HANDLER_STATIC, HANDLER_STREAM, HANDLER_TEMPLATE,
};
use vstd::prelude::*;
use vstd::slice::slice_subrange;

verus! {

// ── The span of a request ───────────────────────────────────────────────

/// A request's span as it is reported. A trace of zero is to be given a new one.
#[derive(Clone, Copy, PartialEq, Eq, Structural)]
pub struct SpanRecord {
    pub start_us: u64,
    pub end_us: u64,
    /// The trace joined, or none.
    pub ctx: TraceCtx,
}

/// What is reported of a span that ends at `now`: nothing where none was started or the
/// caller decided against it; a span never ends before it started.
pub open spec fn span_report(span: SpanState, enabled: bool, known: bool, now: u64) -> Option<SpanRecord> {
    if !enabled || span.start_us == 0 || (span.ctx.is_propagated() && span.ctx.flags % 2 == 0)
        || !known {
        None
    } else {
        Some(
            SpanRecord {
                start_us: span.start_us,
                end_us: if now < span.start_us {
                    span.start_us
                } else {
                    now
                },
                ctx: if span.ctx.is_propagated() {
                    span.ctx
                } else {
                    TraceCtx { flags: 1, ..TraceCtx::absent() }
                },
            },
        )
    }
}

/// A span after it has been ended.
pub open spec fn span_ended(span: SpanState, enabled: bool, known: bool) -> SpanState {
    SpanState {
        start_us: if enabled && (known || (span.ctx.is_propagated() && span.ctx.flags % 2 == 0)) {
            0
        } else {
            span.start_us
        },
        ..span
    }
}

/// A span is reported once, and does not end before it started.
pub proof fn law_span_is_reported_once(
    span: SpanState,
    enabled: bool,
    known: bool,
    now: u64,
    again: bool,
    later: u64,
)
    requires
        span_report(span, enabled, known, now) is Some,
    ensures
        (span_report(span, enabled, known, now)->0).start_us <= (span_report(
            span,
            enabled,
            known,
            now,
        )->0).end_us,
        span_report(span_ended(span, enabled, known), again, known, later) is None,
{
}

/// End the span of a request. `enabled` says whether spans are recorded at all, `known`
/// whether this server has a name to report under.
pub fn emit_request_span(span: &mut SpanState, enabled: bool, known: bool, now: u64) -> (r: Option<
    SpanRecord,
>)
    ensures
        r == span_report(*old(span), enabled, known, now),
        *final(span) == span_ended(*old(span), enabled, known),
{
    if !enabled || span.start_us == 0 {
        return None;
    }
    let joined = span.ctx.propagated();
    if joined && span.ctx.flags % 2 == 0 {
        span.start_us = 0;
        return None;
    }
    if !known {
        return None;
    }
    let start: u64 = span.start_us;
    let ctx = if joined {
        span.ctx
    } else {
        TraceCtx { trace_hi: 0, trace_lo: 0, parent: 0, flags: 1 }
    };
    span.start_us = 0;
    Some(
        SpanRecord {
            start_us: start,
            end_us: if now < start {
                start
            } else {
                now
            },
            ctx,
        },
    )
}

// ── After the last byte ─────────────────────────────────────────────────

/// Whether a slot has left a finished response as it should: closing, or ready for the
/// next request with nothing of this one but the bytes that arrived behind it.
pub open spec fn finished(before: ConnSlot, after: ConnSlot) -> bool {
    if !before.keepalive {
        after == (ConnSlot { phase: Phase::CloseConn, ..before })
    } else {
        &&& after == (ConnSlot {
            req: after.req,
            rx: after.rx,
            tx: after.tx,
            body: after.body,
            render: Rendering { pos: 0, ..before.render },
            phase: Phase::RecvRequest,
            ..before
        })
        &&& after.req.is_blank()
        &&& after.rx.buf@ == before.rx.buf@.skip(before.rx.head_end as int)
        &&& after.rx.head_end == 0
        &&& after.tx.is_blank()
        &&& after.body.is_blank()
    }
}

/// Leave a response that has been sent whole.
pub fn finish_response(slot: &mut ConnSlot)
    requires
        old(slot).wf(),
    ensures
        final(slot).wf(),
        finished(*old(slot), *final(slot)),
{
    if !slot.keepalive {
        slot.phase = Phase::CloseConn;
        return;
    }
    let rest: Vec<u8> = to_vec(
        slice_subrange(slot.rx.buf.as_slice(), slot.rx.head_end, slot.rx.buf.len()),
    );
    assert(rest@ =~= slot.rx.buf@.skip(slot.rx.head_end as int));
    slot.rx = Inbox { buf: rest, head_end: 0 };
    slot.req = Request::blank();
    slot.body = BodyReader::blank();
    slot.render.pos = 0;
    slot.tx = Outbox::blank();
    slot.phase = Phase::RecvRequest;
}

/// What a drained send buffer leads to.
#[derive(Clone, Copy, PartialEq, Eq, Structural, Debug)]
pub enum DrainStep {
    /// There are bytes to send.
    Send,
    /// More of the response is awaited from the application.
    AwaitMore,
    /// The response is complete.
    Finished,
}

/// The route whose cached body a slot holds.
pub open spec fn held_route(slot: ConnSlot) -> Option<usize> {
    if slot.cache_retained {
        slot.req.route
    } else {
        None
    }
}

/// A slot after it has let go of its cached body.
pub open spec fn let_go(slot: ConnSlot) -> ConnSlot {
    ConnSlot { cache_retained: slot.cache_retained && slot.req.route is None, ..slot }
}

/// Let go of a cached body. Returns its route; the mark is cleared, so that it is let go
/// once.
pub fn release_cached(slot: &mut ConnSlot) -> (r: Option<usize>)
    requires
        old(slot).wf(),
    ensures
        final(slot).wf(),
        r == held_route(*old(slot)),
        *final(slot) == let_go(*old(slot)),
{
    if !slot.cache_retained {
        return None;
    }
    match slot.req.route {
        Some(i) => {
            slot.cache_retained = false;
            Some(i)
        },
        None => None,
    }
}

/// Whether a slot has gone on draining as it should. An application's response in several
/// envelopes is not finished when one of them has drained.
pub open spec fn drain_stepped(before: ConnSlot, after: ConnSlot, r: DrainStep) -> bool {
    if before.tx.unsent().len() > 0 {
        r is Send && after == let_go(before)
    } else if before.app.streaming {
        &&& r is AwaitMore
        &&& after == (ConnSlot { tx: after.tx, phase: Phase::AwaitApp, ..let_go(before) })
        &&& after.tx.is_blank()
    } else {
        r is Finished && finished(let_go(before), after)
    }
}

/// Go on draining. The body has been rendered by now, so a cached one is let go; returns
/// its route too.
pub fn step_drain_send(slot: &mut ConnSlot) -> (r: (DrainStep, Option<usize>))
    requires
        old(slot).wf(),
    ensures
        final(slot).wf(),
        r.1 == held_route(*old(slot)),
        drain_stepped(*old(slot), *final(slot), r.0),
{
    let route = release_cached(slot);
    if slot.tx.send_remaining() > 0 {
        return (DrainStep::Send, route);
    }
    if slot.app.streaming {
        slot.tx.clear();
        slot.phase = Phase::AwaitApp;
        return (DrainStep::AwaitMore, route);
    }
    finish_response(slot);
    (DrainStep::Finished, route)
}

// ── What serves a slot ──────────────────────────────────────────────────

/// The handler of a slot's route. A slot without one is served from the file channel.
pub open spec fn handler_of(slot: ConnSlot, routes: Seq<Route>) -> u8 {
    match slot.req.route {
        Some(r) => if r < routes.len() {
            routes[r as int].handler
        } else {
            HANDLER_FILE
        },
        None => HANDLER_FILE,
    }
}

pub fn slot_handler(slot: &ConnSlot, routes: &Vec<Route>) -> (r: u8)
    ensures
        r == handler_of(*slot, routes@),
{
    match slot.req.route {
        Some(i) => {
            if i < routes.len() {
                routes[i].handler
            } else {
                HANDLER_FILE
            }
        },
        None => HANDLER_FILE,
    }
}

/// Where the body of a response comes from.
#[derive(Clone, Copy, PartialEq, Eq, Structural, Debug)]
pub enum Serving {
    /// The inline body of this route.
    Static(usize),
    /// The template of this route.
    Template(usize),
    /// The index of the files.
    Index,
    /// The file channel.
    Channel,
    /// The open file.
    File,
    Nothing,
}

/// Where the body of a slot's response comes from. A listing route serves the files it
/// lists like a file route.
pub open spec fn serving(slot: ConnSlot, routes: Seq<Route>) -> Serving {
    let h = handler_of(slot, routes);
    if h == HANDLER_STATIC && slot.req.route is Some {
        Serving::Static(slot.req.route->0)
    } else if h == HANDLER_TEMPLATE && slot.req.route is Some {
        Serving::Template(slot.req.route->0)
    } else if h == HANDLER_FILE {
        if slot.render.file_index < 0 {
            Serving::Index
        } else {
            Serving::Channel
        }
    } else if h == HANDLER_STREAM {
        Serving::Channel
    } else if h == HANDLER_FS_FILE || h == HANDLER_FS_LIST {
        Serving::File
    } else {
        Serving::Nothing
    }
}

pub fn serving_of(slot: &ConnSlot, routes: &Vec<Route>) -> (r: Serving)
    ensures
        r == serving(*slot, routes@),
        r matches Serving::Static(i) ==> i < routes@.len(),
        r matches Serving::Template(i) ==> i < routes@.len(),
{
    let h: u8 = slot_handler(slot, routes);
    if h == HANDLER_STATIC || h == HANDLER_TEMPLATE {
        if let Some(i) = slot.req.route {
            return if h == HANDLER_STATIC {
                Serving::Static(i)
            } else {
                Serving::Template(i)
            };
        }
    }
    if h == HANDLER_FILE {
        if slot.render.file_index < 0 {
            Serving::Index
        } else {
            Serving::Channel
        }
    } else if h == HANDLER_STREAM {
        Serving::Channel
    } else if h == HANDLER_FS_FILE || h == HANDLER_FS_LIST {
        Serving::File
    } else {
        Serving::Nothing
    }
}

// ── From head to body ───────────────────────────────────────────────────

/// The phase that follows a head.
pub open spec fn after_head(handler: u8, fd: i32) -> Phase {
    if handler == HANDLER_STATIC || handler == HANDLER_TEMPLATE || handler == HANDLER_FILE || handler
        == HANDLER_STREAM || handler == HANDLER_FS_FILE {
        Phase::SendBody
    } else if handler == HANDLER_FS_LIST {
        if fd >= 0 {
            Phase::SendBody
        } else {
            Phase::DrainSend
        }
    } else {
        Phase::CloseConn
    }
}

/// Whether a slot has gone on from a head as it should. A method that asks for no body
/// gets none: the head is the whole response, and what was opened for the body is closed.
pub open spec fn head_passed(before: ConnSlot, after: ConnSlot, handler: u8, r: Option<i32>) -> bool {
    if !sends_response_body(before.req.method) {
        &&& r == if before.render.fd >= 0 {
            Some(before.render.fd)
        } else {
            None
        }
        &&& after == (ConnSlot {
            render: Rendering {
                fd: if before.render.fd >= 0 {
                    -1i32
                } else {
                    before.render.fd
                },
                ..before.render
            },
            phase: Phase::DrainSend,
            ..before
        })
    } else {
        &&& r is None
        &&& after == (ConnSlot { phase: after_head(handler, before.render.fd), ..before })
    }
}

/// Go on from a head that has been sent. Returns the file to close.
pub fn head_sent(slot: &mut ConnSlot, handler: u8) -> (r: Option<i32>)
    requires
        old(slot).wf(),
    ensures
        final(slot).wf(),
        head_passed(*old(slot), *final(slot), handler, r),
{
    if !method_sends_response_body(slot.req.method) {
        let fd: i32 = slot.render.fd;
        slot.phase = Phase::DrainSend;
        if fd >= 0 {
            slot.render.fd = -1;
            return Some(fd);
        }
        return None;
    }
    slot.phase = if handler == HANDLER_STATIC || handler == HANDLER_TEMPLATE || handler
        == HANDLER_FILE || handler == HANDLER_STREAM || handler == HANDLER_FS_FILE {
        Phase::SendBody
    } else if handler == HANDLER_FS_LIST {
        if slot.render.fd >= 0 {
            Phase::SendBody
        } else {
            Phase::DrainSend
        }
    } else {
        Phase::CloseConn
    };
    None
}

/// A response to a method that asks for no body is its head alone: whatever serves the
/// route, nothing is left to send behind it and no file stays open for it.
pub proof fn law_head_response_has_no_body(before: ConnSlot, after: ConnSlot, handler: u8, r: Option<i32>)
    requires
        !sends_response_body(before.req.method),
        before.tx.unsent().len() == 0,
        head_passed(before, after, handler, r),
    ensures
        after.phase is DrainSend,
        after.tx.unsent().len() == 0,
        after.render.fd < 0,
        before.render.fd >= 0 ==> r == Some(before.render.fd),
{
}

/// The next request on a connection inherits nothing of the last: neither its line nor
/// its body, only the bytes that arrived behind it.
pub proof fn law_next_request_inherits_nothing(before: ConnSlot, after: ConnSlot)
    requires
        before.keepalive,
        finished(before, after),
    ensures
        after.req.is_blank(),
        after.body.is_blank(),
        after.tx.is_blank(),
        after.rx.buf@ == before.rx.buf@.skip(before.rx.head_end as int),
        after.phase is RecvRequest,
{
}

// ── Inline bodies ───────────────────────────────────────────────────────

/// What sending an inline body comes to.
pub enum StaticStep {
    /// The next piece to send.
    Piece(Vec<u8>),
    /// All of it has been sent, and the response is finished. Let go of this route's
    /// cached body.
    Finished(Option<usize>),
}

/// Whether a slot has gone on sending an inline body as it should.
pub open spec fn static_stepped(before: ConnSlot, after: ConnSlot, body: Seq<u8>, r: StaticStep) -> bool {
    if before.render.pos < body.len() {
        &&& after == before
        &&& r matches StaticStep::Piece(p)
        &&& p@ == clip(body.skip(before.render.pos as int), SEND_BUF_SIZE as nat)
        &&& p@.len() > 0
    } else {
        &&& r == StaticStep::Finished(held_route(before))
        &&& finished(let_go(before), after)
    }
}

/// Go on sending an inline body.
pub fn step_send_static(slot: &mut ConnSlot, body: &[u8]) -> (r: StaticStep)
    requires
        old(slot).wf(),
    ensures
        final(slot).wf(),
        static_stepped(*old(slot), *final(slot), body@, r),
{
    let pos: usize = slot.render.pos;
    if pos >= body.len() {
        let route = release_cached(slot);
        finish_response(slot);
        return StaticStep::Finished(route);
    }
    let left: usize = body.len() - pos;
    let n: usize = if left < SEND_BUF_SIZE {
        left
    } else {
        SEND_BUF_SIZE
    };
    let p = slice_subrange(body, pos, pos + n);
    assert(p@ =~= clip(body@.skip(pos as int), SEND_BUF_SIZE as nat));
    StaticStep::Piece(to_vec(p))
}

/// A cached body is let go exactly once: when its emission ends its route is handed back,
/// and nothing is left to hand back later.
pub proof fn law_cached_body_is_let_go_once(
    before: ConnSlot,
    after: ConnSlot,
    body: Seq<u8>,
    how: StaticStep,
    drained: DrainStep,
)
    requires
        before.cache_retained,
        before.req.route is Some,
        (how is Finished && static_stepped(before, after, body, how)) || drain_stepped(
            before,
            after,
            drained,
        ),
    ensures
        held_route(before) == before.req.route,
        held_route(after) is None,
        !after.cache_retained,
{
}

/// An inline body is sent in order and whole: what the network takes of a piece, followed
/// by what is left from the new position on, is what was left before.
pub proof fn law_static_body_is_sent_in_order(body: Seq<u8>, pos: int, n: int)
    requires
        0 <= pos <= body.len(),
        0 <= n <= clip(body.skip(pos), SEND_BUF_SIZE as nat).len(),
    ensures
        clip(body.skip(pos), SEND_BUF_SIZE as nat).take(n) + body.skip(pos + n) == body.skip(pos),
{
    assert(clip(body.skip(pos), SEND_BUF_SIZE as nat).take(n) + body.skip(pos + n) =~= body.skip(
        pos,
    ));
}

/// Note that the network took `n` bytes of an inline body.
pub fn note_static_sent(slot: &mut ConnSlot, n: usize)
    requires
        old(slot).wf(),
        old(slot).render.pos + n <= usize::MAX,
    ensures
        final(slot).wf(),
        *final(slot) == (ConnSlot {
            render: Rendering { pos: (old(slot).render.pos + n) as usize, ..old(slot).render },
            ..*old(slot)
        }),
{
    slot.render.pos = slot.render.pos + n;
}

// ── Templates ───────────────────────────────────────────────────────────

/// What there is to send of a template.
#[derive(Clone, Copy, PartialEq, Eq, Structural, Debug)]
pub enum ChunkStep {
    /// An earlier chunk is not sent yet.
    Flush,
    /// A chunk has been staged; `more` says whether others follow.
    Staged { more: bool },
    /// Nothing came of this pass, and more is left.
    Nothing,
    /// All of it has been sent; the connection ends.
    Ended,
}

/// Stage the next chunk of a template.
pub fn step_send_template(slot: &mut ConnSlot, body: &[u8], vars: &VarTable) -> (r: ChunkStep)
    requires
        old(slot).wf(),
    ensures
        final(slot).wf(),
        ({
            let pos = old(slot).render.pos as int;
            let next = chunk_end(body@, *vars, pos, SEND_BUF_SIZE as int);
            let piece = chunk_text(body@, *vars, pos, SEND_BUF_SIZE as int);
            if old(slot).tx.unsent().len() > 0 {
                r is Flush && *final(slot) == *old(slot)
            } else {
                &&& *final(slot) == (ConnSlot {
                    tx: final(slot).tx,
                    render: Rendering { pos: next as usize, ..old(slot).render },
                    phase: if piece.len() == 0 && next >= body@.len() {
                        Phase::CloseConn
                    } else {
                        old(slot).phase
                    },
                    ..*old(slot)
                })
                &&& final(slot).tx.buf@ == piece
                &&& final(slot).tx.sent == 0
                &&& r == if piece.len() > 0 {
                    ChunkStep::Staged { more: next < body@.len() }
                } else if next < body@.len() {
                    ChunkStep::Nothing
                } else {
                    ChunkStep::Ended
                }
            }
        }),
{
    if slot.tx.send_remaining() > 0 {
        return ChunkStep::Flush;
    }
    let mut pos: usize = slot.render.pos;
    let (piece, more) = render_template_route_into(body, vars, &mut pos, SEND_BUF_SIZE);
    slot.render.pos = pos;
    let n: usize = piece.len();
    slot.tx.stage(piece);
    if n > 0 {
        ChunkStep::Staged { more }
    } else if more {
        ChunkStep::Nothing
    } else {
        slot.phase = Phase::CloseConn;
        ChunkStep::Ended
    }
}

// ── File indexes and files ──────────────────────────────────────────────

/// Stage the next lines of a file index. Returns false when it has all been rendered;
/// then the connection ends.
pub fn step_send_index(slot: &mut ConnSlot) -> (more: bool)
    requires
        old(slot).wf(),
    ensures
        final(slot).wf(),
        more == (old(slot).render.index_pos < old(slot).render.file_count),
        if !more {
            *final(slot) == (ConnSlot { phase: Phase::CloseConn, ..*old(slot) })
        } else if old(slot).tx.unsent().len() > 0 {
            *final(slot) == *old(slot)
        } else {
            &&& *final(slot) == (ConnSlot {
                tx: final(slot).tx,
                render: Rendering {
                    index_pos: final(slot).render.index_pos,
                    ..old(slot).render
                },
                ..*old(slot)
            })
            &&& final(slot).tx.sent == 0
            &&& final(slot).tx.buf@ == index_lines(
                old(slot).render.index_pos as int,
                final(slot).render.index_pos as int,
            )
            &&& final(slot).render.index_pos == index_stop(
                old(slot).render.index_pos as int,
                old(slot).render.file_count as int,
                0,
                SEND_BUF_SIZE as int,
                6,
            )
            &&& old(slot).render.index_pos < final(slot).render.index_pos
                <= old(slot).render.file_count
            &&& final(slot).render.index_pos < old(slot).render.file_count
                ==> final(slot).tx.buf@.len() + 6 >= SEND_BUF_SIZE
        },
{
    if slot.render.index_pos >= slot.render.file_count {
        slot.phase = Phase::CloseConn;
        return false;
    }
    if slot.tx.send_remaining() > 0 {
        return true;
    }
    let mut idx: u16 = slot.render.index_pos;
    let (lines, rest) = render_index_into(&mut idx, slot.render.file_count, SEND_BUF_SIZE, 6);
    slot.render.index_pos = idx;
    slot.tx.stage(lines);
    true
}

/// Take what was read of a file: bytes to send, or the end.
pub fn file_read(slot: &mut ConnSlot, data: Vec<u8>, hung_up: bool) -> (staged: bool)
    requires
        old(slot).wf(),
        data@.len() <= SEND_BUF_SIZE,
    ensures
        final(slot).wf(),
        staged == (data@.len() > 0),
        if staged {
            &&& *final(slot) == (ConnSlot { tx: final(slot).tx, ..*old(slot) })
            &&& final(slot).tx.buf@ == data@
            &&& final(slot).tx.sent == 0
        } else {
            *final(slot) == (ConnSlot {
                phase: if hung_up {
                    Phase::CloseConn
                } else {
                    old(slot).phase
                },
                ..*old(slot)
            })
        },
{
    if data.len() > 0 {
        slot.tx.stage(data);
        return true;
    }
    if hung_up {
        slot.phase = Phase::CloseConn;
    }
    false
}

// ── Files of a filesystem provider ──────────────────────────────────────

/// How many chunks of a file are sent in one tick.
pub const FS_SEND_ROUNDS: usize = 16;

/// What to do next about a file being sent.
#[derive(Clone, Copy, PartialEq, Eq, Structural, Debug)]
pub enum FsStep {
    /// There is no file; the connection ends.
    Gone,
    /// All of it has been sent: close this file. The response is finished.
    Complete(i32),
    /// Read at most `max` bytes of this file.
    Read { fd: i32, max: usize },
    /// There are bytes to send.
    Send,
}

/// Whether a slot has gone on sending a file as it should. Where the length is known
/// no more than that is read, and the response ends with it.
pub open spec fn fs_next(before: ConnSlot, after: ConnSlot, r: FsStep) -> bool {
    let known = before.render.total != u32::MAX;
    let fd = before.render.fd;
    if fd < 0 {
        r is Gone && after == (ConnSlot { phase: Phase::CloseConn, ..before })
    } else if before.tx.unsent().len() > 0 {
        r is Send && after == before
    } else if known && before.render.sent >= before.render.total {
        &&& r == FsStep::Complete(fd)
        &&& finished(
            ConnSlot { render: Rendering { fd: -1i32, ..before.render }, ..before },
            after,
        )
    } else {
        let left = before.render.total - before.render.sent;
        &&& after == before
        &&& r == (FsStep::Read {
            fd,
            max: if known && left < SEND_BUF_SIZE {
                left as usize
            } else {
                SEND_BUF_SIZE
            },
        })
    }
}

pub fn step_send_fs_file(slot: &mut ConnSlot) -> (r: FsStep)
    requires
        old(slot).wf(),
    ensures
        final(slot).wf(),
        fs_next(*old(slot), *final(slot), r),
{
    let fd: i32 = slot.render.fd;
    if fd < 0 {
        slot.phase = Phase::CloseConn;
        return FsStep::Gone;
    }
    if slot.tx.send_remaining() > 0 {
        return FsStep::Send;
    }
    let known = slot.render.total != u32::MAX;
    if known && slot.render.sent >= slot.render.total {
        slot.render.fd = -1;
        finish_response(slot);
        return FsStep::Complete(fd);
    }
    let mut max: usize = SEND_BUF_SIZE;
    if known {
        let left: u32 = slot.render.total - slot.render.sent;
        if left < SEND_BUF_SIZE as u32 {
            max = left as usize;
        }
    }
    FsStep::Read { fd, max }
}

/// What came of reading a file.
#[derive(Clone, Copy, PartialEq, Eq, Structural, Debug)]
pub enum FsRead {
    /// No bytes yet.
    Again,
    /// Nothing more to be had: close this file. The connection ends.
    Ended(i32),
    Staged,
}

/// Take what was read of a file: `n` as the provider returned it, `data` the bytes. One
/// that is not ready yet is not at its end.
pub fn fs_read_done(slot: &mut ConnSlot, n: i32, data: Vec<u8>) -> (r: FsRead)
    requires
        old(slot).wf(),
        data@.len() <= SEND_BUF_SIZE,
        n > 0 ==> data@.len() == n,
    ensures
        final(slot).wf(),
        if n == FS_EAGAIN {
            r is Again && *final(slot) == *old(slot)
        } else if n <= 0 {
            &&& r == FsRead::Ended(old(slot).render.fd)
            &&& *final(slot) == (ConnSlot {
                render: Rendering { fd: -1i32, ..old(slot).render },
                phase: Phase::CloseConn,
                ..*old(slot)
            })
        } else {
            &&& r is Staged
            &&& *final(slot) == (ConnSlot { tx: final(slot).tx, ..*old(slot) })
            &&& final(slot).tx.buf@ == data@
            &&& final(slot).tx.sent == 0
        },
{
    if n == FS_EAGAIN {
        return FsRead::Again;
    }
    if n <= 0 {
        let fd: i32 = slot.render.fd;
        slot.render.fd = -1;
        slot.phase = Phase::CloseConn;
        return FsRead::Ended(fd);
    }
    slot.tx.stage(data);
    FsRead::Staged
}

/// Note that the network took `n` bytes of a file.
pub fn note_fs_sent(slot: &mut ConnSlot, n: usize)
    requires
        old(slot).wf(),
        n <= old(slot).tx.unsent().len(),
    ensures
        final(slot).wf(),
        *final(slot) == (ConnSlot {
            tx: Outbox { sent: (old(slot).tx.sent + n) as usize, ..old(slot).tx },
            render: Rendering {
                sent: ((old(slot).render.sent + n) % 0x1_0000_0000) as u32,
                ..old(slot).render
            },
            ..*old(slot)
        }),
{
    slot.tx.note_sent(n);
    slot.render.sent = slot.render.sent.wrapping_add(n as u32);
}

/// Whether another round of reading and sending follows on this tick: only when all
/// that was to be sent has been taken.
pub fn fs_round_goes_on(left: usize, taken: usize) -> (r: bool)
    ensures
        r == (taken > 0 && taken >= left),
{
    taken > 0 && taken >= left
}

/// No more than a file's known length is sent: what is read next and what has been sent
/// together do not exceed it.
pub proof fn law_no_more_than_the_length_is_read(before: ConnSlot, after: ConnSlot, r: FsStep)
    requires
        fs_next(before, after, r),
        before.render.total != u32::MAX,
    ensures
        r matches FsStep::Read { fd, max } ==> before.render.sent + max <= before.render.total
            && max > 0,
{
}

// ── Fetched bodies ──────────────────────────────────────────────────────

/// The head of a route's body: an inline body states its length, a template's is not
/// known before it is rendered.
pub open spec fn body_head(handler: u8, ct: Seq<u8>, keepalive: bool, len: u32) -> Seq<u8> {
    if handler == HANDLER_STATIC {
        sized_head(text("200 OK"), ct, keepalive, len)
    } else {
        closing_head(text("200 OK"), ct)
    }
}

/// The content type of a route's body.
pub open spec fn page_type(ct: Seq<u8>) -> Seq<u8> {
    if ct.len() == 0 {
        text("text/html")
    } else {
        ct
    }
}

/// Whether a slot has staged the head of a route's body.
pub open spec fn page_begun(
    before: ConnSlot,
    after: ConnSlot,
    handler: u8,
    ct: Seq<u8>,
    len: u32,
    cached: bool,
) -> bool {
    staged_head(
        ConnSlot {
            render: Rendering { pos: 0, ..before.render },
            cache_retained: before.cache_retained || cached,
            phase: Phase::SendHeaders,
            ..before
        },
        after,
        body_head(handler, page_type(ct), before.keepalive, len),
        before.keepalive && handler == HANDLER_STATIC,
    )
}

/// Stage the head of a route's body. `cached` says that the body is held in the cache
/// for this slot.
pub fn begin_page(slot: &mut ConnSlot, handler: u8, ct: &[u8], len: u32, cached: bool)
    requires
        old(slot).wf(),
    ensures
        final(slot).wf(),
        page_begun(*old(slot), *final(slot), handler, ct@, len, cached),
{
    let page: &[u8] = if ct.len() == 0 {
        lit("text/html")
    } else {
        ct
    };
    slot.render.pos = 0;
    if cached {
        slot.cache_retained = true;
    }
    slot.phase = Phase::SendHeaders;
    if handler == HANDLER_STATIC {
        build_header_with_len(slot, lit("200 OK"), page, len);
    } else {
        build_header(slot, lit("200 OK"), page);
    }
}

/// Wait for a fetched body to begin. `wired` says whether there is a channel to fetch
/// from, `ready` whether it has bytes or has ended.
pub fn step_fetch_content(slot: &mut ConnSlot, wired: bool, ready: bool) -> (begun: bool)
    requires
        old(slot).wf(),
    ensures
        final(slot).wf(),
        begun == (wired && ready),
        if !wired {
            refused(*old(slot), *final(slot), "500 Internal Server Error", "No content source\n")
        } else {
            *final(slot) == (ConnSlot {
                phase: if ready {
                    Phase::CacheStream
                } else {
                    old(slot).phase
                },
                ..*old(slot)
            })
        },
{
    if !wired {
        refuse(slot, "500 Internal Server Error", "No content source\n");
        return false;
    }
    if ready {
        slot.phase = Phase::CacheStream;
    }
    ready
}

/// End a connection whose body cannot be fetched after all.
pub fn abandon(slot: &mut ConnSlot)
    requires
        old(slot).wf(),
    ensures
        final(slot).wf(),
        *final(slot) == (ConnSlot { phase: Phase::CloseConn, ..*old(slot) }),
{
    slot.phase = Phase::CloseConn;
}

/// A recorded span runs from when the request's head came to when it ended, under the
/// caller's trace where it sent one that is recorded.
pub proof fn law_span_says_when_and_whose(span: SpanState, now: u64)
    requires
        span.start_us != 0,
    ensures
        ({
            let theirs = span.ctx.is_propagated();
            let r = span_report(span, true, true, now);
            &&& r is None <==> theirs && span.ctx.flags % 2 == 0
            &&& r is Some ==> r->0.start_us == span.start_us && (now >= span.start_us
                ==> r->0.end_us == now) && (theirs ==> r->0.ctx == span.ctx) && (!theirs
                ==> r->0.ctx.flags == 1 && !r->0.ctx.is_propagated())
            &&& span_report(span, false, true, now) is None
            &&& span_report(SpanState { start_us: 0, ..span }, true, true, now) is None
        }),
{
}

} // verus!
