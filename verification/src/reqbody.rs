//! Request bodies: deciding that there is one, then reading it.
//!
//! A body is read whether or not anything uses it: bytes left behind would be read as
//! the next request. The head stays in front of the body for the whole read, and the
//! decoded body never grows past a limit.

use crate::bytes::{extend, index_from, lemma_index_from, text};
use crate::conn::{BodyMode, BodyReader, ChunkState, Inbox, RECV_BUF_SIZE};
use crate::h1_wire::{
    body_framing, chunk_header_at, crlf_at, expects_continue, field_values, find_crlf, framing_of, hex_value, is_blank, is_hex, lemma_line_end, lemma_line_fed,
    line_end, parse_chunk_header, pow16, trim_end, trim_start, waits_for_continue, BodyFraming, ChunkHeader,
};
use crate::method::{expects_request_body, method_expects_request_body};
use vstd::prelude::*;
use vstd::slice::slice_subrange;

verus! {

/// Limit on a decoded body where none is configured: 64 KiB.
pub const DEFAULT_MAX_BODY: u32 = 65536;

/// Bytes first reserved for a body.
pub const BODY_FIRST_CAP: u32 = 1024;

/// The limit on a decoded body.
pub open spec fn body_limit(max_body: u32) -> u32 {
    if max_body == 0 {
        DEFAULT_MAX_BODY
    } else {
        max_body
    }
}

pub fn body_cap(max_body: u32) -> (r: u32)
    ensures
        r == body_limit(max_body),
{
    if max_body == 0 {
        DEFAULT_MAX_BODY
    } else {
        max_body
    }
}

// ── Room for the decoded body ───────────────────────────────────────────

/// How far `have` is from `want`.
pub open spec fn short_of(have: u32, want: u32) -> int {
    if have < want {
        want - have
    } else {
        0
    }
}

/// `have` doubled until it is at least `want`.
pub open spec fn doubled(have: u32, want: u32) -> u32
    decreases short_of(have, want),
{
    if have == 0 || have >= want {
        have
    } else if 2 * have > u32::MAX {
        u32::MAX
    } else {
        doubled((2 * have) as u32, want)
    }
}

/// The room reserved once `want` bytes have to be held: what there is where that is
/// enough, else doubled, and never more than the limit. `None` past the limit.
pub open spec fn room_for(have: u32, want: u32, limit: u32) -> Option<u32> {
    if want > limit {
        None
    } else if have >= want && have > 0 {
        Some(have)
    } else {
        let next = doubled(
            if have == 0 {
                BODY_FIRST_CAP
            } else {
                have
            },
            want,
        );
        Some(
            if next > limit {
                limit
            } else {
                next
            },
        )
    }
}

/// Doubling reaches what is wanted.
pub proof fn lemma_doubled(have: u32, want: u32)
    requires
        have > 0,
    ensures
        doubled(have, want) >= want,
        doubled(have, want) >= have,
    decreases short_of(have, want),
{
    if have < want && 2 * have <= u32::MAX {
        lemma_doubled((2 * have) as u32, want);
    }
}

/// The room reserved holds what is wanted and stays within the limit.
pub proof fn law_reserved_room_is_bounded(have: u32, want: u32, limit: u32)
    requires
        have <= limit,
    ensures
        room_for(have, want, limit) is Some <==> want <= limit,
        room_for(have, want, limit) matches Some(r) ==> want <= r <= limit && have <= r,
{
    lemma_doubled(
        if have == 0 {
            BODY_FIRST_CAP
        } else {
            have
        },
        want,
    );
}

pub fn doubled_to(have: u32, want: u32) -> (r: u32)
    requires
        have > 0,
    ensures
        r == doubled(have, want),
{
    let mut next: u32 = have;
    while next < want
        invariant
            next > 0,
            doubled(next, want) == doubled(have, want),
        decreases short_of(next, want),
    {
        if next > u32::MAX / 2 {
            return u32::MAX;
        }
        next = next * 2;
    }
    next
}

/// Reserve room for `want` bytes of body. Refuses past the limit.
pub fn ensure_capacity(body: &mut BodyReader, want: u32, limit: u32) -> (ok: bool)
    ensures
        ok == (want <= limit),
        *final(body) == (match room_for(old(body).reserved, want, limit) {
            Some(room) => BodyReader { reserved: room, ..*old(body) },
            None => *old(body),
        }),
{
    if want > limit {
        return false;
    }
    let have: u32 = body.reserved;
    if have >= want && have > 0 {
        return true;
    }
    let next: u32 = doubled_to(
        if have == 0 {
            BODY_FIRST_CAP
        } else {
            have
        },
        want,
    );
    body.reserved = if next > limit {
        limit
    } else {
        next
    };
    true
}

// ── Planning ────────────────────────────────────────────────────────────

/// What the head said about its body.
#[derive(Clone, Copy, PartialEq, Eq, Structural, Debug)]
pub enum BodyPlan {
    /// There is none; dispatch at once.
    Absent,
    /// A body follows. `continue_first`: the client waits for an interim response.
    Read { continue_first: bool },
    /// The framing fields contradict each other or do not parse.
    Invalid,
    /// The declared length is over the limit.
    TooLarge,
    /// A method that carries a body did not say how long it is.
    LengthRequired,
}

/// What to do about a body framed like this.
pub open spec fn planned(framing: BodyFraming, verb: u8, waits: bool, limit: u32) -> BodyPlan {
    match framing {
        BodyFraming::Invalid => BodyPlan::Invalid,
        BodyFraming::Unframed => if expects_request_body(verb) {
            BodyPlan::LengthRequired
        } else {
            BodyPlan::Absent
        },
        BodyFraming::Length(n) => if n == 0 {
            BodyPlan::Absent
        } else if n > limit {
            BodyPlan::TooLarge
        } else {
            BodyPlan::Read { continue_first: waits }
        },
        BodyFraming::Chunked => BodyPlan::Read { continue_first: waits },
    }
}

/// How a head frames its body.
pub open spec fn head_framing(head: Seq<u8>) -> BodyFraming {
    framing_of(
        field_values(head, text("transfer-encoding")),
        field_values(head, text("content-length")),
    )
}

/// Whether the reader is armed to read a body, with nothing read yet.
pub open spec fn armed(old_body: BodyReader, new_body: BodyReader, mode: BodyMode, remaining: u64) -> bool {
    &&& new_body.mode == mode
    &&& new_body.remaining == remaining
    &&& new_body.state is Size
    &&& new_body.data@ == Seq::<u8>::empty()
    &&& new_body.interim == old_body.interim
}

fn arm(body: &mut BodyReader, mode: BodyMode, remaining: u64)
    ensures
        armed(*old(body), *final(body), mode, remaining),
        final(body).reserved == old(body).reserved,
{
    body.mode = mode;
    body.remaining = remaining;
    body.state = ChunkState::Size;
    body.data = Vec::new();
    assert(body.data@ =~= Seq::<u8>::empty());
}

/// Decide what to do about the body behind `head`, and arm the reader. A refused
/// request leaves the reader as it was.
pub fn plan_body(body: &mut BodyReader, verb: u8, head: &[u8], max_body: u32) -> (r: BodyPlan)
    requires
        old(body).reserved <= body_limit(max_body),
    ensures
        r == planned(
            head_framing(head@),
            verb,
            waits_for_continue(head@),
            body_limit(max_body),
        ),
        match r {
            BodyPlan::Absent => armed(*old(body), *final(body), BodyMode::Absent, 0)
                && final(body).reserved == old(body).reserved,
            BodyPlan::Read { continue_first } => match head_framing(head@) {
                BodyFraming::Length(n) => armed(*old(body), *final(body), BodyMode::Length, n)
                    && Some(final(body).reserved) == room_for(
                    old(body).reserved,
                    n as u32,
                    body_limit(max_body),
                ),
                _ => armed(*old(body), *final(body), BodyMode::Chunked, 0) && final(body).reserved
                    == old(body).reserved,
            },
            _ => *final(body) == *old(body),
        },
        final(body).reserved <= body_limit(max_body),
{
    let framing = body_framing(head);
    let waits = expects_continue(head);
    let cap: u32 = body_cap(max_body);
    match framing {
        BodyFraming::Invalid => BodyPlan::Invalid,
        BodyFraming::Unframed => {
            if method_expects_request_body(verb) {
                return BodyPlan::LengthRequired;
            }
            arm(body, BodyMode::Absent, 0);
            BodyPlan::Absent
        },
        BodyFraming::Length(n) => {
            if n == 0 {
                arm(body, BodyMode::Absent, 0);
                return BodyPlan::Absent;
            }
            if n > cap as u64 {
                return BodyPlan::TooLarge;
            }
            proof {
                law_reserved_room_is_bounded(body.reserved, n as u32, cap);
            }
            if !ensure_capacity(body, n as u32, cap) {
                return BodyPlan::TooLarge;
            }
            arm(body, BodyMode::Length, n);
            BodyPlan::Read { continue_first: waits }
        },
        BodyFraming::Chunked => {
            arm(body, BodyMode::Chunked, 0);
            BodyPlan::Read { continue_first: waits }
        },
    }
}

// ── Reading ─────────────────────────────────────────────────────────────

/// Outcome of one pass of the body reader.
#[derive(Clone, Copy, PartialEq, Eq, Structural, Debug)]
pub enum BodyStep {
    /// The body is complete.
    Done,
    /// More bytes are needed.
    NeedMore,
    /// The chunked framing is malformed.
    Bad,
    /// The body outgrew the limit.
    TooLarge,
}

/// A body being read: how it is delimited, what has been decoded, and the bytes
/// behind the head that have not been consumed.
#[verifier::ext_equal]
pub struct BodyModel {
    pub mode: BodyMode,
    pub state: ChunkState,
    pub remaining: u64,
    pub body: Seq<u8>,
    pub wire: Seq<u8>,
}

impl BodyModel {
    /// The same body with more bytes received.
    pub open spec fn fed(self, more: Seq<u8>) -> BodyModel {
        BodyModel { wire: self.wire + more, ..self }
    }

    /// How many bytes a pass over the current stretch of data takes.
    pub open spec fn takes(self) -> int {
        if self.wire.len() < self.remaining {
            self.wire.len() as int
        } else {
            self.remaining as int
        }
    }

    /// The next `n` bytes decoded and consumed.
    pub open spec fn taken(self, n: int) -> BodyModel {
        BodyModel {
            body: self.body + self.wire.take(n),
            wire: self.wire.skip(n),
            remaining: (self.remaining - n) as u64,
            ..self
        }
    }
}

/// The body as it is being read.
pub open spec fn body_model(rx: Inbox, body: BodyReader) -> BodyModel {
    BodyModel {
        mode: body.mode,
        state: body.state,
        remaining: body.remaining,
        body: body.data@,
        wire: rx.buf@.skip(rx.head_end as int),
    }
}

/// Whether the head has stayed where it is.
pub open spec fn head_kept(old_rx: Inbox, new_rx: Inbox) -> bool {
    &&& new_rx.head_end == old_rx.head_end
    &&& new_rx.buf@.take(old_rx.head_end as int) == old_rx.buf@.take(old_rx.head_end as int)
    &&& new_rx.wf()
}

/// How many bytes fit behind the head.
pub open spec fn body_room(rx: Inbox) -> nat {
    (RECV_BUF_SIZE - rx.head_end) as nat
}

impl BodyReader {
    /// Whether the decoded body lies within its room, and that within the limit.
    pub open spec fn fits(self, limit: u32) -> bool {
        self.data@.len() <= self.reserved <= limit
    }
}

/// One pass over a body of known length.
pub open spec fn length_step(m: BodyModel, limit: u32) -> (BodyModel, BodyStep) {
    if m.remaining == 0 {
        (m, BodyStep::Done)
    } else if m.wire.len() == 0 {
        (m, BodyStep::NeedMore)
    } else if m.body.len() + m.takes() > limit {
        (m, BodyStep::TooLarge)
    } else {
        let next = m.taken(m.takes());
        (
            next,
            if next.remaining == 0 {
                BodyStep::Done
            } else {
                BodyStep::NeedMore
            },
        )
    }
}

/// One move of the chunked reader: a size line, a stretch of data, the line end
/// behind it, or a line of the trailer section. `None` where the pass goes on.
/// `room` is how many bytes fit behind the head.
pub open spec fn chunk_move(m: BodyModel, limit: u32, room: nat) -> (BodyModel, Option<BodyStep>) {
    match m.state {
        ChunkState::Size => if m.wire.len() == 0 {
            (m, Some(BodyStep::NeedMore))
        } else {
            match chunk_header_at(m.wire) {
                ChunkHeader::Need => (m, Some(BodyStep::NeedMore)),
                ChunkHeader::Bad => (m, Some(BodyStep::Bad)),
                ChunkHeader::Chunk { size, consumed } => (
                    BodyModel {
                        remaining: size,
                        state: if size == 0 {
                            ChunkState::Trailer
                        } else {
                            ChunkState::Data
                        },
                        wire: m.wire.skip(line_end(m.wire, 0) + 2),
                        ..m
                    },
                    None,
                ),
            }
        },
        ChunkState::Data => if m.remaining == 0 {
            (BodyModel { state: ChunkState::LineEnd, ..m }, None)
        } else if m.wire.len() == 0 {
            (m, Some(BodyStep::NeedMore))
        } else if m.body.len() + m.takes() > limit {
            (m, Some(BodyStep::TooLarge))
        } else {
            let next = m.taken(m.takes());
            (
                if next.remaining == 0 {
                    BodyModel { state: ChunkState::LineEnd, ..next }
                } else {
                    next
                },
                None,
            )
        },
        ChunkState::LineEnd => if m.wire.len() < 2 {
            (m, Some(BodyStep::NeedMore))
        } else if crlf_at(m.wire, 0) {
            (BodyModel { state: ChunkState::Size, wire: m.wire.skip(2), ..m }, None)
        } else {
            (m, Some(BodyStep::Bad))
        },
        ChunkState::Trailer => if m.wire.len() < 2 {
            (m, Some(BodyStep::NeedMore))
        } else if crlf_at(m.wire, 0) {
            (BodyModel { wire: m.wire.skip(2), ..m }, Some(BodyStep::Done))
        } else if line_end(m.wire, 0) >= m.wire.len() {
            if m.wire.len() >= room {
                (m, Some(BodyStep::Bad))
            } else {
                (m, Some(BodyStep::NeedMore))
            }
        } else {
            (BodyModel { wire: m.wire.skip(line_end(m.wire, 0) + 2), ..m }, None)
        },
    }
}

/// Orders the moves that consume nothing.
pub open spec fn chunk_rank(m: BodyModel) -> nat {
    if m.state is Data && m.remaining == 0 {
        1
    } else {
        0
    }
}

/// One pass of the chunked reader: moves until one needs more bytes or ends the body.
pub open spec fn chunk_run(m: BodyModel, limit: u32, room: nat) -> (BodyModel, BodyStep)
    decreases m.wire.len(), chunk_rank(m),
    via chunk_run_ends
{
    let (next, out) = chunk_move(m, limit, room);
    match out {
        Some(step) => (next, step),
        None => chunk_run(next, limit, room),
    }
}

#[via_fn]
proof fn chunk_run_ends(m: BodyModel, limit: u32, room: nat) {
    lemma_move_shrinks(m, limit, room);
}

/// A move that goes on consumes bytes, or lowers the rank.
proof fn lemma_move_shrinks(m: BodyModel, limit: u32, room: nat)
    ensures
        ({
            let (next, out) = chunk_move(m, limit, room);
            out is None ==> next.wire.len() < m.wire.len() || (next.wire.len() == m.wire.len()
                && chunk_rank(next) < chunk_rank(m))
        }),
{
    lemma_line_end(m.wire, 0);
}

/// One pass of the body reader.
pub open spec fn body_step(m: BodyModel, limit: u32, room: nat) -> (BodyModel, BodyStep) {
    match m.mode {
        BodyMode::Absent => (m, BodyStep::Done),
        BodyMode::Length => length_step(m, limit),
        BodyMode::Chunked => chunk_run(m, limit, room),
    }
}

/// The bytes received behind the head.
fn pending(rx: &Inbox) -> (r: &[u8])
    requires
        rx.wf(),
    ensures
        r@ == rx.buf@.skip(rx.head_end as int),
        r@.len() == rx.buf@.len() - rx.head_end,
{
    let r = slice_subrange(rx.buf.as_slice(), rx.head_end, rx.buf.len());
    assert(r@ =~= rx.buf@.skip(rx.head_end as int));
    r
}

/// Drop `n` bytes of body; what follows them slides down against the head.
fn consume(rx: &mut Inbox, n: usize)
    requires
        old(rx).wf(),
        n <= old(rx).buf@.len() - old(rx).head_end,
    ensures
        head_kept(*old(rx), *final(rx)),
        final(rx).buf@.skip(final(rx).head_end as int) == old(rx).buf@.skip(
            old(rx).head_end as int,
        ).skip(n as int),
{
    let b: usize = rx.head_end;
    let mut kept: Vec<u8> = Vec::new();
    extend(&mut kept, slice_subrange(rx.buf.as_slice(), 0, b));
    extend(&mut kept, slice_subrange(rx.buf.as_slice(), b + n, rx.buf.len()));
    rx.buf = kept;
    assert(rx.buf@.take(b as int) =~= old(rx).buf@.take(b as int));
    assert(rx.buf@.skip(b as int) =~= old(rx).buf@.skip(b as int).skip(n as int));
}

/// Decode the next `n` bytes. Refuses past the limit.
fn append(rx: &mut Inbox, body: &mut BodyReader, n: usize, limit: u32) -> (ok: bool)
    requires
        old(rx).wf(),
        old(body).fits(limit),
        0 < n <= old(rx).buf@.len() - old(rx).head_end,
        n <= old(body).remaining,
    ensures
        ok == (old(body).data@.len() + n <= limit),
        !ok ==> *final(rx) == *old(rx) && *final(body) == *old(body),
        ok ==> body_model(*final(rx), *final(body)) == body_model(*old(rx), *old(body)).taken(
            n as int,
        ),
        final(body).interim == old(body).interim,
        head_kept(*old(rx), *final(rx)),
        final(body).fits(limit),
{
    let have: usize = body.data.len();
    if n > limit as usize - have {
        return false;
    }
    let want: u32 = (have + n) as u32;
    proof {
        law_reserved_room_is_bounded(body.reserved, want, limit);
    }
    if !ensure_capacity(body, want, limit) {
        return false;
    }
    let b: usize = rx.head_end;
    let fresh = slice_subrange(rx.buf.as_slice(), b, b + n);
    assert(fresh@ =~= rx.buf@.skip(b as int).take(n as int));
    extend(&mut body.data, fresh);
    body.remaining = body.remaining - n as u64;
    consume(rx, n);
    true
}

fn read_length(rx: &mut Inbox, body: &mut BodyReader, limit: u32) -> (r: BodyStep)
    requires
        old(rx).wf(),
        old(body).fits(limit),
    ensures
        (body_model(*final(rx), *final(body)), r) == length_step(
            body_model(*old(rx), *old(body)),
            limit,
        ),
        final(body).interim == old(body).interim,
        head_kept(*old(rx), *final(rx)),
        final(body).fits(limit),
{
    let have: usize = pending(rx).len();
    let remaining: u64 = body.remaining;
    if remaining == 0 {
        return BodyStep::Done;
    }
    if have == 0 {
        return BodyStep::NeedMore;
    }
    let take: usize = if (have as u64) < remaining {
        have
    } else {
        remaining as usize
    };
    if !append(rx, body, take, limit) {
        return BodyStep::TooLarge;
    }
    if body.remaining == 0 {
        BodyStep::Done
    } else {
        BodyStep::NeedMore
    }
}

/// One move of the chunked reader.
fn read_chunk_move(rx: &mut Inbox, body: &mut BodyReader, limit: u32) -> (r: Option<BodyStep>)
    requires
        old(rx).wf(),
        old(body).fits(limit),
    ensures
        (body_model(*final(rx), *final(body)), r) == chunk_move(
            body_model(*old(rx), *old(body)),
            limit,
            body_room(*old(rx)),
        ),
        final(body).interim == old(body).interim,
        head_kept(*old(rx), *final(rx)),
        final(body).fits(limit),
{
    let have: usize = pending(rx).len();
    match body.state {
        ChunkState::Size => {
            if have == 0 {
                return Some(BodyStep::NeedMore);
            }
            proof {
                lemma_line_end(body_model(*rx, *body).wire, 0);
            }
            match parse_chunk_header(pending(rx)) {
                ChunkHeader::Need => Some(BodyStep::NeedMore),
                ChunkHeader::Bad => Some(BodyStep::Bad),
                ChunkHeader::Chunk { size, consumed } => {
                    consume(rx, consumed);
                    body.remaining = size;
                    body.state = if size == 0 {
                        ChunkState::Trailer
                    } else {
                        ChunkState::Data
                    };
                    None
                },
            }
        },
        ChunkState::Data => {
            let remaining: u64 = body.remaining;
            if remaining == 0 {
                body.state = ChunkState::LineEnd;
                return None;
            }
            if have == 0 {
                return Some(BodyStep::NeedMore);
            }
            let take: usize = if (have as u64) < remaining {
                have
            } else {
                remaining as usize
            };
            if !append(rx, body, take, limit) {
                return Some(BodyStep::TooLarge);
            }
            if body.remaining == 0 {
                body.state = ChunkState::LineEnd;
            }
            None
        },
        ChunkState::LineEnd => {
            if have < 2 {
                return Some(BodyStep::NeedMore);
            }
            let s = pending(rx);
            if s[0] != 0x0d || s[1] != 0x0a {
                return Some(BodyStep::Bad);
            }
            consume(rx, 2);
            body.state = ChunkState::Size;
            None
        },
        ChunkState::Trailer => {
            if have < 2 {
                return Some(BodyStep::NeedMore);
            }
            let s = pending(rx);
            if s[0] == 0x0d && s[1] == 0x0a {
                consume(rx, 2);
                return Some(BodyStep::Done);
            }
            let e: usize = find_crlf(s, 0);
            if e >= have {
                if have >= RECV_BUF_SIZE - rx.head_end {
                    return Some(BodyStep::Bad);
                }
                return Some(BodyStep::NeedMore);
            }
            consume(rx, e + 2);
            None
        },
    }
}

fn read_chunked(rx: &mut Inbox, body: &mut BodyReader, limit: u32) -> (r: BodyStep)
    requires
        old(rx).wf(),
        old(body).fits(limit),
    ensures
        (body_model(*final(rx), *final(body)), r) == chunk_run(
            body_model(*old(rx), *old(body)),
            limit,
            body_room(*old(rx)),
        ),
        final(body).interim == old(body).interim,
        head_kept(*old(rx), *final(rx)),
        final(body).fits(limit),
{
    let ghost room = body_room(*rx);
    let ghost first = body_model(*rx, *body);
    loop
        invariant
            rx.wf(),
            body.fits(limit),
            body.interim == old(body).interim,
            head_kept(*old(rx), *rx),
            room == body_room(*old(rx)),
            first == body_model(*old(rx), *old(body)),
            chunk_run(body_model(*rx, *body), limit, room) == chunk_run(first, limit, room),
        decreases body_model(*rx, *body).wire.len(), chunk_rank(body_model(*rx, *body)),
    {
        proof {
            lemma_move_shrinks(body_model(*rx, *body), limit, room);
        }
        match read_chunk_move(rx, body, limit) {
            Some(step) => {
                return step;
            },
            None => {},
        }
    }
}

/// Consume as much of the body as has been received. The head in front of it is not
/// moved.
pub fn step_recv_body(rx: &mut Inbox, body: &mut BodyReader, max_body: u32) -> (r: BodyStep)
    requires
        old(rx).wf(),
        old(body).fits(body_limit(max_body)),
    ensures
        (body_model(*final(rx), *final(body)), r) == body_step(
            body_model(*old(rx), *old(body)),
            body_limit(max_body),
            body_room(*old(rx)),
        ),
        final(body).interim == old(body).interim,
        head_kept(*old(rx), *final(rx)),
        final(body).fits(body_limit(max_body)),
{
    let limit: u32 = body_cap(max_body);
    match body.mode {
        BodyMode::Absent => BodyStep::Done,
        BodyMode::Length => read_length(rx, body, limit),
        BodyMode::Chunked => read_chunked(rx, body, limit),
    }
}

/// Release the decoded body and disarm the reader, so that no request sees another's
/// body.
pub fn reset_body(body: &mut BodyReader)
    ensures
        final(body).is_blank(),
{
    *body = BodyReader::blank();
}

// ── Laws ────────────────────────────────────────────────────────────────

/// The decoded body never outgrows the limit.
pub proof fn law_body_stays_within_limit(m: BodyModel, limit: u32, room: nat)
    requires
        m.body.len() <= limit,
    ensures
        body_step(m, limit, room).0.body.len() <= limit,
    decreases m.wire.len(), chunk_rank(m),
{
    if m.mode is Chunked {
        lemma_move_shrinks(m, limit, room);
        let (next, out) = chunk_move(m, limit, room);
        if out is None {
            law_body_stays_within_limit(next, limit, room);
        }
    }
}

/// A body of known length is the next that many bytes, and what follows them is left
/// for the next request.
pub proof fn law_length_body_is_exact(m: BodyModel, limit: u32, room: nat)
    requires
        m.mode is Length,
        m.remaining <= m.wire.len(),
        m.body.len() + m.remaining <= limit,
    ensures
        body_step(m, limit, room) == (
            BodyModel {
                body: m.body + m.wire.take(m.remaining as int),
                wire: m.wire.skip(m.remaining as int),
                remaining: 0,
                ..m
            },
            BodyStep::Done,
        ),
{
    assert(m.wire.take(0) =~= Seq::<u8>::empty());
    assert(m.wire.skip(0) =~= m.wire);
    assert(m.body + Seq::<u8>::empty() =~= m.body);
}

/// Whether two passes agree: in their outcome and, unless it is a refusal for size, in
/// what is left.
pub open spec fn agree(a: (BodyModel, BodyStep), b: (BodyModel, BodyStep)) -> bool {
    a.1 == b.1 && (a.1 is TooLarge || a.0 == b.0)
}

/// How a body is cut into packets does not matter: a pass that needs more bytes and
/// gets them ends like a pass that had them all.
pub proof fn law_body_may_be_split(m: BodyModel, more: Seq<u8>, limit: u32, room: nat)
    requires
        body_step(m, limit, room).1 is NeedMore,
    ensures
        agree(
            body_step(m.fed(more), limit, room),
            body_step(body_step(m, limit, room).0.fed(more), limit, room),
        ),
    decreases m.wire.len(), chunk_rank(m),
{
    match m.mode {
        BodyMode::Absent => {},
        BodyMode::Length => {
            let next = body_step(m, limit, room).0;
            if m.wire.len() > 0 {
                lemma_data_split(m, more);
                assert(next == m.taken(m.wire.len() as int));
            }
        },
        BodyMode::Chunked => {
            lemma_move_shrinks(m, limit, room);
            let (next, out) = chunk_move(m, limit, room);
            match out {
                Some(_) => {
                    assert(next == m);
                },
                None => {
                    law_body_may_be_split(next, more, limit, room);
                    lemma_move_split(m, more, limit, room);
                },
            }
        },
    }
}

/// Taking a stretch of data whole is taking its front and then the rest.
proof fn lemma_data_split(m: BodyModel, more: Seq<u8>)
    requires
        m.wire.len() < m.remaining,
    ensures
        ({
            let cut = m.wire.len() as int;
            let part = m.taken(cut).fed(more);
            &&& part.wire == more
            &&& m.fed(more).takes() == cut + part.takes()
            &&& m.fed(more).taken(cut + part.takes()) == part.taken(part.takes())
        }),
{
    let cut = m.wire.len() as int;
    let part = m.taken(cut).fed(more);
    assert(part.wire =~= more);
    let t = part.takes();
    assert(m.wire.take(cut) =~= m.wire);
    assert(m.fed(more).wire.take(cut + t) =~= m.wire + more.take(t));
    assert(m.fed(more).wire.skip(cut + t) =~= more.skip(t));
    assert(m.body + (m.wire + more.take(t)) =~= m.body + m.wire + more.take(t));
}

/// A move that goes on, with more bytes behind: the pass ends as it would have from
/// where the move led.
proof fn lemma_move_split(m: BodyModel, more: Seq<u8>, limit: u32, room: nat)
    requires
        chunk_move(m, limit, room).1 is None,
    ensures
        agree(
            chunk_run(m.fed(more), limit, room),
            chunk_run(chunk_move(m, limit, room).0.fed(more), limit, room),
        ),
{
    let next = chunk_move(m, limit, room).0;
    let fed = m.fed(more);
    lemma_line_end(m.wire, 0);
    match m.state {
        ChunkState::Size => {
            let e = line_end(m.wire, 0);
            lemma_line_fed(m.wire, more, 0);
            assert(fed.wire.take(e) =~= m.wire.take(e));
            assert(fed.wire.skip(e + 2) =~= m.wire.skip(e + 2) + more);
            assert(chunk_move(fed, limit, room) == (next.fed(more), None::<BodyStep>));
        },
        ChunkState::Data => {
            if m.remaining == 0 {
                assert(chunk_move(fed, limit, room) == (next.fed(more), None::<BodyStep>));
            } else if m.wire.len() < m.remaining {
                lemma_data_split(m, more);
                let part = next.fed(more);
                assert(next == m.taken(m.wire.len() as int));
                if more.len() == 0 {
                    assert(fed.wire =~= m.wire);
                    assert(fed =~= m);
                    assert(part =~= next);
                    assert(chunk_move(m, limit, room) == (next, None::<BodyStep>));
                } else {
                    assert(chunk_move(fed, limit, room).1 == chunk_move(part, limit, room).1);
                    assert(chunk_move(fed, limit, room).1 is None ==> chunk_move(fed, limit, room)
                        == chunk_move(part, limit, room));
                }
            } else {
                let t = m.remaining as int;
                assert(fed.wire.take(t) =~= m.wire.take(t));
                assert(fed.wire.skip(t) =~= m.wire.skip(t) + more);
                assert(chunk_move(fed, limit, room) == (next.fed(more), None::<BodyStep>));
            }
        },
        ChunkState::LineEnd => {
            assert(fed.wire.skip(2) =~= m.wire.skip(2) + more);
            assert(crlf_at(fed.wire, 0));
            assert(chunk_move(fed, limit, room) == (next.fed(more), None::<BodyStep>));
        },
        ChunkState::Trailer => {
            let e = line_end(m.wire, 0);
            lemma_line_fed(m.wire, more, 0);
            assert(crlf_at(fed.wire, 0) == crlf_at(m.wire, 0));
            assert(fed.wire.skip(e + 2) =~= m.wire.skip(e + 2) + more);
            assert(chunk_move(fed, limit, room) == (next.fed(more), None::<BodyStep>));
        },
    }
}

// ── Chunked bodies read back ────────────────────────────────────────────

/// A hexadecimal digit.
pub open spec fn hex_char(d: nat) -> u8 {
    if d < 10 {
        (0x30 + d) as u8
    } else {
        (0x57 + d) as u8
    }
}

/// The hexadecimal text of `n`.
pub open spec fn hex_text(n: nat) -> Seq<u8>
    decreases n,
{
    if n < 16 {
        seq![hex_char(n)]
    } else {
        hex_text(n / 16).push(hex_char(n % 16))
    }
}

/// One chunk: its size, its data and a line end.
pub open spec fn chunk_bytes(data: Seq<u8>) -> Seq<u8> {
    hex_text(data.len()) + seq![0x0du8, 0x0au8] + data + seq![0x0du8, 0x0au8]
}

/// A chunked body: its chunks, a chunk of no data and an empty trailer section.
pub open spec fn chunked_bytes(chunks: Seq<Seq<u8>>) -> Seq<u8>
    decreases chunks.len(),
{
    if chunks.len() == 0 {
        seq![0x30u8, 0x0du8, 0x0au8, 0x0du8, 0x0au8]
    } else {
        chunk_bytes(chunks[0]) + chunked_bytes(chunks.skip(1))
    }
}

/// The data of all chunks, in order.
pub open spec fn chunk_data(chunks: Seq<Seq<u8>>) -> Seq<u8>
    decreases chunks.len(),
{
    if chunks.len() == 0 {
        Seq::empty()
    } else {
        chunks[0] + chunk_data(chunks.skip(1))
    }
}

/// Hexadecimal text reads back.
proof fn lemma_hex_text(n: nat, k: nat)
    requires
        1 <= k <= 16,
        n < pow16(k),
    ensures
        hex_value(hex_text(n)) == n,
        1 <= hex_text(n).len() <= k,
        forall|i: int|
            0 <= i < hex_text(n).len() ==> is_hex(#[trigger] hex_text(n)[i]) && hex_text(n)[i]
                != 0x0d && hex_text(n)[i] != 0x3b && !is_blank(hex_text(n)[i]),
    decreases n,
{
    reveal_with_fuel(hex_value, 2);
    reveal_with_fuel(pow16, 2);
    if n < 16 {
        assert(hex_text(n).drop_last() =~= Seq::<u8>::empty());
    } else {
        lemma_hex_text(n / 16, (k - 1) as nat);
        assert(hex_text(n).drop_last() =~= hex_text(n / 16));
    }
}

/// A size line in front of anything is read as its size.
proof fn lemma_size_line(n: nat, rest: Seq<u8>)
    requires
        n <= u64::MAX,
    ensures
        ({
            let s = hex_text(n) + seq![0x0du8, 0x0au8] + rest;
            &&& line_end(s, 0) == hex_text(n).len()
            &&& chunk_header_at(s) matches ChunkHeader::Chunk { size, consumed } && size == n
            &&& s.skip(hex_text(n).len() as int + 2) == rest
        }),
{
    assert(pow16(16) == 0x1_0000_0000_0000_0000) by {
        reveal_with_fuel(pow16, 17);
    }
    lemma_hex_text(n, 16);
    let t = hex_text(n);
    let s = t + seq![0x0du8, 0x0au8] + rest;
    let e = t.len() as int;
    lemma_line_end(s, 0);
    assert(crlf_at(s, e));
    let f = line_end(s, 0);
    if f < e {
        assert(s[f] == t[f]);
    }
    assert(s.take(e) =~= t);
    lemma_index_from(t, 0x3b, 0);
    let c = index_from(t, 0x3b, 0);
    if c < e {
        assert(t[c] == 0x3b);
    }
    assert(t.take(e) =~= t);
    assert(!is_blank(t[0]) && !is_blank(t[e - 1]));
    assert(trim_start(t) == t);
    assert(trim_end(t) == t);
    assert(s.skip(e + 2) =~= rest);
}

/// A chunked body reads back: the reader decodes the data of the chunks and leaves
/// what follows the body for the next request.
pub proof fn law_chunked_body_reads_back(
    m: BodyModel,
    chunks: Seq<Seq<u8>>,
    tail: Seq<u8>,
    limit: u32,
    room: nat,
)
    requires
        m.mode is Chunked,
        m.state is Size,
        m.wire == chunked_bytes(chunks) + tail,
        forall|i: int| 0 <= i < chunks.len() ==> (#[trigger] chunks[i]).len() > 0,
        m.body.len() + chunk_data(chunks).len() <= limit,
    ensures
        body_step(m, limit, room) == (
            BodyModel {
                state: ChunkState::Trailer,
                remaining: 0,
                body: m.body + chunk_data(chunks),
                wire: tail,
                ..m
            },
            BodyStep::Done,
        ),
    decreases chunks.len(),
{
    let eol = seq![0x0du8, 0x0au8];
    if chunks.len() == 0 {
        reveal_with_fuel(chunk_run, 3);
        let rest = eol + tail;
        assert(hex_text(0) =~= seq![0x30u8]);
        assert(m.wire =~= hex_text(0) + eol + rest);
        lemma_size_line(0, rest);
        let a = chunk_move(m, limit, room).0;
        assert(a.wire == rest);
        assert(crlf_at(a.wire, 0));
        assert(a.wire.skip(2) =~= tail);
        assert(m.body + Seq::<u8>::empty() =~= m.body);
    } else {
        reveal_with_fuel(chunk_run, 4);
        let d = chunks[0];
        let later = chunks.skip(1);
        let rest = chunked_bytes(later) + tail;
        assert(chunk_data(chunks) =~= d + chunk_data(later));
        assert(m.wire =~= hex_text(d.len()) + eol + (d + eol + rest));
        lemma_size_line(d.len(), d + eol + rest);
        let a = chunk_move(m, limit, room).0;
        assert(a.wire == d + eol + rest);
        assert(a.wire.take(d.len() as int) =~= d);
        assert(a.wire.skip(d.len() as int) =~= eol + rest);
        let b = chunk_move(a, limit, room).0;
        assert(b.wire == eol + rest);
        assert(crlf_at(b.wire, 0));
        assert(b.wire.skip(2) =~= rest);
        let c = chunk_move(b, limit, room).0;
        assert(c.body =~= m.body + d);
        law_chunked_body_reads_back(c, later, tail, limit, room);
        assert(m.body + d + chunk_data(later) =~= m.body + chunk_data(chunks));
    }
}

} // verus!
