//! HTTP/3 egress: staging the next record for the transport, and committing it.
//!
//! Egress is two steps, because a transport that reports room may still refuse a whole
//! record. Staging writes a record and says what accepting it would settle; nothing
//! moves until that is committed. A refused record is staged again as it was.
//!
//! Session work goes first, then resets, then closes, then response bytes. Until a
//! session's preamble has been handed over nothing else goes out on it, so no response
//! precedes its SETTINGS.

use crate::bytes::{copy_into, extend, le16, le32, le64, splice};
use crate::h3::{
    H3Model, H3Session, H3State, LocalUni, LocalUniState, SessionModel, SlotModel,
    MAX_H3_SESSIONS, MAX_H3_STREAMS,
};
use crate::h3_control::{
    build_local_settings, local_settings_frame, preamble_done, uni_settled,
};
use crate::h3_pump::{live_stream, session_has_live_stream};
use crate::h3_tables::{session_of, session_slot};
use crate::h3_wire::{frame_bytes, frame_header_vec, H3_FRAME_GOAWAY};
use crate::mux::{
    CMD_MUX_SESSION_CLOSE, CMD_MUX_STREAM_CLOSE, CMD_MUX_STREAM_OPEN, CMD_MUX_STREAM_RESET,
    CMD_MUX_STREAM_SEND, FRAME_HDR, MUX_QUIC_STREAM_SEND_MAX, STATUS_OK, STATUS_PROTOCOL_ERROR,
    STREAM_DATA_PREFIX, STREAM_FLAG_UNI,
};
use crate::varint::{varint_bytes, varint_vec, VARINT_MAX};
use vstd::prelude::*;
use vstd::slice::slice_subrange;

verus! {

/// What accepting a staged session record settles.
#[derive(Clone, Copy, PartialEq, Eq, Structural, Debug)]
pub enum SessCommit {
    /// The close carrying the connection error has gone out.
    ConnError,
    /// The open of this preamble stream is outstanding: 0 control, 1 encoder, 2 decoder.
    UniOpening(u8),
    /// The preamble of this stream has gone out.
    UniReady(u8),
    /// The GOAWAY has gone out.
    GoawaySent,
    /// The close has gone out; the session is over.
    Closed,
}

/// What accepting a staged record settles.
#[derive(Clone, Copy, PartialEq, Eq, Structural, Debug)]
pub enum H3Commit {
    /// A record of the session at this index.
    Session(usize, SessCommit),
    /// The slot's reset has gone out.
    ResetSent(usize),
    /// The slot's close has gone out.
    CloseSent(usize),
    /// `take` response bytes have gone out; `last` when none are left.
    DataSent { idx: usize, take: usize, last: bool },
}

// ── Records ─────────────────────────────────────────────────────────────

/// A transport record. Its length field holds the low sixteen bits of the length.
pub open spec fn record(cmd: u8, payload: Seq<u8>) -> Seq<u8> {
    seq![cmd] + le16((payload.len() % 0x1_0000) as u16) + payload
}

/// The prefix of a stream record's payload.
pub open spec fn stream_prefix(session: u32, handle: u32) -> Seq<u8> {
    le32(session) + le32(handle)
}

fn le16_vec(v: u16) -> (r: Vec<u8>)
    ensures
        r@ == le16(v),
{
    vec![(v % 256) as u8, (v / 256) as u8]
}

fn le32_vec(v: u32) -> (r: Vec<u8>)
    ensures
        r@ == le32(v),
        r@.len() == 4,
{
    vec![
        (v % 256) as u8,
        (v / 0x100 % 256) as u8,
        (v / 0x1_0000 % 256) as u8,
        (v / 0x100_0000) as u8,
    ]
}

fn le64_vec(v: u64) -> (r: Vec<u8>)
    ensures
        r@ == le64(v),
        r@.len() == 8,
{
    let mut out: Vec<u8> = le32_vec((v % 0x1_0000_0000) as u32);
    extend(&mut out, le32_vec((v / 0x1_0000_0000) as u32).as_slice());
    out
}

fn record_vec(cmd: u8, payload: &[u8]) -> (r: Vec<u8>)
    ensures
        r@ == record(cmd, payload@),
        r@.len() == FRAME_HDR + payload@.len(),
{
    let mut out: Vec<u8> = vec![cmd];
    extend(&mut out, le16_vec((payload.len() % 0x1_0000) as u16).as_slice());
    extend(&mut out, payload);
    assert(out@ =~= record(cmd, payload@));
    out
}

fn prefix_vec(session: u32, handle: u32) -> (r: Vec<u8>)
    ensures
        r@ == stream_prefix(session, handle),
        r@.len() == STREAM_DATA_PREFIX,
{
    let mut out: Vec<u8> = le32_vec(session);
    extend(&mut out, le32_vec(handle).as_slice());
    out
}

/// A record, if it fits.
pub open spec fn fitting<C>(bytes: Seq<u8>, what: C, cap: int) -> Option<(Seq<u8>, C)> {
    if bytes.len() <= cap {
        Some((bytes, what))
    } else {
        None
    }
}

// ── The preamble ────────────────────────────────────────────────────────

/// A session close with an application error code.
pub open spec fn close_record(session: u32, status: u8, code: u64) -> Seq<u8> {
    record(CMD_MUX_SESSION_CLOSE, le32(session) + seq![status] + le64(code))
}

/// What one of our streams owes: its open, or its type and, on the control stream, our
/// SETTINGS.
pub open spec fn uni_record(s: SessionModel, u: LocalUni, which: u8, cap: int) -> Option<
    (Seq<u8>, SessCommit),
> {
    if u.state is Idle {
        fitting(
            record(CMD_MUX_STREAM_OPEN, le32(s.session_id) + seq![STREAM_FLAG_UNI]),
            SessCommit::UniOpening(which),
            cap,
        )
    } else if u.state is Open && u.stream_type <= VARINT_MAX {
        fitting(
            record(
                CMD_MUX_STREAM_SEND,
                stream_prefix(s.session_id, u.handle) + varint_bytes(u.stream_type) + if which == 0 {
                    local_settings_frame()
                } else {
                    Seq::empty()
                },
            ),
            SessCommit::UniReady(which),
            cap,
        )
    } else {
        None
    }
}

/// What a session owes before any request traffic. A connection error comes before
/// everything; then control, encoder and decoder stream in turn, one open outstanding at
/// a time.
pub open spec fn preamble_record(s: SessionModel, cap: int) -> Option<(Seq<u8>, SessCommit)> {
    if s.conn_error_pending {
        fitting(
            close_record(s.session_id, STATUS_PROTOCOL_ERROR, s.conn_error),
            SessCommit::ConnError,
            cap,
        )
    } else if !uni_settled(s.ctrl) {
        uni_record(s, s.ctrl, 0, cap)
    } else if !uni_settled(s.qpack_enc) {
        uni_record(s, s.qpack_enc, 1, cap)
    } else if !uni_settled(s.qpack_dec) {
        uni_record(s, s.qpack_dec, 2, cap)
    } else {
        None
    }
}

/// While one of our opens is unanswered and no error is owed, the session stages no
/// other open.
pub proof fn law_one_open_at_a_time(s: SessionModel, cap: int)
    requires
        s.ctrl.state is Opening || (uni_settled(s.ctrl) && s.qpack_enc.state is Opening) || (
        uni_settled(s.ctrl) && uni_settled(s.qpack_enc) && s.qpack_dec.state is Opening),
        !s.conn_error_pending,
    ensures
        preamble_record(s, cap) is None,
{
}

fn close_vec(session: u32, status: u8, code: u64) -> (r: Vec<u8>)
    ensures
        r@ == close_record(session, status, code),
        r@.len() == 16,
{
    let mut p: Vec<u8> = le32_vec(session);
    p.push(status);
    extend(&mut p, le64_vec(code).as_slice());
    assert(p@ =~= le32(session) + seq![status] + le64(code));
    record_vec(CMD_MUX_SESSION_CLOSE, p.as_slice())
}

fn uni_out(session: u32, u: LocalUni, which: u8, cap: usize, Ghost(s): Ghost<SessionModel>) -> (r:
    Option<(Vec<u8>, SessCommit)>)
    requires
        s.session_id == session,
    ensures
        match r {
            Some((v, c)) => uni_record(s, u, which, cap as int) == Some((v@, c)),
            None => uni_record(s, u, which, cap as int) is None,
        },
{
    match u.state {
        LocalUniState::Idle => {
            let mut p: Vec<u8> = le32_vec(session);
            p.push(STREAM_FLAG_UNI);
            assert(p@ =~= le32(session) + seq![STREAM_FLAG_UNI]);
            let v: Vec<u8> = record_vec(CMD_MUX_STREAM_OPEN, p.as_slice());
            if v.len() > cap {
                return None;
            }
            Some((v, SessCommit::UniOpening(which)))
        },
        LocalUniState::Open => {
            if u.stream_type > VARINT_MAX {
                return None;
            }
            let mut p: Vec<u8> = prefix_vec(session, u.handle);
            extend(&mut p, varint_vec(u.stream_type).as_slice());
            if which == 0 {
                extend(&mut p, build_local_settings().as_slice());
            } else {
                assert(p@ =~= p@ + Seq::<u8>::empty());
            }
            let v: Vec<u8> = record_vec(CMD_MUX_STREAM_SEND, p.as_slice());
            if v.len() > cap {
                return None;
            }
            Some((v, SessCommit::UniReady(which)))
        },
        _ => None,
    }
}

fn settled(u: LocalUni) -> (r: bool)
    ensures
        r == uni_settled(u),
{
    u.state == LocalUniState::Ready || u.state == LocalUniState::Refused
}

fn preamble_vec(sess: &H3Session, cap: usize) -> (r: Option<(Vec<u8>, SessCommit)>)
    ensures
        match r {
            Some((v, c)) => preamble_record(sess@, cap as int) == Some((v@, c)),
            None => preamble_record(sess@, cap as int) is None,
        },
{
    let session: u32 = sess.session_id;
    if sess.conn_error_pending {
        let v: Vec<u8> = close_vec(session, STATUS_PROTOCOL_ERROR, sess.conn_error);
        if v.len() > cap {
            return None;
        }
        return Some((v, SessCommit::ConnError));
    }
    if !settled(sess.ctrl) {
        return uni_out(session, sess.ctrl, 0, cap, Ghost(sess@));
    }
    if !settled(sess.qpack_enc) {
        return uni_out(session, sess.qpack_enc, 1, cap, Ghost(sess@));
    }
    if !settled(sess.qpack_dec) {
        return uni_out(session, sess.qpack_dec, 2, cap, Ghost(sess@));
    }
    None
}

/// Stage what a session owes before any request traffic.
pub fn session_preamble_out(sess: &H3Session, out: &mut [u8]) -> (r: Option<(usize, SessCommit)>)
    ensures
        match preamble_record(sess@, old(out)@.len() as int) {
            Some((b, c)) => r == Some((b.len() as usize, c)) && final(out)@ == splice(
                old(out)@,
                0,
                b,
            ),
            None => r is None && final(out)@ == old(out)@,
        },
{
    match preamble_vec(sess, out.len()) {
        Some((v, c)) => {
            copy_into(out, 0, v.as_slice());
            Some((v.len(), c))
        },
        None => None,
    }
}

// ── The drain ───────────────────────────────────────────────────────────

/// What a draining session owes: GOAWAY, then its close. Without a control stream, or
/// after an error, there is only the close.
pub open spec fn drain_record(s: SessionModel, cap: int) -> Option<(Seq<u8>, SessCommit)> {
    if !s.goaway_sent && s.ctrl.state is Ready && s.conn_error == 0 {
        if s.goaway_id > VARINT_MAX {
            None
        } else {
            fitting(
                record(
                    CMD_MUX_STREAM_SEND,
                    stream_prefix(s.session_id, s.ctrl.handle) + frame_bytes(
                        H3_FRAME_GOAWAY,
                        varint_bytes(s.goaway_id),
                    ),
                ),
                SessCommit::GoawaySent,
                cap,
            )
        }
    } else {
        fitting(close_record(s.session_id, STATUS_OK, 0), SessCommit::Closed, cap)
    }
}

/// A draining session with a control stream is never closed before its GOAWAY went out.
pub proof fn law_goaway_precedes_close(s: SessionModel, cap: int)
    requires
        s.ctrl.state is Ready,
        s.conn_error == 0,
        !s.goaway_sent,
    ensures
        drain_record(s, cap) matches Some((_, c)) ==> c is GoawaySent,
{
}

fn drain_vec(sess: &H3Session, cap: usize) -> (r: Option<(Vec<u8>, SessCommit)>)
    ensures
        match r {
            Some((v, c)) => drain_record(sess@, cap as int) == Some((v@, c)),
            None => drain_record(sess@, cap as int) is None,
        },
{
    if !sess.goaway_sent && sess.ctrl.state == LocalUniState::Ready && sess.conn_error == 0 {
        if sess.goaway_id > VARINT_MAX {
            return None;
        }
        let id: Vec<u8> = varint_vec(sess.goaway_id);
        let mut f: Vec<u8> = frame_header_vec(H3_FRAME_GOAWAY, id.len() as u64);
        extend(&mut f, id.as_slice());
        assert(f@ == frame_bytes(H3_FRAME_GOAWAY, id@));
        let mut p: Vec<u8> = prefix_vec(sess.session_id, sess.ctrl.handle);
        extend(&mut p, f.as_slice());
        let v: Vec<u8> = record_vec(CMD_MUX_STREAM_SEND, p.as_slice());
        if v.len() > cap {
            return None;
        }
        return Some((v, SessCommit::GoawaySent));
    }
    let v: Vec<u8> = close_vec(sess.session_id, STATUS_OK, 0);
    if v.len() > cap {
        return None;
    }
    Some((v, SessCommit::Closed))
}

/// Stage what a draining session owes.
pub fn session_drain_out(sess: &H3Session, out: &mut [u8]) -> (r: Option<(usize, SessCommit)>)
    ensures
        match drain_record(sess@, old(out)@.len() as int) {
            Some((b, c)) => r == Some((b.len() as usize, c)) && final(out)@ == splice(
                old(out)@,
                0,
                b,
            ),
            None => r is None && final(out)@ == old(out)@,
        },
{
    match drain_vec(sess, out.len()) {
        Some((v, c)) => {
            copy_into(out, 0, v.as_slice());
            Some((v.len(), c))
        },
        None => None,
    }
}

/// What session `si` owes.
pub open spec fn session_record(m: H3Model, si: int, cap: int) -> Option<(Seq<u8>, SessCommit)> {
    let s = m.sessions[si];
    let live = live_stream(m.slots, s.session_id);
    if !s.allocated || !s.is_h3 {
        None
    } else if (!m.draining || live || s.conn_error_pending) && preamble_record(s, cap) is Some {
        preamble_record(s, cap)
    } else if m.draining && !live {
        drain_record(s, cap)
    } else {
        None
    }
}

/// The first session record from the cursor on, `step` sessions behind it.
pub open spec fn next_session_record(m: H3Model, step: int, cap: int) -> Option<
    (Seq<u8>, H3Commit),
>
    decreases MAX_H3_SESSIONS - step,
{
    if step < 0 || step >= MAX_H3_SESSIONS {
        None
    } else {
        let si = (m.sess_cursor as int + step) % (MAX_H3_SESSIONS as int);
        match session_record(m, si, cap) {
            Some((b, c)) => Some((b, H3Commit::Session(si as usize, c))),
            None => next_session_record(m, step + 1, cap),
        }
    }
}

fn session_next_vec(st: &H3State, cap: usize) -> (r: Option<(Vec<u8>, H3Commit)>)
    ensures
        match r {
            Some((v, c)) => next_session_record(st@, 0, cap as int) == Some((v@, c)),
            None => next_session_record(st@, 0, cap as int) is None,
        },
{
    let mut step: usize = 0;
    while step < MAX_H3_SESSIONS
        invariant
            step <= MAX_H3_SESSIONS,
            next_session_record(st@, step as int, cap as int) == next_session_record(
                st@,
                0,
                cap as int,
            ),
        decreases MAX_H3_SESSIONS - step,
    {
        let si: usize = (st.sess_cursor as usize + step) % MAX_H3_SESSIONS;
        assert(st@.sessions[si as int] == st.sessions@[si as int]@);
        if st.sessions[si].allocated && st.sessions[si].is_h3 {
            let live: bool = session_has_live_stream(st, si);
            if !st.draining || live || st.sessions[si].conn_error_pending {
                if let Some((v, c)) = preamble_vec(&st.sessions[si], cap) {
                    return Some((v, H3Commit::Session(si, c)));
                }
            }
            if st.draining && !live {
                if let Some((v, c)) = drain_vec(&st.sessions[si], cap) {
                    return Some((v, H3Commit::Session(si, c)));
                }
            }
        }
        step += 1;
    }
    None
}

// ── Streams ─────────────────────────────────────────────────────────────

/// What a stream can owe.
#[derive(Clone, Copy, PartialEq, Eq, Structural)]
pub enum Owed {
    Reset,
    Close,
    Data,
}

/// Whether stream traffic may go out on a session: not before its preamble has been
/// handed over.
pub open spec fn session_ready(m: H3Model, session: u32) -> bool {
    let si = session_of(m.sessions, session, 0);
    si < m.sessions.len() && m.sessions[si].is_h3 ==> uni_settled(m.sessions[si].ctrl)
        && uni_settled(m.sessions[si].qpack_enc) && uni_settled(m.sessions[si].qpack_dec)
}

/// Whether slot `i` owes this and may send it.
pub open spec fn owes(m: H3Model, i: int, kind: Owed) -> bool {
    let s = m.slots[i];
    session_ready(m, s.session_id) && match kind {
        Owed::Reset => s.allocated && s.reset_code != 0,
        Owed::Close => s.close_pending && s.pending() == 0,
        Owed::Data => s.pending() > 0,
    }
}

/// The first slot from the cursor on, `step` slots behind it, that owes this.
pub open spec fn next_owing(m: H3Model, kind: Owed, step: int) -> Option<int>
    decreases MAX_H3_STREAMS - step,
{
    if step < 0 || step >= MAX_H3_STREAMS {
        None
    } else {
        let i = (m.emit_cursor as int + step) % (MAX_H3_STREAMS as int);
        if owes(m, i, kind) {
            Some(i)
        } else {
            next_owing(m, kind, step + 1)
        }
    }
}

/// The transport's handle of a slot's stream.
pub open spec fn handle_of(s: SlotModel) -> u32 {
    (s.stream_id % 0x1_0000_0000) as u32
}

pub open spec fn min(a: int, b: int) -> int {
    if a < b {
        a
    } else {
        b
    }
}

/// How many of a slot's bytes one record takes.
pub open spec fn data_take(s: SlotModel, cap: int) -> int {
    min(s.pending(), min(cap - (FRAME_HDR + STREAM_DATA_PREFIX), MUX_QUIC_STREAM_SEND_MAX as int))
}

/// The record that sends what slot `i` owes.
pub open spec fn stream_record(m: H3Model, i: int, kind: Owed, cap: int) -> Option<
    (Seq<u8>, H3Commit),
> {
    let s = m.slots[i];
    let prefix = stream_prefix(s.session_id, handle_of(s));
    match kind {
        Owed::Reset => fitting(
            record(CMD_MUX_STREAM_RESET, prefix + le64(s.reset_code)),
            H3Commit::ResetSent(i as usize),
            cap,
        ),
        Owed::Close => fitting(
            record(CMD_MUX_STREAM_CLOSE, prefix + seq![STATUS_OK]),
            H3Commit::CloseSent(i as usize),
            cap,
        ),
        Owed::Data => {
            let take = data_take(s, cap);
            Some(
                (
                    record(
                        CMD_MUX_STREAM_SEND,
                        prefix + s.send.subrange(s.send_off, s.send_off + take),
                    ),
                    H3Commit::DataSent {
                        idx: i as usize,
                        take: take as usize,
                        last: take == s.pending(),
                    },
                ),
            )
        },
    }
}

/// The next record of the state, in `cap` bytes.
pub open spec fn staged(m: H3Model, cap: int) -> Option<(Seq<u8>, H3Commit)> {
    if cap <= FRAME_HDR + STREAM_DATA_PREFIX {
        None
    } else if next_session_record(m, 0, cap) is Some {
        next_session_record(m, 0, cap)
    } else {
        match next_owing(m, Owed::Reset, 0) {
            Some(i) => stream_record(m, i, Owed::Reset, cap),
            None => match next_owing(m, Owed::Close, 0) {
                Some(i) => stream_record(m, i, Owed::Close, cap),
                None => match next_owing(m, Owed::Data, 0) {
                    Some(i) => stream_record(m, i, Owed::Data, cap),
                    None => None,
                },
            },
        }
    }
}

pub proof fn lemma_next_owing(m: H3Model, kind: Owed, step: int)
    requires
        0 <= step <= MAX_H3_STREAMS,
    ensures
        next_owing(m, kind, step) matches Some(i) ==> 0 <= i < MAX_H3_STREAMS && owes(m, i, kind),
    decreases MAX_H3_STREAMS - step,
{
    if step < MAX_H3_STREAMS {
        lemma_next_owing(m, kind, step + 1);
    }
}

fn slot_owes(st: &H3State, i: usize, kind: Owed) -> (r: bool)
    requires
        i < MAX_H3_STREAMS,
    ensures
        r == owes(st@, i as int, kind),
{
    assert(st@.slots[i as int] == st.slots@[i as int]@);
    let ready: bool = match session_slot(st, st.slots[i].session_id) {
        Some(si) => {
            assert(st@.sessions[si as int] == st.sessions@[si as int]@);
            !st.sessions[si].is_h3 || preamble_done(&st.sessions[si])
        },
        None => true,
    };
    ready && match kind {
        Owed::Reset => st.slots[i].allocated && st.slots[i].reset_code != 0,
        Owed::Close => st.slots[i].close_pending && st.slots[i].pending_out() == 0,
        Owed::Data => st.slots[i].pending_out() > 0,
    }
}

fn find_owing(st: &H3State, kind: Owed) -> (r: Option<usize>)
    ensures
        match r {
            Some(i) => i < MAX_H3_STREAMS && next_owing(st@, kind, 0) == Some(i as int) && owes(
                st@,
                i as int,
                kind,
            ),
            None => next_owing(st@, kind, 0) is None,
        },
{
    let mut step: usize = 0;
    while step < MAX_H3_STREAMS
        invariant
            step <= MAX_H3_STREAMS,
            next_owing(st@, kind, step as int) == next_owing(st@, kind, 0),
        decreases MAX_H3_STREAMS - step,
    {
        let i: usize = (st.emit_cursor as usize + step) % MAX_H3_STREAMS;
        if slot_owes(st, i, kind) {
            return Some(i);
        }
        step += 1;
    }
    None
}

fn stream_vec(st: &H3State, i: usize, kind: Owed, cap: usize) -> (r: Option<(Vec<u8>, H3Commit)>)
    requires
        i < MAX_H3_STREAMS,
        st@.wf(),
        cap > FRAME_HDR + STREAM_DATA_PREFIX,
        owes(st@, i as int, kind),
    ensures
        match r {
            Some((v, c)) => stream_record(st@, i as int, kind, cap as int) == Some((v@, c))
                && v@.len() <= cap,
            None => stream_record(st@, i as int, kind, cap as int) is None,
        },
{
    assert(st@.slots[i as int] == st.slots@[i as int]@);
    assert(st@.slots[i as int].wf());
    let session: u32 = st.slots[i].session_id;
    let handle: u32 = (st.slots[i].stream_id % 0x1_0000_0000) as u32;
    let mut p: Vec<u8> = prefix_vec(session, handle);
    match kind {
        Owed::Reset => {
            extend(&mut p, le64_vec(st.slots[i].reset_code).as_slice());
            let v: Vec<u8> = record_vec(CMD_MUX_STREAM_RESET, p.as_slice());
            if v.len() > cap {
                return None;
            }
            Some((v, H3Commit::ResetSent(i)))
        },
        Owed::Close => {
            let ghost before = p@;
            p.push(STATUS_OK);
            assert(p@ =~= before + seq![STATUS_OK]);
            let v: Vec<u8> = record_vec(CMD_MUX_STREAM_CLOSE, p.as_slice());
            if v.len() > cap {
                return None;
            }
            Some((v, H3Commit::CloseSent(i)))
        },
        Owed::Data => {
            let pending: usize = st.slots[i].pending_out();
            let room: usize = cap - (FRAME_HDR + STREAM_DATA_PREFIX);
            let most: usize = if room < MUX_QUIC_STREAM_SEND_MAX {
                room
            } else {
                MUX_QUIC_STREAM_SEND_MAX
            };
            let take: usize = if pending < most {
                pending
            } else {
                most
            };
            let from: usize = st.slots[i].send_off;
            let chunk = slice_subrange(st.slots[i].send_buf.as_slice(), from, from + take);
            extend(&mut p, chunk);
            let v: Vec<u8> = record_vec(CMD_MUX_STREAM_SEND, p.as_slice());
            Some((v, H3Commit::DataSent { idx: i, take, last: take == pending }))
        },
    }
}

fn stage_vec(st: &H3State, cap: usize) -> (r: Option<(Vec<u8>, H3Commit)>)
    requires
        st@.wf(),
    ensures
        match r {
            Some((v, c)) => staged(st@, cap as int) == Some((v@, c)) && v@.len() <= cap,
            None => staged(st@, cap as int) is None,
        },
{
    if cap <= FRAME_HDR + STREAM_DATA_PREFIX {
        return None;
    }
    proof {
        lemma_session_records_fit(st@, 0, cap as int);
    }
    if let Some((v, c)) = session_next_vec(st, cap) {
        return Some((v, c));
    }
    if let Some(i) = find_owing(st, Owed::Reset) {
        return stream_vec(st, i, Owed::Reset, cap);
    }
    if let Some(i) = find_owing(st, Owed::Close) {
        return stream_vec(st, i, Owed::Close, cap);
    }
    if let Some(i) = find_owing(st, Owed::Data) {
        return stream_vec(st, i, Owed::Data, cap);
    }
    None
}

proof fn lemma_session_records_fit(m: H3Model, step: int, cap: int)
    requires
        0 <= step <= MAX_H3_SESSIONS,
    ensures
        next_session_record(m, step, cap) matches Some((b, _)) ==> b.len() <= cap,
    decreases MAX_H3_SESSIONS - step,
{
    if step < MAX_H3_SESSIONS {
        lemma_session_records_fit(m, step + 1, cap);
    }
}

/// Stage the next record at the front of `out`. Nothing moves: the same state stages the
/// same record again.
pub fn stage_next_out(st: &H3State, out: &mut [u8]) -> (r: Option<(usize, H3Commit)>)
    requires
        st@.wf(),
    ensures
        match staged(st@, old(out)@.len() as int) {
            Some((b, c)) => r == Some((b.len() as usize, c)) && final(out)@ == splice(
                old(out)@,
                0,
                b,
            ) && b.len() <= old(out)@.len(),
            None => r is None && final(out)@ == old(out)@,
        },
{
    match stage_vec(st, out.len()) {
        Some((v, c)) => {
            copy_into(out, 0, v.as_slice());
            Some((v.len(), c))
        },
        None => None,
    }
}

// ── Committing ──────────────────────────────────────────────────────────

/// A session with one of its streams moved on: 0 control, 1 encoder, else decoder.
pub open spec fn uni_moved(s: SessionModel, which: u8, state: LocalUniState) -> SessionModel {
    if which == 0 {
        SessionModel { ctrl: LocalUni { state, ..s.ctrl }, ..s }
    } else if which == 1 {
        SessionModel { qpack_enc: LocalUni { state, ..s.qpack_enc }, ..s }
    } else {
        SessionModel { qpack_dec: LocalUni { state, ..s.qpack_dec }, ..s }
    }
}

/// A session once a record of it has been taken.
pub open spec fn session_committed(s: SessionModel, what: SessCommit) -> SessionModel {
    match what {
        SessCommit::ConnError => SessionModel { conn_error_pending: false, ..s },
        SessCommit::UniOpening(w) => uni_moved(s, w, LocalUniState::Opening),
        SessCommit::UniReady(w) => SessionModel {
            settings_sent: s.settings_sent || w == 0,
            ..uni_moved(s, w, LocalUniState::Ready)
        },
        SessCommit::GoawaySent => SessionModel { goaway_sent: true, ..s },
        SessCommit::Closed => SessionModel::fresh(),
    }
}

/// A slot once `take` of its bytes have been taken. Emptied, a tunnel starts over; a
/// response leaves its close owed.
pub open spec fn slot_sent(s: SlotModel, take: int, last: bool) -> SlotModel {
    if !last {
        SlotModel { send_off: s.send_off + take, ..s }
    } else if s.ws_active {
        SlotModel { send: Seq::empty(), send_off: 0, ..s }
    } else {
        SlotModel { send_off: s.send_off + take, close_pending: true, ..s }
    }
}

/// The state once a record has been taken.
pub open spec fn committed(m: H3Model, what: H3Commit) -> H3Model {
    match what {
        H3Commit::Session(si, w) => H3Model {
            sess_cursor: ((si + 1) % (MAX_H3_SESSIONS as int)) as u8,
            ..m.with_session(si as int, session_committed(m.sessions[si as int], w))
        },
        H3Commit::ResetSent(i) | H3Commit::CloseSent(i) => H3Model {
            emit_cursor: ((i + 1) % (MAX_H3_STREAMS as int)) as u8,
            ..m.with_slot(i as int, m.slots[i as int].released())
        },
        H3Commit::DataSent { idx, take, last } => H3Model {
            emit_cursor: ((idx + 1) % (MAX_H3_STREAMS as int)) as u8,
            ..m.with_slot(idx as int, slot_sent(m.slots[idx as int], take as int, last))
        },
    }
}

#[verifier::rlimit(40)]
fn move_uni(sess: &mut H3Session, which: u8, state: LocalUniState)
    ensures
        final(sess)@ == uni_moved(old(sess)@, which, state),
{
    let ghost want = uni_moved(sess@, which, state);
    if which == 0 {
        sess.ctrl.state = state;
    } else if which == 1 {
        sess.qpack_enc.state = state;
    } else {
        sess.qpack_dec.state = state;
    }
    assert(sess@.peer_uni =~= want.peer_uni);
    assert(sess@ =~= want);
}

fn ready_uni(sess: &mut H3Session, which: u8)
    ensures
        final(sess)@ == session_committed(old(sess)@, SessCommit::UniReady(which)),
{
    move_uni(sess, which, LocalUniState::Ready);
    if which == 0 {
        sess.settings_sent = true;
    }
}

/// Apply a session commit once the transport has taken the record whole.
pub fn commit_session(sess: &mut H3Session, what: SessCommit)
    ensures
        final(sess)@ == session_committed(old(sess)@, what),
{
    match what {
        SessCommit::ConnError => {
            sess.conn_error_pending = false;
        },
        SessCommit::UniOpening(which) => move_uni(sess, which, LocalUniState::Opening),
        SessCommit::UniReady(which) => ready_uni(sess, which),
        SessCommit::GoawaySent => {
            sess.goaway_sent = true;
        },
        SessCommit::Closed => sess.release(),
    }
}

#[verifier::rlimit(40)]
pub proof fn lemma_session_committed_wf(s: SessionModel, what: SessCommit)
    requires
        s.wf(),
    ensures
        session_committed(s, what).wf(),
{
    crate::varint::lemma_varint_bounds(Seq::empty());
}

impl crate::h3::H3StreamSlot {
    fn sent(&mut self, take: usize, last: bool)
        requires
            old(self).send_off + take <= usize::MAX,
        ensures
            final(self)@ == slot_sent(old(self)@, take as int, last),
    {
        let ghost want = slot_sent(self@, take as int, last);
        self.send_off = self.send_off + take;
        if last {
            if self.ws_active {
                self.send_buf = Vec::new();
                self.send_off = 0;
                assert(self.send_buf@ =~= Seq::empty());
            } else {
                self.close_pending = true;
            }
        }
        assert(self@ =~= want);
    }
}

/// Whether a commit names entries that exist and bytes that are there.
pub open spec fn commit_legal(m: H3Model, what: H3Commit) -> bool {
    match what {
        H3Commit::Session(si, _) => si < MAX_H3_SESSIONS,
        H3Commit::ResetSent(i) | H3Commit::CloseSent(i) => i < MAX_H3_STREAMS,
        H3Commit::DataSent { idx, take, last } => idx < MAX_H3_STREAMS && take
            <= m.slots[idx as int].pending(),
    }
}

/// Apply a commit once the transport has taken the record whole.
pub fn commit_out(st: &mut H3State, what: H3Commit)
    requires
        old(st)@.wf(),
        commit_legal(old(st)@, what),
    ensures
        final(st)@ == committed(old(st)@, what),
        final(st)@.wf(),
{
    let ghost first = *st;
    let ghost want = committed(first@, what);
    match what {
        H3Commit::Session(si, w) => {
            assert(first@.sessions[si as int] == first.sessions@[si as int]@);
            assert(first@.sessions[si as int].wf());
            commit_session(&mut st.sessions[si], w);
            proof {
                lemma_session_committed_wf(first@.sessions[si as int], w);
            }
            st.sess_cursor = ((si + 1) % MAX_H3_SESSIONS) as u8;
            assert(st@.sessions =~= want.sessions);
            assert(st@.slots =~= want.slots);
        },
        H3Commit::ResetSent(i) | H3Commit::CloseSent(i) => {
            assert(first@.slots[i as int] == first.slots@[i as int]@);
            st.slots[i].release();
            st.emit_cursor = ((i + 1) % MAX_H3_STREAMS) as u8;
            assert(st@.slots =~= want.slots);
            assert(st@.sessions =~= want.sessions);
        },
        H3Commit::DataSent { idx, take, last } => {
            assert(first@.slots[idx as int] == first.slots@[idx as int]@);
            assert(first@.slots[idx as int].wf());
            st.slots[idx].sent(take, last);
            st.emit_cursor = ((idx + 1) % MAX_H3_STREAMS) as u8;
            assert(st@.slots =~= want.slots);
            assert(st@.sessions =~= want.sessions);
        },
    }
    assert(st@ =~= want);
    assert forall|k: int| 0 <= k < MAX_H3_STREAMS implies (#[trigger] st@.slots[k]).wf() by {
        assert(first@.slots[k].wf());
    }
    assert forall|k: int| 0 <= k < MAX_H3_SESSIONS implies (#[trigger] st@.sessions[k]).wf() by {
        assert(first@.sessions[k].wf());
    }
}

/// A staged record can be committed.
pub proof fn law_staged_is_committable(m: H3Model, cap: int)
    requires
        m.wf(),
    ensures
        staged(m, cap) matches Some((_, c)) ==> commit_legal(m, c),
{
    lemma_session_commit_index(m, 0, cap);
    lemma_next_owing(m, Owed::Reset, 0);
    lemma_next_owing(m, Owed::Close, 0);
    lemma_next_owing(m, Owed::Data, 0);
}

pub proof fn lemma_session_commit_index(m: H3Model, step: int, cap: int)
    requires
        0 <= step <= MAX_H3_SESSIONS,
    ensures
        next_session_record(m, step, cap) matches Some((_, c)) ==> (c matches H3Commit::Session(
            si,
            _,
        ) && si < MAX_H3_SESSIONS),
    decreases MAX_H3_SESSIONS - step,
{
    if step < MAX_H3_SESSIONS {
        lemma_session_commit_index(m, step + 1, cap);
    }
}

/// Stage the next record and commit it at once, for a sink that cannot refuse.
pub fn pump_next_out(st: &mut H3State, out: &mut [u8]) -> (r: Option<usize>)
    requires
        old(st)@.wf(),
    ensures
        match staged(old(st)@, old(out)@.len() as int) {
            Some((b, c)) => r == Some(b.len() as usize) && final(st)@ == committed(old(st)@, c)
                && final(out)@ == splice(old(out)@, 0, b),
            None => r is None && final(st)@ == old(st)@ && final(out)@ == old(out)@,
        },
        final(st)@.wf(),
{
    proof {
        law_staged_is_committable(st@, out@.len() as int);
    }
    match stage_next_out(st, out) {
        Some((n, c)) => {
            commit_out(st, c);
            Some(n)
        },
        None => None,
    }
}

// ── What egress promises ────────────────────────────────────────────────

/// The response bytes a slot still holds for the transport.
pub open spec fn unsent(s: SlotModel) -> Seq<u8> {
    s.send.skip(s.send_off)
}

/// What sending a chunk of slot `i` promises.
pub open spec fn chunk_sent_right(m: H3Model, b: Seq<u8>, i: int, take: usize, last: bool) -> bool {
    let s = m.slots[i];
    let n = committed(m, H3Commit::DataSent { idx: i as usize, take, last });
    &&& take > 0
    &&& b == record(
        CMD_MUX_STREAM_SEND,
        stream_prefix(s.session_id, handle_of(s)) + unsent(s).take(take as int),
    )
    &&& unsent(n.slots[i]) == unsent(s).skip(take as int)
    &&& last == (unsent(n.slots[i]).len() == 0)
    &&& forall|k: int| 0 <= k < MAX_H3_STREAMS && k != i ==> #[trigger] n.slots[k] == m.slots[k]
    &&& n.sessions == m.sessions
}

proof fn lemma_chunk_sent_right(m: H3Model, i: int, cap: int)
    requires
        m.wf(),
        0 <= i < MAX_H3_STREAMS,
        m.slots[i].pending() > 0,
        cap > FRAME_HDR + STREAM_DATA_PREFIX,
    ensures
        stream_record(m, i, Owed::Data, cap) matches Some((b, H3Commit::DataSent { idx, take, last }))
            && idx == i && chunk_sent_right(m, b, i, take, last),
{
    let s = m.slots[i];
    assert(s.wf());
    let take = data_take(s, cap);
    assert(s.send.subrange(s.send_off, s.send_off + take) =~= unsent(s).take(take));
    let last = take == s.pending();
    let t = slot_sent(s, take, last);
    assert(unsent(t) =~= unsent(s).skip(take));
}

/// Every response byte goes out once and in order: a staged chunk is the front of what
/// is unsent, and committing it leaves the rest. The other streams keep theirs.
pub proof fn law_each_byte_is_sent_once(m: H3Model, cap: int)
    requires
        m.wf(),
    ensures
        staged(m, cap) matches Some((b, H3Commit::DataSent { idx, take, last }))
            ==> chunk_sent_right(m, b, idx as int, take, last),
{
    lemma_session_commit_index(m, 0, cap);
    lemma_next_owing(m, Owed::Reset, 0);
    lemma_next_owing(m, Owed::Close, 0);
    lemma_next_owing(m, Owed::Data, 0);
    if let Some(i) = next_owing(m, Owed::Data, 0) {
        if cap > FRAME_HDR + STREAM_DATA_PREFIX {
            lemma_chunk_sent_right(m, i, cap);
        }
    }
}

/// A response ends its stream: the record after the last byte is the stream's close, and
/// taking it frees the slot.
pub proof fn law_response_ends_its_stream(m: H3Model, idx: usize, take: usize)
    requires
        m.wf(),
        idx < MAX_H3_STREAMS,
        !m.slots[idx as int].ws_active,
        take == m.slots[idx as int].pending(),
        session_ready(m, m.slots[idx as int].session_id),
    ensures
        ({
            let n = committed(m, H3Commit::DataSent { idx, take, last: true });
            &&& owes(n, idx as int, Owed::Close)
            &&& !committed(n, H3Commit::CloseSent(idx)).slots[idx as int].allocated
        }),
{
    assert(m.slots[idx as int].wf());
}

/// A tunnel outlives its traffic: sending its last byte neither frees its slot nor owes a
/// close.
pub proof fn law_tunnel_outlives_its_traffic(m: H3Model, idx: usize, take: usize)
    requires
        m.wf(),
        idx < MAX_H3_STREAMS,
        m.slots[idx as int].ws_active,
    ensures
        ({
            let n = committed(m, H3Commit::DataSent { idx, take, last: true });
            let s = m.slots[idx as int];
            &&& n.slots[idx as int].allocated == s.allocated
            &&& n.slots[idx as int].ws_active
            &&& n.slots[idx as int].close_pending == s.close_pending
            &&& n.slots[idx as int].pending() == 0
        }),
{
}

/// Nothing of a stream goes out before its session's preamble, and so its SETTINGS, went
/// out or was given up.
pub proof fn law_no_response_before_settings(m: H3Model, cap: int)
    ensures
        match staged(m, cap) {
            Some((_, H3Commit::DataSent { idx, .. })) => session_ready(
                m,
                m.slots[idx as int].session_id,
            ),
            Some((_, H3Commit::CloseSent(i))) => session_ready(m, m.slots[i as int].session_id),
            Some((_, H3Commit::ResetSent(i))) => session_ready(m, m.slots[i as int].session_id),
            _ => true,
        },
{
    lemma_session_commit_index(m, 0, cap);
    lemma_next_owing(m, Owed::Reset, 0);
    lemma_next_owing(m, Owed::Close, 0);
    lemma_next_owing(m, Owed::Data, 0);
}

/// Emission is fair: the stream just served is served again only when no other stream
/// has bytes to send.
pub proof fn law_served_stream_goes_last(m: H3Model, idx: usize, take: usize, last: bool)
    requires
        m.wf(),
        idx < MAX_H3_STREAMS,
    ensures
        ({
            let n = committed(m, H3Commit::DataSent { idx, take, last });
            next_owing(n, Owed::Data, 0) == Some(idx as int) ==> forall|k: int|
                0 <= k < MAX_H3_STREAMS && k != idx ==> !#[trigger] owes(n, k, Owed::Data)
        }),
{
    let n = committed(m, H3Commit::DataSent { idx, take, last });
    reveal_with_fuel(next_owing, 5);
    assert forall|k: int|
        next_owing(n, Owed::Data, 0) == Some(idx as int) && 0 <= k < MAX_H3_STREAMS && k
            != idx implies !#[trigger] owes(n, k, Owed::Data) by {
        let c = n.emit_cursor as int;
        assert(k == (c + 0) % 4 || k == (c + 1) % 4 || k == (c + 2) % 4);
    }
}

/// A record the way the transport delivers one: type, session, stream and data.
pub fn test_mux_frame(msg_type: u8, session: u32, stream: u32, data: &[u8]) -> (r: Vec<u8>)
    ensures
        r@ == record(msg_type, stream_prefix(session, stream) + data@),
{
    let mut p: Vec<u8> = prefix_vec(session, stream);
    extend(&mut p, data);
    record_vec(msg_type, p.as_slice())
}

} // verus!
