//! The HTTP/3 pump: records from the transport in, state moved on.
//!
//! The transport delivers sessions, streams and bytes. Which session a stream belongs
//! to, what a unidirectional stream is, what a control frame does and which error a
//! violation deserves is decided here.

use crate::bytes::{bytes_eq, get_u32, get_u64, lit, text, u32_at, u64_at};
use crate::h3::{
    H3Model, H3Session, H3State, H3StreamState, PeerUni, PeerUniModel, SessionModel, SlotModel,
    UniRole, H3_CLOSED_CRITICAL_STREAM, MAX_H3_SESSIONS, MAX_H3_STREAMS, MAX_PEER_UNI,
};
use crate::h3_control::{local_uni_opened, open_answered, uni_ingest, uni_step};
use crate::h3_stream::{request_step, tunnel_step, ws_closed, H3StreamOutcome};
use crate::h3_tables::{
    admitted, lemma_peer_uni_of, lemma_session_of, lemma_slot_of, peer_uni_alloc, peer_uni_of, peer_uni_slot,
    peer_uni_tracked, session_alloc, session_of, session_slot, session_taken, slot_of, slots_distinct,
    stream_slot,
};
use crate::mux::{
    MSG_MUX_DATAGRAM_RX, MSG_MUX_PEER_IDENTITY, MSG_MUX_SESSION_CLOSED, MSG_MUX_SESSION_OPENED,
    MSG_MUX_STREAM_ACCEPTED, MSG_MUX_STREAM_CLOSED, MSG_MUX_STREAM_OPENED, MSG_MUX_STREAM_RESET,
    MSG_MUX_STREAM_RX, MSG_MUX_STREAM_STOPPED, SESSION_ID_BYTES, SESSION_OPENED_BODY_MIN, STATUS_OK,
    STREAM_ACCEPTED_BODY, STREAM_DATA_PREFIX, STREAM_OPENED_BODY,
};
use crate::site::Site;
use crate::ws_wire::CLOSE_GOING_AWAY;
use vstd::prelude::*;
use vstd::slice::slice_subrange;

verus! {

/// The application protocol token of HTTP/3.
pub open spec fn h3_alpn_token() -> Seq<u8> {
    text("h3")
}

// ── Replacing one entry ─────────────────────────────────────────────────

proof fn lemma_slot_put(a: H3State, b: H3State, i: int)
    requires
        0 <= i < MAX_H3_STREAMS,
        forall|k: int|
            0 <= k < MAX_H3_STREAMS && k != i ==> #[trigger] b.slots@[k] == a.slots@[k],
        b.sessions == a.sessions,
        b.emit_cursor == a.emit_cursor,
        b.sess_cursor == a.sess_cursor,
        b.draining == a.draining,
    ensures
        b@ == a@.with_slot(i, b.slots@[i]@),
{
    assert(b@.slots =~= a@.slots.update(i, b.slots@[i]@));
    assert(b@.sessions =~= a@.sessions);
}

proof fn lemma_session_put(a: H3State, b: H3State, i: int)
    requires
        0 <= i < MAX_H3_SESSIONS,
        forall|k: int|
            0 <= k < MAX_H3_SESSIONS && k != i ==> #[trigger] b.sessions@[k] == a.sessions@[k],
        b.slots == a.slots,
        b.emit_cursor == a.emit_cursor,
        b.sess_cursor == a.sess_cursor,
        b.draining == a.draining,
    ensures
        b@ == a@.with_session(i, b.sessions@[i]@),
{
    assert(b@.sessions =~= a@.sessions.update(i, b.sessions@[i]@));
    assert(b@.slots =~= a@.slots);
}

proof fn lemma_with_wf(m: H3Model, i: int, s: SlotModel, j: int, t: SessionModel)
    requires
        m.wf(),
        0 <= i < MAX_H3_STREAMS,
        s.wf(),
        0 <= j < MAX_H3_SESSIONS,
        t.wf(),
    ensures
        m.with_slot(i, s).wf(),
        m.with_session(j, t).wf(),
{
}

// ── Stream bytes ────────────────────────────────────────────────────────

/// Whether a session's responses are gated, and its field-section limit. A connection
/// nothing is known of has the defaults: no gate, no limit.
pub open spec fn session_terms(m: H3Model, session: u32) -> (bool, u32) {
    let si = session_of(m.sessions, session, 0);
    if si < m.sessions.len() {
        (m.sessions[si].gated(), m.sessions[si].peer_max_field_section)
    } else {
        (false, u32::MAX)
    }
}

/// What bytes on a stream come to.
pub open spec fn stream_step(site: Site, m: H3Model, session: u32, stream: u64, data: Seq<u8>) -> (
    H3Model,
    H3StreamOutcome,
) {
    match admitted(m, session, stream) {
        None => (
            m,
            if m.draining {
                H3StreamOutcome::DrainRefused
            } else {
                H3StreamOutcome::SlotsExhausted
            },
        ),
        Some((i, n)) => {
            let s = n.slots[i];
            let (gated, limit) = session_terms(n, session);
            let (t, what) = if s.ws_active {
                tunnel_step(s, data)
            } else if s.pending() > 0 || s.state is HeadersSent {
                (s, H3StreamOutcome::Ignored)
            } else {
                request_step(site, s, data, gated, limit)
            };
            (n.with_slot(i, t), what)
        },
    }
}

/// Feed bytes of one stream, and answer the request they complete.
pub fn pump_stream_in(
    st: &mut H3State,
    site: &Site,
    session_id: u32,
    stream_id: u64,
    data: &[u8],
) -> (r: H3StreamOutcome)
    requires
        old(st)@.wf(),
        site.wf(),
    ensures
        (final(st)@, r) == stream_step(*site, old(st)@, session_id, stream_id, data@),
        final(st)@.wf(),
{
    proof {
        lemma_slot_of(st@.slots, session_id, stream_id, 0);
    }
    let idx: usize = match st.slot_for(session_id, stream_id) {
        Some(i) => i,
        None => {
            return if st.draining {
                H3StreamOutcome::DrainRefused
            } else {
                H3StreamOutcome::SlotsExhausted
            };
        },
    };
    let ghost mid = *st;
    let ghost s = st@.slots[idx as int];
    assert(s == st.slots@[idx as int]@);
    assert(s.wf());
    if st.slots[idx].ws_active {
        let r = st.slots[idx].ws_stream_in(data);
        proof {
            lemma_slot_put(mid, *st, idx as int);
            lemma_with_wf(mid@, idx as int, st.slots@[idx as int]@, 0, mid@.sessions[0]);
        }
        return r;
    }
    if st.slots[idx].pending_out() > 0 || st.slots[idx].state == H3StreamState::HeadersSent {
        assert(mid@.with_slot(idx as int, s) =~= mid@);
        return H3StreamOutcome::Ignored;
    }
    let (gated, limit) = match session_slot(st, session_id) {
        Some(si) => {
            assert(st@.sessions[si as int] == st.sessions@[si as int]@);
            (st.sessions[si].responses_gated(), st.sessions[si].peer_max_field_section)
        },
        None => (false, u32::MAX),
    };
    let r = st.slots[idx].request_in(site, data, gated, limit);
    proof {
        lemma_slot_put(mid, *st, idx as int);
        lemma_with_wf(mid@, idx as int, st.slots@[idx as int]@, 0, mid@.sessions[0]);
    }
    r
}

/// Bytes on one stream leave every other stream that was in use as it was, and every
/// session.
pub proof fn law_streams_are_independent(
    site: Site,
    m: H3Model,
    session: u32,
    stream: u64,
    data: Seq<u8>,
    k: int,
)
    requires
        slots_distinct(m),
        0 <= k < m.slots.len(),
        m.slots[k].allocated,
        !m.slots[k].is_for(session, stream),
    ensures
        stream_step(site, m, session, stream, data).0.slots[k] == m.slots[k],
        stream_step(site, m, session, stream, data).0.sessions == m.sessions,
{
    lemma_slot_of(m.slots, session, stream, 0);
}

// ── Session events ──────────────────────────────────────────────────────

/// What an announced session comes to. `b` is the announcement behind the session's
/// identifier: status, a reserved byte, and the negotiated token.
pub open spec fn session_opened(m: H3Model, session: u32, b: Seq<u8>) -> (H3Model, H3StreamOutcome) {
    if b.len() < SESSION_OPENED_BODY_MIN || b[0] != STATUS_OK || b.len() < 3 + b[2] {
        (m, H3StreamOutcome::Ignored)
    } else {
        let is_h3 = b.subrange(3, 3 + b[2]) == h3_alpn_token();
        let known = session_of(m.sessions, session, 0);
        let free = crate::h3_tables::free_session(m.sessions, 0);
        if known < m.sessions.len() {
            (
                m.with_session(known, SessionModel { is_h3, ..m.sessions[known] }),
                H3StreamOutcome::SessionEvent,
            )
        } else if free < m.sessions.len() {
            (
                m.with_session(free, SessionModel { is_h3, ..session_taken(session) }),
                H3StreamOutcome::SessionEvent,
            )
        } else {
            (m, H3StreamOutcome::SlotsExhausted)
        }
    }
}

/// A slot once its session is gone.
pub open spec fn slot_orphaned(s: SlotModel, session: u32) -> SlotModel {
    if s.allocated && s.session_id == session {
        s.released()
    } else {
        s
    }
}

/// The state once a session is over: its entry and its streams are free.
pub open spec fn session_over(m: H3Model, session: u32) -> H3Model {
    let si = session_of(m.sessions, session, 0);
    H3Model {
        slots: Seq::new(m.slots.len(), |k: int| slot_orphaned(m.slots[k], session)),
        sessions: if si < m.sessions.len() {
            m.sessions.update(si, SessionModel::fresh())
        } else {
            m.sessions
        },
        ..m
    }
}

/// Once a session is over no stream of it holds a slot.
pub proof fn law_closed_session_holds_no_stream(m: H3Model, session: u32)
    ensures
        forall|k: int|
            0 <= k < m.slots.len() ==> !((#[trigger] session_over(m, session).slots[k]).allocated
                && session_over(m, session).slots[k].session_id == session),
        forall|k: int|
            0 <= k < m.slots.len() && (#[trigger] m.slots[k]).session_id != session
                ==> session_over(m, session).slots[k] == m.slots[k],
{
}

fn set_h3(sess: &mut H3Session, is_h3: bool)
    ensures
        final(sess)@ == (SessionModel { is_h3, ..old(sess)@ }),
{
    let ghost want = SessionModel { is_h3, ..sess@ };
    sess.is_h3 = is_h3;
    assert(sess@.peer_uni =~= want.peer_uni);
    assert(sess@ =~= want);
}

fn on_session_opened(st: &mut H3State, session: u32, b: &[u8]) -> (r: H3StreamOutcome)
    requires
        old(st)@.wf(),
    ensures
        (final(st)@, r) == session_opened(old(st)@, session, b@),
        final(st)@.wf(),
{
    if b.len() < SESSION_OPENED_BODY_MIN || b[0] != STATUS_OK {
        return H3StreamOutcome::Ignored;
    }
    let alpn_len: usize = b[2] as usize;
    if b.len() < 3 + alpn_len {
        return H3StreamOutcome::Ignored;
    }
    let alpn = slice_subrange(b, 3, 3 + alpn_len);
    proof {
        lemma_session_of(st@.sessions, session, 0);
        crate::varint::lemma_varint_bounds(Seq::empty());
    }
    let ghost first = st@;
    let i: usize = match session_alloc(st, session) {
        Some(i) => i,
        None => return H3StreamOutcome::SlotsExhausted,
    };
    let ghost mid = *st;
    assert(mid@.sessions[i as int] == mid.sessions@[i as int]@);
    assert(mid@.sessions[i as int].wf());
    assert(mid@.wf());
    set_h3(&mut st.sessions[i], bytes_eq(alpn, lit("h3")));
    proof {
        lemma_session_put(mid, *st, i as int);
        lemma_with_wf(mid@, 0, mid@.slots[0], i as int, st.sessions@[i as int]@);
        assert(mid@.with_session(i as int, st.sessions@[i as int]@) =~= first.with_session(
            i as int,
            st.sessions@[i as int]@,
        ));
    }
    H3StreamOutcome::SessionEvent
}

fn on_session_closed(st: &mut H3State, session: u32)
    requires
        old(st)@.wf(),
    ensures
        final(st)@ == session_over(old(st)@, session),
        final(st)@.wf(),
{
    let ghost first = *st;
    proof {
        lemma_session_of(st@.sessions, session, 0);
        crate::varint::lemma_varint_bounds(Seq::empty());
    }
    if let Some(i) = session_slot(st, session) {
        st.sessions[i].release();
        proof {
            lemma_session_put(first, *st, i as int);
        }
    }
    let ghost mid = *st;
    assert(mid@.sessions == session_over(first@, session).sessions);
    let mut k: usize = 0;
    while k < MAX_H3_STREAMS
        invariant
            k <= MAX_H3_STREAMS,
            st.sessions == mid.sessions,
            st.emit_cursor == mid.emit_cursor,
            st.sess_cursor == mid.sess_cursor,
            st.draining == mid.draining,
            forall|j: int|
                0 <= j < MAX_H3_STREAMS ==> (#[trigger] st.slots@[j])@ == if j < k {
                    slot_orphaned(mid.slots@[j]@, session)
                } else {
                    mid.slots@[j]@
                },
        decreases MAX_H3_STREAMS - k,
    {
        if st.slots[k].allocated && st.slots[k].session_id == session {
            st.slots[k].release();
        }
        k += 1;
    }
    proof {
        assert(st@.sessions =~= mid@.sessions);
        assert(first@.slots =~= mid@.slots);
        assert(st@.slots =~= session_over(first@, session).slots);
        assert(st@ =~= session_over(first@, session));
        assert forall|j: int| 0 <= j < MAX_H3_STREAMS implies (#[trigger] st@.slots[j]).wf() by {
            assert(first@.slots[j].wf());
        }
    }
}

// ── Streams announced and ended ─────────────────────────────────────────

/// The boundary a GOAWAY names, raised past an admitted request stream.
pub open spec fn boundary_raised(s: SessionModel, quic_id: u64) -> SessionModel {
    let next: u64 = if quic_id + 4 > u64::MAX {
        u64::MAX
    } else {
        (quic_id + 4) as u64
    };
    if next > s.goaway_id {
        SessionModel { goaway_id: next, ..s }
    } else {
        s
    }
}

/// What an announced peer stream of session `si` comes to.
pub open spec fn stream_accepted(
    m: H3Model,
    si: int,
    session: u32,
    handle: u32,
    uni: bool,
    quic_id: u64,
) -> (H3Model, H3StreamOutcome) {
    if uni {
        (
            m.with_session(si, peer_uni_tracked(m.sessions[si], handle)),
            H3StreamOutcome::SessionEvent,
        )
    } else {
        match admitted(m, session, handle as u64) {
            Some((i, n)) => (
                n.with_slot(
                    i,
                    SlotModel { quic_stream_id: quic_id, ..n.slots[i] },
                ).with_session(si, boundary_raised(n.sessions[si], quic_id)),
                H3StreamOutcome::Buffered,
            ),
            None => (
                m,
                if m.draining {
                    H3StreamOutcome::DrainRefused
                } else {
                    H3StreamOutcome::SlotsExhausted
                },
            ),
        }
    }
}

/// GOAWAY never takes an admitted request back: once a request stream is admitted the
/// boundary lies past it, and it never comes down.
pub proof fn law_goaway_covers_admitted_streams(
    m: H3Model,
    si: int,
    session: u32,
    handle: u32,
    quic_id: u64,
)
    requires
        0 <= si < m.sessions.len(),
        quic_id < u64::MAX,
    ensures
        ({
            let (n, what) = stream_accepted(m, si, session, handle, false, quic_id);
            &&& n.sessions[si].goaway_id >= m.sessions[si].goaway_id
            &&& what is Buffered ==> n.sessions[si].goaway_id > quic_id
        }),
{
    lemma_slot_of(m.slots, session, handle as u64, 0);
}

/// What the end of the peer unidirectional stream tracked at `ui` comes to: a critical
/// one is a connection error.
pub open spec fn uni_ended(m: H3Model, si: int, ui: int) -> (H3Model, H3StreamOutcome) {
    let s = m.sessions[si];
    let gone = SessionModel { peer_uni: s.peer_uni.update(ui, PeerUniModel::fresh()), ..s };
    if s.peer_uni[ui].critical() {
        (
            m.with_session(si, gone.failed(H3_CLOSED_CRITICAL_STREAM)),
            H3StreamOutcome::ConnectionError(H3_CLOSED_CRITICAL_STREAM),
        )
    } else {
        (m.with_session(si, gone), H3StreamOutcome::SessionEvent)
    }
}

/// The state once a request stream ended: its slot is free, unless a response is still
/// to drain and the stream was not abandoned.
pub open spec fn request_ended(m: H3Model, session: u32, handle: u32, abandoned: bool) -> H3Model {
    let i = slot_of(m.slots, session, handle as u64, 0);
    if i < m.slots.len() && (abandoned || m.slots[i].pending() == 0) {
        m.with_slot(i, m.slots[i].released())
    } else {
        m
    }
}

/// What stream bytes of session `si` come to.
pub open spec fn stream_received(
    site: Site,
    m: H3Model,
    si: int,
    session: u32,
    handle: u32,
    body: Seq<u8>,
) -> (H3Model, H3StreamOutcome) {
    let s = m.sessions[si];
    let ui = peer_uni_of(s.peer_uni, handle, 0);
    if ui < s.peer_uni.len() {
        let (t, e) = uni_step(s, ui, body);
        match e {
            Some(code) => (
                m.with_session(si, t.failed(code)),
                H3StreamOutcome::ConnectionError(code),
            ),
            None => (m.with_session(si, t), H3StreamOutcome::SessionEvent),
        }
    } else {
        stream_step(site, m, session, handle as u64, body)
    }
}

/// What a stream record of HTTP/3 session `si` comes to.
pub open spec fn stream_event(
    site: Site,
    m: H3Model,
    si: int,
    msg_type: u8,
    session: u32,
    handle: u32,
    body: Seq<u8>,
) -> (H3Model, H3StreamOutcome) {
    let ui = peer_uni_of(m.sessions[si].peer_uni, handle, 0);
    let is_uni = ui < m.sessions[si].peer_uni.len();
    if msg_type == MSG_MUX_STREAM_OPENED {
        if body.len() < STREAM_OPENED_BODY {
            (m, H3StreamOutcome::Ignored)
        } else {
            (
                m.with_session(
                    si,
                    open_answered(m.sessions[si], handle, body[0] == STATUS_OK),
                ),
                H3StreamOutcome::SessionEvent,
            )
        }
    } else if msg_type == MSG_MUX_STREAM_ACCEPTED {
        if body.len() < STREAM_ACCEPTED_BODY {
            (m, H3StreamOutcome::Ignored)
        } else {
            stream_accepted(m, si, session, handle, body[0] % 2 == 1, u64_at(body, 1))
        }
    } else if msg_type == MSG_MUX_STREAM_RX {
        stream_received(site, m, si, session, handle, body)
    } else if msg_type == MSG_MUX_STREAM_CLOSED {
        if is_uni {
            uni_ended(m, si, ui)
        } else {
            (request_ended(m, session, handle, false), H3StreamOutcome::Ignored)
        }
    } else if msg_type == MSG_MUX_STREAM_RESET || msg_type == MSG_MUX_STREAM_STOPPED {
        if is_uni {
            uni_ended(m, si, ui)
        } else {
            (request_ended(m, session, handle, true), H3StreamOutcome::SessionEvent)
        }
    } else {
        (m, H3StreamOutcome::Ignored)
    }
}

/// What one record from the transport comes to.
pub open spec fn mux_step(site: Site, m: H3Model, msg_type: u8, payload: Seq<u8>) -> (
    H3Model,
    H3StreamOutcome,
) {
    let session = u32_at(payload, 0);
    let si = session_of(m.sessions, session, 0);
    if payload.len() < SESSION_ID_BYTES {
        (m, H3StreamOutcome::Ignored)
    } else if msg_type == MSG_MUX_SESSION_OPENED {
        session_opened(m, session, payload.skip(SESSION_ID_BYTES as int))
    } else if msg_type == MSG_MUX_SESSION_CLOSED {
        (session_over(m, session), H3StreamOutcome::SessionEvent)
    } else if msg_type == MSG_MUX_PEER_IDENTITY || msg_type == MSG_MUX_DATAGRAM_RX {
        (m, H3StreamOutcome::SessionEvent)
    } else if payload.len() < STREAM_DATA_PREFIX || si >= m.sessions.len()
        || !m.sessions[si].is_h3 {
        (m, H3StreamOutcome::Ignored)
    } else {
        stream_event(
            site,
            m,
            si,
            msg_type,
            session,
            u32_at(payload, 4),
            payload.skip(STREAM_DATA_PREFIX as int),
        )
    }
}

/// A record of a session that is unknown or speaks another protocol moves nothing.
pub proof fn law_foreign_stream_records_are_ignored(
    site: Site,
    m: H3Model,
    msg_type: u8,
    payload: Seq<u8>,
)
    requires
        payload.len() >= SESSION_ID_BYTES,
        msg_type != MSG_MUX_SESSION_OPENED,
        msg_type != MSG_MUX_SESSION_CLOSED,
        ({
            let si = session_of(m.sessions, u32_at(payload, 0), 0);
            si >= m.sessions.len() || !m.sessions[si].is_h3
        }),
    ensures
        mux_step(site, m, msg_type, payload).0 == m,
{
}

fn on_stream_accepted(
    st: &mut H3State,
    si: usize,
    session: u32,
    handle: u32,
    uni: bool,
    quic_id: u64,
) -> (r: H3StreamOutcome)
    requires
        old(st)@.wf(),
        si < MAX_H3_SESSIONS,
    ensures
        (final(st)@, r) == stream_accepted(
            old(st)@,
            si as int,
            session,
            handle,
            uni,
            quic_id,
        ),
        final(st)@.wf(),
{
    let ghost first = *st;
    assert(first@.sessions[si as int] == first.sessions@[si as int]@);
    assert(first@.sessions[si as int].wf());
    if uni {
        let _ = peer_uni_alloc(&mut st.sessions[si], handle);
        proof {
            lemma_session_put(first, *st, si as int);
            lemma_peer_uni_of(first@.sessions[si as int].peer_uni, handle, 0);
            crate::varint::lemma_varint_bounds(Seq::empty());
            let t = st.sessions@[si as int]@;
            assert(t == peer_uni_tracked(first@.sessions[si as int], handle));
            assert(t.wf());
            lemma_with_wf(first@, 0, first@.slots[0], si as int, t);
        }
        return H3StreamOutcome::SessionEvent;
    }
    proof {
        lemma_slot_of(st@.slots, session, handle as u64, 0);
    }
    match st.slot_for(session, handle as u64) {
        Some(i) => {
            name_admitted(st, si, i, quic_id);
            H3StreamOutcome::Buffered
        },
        None => if st.draining {
            H3StreamOutcome::DrainRefused
        } else {
            H3StreamOutcome::SlotsExhausted
        },
    }
}

fn raise_boundary(sess: &mut H3Session, quic_id: u64)
    ensures
        final(sess)@ == boundary_raised(old(sess)@, quic_id),
{
    let ghost want = boundary_raised(sess@, quic_id);
    let next: u64 = if quic_id > u64::MAX - 4 {
        u64::MAX
    } else {
        quic_id + 4
    };
    if next > sess.goaway_id {
        sess.goaway_id = next;
    }
    assert(sess@.peer_uni =~= want.peer_uni);
    assert(sess@ =~= want);
}

/// Keep an admitted stream's identity, and raise the drain boundary past it.
fn name_admitted(st: &mut H3State, si: usize, i: usize, quic_id: u64)
    requires
        old(st)@.wf(),
        si < MAX_H3_SESSIONS,
        i < MAX_H3_STREAMS,
    ensures
        final(st)@ == old(st)@.with_slot(
            i as int,
            SlotModel { quic_stream_id: quic_id, ..old(st)@.slots[i as int] },
        ).with_session(si as int, boundary_raised(old(st)@.sessions[si as int], quic_id)),
        final(st)@.wf(),
{
    let ghost first = *st;
    assert(first@.slots[i as int] == first.slots@[i as int]@);
    assert(first@.slots[i as int].wf());
    assert(first@.sessions[si as int] == first.sessions@[si as int]@);
    assert(first@.sessions[si as int].wf());
    st.slots[i].quic_stream_id = quic_id;
    let ghost mid = *st;
    proof {
        lemma_slot_put(first, mid, i as int);
        assert(mid.slots@[i as int]@ =~= (SlotModel {
            quic_stream_id: quic_id,
            ..first@.slots[i as int]
        }));
        lemma_with_wf(
            first@,
            i as int,
            mid.slots@[i as int]@,
            si as int,
            first@.sessions[si as int],
        );
    }
    raise_boundary(&mut st.sessions[si], quic_id);
    proof {
        lemma_session_put(mid, *st, si as int);
        lemma_with_wf(mid@, i as int, mid@.slots[i as int], si as int, st.sessions@[si as int]@);
    }
}

/// Forget the peer unidirectional stream tracked at `ui`, failing the session when it
/// was critical. Returns whether it was.
fn drop_peer_uni(sess: &mut H3Session, ui: usize) -> (r: bool)
    requires
        old(sess)@.wf(),
        ui < MAX_PEER_UNI,
    ensures
        ({
            let s = old(sess)@;
            let gone = SessionModel {
                peer_uni: s.peer_uni.update(ui as int, PeerUniModel::fresh()),
                ..s
            };
            &&& r == s.peer_uni[ui as int].critical()
            &&& final(sess)@ == if r {
                gone.failed(H3_CLOSED_CRITICAL_STREAM)
            } else {
                gone
            }
        }),
        final(sess)@.wf(),
{
    let ghost s0 = sess@;
    assert(s0.peer_uni[ui as int] == sess.peer_uni@[ui as int]@);
    let role: UniRole = sess.peer_uni[ui].role;
    let critical: bool = role == UniRole::Control || role == UniRole::QpackEncoder || role
        == UniRole::QpackDecoder;
    sess.peer_uni[ui] = PeerUni::empty();
    proof {
        let gone = SessionModel {
            peer_uni: s0.peer_uni.update(ui as int, PeerUniModel::fresh()),
            ..s0
        };
        crate::varint::lemma_varint_bounds(Seq::empty());
        assert(sess@.peer_uni =~= gone.peer_uni);
        assert(sess@ =~= gone);
        assert(gone.wf());
    }
    if critical {
        sess.fail(H3_CLOSED_CRITICAL_STREAM);
    }
    critical
}

fn on_uni_ended(st: &mut H3State, si: usize, ui: usize) -> (r: H3StreamOutcome)
    requires
        old(st)@.wf(),
        si < MAX_H3_SESSIONS,
        ui < MAX_PEER_UNI,
    ensures
        (final(st)@, r) == uni_ended(old(st)@, si as int, ui as int),
        final(st)@.wf(),
{
    let ghost first = *st;
    assert(first@.sessions[si as int] == first.sessions@[si as int]@);
    assert(first@.sessions[si as int].wf());
    let critical: bool = drop_peer_uni(&mut st.sessions[si], ui);
    proof {
        lemma_session_put(first, *st, si as int);
        lemma_with_wf(first@, 0, first@.slots[0], si as int, st.sessions@[si as int]@);
    }
    if critical {
        H3StreamOutcome::ConnectionError(H3_CLOSED_CRITICAL_STREAM)
    } else {
        H3StreamOutcome::SessionEvent
    }
}

fn on_request_ended(st: &mut H3State, session: u32, handle: u32, abandoned: bool)
    requires
        old(st)@.wf(),
    ensures
        final(st)@ == request_ended(old(st)@, session, handle, abandoned),
        final(st)@.wf(),
{
    let ghost first = *st;
    proof {
        lemma_slot_of(st@.slots, session, handle as u64, 0);
    }
    if let Some(i) = stream_slot(st, session, handle as u64) {
        assert(first@.slots[i as int] == first.slots@[i as int]@);
        if abandoned || st.slots[i].pending_out() == 0 {
            st.slots[i].release();
            proof {
                lemma_slot_put(first, *st, i as int);
                lemma_with_wf(first@, i as int, st.slots@[i as int]@, 0, first@.sessions[0]);
            }
        }
    }
}

fn on_stream_received(
    st: &mut H3State,
    site: &Site,
    si: usize,
    session: u32,
    handle: u32,
    body: &[u8],
) -> (r: H3StreamOutcome)
    requires
        old(st)@.wf(),
        site.wf(),
        si < MAX_H3_SESSIONS,
    ensures
        (final(st)@, r) == stream_received(
            *site,
            old(st)@,
            si as int,
            session,
            handle,
            body@,
        ),
        final(st)@.wf(),
{
    let ghost first = *st;
    assert(first@.sessions[si as int] == first.sessions@[si as int]@);
    assert(first@.sessions[si as int].wf());
    match peer_uni_slot(&st.sessions[si], handle) {
        Some(ui) => {
            let e = uni_ingest(&mut st.sessions[si], ui, body);
            match e {
                Some(code) => {
                    st.sessions[si].fail(code);
                    proof {
                        lemma_session_put(first, *st, si as int);
                        lemma_with_wf(
                            first@,
                            0,
                            first@.slots[0],
                            si as int,
                            st.sessions@[si as int]@,
                        );
                    }
                    H3StreamOutcome::ConnectionError(code)
                },
                None => {
                    proof {
                        lemma_session_put(first, *st, si as int);
                        lemma_with_wf(
                            first@,
                            0,
                            first@.slots[0],
                            si as int,
                            st.sessions@[si as int]@,
                        );
                    }
                    H3StreamOutcome::SessionEvent
                },
            }
        },
        None => pump_stream_in(st, site, session, handle as u64, body),
    }
}

fn on_stream_event(
    st: &mut H3State,
    site: &Site,
    si: usize,
    msg_type: u8,
    session: u32,
    handle: u32,
    body: &[u8],
) -> (r: H3StreamOutcome)
    requires
        old(st)@.wf(),
        site.wf(),
        si < MAX_H3_SESSIONS,
    ensures
        (final(st)@, r) == stream_event(
            *site,
            old(st)@,
            si as int,
            msg_type,
            session,
            handle,
            body@,
        ),
        final(st)@.wf(),
{
    let ghost first = *st;
    assert(first@.sessions[si as int] == first.sessions@[si as int]@);
    assert(first@.sessions[si as int].wf());
    if msg_type == MSG_MUX_STREAM_OPENED {
        if body.len() < STREAM_OPENED_BODY {
            return H3StreamOutcome::Ignored;
        }
        local_uni_opened(&mut st.sessions[si], handle, body[0]);
        proof {
            lemma_session_put(first, *st, si as int);
            lemma_with_wf(first@, 0, first@.slots[0], si as int, st.sessions@[si as int]@);
        }
        return H3StreamOutcome::SessionEvent;
    }
    if msg_type == MSG_MUX_STREAM_ACCEPTED {
        if body.len() < STREAM_ACCEPTED_BODY {
            return H3StreamOutcome::Ignored;
        }
        let uni: bool = body[0] % 2 == 1;
        return on_stream_accepted(st, si, session, handle, uni, get_u64(body, 1));
    }
    if msg_type == MSG_MUX_STREAM_RX {
        return on_stream_received(st, site, si, session, handle, body);
    }
    if msg_type != MSG_MUX_STREAM_CLOSED && msg_type != MSG_MUX_STREAM_RESET && msg_type
        != MSG_MUX_STREAM_STOPPED {
        return H3StreamOutcome::Ignored;
    }
    match peer_uni_slot(&st.sessions[si], handle) {
        Some(ui) => on_uni_ended(st, si, ui),
        None => if msg_type == MSG_MUX_STREAM_CLOSED {
            on_request_ended(st, session, handle, false);
            H3StreamOutcome::Ignored
        } else {
            on_request_ended(st, session, handle, true);
            H3StreamOutcome::SessionEvent
        },
    }
}

/// Feed one record from the transport.
pub fn pump_mux_frame(st: &mut H3State, site: &Site, msg_type: u8, payload: &[u8]) -> (r:
    H3StreamOutcome)
    requires
        old(st)@.wf(),
        site.wf(),
    ensures
        (final(st)@, r) == mux_step(*site, old(st)@, msg_type, payload@),
        final(st)@.wf(),
{
    if payload.len() < SESSION_ID_BYTES {
        return H3StreamOutcome::Ignored;
    }
    let session: u32 = get_u32(payload, 0);
    if msg_type == MSG_MUX_SESSION_OPENED {
        let b = slice_subrange(payload, SESSION_ID_BYTES, payload.len());
        assert(b@ =~= payload@.skip(SESSION_ID_BYTES as int));
        return on_session_opened(st, session, b);
    }
    if msg_type == MSG_MUX_SESSION_CLOSED {
        on_session_closed(st, session);
        return H3StreamOutcome::SessionEvent;
    }
    if msg_type == MSG_MUX_PEER_IDENTITY || msg_type == MSG_MUX_DATAGRAM_RX {
        return H3StreamOutcome::SessionEvent;
    }
    if payload.len() < STREAM_DATA_PREFIX {
        return H3StreamOutcome::Ignored;
    }
    let handle: u32 = get_u32(payload, 4);
    let body = slice_subrange(payload, STREAM_DATA_PREFIX, payload.len());
    assert(body@ =~= payload@.skip(STREAM_DATA_PREFIX as int));
    let si: usize = match session_slot(st, session) {
        Some(i) => i,
        None => return H3StreamOutcome::Ignored,
    };
    assert(st@.sessions[si as int] == st.sessions@[si as int]@);
    if !st.sessions[si].is_h3 {
        return H3StreamOutcome::Ignored;
    }
    on_stream_event(st, site, si, msg_type, session, handle, body)
}

// ── Requests held for the peer's SETTINGS ───────────────────────────────

/// Whether slot `k` holds request bytes that may be answered now.
pub open spec fn retry_ready(m: H3Model, k: int) -> bool {
    let s = m.slots[k];
    &&& s.allocated
    &&& s.recv.len() > 0
    &&& s.pending() == 0
    &&& !(s.state is HeadersSent)
    &&& !s.ws_active
    &&& !session_terms(m, s.session_id).0
}

/// Re-drive held requests from slot `k` on, up to the first that comes to something.
pub open spec fn retried(site: Site, m: H3Model, k: int) -> (H3Model, Option<H3StreamOutcome>)
    decreases MAX_H3_STREAMS - k,
{
    if k < 0 || k >= MAX_H3_STREAMS {
        (m, None)
    } else if retry_ready(m, k) {
        let (n, what) = stream_step(
            site,
            m,
            m.slots[k].session_id,
            m.slots[k].stream_id,
            Seq::empty(),
        );
        if what is Buffered {
            retried(site, n, k + 1)
        } else {
            (n, Some(what))
        }
    } else {
        retried(site, m, k + 1)
    }
}

/// Re-drive any request that was waiting for the peer's SETTINGS. Nothing further may
/// arrive on its stream, so nothing else would.
pub fn retry_gated_streams(st: &mut H3State, site: &Site) -> (r: Option<H3StreamOutcome>)
    requires
        old(st)@.wf(),
        site.wf(),
    ensures
        (final(st)@, r) == retried(*site, old(st)@, 0),
        final(st)@.wf(),
{
    let ghost first = st@;
    let nothing: Vec<u8> = Vec::new();
    assert(nothing@ =~= Seq::empty());
    let mut k: usize = 0;
    while k < MAX_H3_STREAMS
        invariant
            k <= MAX_H3_STREAMS,
            st@.wf(),
            site.wf(),
            nothing@ == Seq::<u8>::empty(),
            retried(*site, st@, k as int) == retried(*site, first, 0),
            first == old(st)@,
        decreases MAX_H3_STREAMS - k,
    {
        assert(st@.slots[k as int] == st.slots@[k as int]@);
        let session: u32 = st.slots[k].session_id;
        let stream: u64 = st.slots[k].stream_id;
        let open: bool = match session_slot(st, session) {
            Some(si) => {
                assert(st@.sessions[si as int] == st.sessions@[si as int]@);
                !st.sessions[si].responses_gated()
            },
            None => true,
        };
        if open && st.slots[k].allocated && st.slots[k].recv_hdr_buf.len() > 0
            && st.slots[k].pending_out() == 0 && st.slots[k].state != H3StreamState::HeadersSent
            && !st.slots[k].ws_active {
            let what = pump_stream_in(st, site, session, stream, nothing.as_slice());
            if what != H3StreamOutcome::Buffered {
                return Some(what);
            }
        }
        k += 1;
    }
    None
}

/// Feed one record, and where it was a session's event re-drive the requests that may
/// have waited for it.
pub open spec fn ingress_step(site: Site, m: H3Model, msg_type: u8, payload: Seq<u8>) -> (
    H3Model,
    H3StreamOutcome,
) {
    let (n, what) = mux_step(site, m, msg_type, payload);
    if what is SessionEvent {
        let (p, more) = retried(site, n, 0);
        match more {
            Some(w) => (p, w),
            None => (p, what),
        }
    } else {
        (n, what)
    }
}

/// One record of the ingress loop.
pub fn step_ingress(st: &mut H3State, site: &Site, msg_type: u8, payload: &[u8]) -> (r:
    H3StreamOutcome)
    requires
        old(st)@.wf(),
        site.wf(),
    ensures
        (final(st)@, r) == ingress_step(*site, old(st)@, msg_type, payload@),
        final(st)@.wf(),
{
    let what = pump_mux_frame(st, site, msg_type, payload);
    if what == H3StreamOutcome::SessionEvent {
        if let Some(w) = retry_gated_streams(st, site) {
            return w;
        }
    }
    what
}

// ── Draining ────────────────────────────────────────────────────────────

/// Whether a request stream of this session is still admitted.
pub open spec fn live_stream(slots: Seq<SlotModel>, session: u32) -> bool {
    exists|k: int|
        0 <= k < slots.len() && (#[trigger] slots[k]).allocated && slots[k].session_id == session
}

/// Whether any request stream is still admitted on session `si`.
pub fn session_has_live_stream(st: &H3State, si: usize) -> (r: bool)
    requires
        si < MAX_H3_SESSIONS,
    ensures
        r == live_stream(st@.slots, st@.sessions[si as int].session_id),
{
    assert(st@.sessions[si as int] == st.sessions@[si as int]@);
    let session: u32 = st.sessions[si].session_id;
    let mut k: usize = 0;
    while k < MAX_H3_STREAMS
        invariant
            k <= MAX_H3_STREAMS,
            session == st@.sessions[si as int].session_id,
            forall|j: int|
                0 <= j < k ==> !((#[trigger] st@.slots[j]).allocated && st@.slots[j].session_id
                    == session),
        decreases MAX_H3_STREAMS - k,
    {
        assert(st@.slots[k as int] == st.slots@[k as int]@);
        if st.slots[k].allocated && st.slots[k].session_id == session {
            return true;
        }
        k += 1;
    }
    false
}

/// A slot when a drain begins: an idle tunnel is told the endpoint is going away.
pub open spec fn slot_draining(s: SlotModel) -> SlotModel {
    if s.allocated && s.ws_active && s.pending() == 0 {
        ws_closed(s, CLOSE_GOING_AWAY)
    } else {
        s
    }
}

/// A session when a drain begins: one that is owed nothing and carries no stream is let
/// go.
pub open spec fn session_draining(s: SessionModel, slots: Seq<SlotModel>) -> SessionModel {
    if s.allocated && (!s.is_h3 || (s.conn_error != 0 && !s.conn_error_pending)) && !live_stream(
        slots,
        s.session_id,
    ) {
        SessionModel::fresh()
    } else {
        s
    }
}

/// The state when a drain begins.
pub open spec fn drain_begun(m: H3Model) -> H3Model {
    let slots = Seq::new(m.slots.len(), |k: int| slot_draining(m.slots[k]));
    H3Model {
        slots,
        sessions: Seq::new(
            m.sessions.len(),
            |i: int| session_draining(m.sessions[i], slots),
        ),
        ..m
    }
}

/// End what a drain cannot wait out: tunnels, and sessions that are owed nothing.
pub fn begin_drain(st: &mut H3State)
    requires
        old(st)@.wf(),
    ensures
        final(st)@ == drain_begun(old(st)@),
        final(st)@.wf(),
{
    let ghost first = *st;
    let ghost want = drain_begun(first@);
    proof {
        assert forall|j: int| 0 <= j < MAX_H3_STREAMS implies (
        #[trigger] first.slots@[j])@.wf() by {
            assert(first@.slots[j].wf());
        }
        assert forall|j: int| 0 <= j < MAX_H3_SESSIONS implies (
        #[trigger] first.sessions@[j])@.wf() by {
            assert(first@.sessions[j].wf());
        }
    }
    let mut idx: usize = 0;
    while idx < MAX_H3_STREAMS
        invariant
            idx <= MAX_H3_STREAMS,
            first@.wf(),
            st.sessions == first.sessions,
            st.emit_cursor == first.emit_cursor,
            st.sess_cursor == first.sess_cursor,
            st.draining == first.draining,
            forall|j: int|
                0 <= j < MAX_H3_STREAMS ==> (#[trigger] st.slots@[j])@.wf() && st.slots@[j]@
                    == if j < idx {
                    slot_draining(first.slots@[j]@)
                } else {
                    first.slots@[j]@
                },
        decreases MAX_H3_STREAMS - idx,
    {
        assert(st.slots@[idx as int]@.wf());
        if st.slots[idx].allocated && st.slots[idx].ws_active && st.slots[idx].pending_out() == 0 {
            let _ = st.slots[idx].ws_queue_close(CLOSE_GOING_AWAY);
        }
        idx += 1;
    }
    let ghost mid = *st;
    assert(mid@.slots =~= want.slots);
    let mut si: usize = 0;
    while si < MAX_H3_SESSIONS
        invariant
            si <= MAX_H3_SESSIONS,
            first@.wf(),
            st.slots == mid.slots,
            mid.sessions == first.sessions,
            mid@.slots == want.slots,
            want == drain_begun(first@),
            st.emit_cursor == first.emit_cursor,
            st.sess_cursor == first.sess_cursor,
            st.draining == first.draining,
            forall|j: int|
                0 <= j < MAX_H3_SESSIONS ==> (#[trigger] st.sessions@[j])@.wf() && st.sessions@[j]@
                    == if j < si {
                    session_draining(first.sessions@[j]@, want.slots)
                } else {
                    first.sessions@[j]@
                },
        decreases MAX_H3_SESSIONS - si,
    {
        assert(st@.slots =~= mid@.slots);
        assert(st@.sessions[si as int] == st.sessions@[si as int]@);
        let idle: bool = st.sessions[si].allocated && (!st.sessions[si].is_h3 || (
        st.sessions[si].conn_error != 0 && !st.sessions[si].conn_error_pending));
        if idle && !session_has_live_stream(st, si) {
            proof {
                crate::varint::lemma_varint_bounds(Seq::empty());
            }
            st.sessions[si].release();
        }
        si += 1;
    }
    proof {
        assert(st@.slots =~= want.slots);
        assert(st@.sessions =~= want.sessions);
        assert forall|j: int| 0 <= j < MAX_H3_STREAMS implies (#[trigger] st@.slots[j]).wf() by {
            assert(mid.slots@[j]@.wf());
        }
        assert forall|j: int| 0 <= j < MAX_H3_SESSIONS implies (
        #[trigger] st@.sessions[j]).wf() by {
            assert(st.sessions@[j]@.wf());
        }
    }
}

/// Whether nothing is admitted or owed any more.
pub open spec fn quiescent(m: H3Model) -> bool {
    &&& forall|k: int| 0 <= k < m.slots.len() ==> !(#[trigger] m.slots[k]).allocated
    &&& forall|i: int| 0 <= i < m.sessions.len() ==> !(#[trigger] m.sessions[i]).allocated
}

/// Whether a drain is over.
pub fn drained(st: &H3State) -> (r: bool)
    ensures
        r == quiescent(st@),
{
    let mut k: usize = 0;
    while k < MAX_H3_STREAMS
        invariant
            k <= MAX_H3_STREAMS,
            forall|j: int| 0 <= j < k ==> !(#[trigger] st@.slots[j]).allocated,
        decreases MAX_H3_STREAMS - k,
    {
        assert(st@.slots[k as int] == st.slots@[k as int]@);
        if st.slots[k].allocated {
            return false;
        }
        k += 1;
    }
    let mut si: usize = 0;
    while si < MAX_H3_SESSIONS
        invariant
            si <= MAX_H3_SESSIONS,
            forall|j: int| 0 <= j < MAX_H3_STREAMS ==> !(#[trigger] st@.slots[j]).allocated,
            forall|j: int| 0 <= j < si ==> !(#[trigger] st@.sessions[j]).allocated,
        decreases MAX_H3_SESSIONS - si,
    {
        assert(st@.sessions[si as int] == st.sessions@[si as int]@);
        if st.sessions[si].allocated {
            return false;
        }
        si += 1;
    }
    true
}

// ── Hooks ───────────────────────────────────────────────────────────────

/// Answer what was held back, once.
pub fn test_retry_gated_streams(st: &mut H3State, site: &Site) -> (r: Option<H3StreamOutcome>)
    requires
        old(st)@.wf(),
        site.wf(),
    ensures
        (final(st)@, r) == retried(*site, old(st)@, 0),
        final(st)@.wf(),
{
    retry_gated_streams(st, site)
}

/// Drive an endpoint by one record of the transport.
pub fn test_pump_mux_frame(st: &mut H3State, site: &Site, msg_type: u8, payload: &[u8]) -> (r:
    H3StreamOutcome)
    requires
        old(st)@.wf(),
        site.wf(),
    ensures
        (final(st)@, r) == mux_step(*site, old(st)@, msg_type, payload@),
        final(st)@.wf(),
{
    pump_mux_frame(st, site, msg_type, payload)
}

} // verus!
