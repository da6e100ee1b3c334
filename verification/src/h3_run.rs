//! Whole runs of HTTP/3 egress: what a state sends when it is asked for record after
//! record until it has none left.

use crate::h3::{
    H3Model, LocalUni, SessionModel, SlotModel, MAX_H3_SESSIONS, MAX_H3_STREAMS,
};
use crate::h3_control::uni_settled;
use crate::h3_egress::{
    chunk_sent_right, commit_legal, committed, handle_of, law_each_byte_is_sent_once, law_staged_is_committable,
    lemma_next_owing, lemma_session_commit_index, lemma_session_committed_wf, next_owing,
    next_session_record, owes, record, session_committed, session_ready, session_record,
    staged, stream_prefix, stream_record, unsent, H3Commit, Owed,
};
use crate::h3_tables::session_of;
use crate::mux::{
    CMD_MUX_STREAM_CLOSE, CMD_MUX_STREAM_SEND, FRAME_HDR, STATUS_OK, STREAM_DATA_PREFIX,
};
use vstd::prelude::*;

verus! {

/// What a run hands over: the records and what taking each settles.
pub type Sent = Seq<(Seq<u8>, H3Commit)>;

/// Up to `n` records, each committed as it is handed over: the state that is left, and
/// the records in order.
pub open spec fn run(m: H3Model, cap: int, n: nat) -> (H3Model, Sent)
    decreases n,
{
    if n == 0 {
        (m, Seq::empty())
    } else {
        let (t, log) = run(m, cap, (n - 1) as nat);
        match staged(t, cap) {
            None => (t, log),
            Some((b, c)) => (committed(t, c), log.push((b, c))),
        }
    }
}

/// The bytes of a stream record behind its header and prefix.
pub open spec fn carried_by(b: Seq<u8>) -> Seq<u8> {
    b.skip(FRAME_HDR + STREAM_DATA_PREFIX)
}

/// The response bytes of slot `i` in these records, one after another.
pub open spec fn carried(log: Sent, i: int) -> Seq<u8>
    decreases log.len(),
{
    if log.len() == 0 {
        Seq::empty()
    } else {
        carried(log.drop_last(), i) + match log.last().1 {
            H3Commit::DataSent { idx, .. } => if idx == i {
                carried_by(log.last().0)
            } else {
                Seq::empty()
            },
            _ => Seq::empty(),
        }
    }
}

/// How many of these records close the stream of slot `i`.
pub open spec fn closes(log: Sent, i: int) -> nat
    decreases log.len(),
{
    if log.len() == 0 {
        0
    } else {
        closes(log.drop_last(), i) + if log.last().1 == H3Commit::CloseSent(i as usize) {
            1nat
        } else {
            0nat
        }
    }
}

/// Whether a record that concerns slot `i` is one of its stream `s`: bytes or a close,
/// never a reset.
pub open spec fn addressed(b: Seq<u8>, c: H3Commit, i: int, s: SlotModel) -> bool {
    let prefix = stream_prefix(s.session_id, handle_of(s));
    match c {
        H3Commit::DataSent { idx, .. } => idx == i ==> b == record(
            CMD_MUX_STREAM_SEND,
            prefix + carried_by(b),
        ) && carried_by(b).len() > 0,
        H3Commit::CloseSent(k) => k == i ==> b == record(
            CMD_MUX_STREAM_CLOSE,
            prefix + seq![STATUS_OK],
        ),
        H3Commit::ResetSent(k) => k != i,
        H3Commit::Session(_, _) => true,
    }
}

/// A slot whose response waits to be sent.
pub open spec fn waiting(s: SlotModel) -> bool {
    s.allocated && s.reset_code == 0 && !s.ws_active && !s.close_pending && s.pending() > 0
}

/// Whether records have sent the response that slot `i` held in `m`, as far as they go:
/// what went out and what is left make the response; the close comes once, when all of
/// it is out, and leaves the slot free.
pub open spec fn sent_right(m: H3Model, i: int, after: (H3Model, Sent)) -> bool {
    let (t, log) = after;
    let s = m.slots[i];
    let u = t.slots[i];
    &&& forall|k: int| 0 <= k < log.len() ==> addressed((#[trigger] log[k]).0, log[k].1, i, s)
    &&& if closes(log, i) == 0 {
        &&& carried(log, i) + unsent(u) == unsent(s)
        &&& u.session_id == s.session_id && u.stream_id == s.stream_id
        &&& u.file_index == s.file_index
        &&& u.allocated && u.reset_code == 0 && !u.ws_active
        &&& u.close_pending == (u.pending() == 0)
    } else {
        &&& closes(log, i) == 1
        &&& carried(log, i) == unsent(s)
        &&& u == s.released()
    }
}

proof fn lemma_committed_wf(m: H3Model, c: H3Commit)
    requires
        m.wf(),
        commit_legal(m, c),
    ensures
        committed(m, c).wf(),
{
    let t = committed(m, c);
    if let H3Commit::Session(si, w) = c {
        assert(m.sessions[si as int].wf());
        lemma_session_committed_wf(m.sessions[si as int], w);
    }
    assert forall|k: int| 0 <= k < MAX_H3_STREAMS implies (#[trigger] t.slots[k]).wf() by {
        assert(m.slots[k].wf());
    }
    assert forall|k: int| 0 <= k < MAX_H3_SESSIONS implies (#[trigger] t.sessions[k]).wf() by {
        assert(m.sessions[k].wf());
    }
}

proof fn lemma_none_owing(m: H3Model, kind: Owed, step: int)
    requires
        0 <= step <= MAX_H3_STREAMS,
        next_owing(m, kind, step) is None,
    ensures
        forall|j: int|
            step <= j < MAX_H3_STREAMS ==> !owes(
                m,
                #[trigger] ((m.emit_cursor as int + j) % (MAX_H3_STREAMS as int)),
                kind,
            ),
    decreases MAX_H3_STREAMS - step,
{
    if step < MAX_H3_STREAMS {
        lemma_none_owing(m, kind, step + 1);
    }
}

/// Where the search finds nobody, nobody owes.
proof fn lemma_nobody_owes(m: H3Model, kind: Owed, i: int)
    requires
        next_owing(m, kind, 0) is None,
        0 <= i < MAX_H3_STREAMS,
    ensures
        !owes(m, i, kind),
{
    lemma_none_owing(m, kind, 0);
    let n = MAX_H3_STREAMS as int;
    let j = (i - m.emit_cursor as int) % n;
    assert((m.emit_cursor as int + j) % n == i);
}

/// What the next record is, where it is one of a stream.
proof fn lemma_staged_stream(m: H3Model, cap: int)
    requires
        m.wf(),
    ensures
        match staged(m, cap) {
            Some((b, H3Commit::ResetSent(k))) => k < MAX_H3_STREAMS && owes(
                m,
                k as int,
                Owed::Reset,
            ),
            Some((b, H3Commit::CloseSent(k))) => k < MAX_H3_STREAMS && owes(
                m,
                k as int,
                Owed::Close,
            ) && b == record(
                CMD_MUX_STREAM_CLOSE,
                stream_prefix(m.slots[k as int].session_id, handle_of(m.slots[k as int]))
                    + seq![STATUS_OK],
            ),
            Some((_, H3Commit::DataSent { idx, .. })) => idx < MAX_H3_STREAMS && owes(
                m,
                idx as int,
                Owed::Data,
            ),
            Some((_, H3Commit::Session(si, _))) => si < MAX_H3_SESSIONS,
            None => true,
        },
{
    lemma_session_commit_index(m, 0, cap);
    lemma_next_owing(m, Owed::Reset, 0);
    lemma_next_owing(m, Owed::Close, 0);
    lemma_next_owing(m, Owed::Data, 0);
}

proof fn lemma_record_carries(cmd: u8, session: u32, handle: u32, data: Seq<u8>)
    ensures
        carried_by(record(cmd, stream_prefix(session, handle) + data)) == data,
        record(cmd, stream_prefix(session, handle) + data)[0] == cmd,
        record(cmd, stream_prefix(session, handle) + data).len() == FRAME_HDR
            + STREAM_DATA_PREFIX + data.len(),
{
    assert(carried_by(record(cmd, stream_prefix(session, handle) + data)) =~= data);
}

/// A record that does not concern slot `i` leaves it as it was.
proof fn lemma_step_elsewhere(m: H3Model, i: int, t: H3Model, log: Sent, b: Seq<u8>, c: H3Commit)
    requires
        t.wf(),
        0 <= i < MAX_H3_STREAMS,
        sent_right(m, i, (t, log)),
        commit_legal(t, c),
        match c {
            H3Commit::DataSent { idx, .. } => idx != i,
            H3Commit::CloseSent(k) | H3Commit::ResetSent(k) => k != i,
            H3Commit::Session(_, _) => true,
        },
    ensures
        sent_right(m, i, (committed(t, c), log.push((b, c)))),
{
    let next = log.push((b, c));
    assert(next.drop_last() =~= log);
    assert(carried(next, i) =~= carried(log, i));
    assert(closes(next, i) == closes(log, i));
    assert(committed(t, c).slots[i] == t.slots[i]);
    assert(addressed(b, c, i, m.slots[i]));
    lemma_all_addressed(log, b, c, i, m.slots[i]);
}

proof fn lemma_all_addressed(log: Sent, b: Seq<u8>, c: H3Commit, i: int, s: SlotModel)
    requires
        forall|k: int| 0 <= k < log.len() ==> addressed((#[trigger] log[k]).0, log[k].1, i, s),
        addressed(b, c, i, s),
    ensures
        ({
            let next = log.push((b, c));
            forall|k: int| 0 <= k < next.len() ==> addressed((#[trigger] next[k]).0, next[k].1, i, s)
        }),
{
    let next = log.push((b, c));
    assert forall|k: int| 0 <= k < next.len() implies addressed(
        (#[trigger] next[k]).0,
        next[k].1,
        i,
        s,
    ) by {
        if k < log.len() {
            assert(next[k] == log[k]);
        }
    }
}

/// A chunk of slot `i` is the front of what it holds.
proof fn lemma_step_data(
    m: H3Model,
    i: int,
    t: H3Model,
    log: Sent,
    b: Seq<u8>,
    take: usize,
    last: bool,
)
    requires
        t.wf(),
        0 <= i < MAX_H3_STREAMS,
        sent_right(m, i, (t, log)),
        t.slots[i].pending() > 0,
        chunk_sent_right(t, b, i, take, last),
        take <= t.slots[i].pending(),
    ensures
        ({
            let c = H3Commit::DataSent { idx: i as usize, take, last };
            sent_right(m, i, (committed(t, c), log.push((b, c))))
        }),
{
    let c = H3Commit::DataSent { idx: i as usize, take, last };
    let s = m.slots[i];
    let u = t.slots[i];
    let v = committed(t, c).slots[i];
    let next = log.push((b, c));
    assert(next.drop_last() =~= log);
    assert(u.wf());
    assert(closes(log, i) == 0);
    assert(closes(next, i) == 0);
    lemma_record_carries(CMD_MUX_STREAM_SEND, u.session_id, handle_of(u), unsent(u).take(take as int));
    assert(carried_by(b) == unsent(u).take(take as int));
    assert(carried(next, i) == carried(log, i) + carried_by(b));
    assert(carried(next, i) + unsent(v) =~= carried(log, i) + unsent(u));
    assert(v.pending() == unsent(v).len());
    assert(addressed(b, c, i, s));
    lemma_all_addressed(log, b, c, i, s);
}

/// The close of slot `i` comes when it holds nothing any more.
proof fn lemma_step_close(m: H3Model, i: int, t: H3Model, log: Sent, b: Seq<u8>)
    requires
        t.wf(),
        0 <= i < MAX_H3_STREAMS,
        sent_right(m, i, (t, log)),
        owes(t, i, Owed::Close),
        b == record(
            CMD_MUX_STREAM_CLOSE,
            stream_prefix(t.slots[i].session_id, handle_of(t.slots[i])) + seq![STATUS_OK],
        ),
    ensures
        ({
            let c = H3Commit::CloseSent(i as usize);
            sent_right(m, i, (committed(t, c), log.push((b, c))))
        }),
{
    let c = H3Commit::CloseSent(i as usize);
    let u = t.slots[i];
    let next = log.push((b, c));
    assert(next.drop_last() =~= log);
    assert(u.wf());
    assert(closes(log, i) == 0);
    assert(closes(next, i) == 1);
    assert(unsent(u) =~= Seq::empty());
    assert(carried(log, i) + unsent(u) =~= carried(log, i));
    assert(carried(next, i) =~= carried(log, i));
    assert(addressed(b, c, i, m.slots[i]));
    lemma_all_addressed(log, b, c, i, m.slots[i]);
}

/// One more record keeps what [`sent_right`] says.
proof fn lemma_step_right(m: H3Model, cap: int, i: int, t: H3Model, log: Sent)
    requires
        t.wf(),
        0 <= i < MAX_H3_STREAMS,
        sent_right(m, i, (t, log)),
        staged(t, cap) is Some,
    ensures
        ({
            let (b, c) = staged(t, cap)->0;
            sent_right(m, i, (committed(t, c), log.push((b, c))))
        }),
{
    let (b, c) = staged(t, cap)->0;
    lemma_staged_stream(t, cap);
    law_staged_is_committable(t, cap);
    match c {
        H3Commit::DataSent { idx, take, last } => {
            law_each_byte_is_sent_once(t, cap);
            if idx == i {
                lemma_step_data(m, i, t, log, b, take, last);
            } else {
                lemma_step_elsewhere(m, i, t, log, b, c);
            }
        },
        H3Commit::CloseSent(k) => {
            if k == i {
                lemma_step_close(m, i, t, log, b);
            } else {
                lemma_step_elsewhere(m, i, t, log, b, c);
            }
        },
        H3Commit::ResetSent(k) => {
            assert(k != i);
            lemma_step_elsewhere(m, i, t, log, b, c);
        },
        H3Commit::Session(_, _) => {
            lemma_step_elsewhere(m, i, t, log, b, c);
        },
    }
}

proof fn lemma_run_wf(m: H3Model, cap: int, n: nat)
    requires
        m.wf(),
    ensures
        run(m, cap, n).0.wf(),
    decreases n,
{
    if n > 0 {
        let t = run(m, cap, (n - 1) as nat).0;
        lemma_run_wf(m, cap, (n - 1) as nat);
        law_staged_is_committable(t, cap);
        if let Some((_, c)) = staged(t, cap) {
            lemma_committed_wf(t, c);
        }
    }
}

/// A response goes out whole, in order and once, and its stream's close behind it, also
/// once: however many records a run hands over, those of the slot carry the front of the
/// response and the slot holds the rest; the close comes when nothing is left, and frees
/// the slot. A run that has no more to send, with room for any stream record and the
/// session's preamble out, has sent all of it and the close.
pub proof fn law_response_goes_out_whole(m: H3Model, cap: int, n: nat, i: int)
    requires
        m.wf(),
        0 <= i < MAX_H3_STREAMS,
        waiting(m.slots[i]),
    ensures
        sent_right(m, i, run(m, cap, n)),
        ({
            let (t, log) = run(m, cap, n);
            staged(t, cap) is None && cap >= FRAME_HDR + STREAM_DATA_PREFIX + 8 && session_ready(
                t,
                m.slots[i].session_id,
            ) ==> closes(log, i) == 1
        }),
{
    let (t, log) = run(m, cap, n);
    lemma_run_right(m, cap, n, i);
    lemma_run_wf(m, cap, n);
    if staged(t, cap) is None && cap >= FRAME_HDR + STREAM_DATA_PREFIX + 8 && session_ready(
        t,
        m.slots[i].session_id,
    ) {
        lemma_dry_means_closed(m, cap, i, t, log);
    }
}

proof fn lemma_run_right(m: H3Model, cap: int, n: nat, i: int)
    requires
        m.wf(),
        0 <= i < MAX_H3_STREAMS,
        waiting(m.slots[i]),
    ensures
        sent_right(m, i, run(m, cap, n)),
    decreases n,
{
    if n == 0 {
        assert(m.slots[i].wf());
        assert(carried(Seq::empty(), i) + unsent(m.slots[i]) =~= unsent(m.slots[i]));
    } else {
        let (t, log) = run(m, cap, (n - 1) as nat);
        lemma_run_right(m, cap, (n - 1) as nat, i);
        lemma_run_wf(m, cap, (n - 1) as nat);
        if staged(t, cap) is Some {
            lemma_step_right(m, cap, i, t, log);
        }
    }
}

#[verifier::rlimit(40)]
proof fn lemma_dry_means_closed(m: H3Model, cap: int, i: int, t: H3Model, log: Sent)
    requires
        t.wf(),
        0 <= i < MAX_H3_STREAMS,
        sent_right(m, i, (t, log)),
        staged(t, cap) is None,
        cap > FRAME_HDR + STREAM_DATA_PREFIX,
        cap >= FRAME_HDR + STREAM_DATA_PREFIX + 8 || next_owing(t, Owed::Reset, 0) is None,
        session_ready(t, m.slots[i].session_id),
    ensures
        closes(log, i) == 1,
{
    if let Some(k) = next_owing(t, Owed::Reset, 0) {
        assert(stream_record(t, k, Owed::Reset, cap) is Some);
    }
    if let Some(k) = next_owing(t, Owed::Close, 0) {
        assert(stream_record(t, k, Owed::Close, cap) is Some);
    }
    lemma_nobody_owes(t, Owed::Close, i);
    lemma_nobody_owes(t, Owed::Data, i);
}

// ── Every run ends ──────────────────────────────────────────────────────

/// How many records a slot can still bring about, at most.
pub open spec fn slot_work(s: SlotModel) -> int {
    2 * s.pending() + if s.allocated || s.close_pending {
        1int
    } else {
        0int
    }
}

pub open spec fn uni_work(u: LocalUni) -> int {
    if u.state is Idle {
        2
    } else if uni_settled(u) {
        0
    } else {
        1
    }
}

/// How many records a session can still bring about, at most.
pub open spec fn session_work(s: SessionModel) -> int {
    if !s.allocated {
        0
    } else {
        1 + uni_work(s.ctrl) + uni_work(s.qpack_enc) + uni_work(s.qpack_dec)
            + if s.conn_error_pending {
            1int
        } else {
            0int
        } + if s.goaway_sent {
            0int
        } else {
            1int
        }
    }
}

pub open spec fn slots_work(t: Seq<SlotModel>) -> int
    decreases t.len(),
{
    if t.len() == 0 {
        0
    } else {
        slots_work(t.drop_last()) + slot_work(t.last())
    }
}

pub open spec fn sessions_work(t: Seq<SessionModel>) -> int
    decreases t.len(),
{
    if t.len() == 0 {
        0
    } else {
        sessions_work(t.drop_last()) + session_work(t.last())
    }
}

/// How many records a state can still hand over, at most.
pub open spec fn work(m: H3Model) -> nat {
    (slots_work(m.slots) + sessions_work(m.sessions)) as nat
}

proof fn lemma_slots_work(t: Seq<SlotModel>, i: int, s: SlotModel)
    requires
        0 <= i < t.len(),
    ensures
        slots_work(t.update(i, s)) == slots_work(t) - slot_work(t[i]) + slot_work(s),
    decreases t.len(),
{
    let last = t.len() - 1;
    if i == last {
        assert(t.update(i, s).drop_last() =~= t.drop_last());
    } else {
        assert(t.update(i, s).drop_last() =~= t.drop_last().update(i, s));
        lemma_slots_work(t.drop_last(), i, s);
    }
}

proof fn lemma_sessions_work(t: Seq<SessionModel>, i: int, s: SessionModel)
    requires
        0 <= i < t.len(),
    ensures
        sessions_work(t.update(i, s)) == sessions_work(t) - session_work(t[i]) + session_work(s),
    decreases t.len(),
{
    let last = t.len() - 1;
    if i == last {
        assert(t.update(i, s).drop_last() =~= t.drop_last());
    } else {
        assert(t.update(i, s).drop_last() =~= t.drop_last().update(i, s));
        lemma_sessions_work(t.drop_last(), i, s);
    }
}

proof fn lemma_slots_work_sign(t: Seq<SlotModel>)
    ensures
        slots_work(t) >= 0,
    decreases t.len(),
{
    if t.len() > 0 {
        lemma_slots_work_sign(t.drop_last());
    }
}

proof fn lemma_sessions_work_sign(t: Seq<SessionModel>)
    ensures
        sessions_work(t) >= 0,
    decreases t.len(),
{
    if t.len() > 0 {
        lemma_sessions_work_sign(t.drop_last());
    }
}

proof fn lemma_session_record_settles(m: H3Model, si: int, cap: int)
    ensures
        session_record(m, si, cap) matches Some((_, c)) ==> session_work(
            session_committed(m.sessions[si], c),
        ) < session_work(m.sessions[si]),
{
}

proof fn lemma_session_search(m: H3Model, step: int, cap: int)
    requires
        0 <= step <= MAX_H3_SESSIONS,
    ensures
        match next_session_record(m, step, cap) {
            Some((b, H3Commit::Session(si, c))) => si < MAX_H3_SESSIONS && session_record(
                m,
                si as int,
                cap,
            ) == Some((b, c)),
            Some(_) => false,
            None => true,
        },
    decreases MAX_H3_SESSIONS - step,
{
    if step < MAX_H3_SESSIONS {
        lemma_session_search(m, step + 1, cap);
    }
}

/// Each record leaves less to hand over.
proof fn lemma_record_lowers_work(m: H3Model, cap: int)
    requires
        m.wf(),
        staged(m, cap) is Some,
    ensures
        work(committed(m, (staged(m, cap)->0).1)) < work(m),
{
    let (b, c) = staged(m, cap)->0;
    let t = committed(m, c);
    lemma_staged_stream(m, cap);
    lemma_slots_work_sign(m.slots);
    lemma_slots_work_sign(t.slots);
    lemma_sessions_work_sign(m.sessions);
    lemma_sessions_work_sign(t.sessions);
    match c {
        H3Commit::Session(si, w) => {
            lemma_session_search(m, 0, cap);
            lemma_session_record_settles(m, si as int, cap);
            lemma_sessions_work(
                m.sessions,
                si as int,
                session_committed(m.sessions[si as int], w),
            );
        },
        H3Commit::ResetSent(k) | H3Commit::CloseSent(k) => {
            lemma_slots_work(m.slots, k as int, t.slots[k as int]);
        },
        H3Commit::DataSent { idx, take, last } => {
            assert(m.slots[idx as int].wf());
            law_each_byte_is_sent_once(m, cap);
            lemma_slots_work(m.slots, idx as int, t.slots[idx as int]);
        },
    }
}

proof fn lemma_run_work(m: H3Model, cap: int, n: nat)
    requires
        m.wf(),
    ensures
        staged(run(m, cap, n).0, cap) is None || work(run(m, cap, n).0) + n <= work(m),
    decreases n,
{
    if n > 0 {
        lemma_run_work(m, cap, (n - 1) as nat);
        lemma_run_wf(m, cap, (n - 1) as nat);
        let t = run(m, cap, (n - 1) as nat).0;
        if staged(t, cap) is Some {
            lemma_record_lowers_work(t, cap);
        }
    }
}

/// Asking for record after record comes to an end: after [`work`] of them at the latest
/// there is none left.
pub proof fn law_every_run_ends(m: H3Model, cap: int)
    requires
        m.wf(),
    ensures
        staged(run(m, cap, work(m)).0, cap) is None,
{
    let t = run(m, cap, work(m)).0;
    lemma_run_work(m, cap, work(m));
    lemma_run_wf(m, cap, work(m));
    if staged(t, cap) is Some {
        lemma_record_lowers_work(t, cap);
    }
}

// ── A response on its own ───────────────────────────────────────────────

/// A slot that nothing is in.
pub open spec fn quiet(s: SlotModel) -> bool {
    s == s.released()
}

/// Whether slot `i` alone is in use, and no session is.
pub open spec fn alone(m: H3Model, i: int) -> bool {
    &&& forall|k: int| 0 <= k < MAX_H3_STREAMS && k != i ==> quiet(#[trigger] m.slots[k])
    &&& forall|k: int| 0 <= k < MAX_H3_SESSIONS ==> !(#[trigger] m.sessions[k]).allocated
}

/// The payloads of the stream sends among these records, one after another.
pub open spec fn payloads(log: Sent) -> Seq<u8>
    decreases log.len(),
{
    if log.len() == 0 {
        Seq::empty()
    } else {
        payloads(log.drop_last()) + if log.last().0[0] == CMD_MUX_STREAM_SEND {
            carried_by(log.last().0)
        } else {
            Seq::empty()
        }
    }
}

proof fn lemma_no_session_record(m: H3Model, step: int, cap: int)
    requires
        forall|k: int| 0 <= k < MAX_H3_SESSIONS ==> !(#[trigger] m.sessions[k]).allocated,
        0 <= step <= MAX_H3_SESSIONS,
    ensures
        next_session_record(m, step, cap) is None,
    decreases MAX_H3_SESSIONS - step,
{
    if step < MAX_H3_SESSIONS {
        let si = (m.sess_cursor as int + step) % (MAX_H3_SESSIONS as int);
        assert(!m.sessions[si].allocated);
        lemma_no_session_record(m, step + 1, cap);
    }
}

proof fn lemma_session_unknown(t: Seq<SessionModel>, id: u32, from: int)
    requires
        forall|k: int| 0 <= k < t.len() ==> !(#[trigger] t[k]).allocated,
        0 <= from <= t.len(),
    ensures
        session_of(t, id, from) == t.len(),
    decreases t.len() - from,
{
    if from < t.len() {
        lemma_session_unknown(t, id, from + 1);
    }
}

/// What holds of every record of a run that slot `i` has to itself.
spec fn lone_log(log: Sent, i: int) -> bool {
    &&& forall|k: int|
        0 <= k < log.len() ==> match (#[trigger] log[k]).1 {
            H3Commit::DataSent { idx, .. } => idx == i,
            H3Commit::CloseSent(j) => j == i && k == log.len() - 1,
            _ => false,
        }
    &&& payloads(log) == carried(log, i)
    &&& closes(log, i) > 0 <==> log.len() > 0 && log.last().1 is CloseSent
}

proof fn lemma_lone_run(m: H3Model, cap: int, n: nat, i: int)
    requires
        m.wf(),
        0 <= i < MAX_H3_STREAMS,
        waiting(m.slots[i]),
        alone(m, i),
    ensures
        alone(run(m, cap, n).0, i),
        lone_log(run(m, cap, n).1, i),
    decreases n,
{
    if n > 0 {
        let (t, log) = run(m, cap, (n - 1) as nat);
        lemma_lone_run(m, cap, (n - 1) as nat, i);
        lemma_run_right(m, cap, (n - 1) as nat, i);
        lemma_run_wf(m, cap, (n - 1) as nat);
        if let Some((b, c)) = staged(t, cap) {
            let next = log.push((b, c));
            assert(next.drop_last() =~= log);
            lemma_no_session_record(t, 0, cap);
            lemma_staged_stream(t, cap);
            lemma_step_right(m, cap, i, t, log);
            assert(next.last() == (b, c));
            assert(addressed(b, c, i, m.slots[i]));
            if closes(log, i) > 0 {
                assert forall|k: int| 0 <= k < MAX_H3_STREAMS implies quiet(
                    #[trigger] t.slots[k],
                ) by {
                    if k == i {
                        assert(t.slots[i] == m.slots[i].released());
                    }
                }
            }
            let prefix = stream_prefix(m.slots[i].session_id, handle_of(m.slots[i]));
            assert(b[0] == CMD_MUX_STREAM_SEND <==> c is DataSent);
        }
    }
}

/// A response that has egress to itself comes out as a client is to see it: asked until
/// there is none left, the state hands over sends whose payloads are the response, each
/// byte once and in order, then exactly one close of the stream; the slot is free.
pub proof fn law_lone_response_is_drained(m: H3Model, cap: int, i: int)
    requires
        m.wf(),
        0 <= i < MAX_H3_STREAMS,
        waiting(m.slots[i]),
        alone(m, i),
        cap > FRAME_HDR + STREAM_DATA_PREFIX,
    ensures
        ({
            let (t, log) = run(m, cap, work(m));
            let s = m.slots[i];
            let prefix = stream_prefix(s.session_id, handle_of(s));
            &&& staged(t, cap) is None
            &&& t.slots[i] == s.released()
            &&& payloads(log) == unsent(s)
            &&& log.len() > 0
            &&& log.last().0 == record(CMD_MUX_STREAM_CLOSE, prefix + seq![STATUS_OK])
            &&& forall|k: int|
                0 <= k < log.len() - 1 ==> (#[trigger] log[k]).0 == record(
                    CMD_MUX_STREAM_SEND,
                    prefix + carried_by(log[k].0),
                )
        }),
{
    let n = work(m);
    let (t, log) = run(m, cap, n);
    law_every_run_ends(m, cap);
    lemma_run_right(m, cap, n, i);
    lemma_run_wf(m, cap, n);
    lemma_lone_run(m, cap, n, i);
    lemma_session_unknown(t.sessions, m.slots[i].session_id, 0);
    lemma_next_owing(t, Owed::Reset, 0);
    if let Some(k) = next_owing(t, Owed::Reset, 0) {
        assert(quiet(t.slots[k]) || k == i);
    }
    lemma_dry_means_closed(m, cap, i, t, log);
    assert forall|k: int| 0 <= k < log.len() - 1 implies (#[trigger] log[k]).0 == record(
        CMD_MUX_STREAM_SEND,
        stream_prefix(m.slots[i].session_id, handle_of(m.slots[i])) + carried_by(log[k].0),
    ) by {
        assert(addressed(log[k].0, log[k].1, i, m.slots[i]));
    }
}

} // verus!
