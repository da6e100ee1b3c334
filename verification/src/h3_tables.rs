//! Finding and taking entries of the HTTP/3 tables.

use crate::h3::{
    H3Model, H3Session, H3State, H3StreamState, PeerUni, PeerUniModel, SessionModel,
    SlotModel, MAX_H3_SESSIONS, MAX_H3_STREAMS, MAX_PEER_UNI,
};
use vstd::prelude::*;

verus! {

// ── Sessions ────────────────────────────────────────────────────────────

/// The first session from `from` on with this identifier, or the table's length.
pub open spec fn session_of(t: Seq<SessionModel>, id: u32, from: int) -> int
    decreases t.len() - from,
{
    if from < 0 || from >= t.len() {
        t.len() as int
    } else if t[from].allocated && t[from].session_id == id {
        from
    } else {
        session_of(t, id, from + 1)
    }
}

/// The first free session entry from `from` on, or the table's length.
pub open spec fn free_session(t: Seq<SessionModel>, from: int) -> int
    decreases t.len() - from,
{
    if from < 0 || from >= t.len() {
        t.len() as int
    } else if !t[from].allocated {
        from
    } else {
        free_session(t, from + 1)
    }
}

pub proof fn lemma_session_of(t: Seq<SessionModel>, id: u32, from: int)
    requires
        0 <= from <= t.len(),
    ensures
        from <= session_of(t, id, from) <= t.len(),
        session_of(t, id, from) < t.len() ==> t[session_of(t, id, from)].allocated && t[session_of(
            t,
            id,
            from,
        )].session_id == id,
        forall|k: int|
            from <= k < session_of(t, id, from) ==> !((#[trigger] t[k]).allocated
                && t[k].session_id == id),
        from <= free_session(t, from) <= t.len(),
        free_session(t, from) < t.len() ==> !t[free_session(t, from)].allocated,
    decreases t.len() - from,
{
    if from < t.len() {
        lemma_session_of(t, id, from + 1);
    }
}

/// The entry of a session, if it has one.
pub fn session_slot(st: &H3State, session_id: u32) -> (r: Option<usize>)
    ensures
        match r {
            Some(i) => i < MAX_H3_SESSIONS && i == session_of(st@.sessions, session_id, 0)
                && st@.sessions[i as int].allocated && st@.sessions[i as int].session_id
                == session_id,
            None => session_of(st@.sessions, session_id, 0) == MAX_H3_SESSIONS,
        },
{
    let mut i: usize = 0;
    while i < MAX_H3_SESSIONS
        invariant
            i <= MAX_H3_SESSIONS,
            session_of(st@.sessions, session_id, i as int) == session_of(
                st@.sessions,
                session_id,
                0,
            ),
        decreases MAX_H3_SESSIONS - i,
    {
        assert(st@.sessions[i as int] == st.sessions@[i as int]@);
        if st.sessions[i].allocated && st.sessions[i].session_id == session_id {
            return Some(i);
        }
        i += 1;
    }
    None
}

/// A session entry newly taken for `id`.
pub open spec fn session_taken(id: u32) -> SessionModel {
    SessionModel { allocated: true, session_id: id, ..SessionModel::fresh() }
}

/// Find the entry of a session, or take a free one for it.
pub fn session_alloc(st: &mut H3State, session_id: u32) -> (r: Option<usize>)
    ensures
        ({
            let t = old(st)@.sessions;
            let known = session_of(t, session_id, 0);
            let free = free_session(t, 0);
            if known < t.len() {
                r == Some(known as usize) && final(st)@ == old(st)@
            } else if free < t.len() {
                r == Some(free as usize) && final(st)@ == old(st)@.with_session(
                    free,
                    session_taken(session_id),
                )
            } else {
                r is None && final(st)@ == old(st)@
            }
        }),
        r matches Some(i) ==> i < MAX_H3_SESSIONS,
{
    proof {
        lemma_session_of(st@.sessions, session_id, 0);
    }
    if let Some(i) = session_slot(st, session_id) {
        return Some(i);
    }
    let mut i: usize = 0;
    while i < MAX_H3_SESSIONS
        invariant
            i <= MAX_H3_SESSIONS,
            st@ == old(st)@,
            free_session(st@.sessions, i as int) == free_session(st@.sessions, 0),
            session_of(st@.sessions, session_id, 0) == MAX_H3_SESSIONS,
        decreases MAX_H3_SESSIONS - i,
    {
        assert(st@.sessions[i as int] == st.sessions@[i as int]@);
        if !st.sessions[i].allocated {
            let mut s = H3Session::empty();
            s.allocated = true;
            s.session_id = session_id;
            assert(s@ =~= session_taken(session_id));
            st.sessions[i] = s;
            assert(st@.sessions =~= old(st)@.sessions.update(i as int, session_taken(session_id)));
            assert(st@.slots =~= old(st)@.slots);
            return Some(i);
        }
        i += 1;
    }
    None
}

// ── Peer unidirectional streams ─────────────────────────────────────────

/// The first tracked stream from `from` on with this handle, or the table's length.
pub open spec fn peer_uni_of(t: Seq<PeerUniModel>, handle: u32, from: int) -> int
    decreases t.len() - from,
{
    if from < 0 || from >= t.len() {
        t.len() as int
    } else if t[from].allocated && t[from].handle == handle {
        from
    } else {
        peer_uni_of(t, handle, from + 1)
    }
}

/// The first free entry from `from` on, or the table's length.
pub open spec fn free_peer_uni(t: Seq<PeerUniModel>, from: int) -> int
    decreases t.len() - from,
{
    if from < 0 || from >= t.len() {
        t.len() as int
    } else if !t[from].allocated {
        from
    } else {
        free_peer_uni(t, from + 1)
    }
}

pub proof fn lemma_peer_uni_of(t: Seq<PeerUniModel>, handle: u32, from: int)
    requires
        0 <= from <= t.len(),
    ensures
        from <= peer_uni_of(t, handle, from) <= t.len(),
        from <= free_peer_uni(t, from) <= t.len(),
    decreases t.len() - from,
{
    if from < t.len() {
        lemma_peer_uni_of(t, handle, from + 1);
    }
}

/// The entry of a peer unidirectional stream, if it has one.
pub fn peer_uni_slot(sess: &H3Session, handle: u32) -> (r: Option<usize>)
    ensures
        match r {
            Some(i) => i < MAX_PEER_UNI && i == peer_uni_of(sess@.peer_uni, handle, 0)
                && sess@.peer_uni[i as int].allocated && sess@.peer_uni[i as int].handle == handle,
            None => peer_uni_of(sess@.peer_uni, handle, 0) == MAX_PEER_UNI,
        },
{
    let mut i: usize = 0;
    while i < MAX_PEER_UNI
        invariant
            i <= MAX_PEER_UNI,
            peer_uni_of(sess@.peer_uni, handle, i as int) == peer_uni_of(sess@.peer_uni, handle, 0),
        decreases MAX_PEER_UNI - i,
    {
        assert(sess@.peer_uni[i as int] == sess.peer_uni@[i as int]@);
        if sess.peer_uni[i].allocated && sess.peer_uni[i].handle == handle {
            return Some(i);
        }
        i += 1;
    }
    None
}

/// The session once a peer unidirectional stream is announced: tracked under its
/// handle if it was not and an entry is free.
pub open spec fn peer_uni_tracked(s: SessionModel, handle: u32) -> SessionModel {
    let free = free_peer_uni(s.peer_uni, 0);
    if peer_uni_of(s.peer_uni, handle, 0) < s.peer_uni.len() || free >= s.peer_uni.len() {
        s
    } else {
        SessionModel {
            peer_uni: s.peer_uni.update(
                free,
                PeerUniModel { allocated: true, handle, ..PeerUniModel::fresh() },
            ),
            ..s
        }
    }
}

/// Find the entry of a peer unidirectional stream, or take a free one for it.
pub fn peer_uni_alloc(sess: &mut H3Session, handle: u32) -> (r: Option<usize>)
    ensures
        final(sess)@ == peer_uni_tracked(old(sess)@, handle),
        ({
            let t = old(sess)@.peer_uni;
            let known = peer_uni_of(t, handle, 0);
            let free = free_peer_uni(t, 0);
            r == if known < t.len() {
                Some(known as usize)
            } else if free < t.len() {
                Some(free as usize)
            } else {
                None
            }
        }),
{
    proof {
        lemma_peer_uni_of(sess@.peer_uni, handle, 0);
    }
    if let Some(i) = peer_uni_slot(sess, handle) {
        return Some(i);
    }
    let mut i: usize = 0;
    while i < MAX_PEER_UNI
        invariant
            i <= MAX_PEER_UNI,
            sess@ == old(sess)@,
            free_peer_uni(sess@.peer_uni, i as int) == free_peer_uni(sess@.peer_uni, 0),
            peer_uni_of(sess@.peer_uni, handle, 0) == MAX_PEER_UNI,
        decreases MAX_PEER_UNI - i,
    {
        assert(sess@.peer_uni[i as int] == sess.peer_uni@[i as int]@);
        if !sess.peer_uni[i].allocated {
            let mut u = PeerUni::empty();
            u.allocated = true;
            u.handle = handle;
            sess.peer_uni[i] = u;
            assert(sess@.peer_uni =~= peer_uni_tracked(old(sess)@, handle).peer_uni);
            return Some(i);
        }
        i += 1;
    }
    None
}

// ── Request streams ─────────────────────────────────────────────────────

/// The first slot from `from` on of this stream, or the table's length.
pub open spec fn slot_of(t: Seq<SlotModel>, session: u32, stream: u64, from: int) -> int
    decreases t.len() - from,
{
    if from < 0 || from >= t.len() {
        t.len() as int
    } else if t[from].is_for(session, stream) {
        from
    } else {
        slot_of(t, session, stream, from + 1)
    }
}

/// The first free slot from `from` on, or the table's length.
pub open spec fn free_slot(t: Seq<SlotModel>, from: int) -> int
    decreases t.len() - from,
{
    if from < 0 || from >= t.len() {
        t.len() as int
    } else if !t[from].allocated {
        from
    } else {
        free_slot(t, from + 1)
    }
}

pub proof fn lemma_slot_of(t: Seq<SlotModel>, session: u32, stream: u64, from: int)
    requires
        0 <= from <= t.len(),
    ensures
        from <= slot_of(t, session, stream, from) <= t.len(),
        slot_of(t, session, stream, from) < t.len() ==> t[slot_of(
            t,
            session,
            stream,
            from,
        )].is_for(session, stream),
        forall|k: int|
            from <= k < slot_of(t, session, stream, from) ==> !(#[trigger] t[k]).is_for(
                session,
                stream,
            ),
        from <= free_slot(t, from) <= t.len(),
        free_slot(t, from) < t.len() ==> !t[free_slot(t, from)].allocated,
        forall|k: int| from <= k < free_slot(t, from) ==> (#[trigger] t[k]).allocated,
    decreases t.len() - from,
{
    if from < t.len() {
        lemma_slot_of(t, session, stream, from + 1);
    }
}

/// The slot of a stream, if it has one.
pub fn stream_slot(st: &H3State, session: u32, stream: u64) -> (r: Option<usize>)
    ensures
        match r {
            Some(i) => i < MAX_H3_STREAMS && i == slot_of(st@.slots, session, stream, 0)
                && st@.slots[i as int].is_for(session, stream),
            None => slot_of(st@.slots, session, stream, 0) == MAX_H3_STREAMS,
        },
{
    let mut i: usize = 0;
    while i < MAX_H3_STREAMS
        invariant
            i <= MAX_H3_STREAMS,
            slot_of(st@.slots, session, stream, i as int) == slot_of(st@.slots, session, stream, 0),
        decreases MAX_H3_STREAMS - i,
    {
        assert(st@.slots[i as int] == st.slots@[i as int]@);
        if st.slots[i].allocated && st.slots[i].session_id == session && st.slots[i].stream_id
            == stream {
            return Some(i);
        }
        i += 1;
    }
    None
}

/// A slot newly taken for a stream.
pub open spec fn slot_taken(s: SlotModel, session: u32, stream: u64) -> SlotModel {
    SlotModel {
        allocated: true,
        session_id: session,
        stream_id: stream,
        state: H3StreamState::HeadersRecv,
        ..s.released()
    }
}

/// What admitting a stream comes to: the slot it has, and the state with it in it.
/// A stream already admitted keeps its slot; a new one gets a free slot unless the
/// endpoint is draining.
pub open spec fn admitted(m: H3Model, session: u32, stream: u64) -> Option<(int, H3Model)> {
    let known = slot_of(m.slots, session, stream, 0);
    let free = free_slot(m.slots, 0);
    if known < m.slots.len() {
        Some((known, m))
    } else if m.draining || free >= m.slots.len() {
        None
    } else {
        Some((free, m.with_slot(free, slot_taken(m.slots[free], session, stream))))
    }
}

impl H3State {
    /// Find or take the slot of one stream. Streams are numbered per session, so
    /// the slot is known by both.
    pub fn slot_for(&mut self, session_id: u32, stream_id: u64) -> (r: Option<usize>)
        ensures
            match admitted(old(self)@, session_id, stream_id) {
                Some((i, m)) => r == Some(i as usize) && final(self)@ == m && 0 <= i
                    < MAX_H3_STREAMS && m.slots[i].is_for(session_id, stream_id),
                None => r is None && final(self)@ == old(self)@,
            },
            r matches Some(i) ==> i < MAX_H3_STREAMS,
            old(self)@.wf() ==> final(self)@.wf(),
    {
        proof {
            lemma_slot_of(self@.slots, session_id, stream_id, 0);
        }
        if let Some(i) = stream_slot(self, session_id, stream_id) {
            return Some(i);
        }
        if self.draining {
            return None;
        }
        let mut i: usize = 0;
        while i < MAX_H3_STREAMS
            invariant
                i <= MAX_H3_STREAMS,
                self@ == old(self)@,
                !self.draining,
                free_slot(self@.slots, i as int) == free_slot(self@.slots, 0),
                slot_of(self@.slots, session_id, stream_id, 0) == MAX_H3_STREAMS,
            decreases MAX_H3_STREAMS - i,
        {
            assert(self@.slots[i as int] == self.slots@[i as int]@);
            if !self.slots[i].allocated {
                self.slots[i].release();
                self.slots[i].allocated = true;
                self.slots[i].session_id = session_id;
                self.slots[i].stream_id = stream_id;
                self.slots[i].state = H3StreamState::HeadersRecv;
                let ghost want = slot_taken(old(self)@.slots[i as int], session_id, stream_id);
                assert(self.slots@[i as int]@ =~= want);
                assert(self@.slots =~= old(self)@.slots.update(i as int, want));
                assert(self@.sessions =~= old(self)@.sessions);
                return Some(i);
            }
            i += 1;
        }
        None
    }
}

/// No two slots stand for one stream.
pub open spec fn slots_distinct(m: H3Model) -> bool {
    forall|i: int, j: int|
        0 <= i < j < m.slots.len() && (#[trigger] m.slots[i]).allocated && (
        #[trigger] m.slots[j]).allocated ==> m.slots[i].session_id != m.slots[j].session_id
            || m.slots[i].stream_id != m.slots[j].stream_id
}

/// Admitting a stream never gives two slots to one stream, and disturbs no slot that
/// was in use.
pub proof fn law_admission_keeps_streams_apart(m: H3Model, session: u32, stream: u64)
    requires
        slots_distinct(m),
    ensures
        match admitted(m, session, stream) {
            Some((i, n)) => {
                &&& slots_distinct(n)
                &&& n.slots.len() == m.slots.len()
                &&& forall|k: int|
                    0 <= k < m.slots.len() && (#[trigger] m.slots[k]).allocated ==> n.slots[k]
                        == m.slots[k]
            },
            None => true,
        },
{
    lemma_slot_of(m.slots, session, stream, 0);
}

/// Draining admits nothing new, and a stream admitted before keeps its slot.
pub proof fn law_draining_admits_nothing_new(m: H3Model, session: u32, stream: u64)
    requires
        m.draining,
    ensures
        match admitted(m, session, stream) {
            Some((i, n)) => n == m && m.slots[i].is_for(session, stream),
            None => forall|k: int|
                0 <= k < m.slots.len() ==> !(#[trigger] m.slots[k]).is_for(session, stream),
        },
{
    lemma_slot_of(m.slots, session, stream, 0);
}

/// Streams with one number on two sessions get two slots.
pub proof fn law_stream_numbers_are_per_session(m: H3Model, a: u32, b: u32, stream: u64)
    requires
        a != b,
    ensures
        match admitted(m, a, stream) {
            Some((i, n)) => match admitted(n, b, stream) {
                Some((j, _)) => i != j,
                None => true,
            },
            None => true,
        },
{
    lemma_slot_of(m.slots, a, stream, 0);
    if let Some((_, n)) = admitted(m, a, stream) {
        lemma_slot_of(n.slots, b, stream, 0);
    }
}

} // verus!
