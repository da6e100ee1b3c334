//! The connection table: which slot a connection has, which slots are worked this
//! tick and in what order, and what is given up when one is freed.

use crate::cache::FileLock;
use crate::conn::{AppWait, ConnSlot, ProxyLeg, SpanState, WsConn};
use crate::listeners::{bump, bumped};
use vstd::prelude::*;

verus! {

/// Connections served at once.
pub const MAX_CONCURRENT_CONNS: usize = 256;

/// Work refused or lost under pressure.
#[derive(Clone, Copy, PartialEq, Eq, Structural, Debug)]
pub struct ShedMetrics {
    pub bp_steps: u32,
    /// Steps in which nothing moved.
    pub idle_steps: u32,
    /// Connections refused because no slot was free.
    pub conns_refused_slots: u32,
    /// Connections refused because a slot's buffers could not be had.
    pub conns_refused_arena: u32,
    /// Ticks on which delivery stopped because a connection's buffer was full.
    pub demux_stalls: u32,
    /// Requests the application never answered.
    pub app_timeouts: u32,
    /// Responses lost because they could not be put back.
    pub app_envelopes_lost: u32,
    /// Envelopes larger than one read carries.
    pub app_envelopes_oversize: u32,
    pub ws_envelopes_dropped: u32,
    pub h2_streams_refused: u32,
}

impl ShedMetrics {
    pub open spec fn none() -> ShedMetrics {
        ShedMetrics {
            bp_steps: 0,
            idle_steps: 0,
            conns_refused_slots: 0,
            conns_refused_arena: 0,
            demux_stalls: 0,
            app_timeouts: 0,
            app_envelopes_lost: 0,
            app_envelopes_oversize: 0,
            ws_envelopes_dropped: 0,
            h2_streams_refused: 0,
        }
    }

    pub fn zero() -> (r: ShedMetrics)
        ensures
            r == ShedMetrics::none(),
    {
        ShedMetrics {
            bp_steps: 0,
            idle_steps: 0,
            conns_refused_slots: 0,
            conns_refused_arena: 0,
            demux_stalls: 0,
            app_timeouts: 0,
            app_envelopes_lost: 0,
            app_envelopes_oversize: 0,
            ws_envelopes_dropped: 0,
            h2_streams_refused: 0,
        }
    }
}

pub struct SlotTable {
    pub slots: Vec<ConnSlot>,
    /// Which slots are worked each tick.
    pub ready: Vec<bool>,
    /// The slot a tick starts at.
    pub cursor: usize,
    /// The slot whose dial is outstanding.
    pub connect_owner: Option<usize>,
    /// The newest fan-out subscriber.
    pub latest_fanout: Option<usize>,
    /// The slot that uses the file channel.
    pub file_lock: FileLock,
}

/// The first slot of a connection, from `from` on.
pub open spec fn slot_of(s: Seq<ConnSlot>, conn: u16, from: int) -> Option<int>
    decreases s.len() - from,
{
    if from < 0 || from >= s.len() {
        None
    } else if s[from].conn_id == Some(conn) {
        Some(from)
    } else {
        slot_of(s, conn, from + 1)
    }
}

/// The first slot whose backend is this connection, from `from` on.
pub open spec fn backend_of(s: Seq<ConnSlot>, conn: u16, from: int) -> Option<int>
    decreases s.len() - from,
{
    if from < 0 || from >= s.len() {
        None
    } else if s[from].proxy.conn == Some(conn) {
        Some(from)
    } else {
        backend_of(s, conn, from + 1)
    }
}

/// The first free slot, from `from` on.
pub open spec fn free_slot_from(s: Seq<ConnSlot>, from: int) -> Option<int>
    decreases s.len() - from,
{
    if from < 0 || from >= s.len() {
        None
    } else if s[from].free() {
        Some(from)
    } else {
        free_slot_from(s, from + 1)
    }
}

/// How many of the first `n` slots are in use.
pub open spec fn active_in(s: Seq<ConnSlot>, n: nat) -> nat
    decreases n,
{
    if n == 0 {
        0
    } else {
        active_in(s, (n - 1) as nat) + if s[n - 1].free() {
            0nat
        } else {
            1
        }
    }
}

/// Whether a slot is a live fan-out subscriber.
pub open spec fn live_fanout(slot: ConnSlot) -> bool {
    slot.conn_id is Some && slot.ws.fan_out
}

/// Whether a free slot holds nothing of the connection it last served.
pub open spec fn clean_slot(slot: ConnSlot) -> bool {
    slot.free() ==> {
        &&& slot.req.is_blank()
        &&& slot.rx.is_blank()
        &&& slot.tx.is_blank()
        &&& slot.body.is_blank()
        &&& slot.app == AppWait::idle()
        &&& slot.ws == WsConn::idle()
        &&& slot.proxy == ProxyLeg::idle()
    }
}

/// The ready slots from `lo` to `hi`, in order.
pub open spec fn ready_range(ready: Seq<bool>, lo: int, hi: int) -> Seq<usize>
    decreases hi - lo,
{
    if lo >= hi {
        Seq::empty()
    } else if ready[lo] {
        seq![lo as usize] + ready_range(ready, lo + 1, hi)
    } else {
        ready_range(ready, lo + 1, hi)
    }
}

/// The slots worked on a tick: every ready one, from the cursor on and then from the
/// front.
pub open spec fn tick_order(ready: Seq<bool>, cursor: int) -> Seq<usize> {
    ready_range(ready, cursor, ready.len() as int) + ready_range(ready, 0, cursor)
}

/// That a connection which had opened is now closed.
#[derive(Clone, Copy, PartialEq, Eq, Structural, Debug)]
pub struct ClosedEvent {
    pub conn: u32,
    pub by_peer: bool,
    pub code: u16,
}

/// What the freeing of a slot leaves to be done.
pub struct Released {
    /// The connection whose peer is to be forgotten.
    pub conn: Option<u16>,
    /// The closure to report.
    pub closed: Option<ClosedEvent>,
    /// The route whose cached body is no longer held.
    pub route: Option<usize>,
}

/// What freeing a slot leaves to be done: a connection that was reported open is
/// reported closed, once; a cached body that it held is let go.
pub open spec fn released_of(slot: ConnSlot) -> (Option<u16>, Option<ClosedEvent>, Option<usize>) {
    (
        slot.conn_id,
        if slot.ws.opened_sent {
            Some(
                ClosedEvent {
                    conn: match slot.conn_id {
                        Some(c) => c as u32,
                        None => 0,
                    },
                    by_peer: slot.peer_closed,
                    code: slot.ws.close_code,
                },
            )
        } else {
            None
        },
        if slot.cache_retained {
            slot.req.route
        } else {
            None
        },
    )
}

impl SlotTable {
    pub open spec fn wf(self) -> bool {
        &&& self.slots@.len() == MAX_CONCURRENT_CONNS
        &&& self.ready@.len() == MAX_CONCURRENT_CONNS
        &&& self.cursor < MAX_CONCURRENT_CONNS
        &&& self.connect_owner matches Some(i) ==> i < MAX_CONCURRENT_CONNS
            && !self.slots@[i as int].free()
        &&& self.latest_fanout matches Some(i) ==> i < MAX_CONCURRENT_CONNS
        &&& forall|i: int|
            0 <= i < MAX_CONCURRENT_CONNS ==> (#[trigger] self.slots@[i]).wf() && clean_slot(
                self.slots@[i],
            )
    }

    /// An empty table. The first slot is ready: it binds the listener.
    pub fn new() -> (r: SlotTable)
        ensures
            r.wf(),
            forall|i: int| 0 <= i < MAX_CONCURRENT_CONNS ==> (#[trigger] r.slots@[i]).is_blank(),
            forall|i: int| 0 <= i < MAX_CONCURRENT_CONNS ==> #[trigger] r.ready@[i] == (i == 0),
            r.cursor == 0,
            r.connect_owner is None,
            r.latest_fanout is None,
            r.file_lock.owner is None,
    {
        let mut slots: Vec<ConnSlot> = Vec::new();
        let mut ready: Vec<bool> = Vec::new();
        let mut i: usize = 0;
        while i < MAX_CONCURRENT_CONNS
            invariant
                i <= MAX_CONCURRENT_CONNS,
                slots@.len() == i,
                ready@.len() == i,
                forall|k: int| 0 <= k < i ==> (#[trigger] slots@[k]).is_blank() && slots@[k].wf(),
                forall|k: int| 0 <= k < i ==> #[trigger] ready@[k] == (k == 0),
            decreases MAX_CONCURRENT_CONNS - i,
        {
            slots.push(ConnSlot::blank());
            ready.push(i == 0);
            i += 1;
        }
        SlotTable {
            slots,
            ready,
            cursor: 0,
            connect_owner: None,
            latest_fanout: None,
            file_lock: FileLock::new(),
        }
    }

    /// Find the slot of a connection.
    pub fn find_slot_by_conn_id(&self, conn: u16) -> (r: Option<usize>)
        ensures
            match r {
                Some(i) => slot_of(self.slots@, conn, 0) == Some(i as int) && i < self.slots@.len()
                    && self.slots@[i as int].conn_id == Some(conn),
                None => slot_of(self.slots@, conn, 0) is None,
            },
    {
        let mut i: usize = 0;
        while i < self.slots.len()
            invariant
                i <= self.slots@.len(),
                slot_of(self.slots@, conn, i as int) == slot_of(self.slots@, conn, 0),
            decreases self.slots@.len() - i,
        {
            if self.slots[i].conn_id == Some(conn) {
                return Some(i);
            }
            i += 1;
        }
        None
    }

    /// Find the slot whose backend is a connection.
    pub fn find_slot_by_backend_conn(&self, conn: u16) -> (r: Option<usize>)
        ensures
            match r {
                Some(i) => backend_of(self.slots@, conn, 0) == Some(i as int) && i
                    < self.slots@.len() && self.slots@[i as int].proxy.conn == Some(conn),
                None => backend_of(self.slots@, conn, 0) is None,
            },
    {
        let mut i: usize = 0;
        while i < self.slots.len()
            invariant
                i <= self.slots@.len(),
                backend_of(self.slots@, conn, i as int) == backend_of(self.slots@, conn, 0),
            decreases self.slots@.len() - i,
        {
            if self.slots[i].proxy.conn == Some(conn) {
                return Some(i);
            }
            i += 1;
        }
        None
    }

    /// Whether the newest fan-out subscriber is still there.
    pub open spec fn latest_lives(self) -> bool {
        self.latest_fanout matches Some(l) && live_fanout(self.slots@[l as int])
    }

    fn is_live_fanout(&self, i: usize) -> (r: bool)
        requires
            i < self.slots@.len(),
        ensures
            r == live_fanout(self.slots@[i as int]),
    {
        self.slots[i].conn_id.is_some() && self.slots[i].ws.fan_out
    }

    /// Find the subscriber that a message without an address is for: the newest, and
    /// when that is gone the only one. `None` when that cannot be known.
    pub fn find_sentinel_ws_fanout_slot(&self) -> (r: Option<usize>)
        requires
            self.wf(),
        ensures
            match r {
                Some(i) => i < MAX_CONCURRENT_CONNS && live_fanout(self.slots@[i as int]) && (
                self.latest_fanout == Some(i) || (!self.latest_lives() && forall|j: int|
                    0 <= j < MAX_CONCURRENT_CONNS && live_fanout(#[trigger] self.slots@[j]) ==> j
                        == i)),
                None => !self.latest_lives() && ((forall|j: int|
                    0 <= j < MAX_CONCURRENT_CONNS ==> !live_fanout(#[trigger] self.slots@[j])) || (
                exists|j: int, k: int|
                    0 <= j < k < MAX_CONCURRENT_CONNS && live_fanout(#[trigger] self.slots@[j])
                        && live_fanout(#[trigger] self.slots@[k]))),
            },
            self.latest_lives() ==> r == self.latest_fanout,
    {
        match self.latest_fanout {
            Some(l) => {
                if self.is_live_fanout(l) {
                    return Some(l);
                }
            },
            None => {},
        }
        let mut found: Option<usize> = None;
        let mut i: usize = 0;
        while i < MAX_CONCURRENT_CONNS
            invariant
                i <= MAX_CONCURRENT_CONNS,
                self.wf(),
                !self.latest_lives(),
                match found {
                    Some(f) => f < i && live_fanout(self.slots@[f as int]) && forall|j: int|
                        0 <= j < i && live_fanout(#[trigger] self.slots@[j]) ==> j == f,
                    None => forall|j: int| 0 <= j < i ==> !live_fanout(#[trigger] self.slots@[j]),
                },
            decreases MAX_CONCURRENT_CONNS - i,
        {
            if self.is_live_fanout(i) {
                match found {
                    Some(f) => {
                        assert(live_fanout(self.slots@[f as int]) && live_fanout(
                            self.slots@[i as int],
                        ));
                        return None;
                    },
                    None => {
                        found = Some(i);
                    },
                }
            }
            i += 1;
        }
        found
    }

    /// Give a connection the first free slot. `buffers` says whether its buffers can be
    /// had. Refuses, and counts which of the two was short.
    pub fn alloc_free_slot(&mut self, conn: u16, buffers: bool, shed: &mut ShedMetrics) -> (r: Option<
        usize,
    >)
        requires
            old(self).wf(),
        ensures
            final(self).wf(),
            match free_slot_from(old(self).slots@, 0) {
                None => r is None && *final(self) == *old(self) && *final(shed) == (ShedMetrics {
                    conns_refused_slots: bumped(old(shed).conns_refused_slots),
                    ..*old(shed)
                }),
                Some(i) => if !buffers {
                    r is None && *final(self) == *old(self) && *final(shed) == (ShedMetrics {
                        conns_refused_arena: bumped(old(shed).conns_refused_arena),
                        ..*old(shed)
                    })
                } else {
                    &&& r == Some(i as usize)
                    &&& 0 <= i < MAX_CONCURRENT_CONNS
                    &&& *final(self) == (SlotTable {
                        slots: final(self).slots,
                        ready: final(self).ready,
                        ..*old(self)
                    })
                    &&& final(self).slots@ == old(self).slots@.update(
                        i,
                        ConnSlot {
                            conn_id: Some(conn),
                            span: SpanState::idle(),
                            ..old(self).slots@[i]
                        },
                    )
                    &&& final(self).ready@ == old(self).ready@.update(i, true)
                    &&& *final(shed) == *old(shed)
                },
            },
    {
        let mut i: usize = 0;
        while i < MAX_CONCURRENT_CONNS && !self.slots[i].is_free()
            invariant
                i <= MAX_CONCURRENT_CONNS,
                self.wf(),
                free_slot_from(self.slots@, i as int) == free_slot_from(self.slots@, 0),
            decreases MAX_CONCURRENT_CONNS - i,
        {
            i += 1;
        }
        if i >= MAX_CONCURRENT_CONNS {
            shed.conns_refused_slots = bump(shed.conns_refused_slots);
            return None;
        }
        if !buffers {
            shed.conns_refused_arena = bump(shed.conns_refused_arena);
            return None;
        }
        assert(self.slots@[i as int].wf());
        self.slots[i].conn_id = Some(conn);
        self.slots[i].span = SpanState::none();
        self.ready.set(i, true);
        Some(i)
    }

    /// Free a slot: nothing of its connection is left in it, and whatever it owned is
    /// free for the others.
    pub fn free_slot(&mut self, idx: usize) -> (r: Released)
        requires
            old(self).wf(),
            idx < MAX_CONCURRENT_CONNS,
        ensures
            final(self).wf(),
            (r.conn, r.closed, r.route) == released_of(old(self).slots@[idx as int]),
            final(self).slots@ == old(self).slots@.update(
                idx as int,
                final(self).slots@[idx as int],
            ),
            final(self).slots@[idx as int].is_blank(),
            final(self).ready@ == old(self).ready@.update(idx as int, false),
            final(self).cursor == old(self).cursor,
            final(self).connect_owner == if old(self).connect_owner == Some(idx) {
                None
            } else {
                old(self).connect_owner
            },
            final(self).latest_fanout == if old(self).latest_fanout == Some(idx) {
                None
            } else {
                old(self).latest_fanout
            },
            final(self).file_lock.owner == if old(self).file_lock.owner == Some(idx) {
                None
            } else {
                old(self).file_lock.owner
            },
    {
        let conn = self.slots[idx].conn_id;
        let closed = if self.slots[idx].ws.opened_sent {
            Some(
                ClosedEvent {
                    conn: match conn {
                        Some(c) => c as u32,
                        None => 0,
                    },
                    by_peer: self.slots[idx].peer_closed,
                    code: self.slots[idx].ws.close_code,
                },
            )
        } else {
            None
        };
        let route = if self.slots[idx].cache_retained {
            self.slots[idx].req.route
        } else {
            None
        };
        self.file_lock.release(idx);
        if self.connect_owner == Some(idx) {
            self.connect_owner = None;
        }
        if self.latest_fanout == Some(idx) {
            self.latest_fanout = None;
        }
        self.slots.set(idx, ConnSlot::blank());
        self.ready.set(idx, false);
        assert(self.slots@ =~= old(self).slots@.update(idx as int, self.slots@[idx as int]));
        Released { conn, closed, route }
    }

    /// How many slots are in use.
    pub fn active_slot_count(&self) -> (r: usize)
        requires
            self.wf(),
        ensures
            r == active_in(self.slots@, MAX_CONCURRENT_CONNS as nat),
    {
        let mut n: usize = 0;
        let mut i: usize = 0;
        while i < MAX_CONCURRENT_CONNS
            invariant
                i <= MAX_CONCURRENT_CONNS,
                self.wf(),
                n == active_in(self.slots@, i as nat),
                n <= i,
            decreases MAX_CONCURRENT_CONNS - i,
        {
            if !self.slots[i].is_free() {
                n += 1;
            }
            i += 1;
        }
        n
    }

    fn push_ready(&self, out: &mut Vec<usize>, lo: usize, hi: usize)
        requires
            self.wf(),
            lo <= hi <= MAX_CONCURRENT_CONNS,
        ensures
            final(out)@ == old(out)@ + ready_range(self.ready@, lo as int, hi as int),
    {
        let ghost base = out@;
        let mut i: usize = lo;
        assert(base + ready_range(self.ready@, lo as int, hi as int) =~= out@ + ready_range(
            self.ready@,
            lo as int,
            hi as int,
        ));
        while i < hi
            invariant
                lo <= i <= hi <= MAX_CONCURRENT_CONNS,
                self.wf(),
                out@ + ready_range(self.ready@, i as int, hi as int) == base + ready_range(
                    self.ready@,
                    lo as int,
                    hi as int,
                ),
            decreases hi - i,
        {
            let ghost before = out@;
            let ghost rest = ready_range(self.ready@, i + 1, hi as int);
            if self.ready[i] {
                out.push(i);
                assert(out@ + rest =~= before + (seq![i] + rest));
            }
            i += 1;
        }
        assert(out@ + Seq::<usize>::empty() =~= out@);
    }

    /// The slots to work this tick, in order; and the cursor moves on, so that no
    /// connection is always first.
    pub fn begin_tick(&mut self) -> (r: Vec<usize>)
        requires
            old(self).wf(),
        ensures
            final(self).wf(),
            r@ == tick_order(old(self).ready@, old(self).cursor as int),
            *final(self) == (SlotTable {
                cursor: ((old(self).cursor + 1) % MAX_CONCURRENT_CONNS as int) as usize,
                ..*old(self)
            }),
    {
        let mut out: Vec<usize> = Vec::new();
        self.push_ready(&mut out, self.cursor, MAX_CONCURRENT_CONNS);
        self.push_ready(&mut out, 0, self.cursor);
        assert(out@ =~= tick_order(self.ready@, self.cursor as int));
        self.cursor = (self.cursor + 1) % MAX_CONCURRENT_CONNS;
        out
    }
}

// ── Laws ────────────────────────────────────────────────────────────────

proof fn lemma_ready_range(ready: Seq<bool>, lo: int, hi: int)
    requires
        0 <= lo <= hi <= ready.len(),
        ready.len() <= usize::MAX,
    ensures
        forall|k: int|
            0 <= k < ready_range(ready, lo, hi).len() ==> lo <= #[trigger] ready_range(
                ready,
                lo,
                hi,
            )[k] < hi && ready[ready_range(ready, lo, hi)[k] as int],
        forall|i: int|
            lo <= i < hi && #[trigger] ready[i] ==> ready_range(ready, lo, hi).contains(i as usize),
        forall|j: int, k: int|
            0 <= j < k < ready_range(ready, lo, hi).len() ==> #[trigger] ready_range(
                ready,
                lo,
                hi,
            )[j] < #[trigger] ready_range(ready, lo, hi)[k],
    decreases hi - lo,
{
    if lo < hi {
        lemma_ready_range(ready, lo + 1, hi);
        let rest = ready_range(ready, lo + 1, hi);
        let all = ready_range(ready, lo, hi);
        assert forall|i: int| lo <= i < hi && #[trigger] ready[i] implies all.contains(i as usize) by {
            if i == lo {
                assert(all[0] == i as usize);
            } else {
                let k = choose|k: int| 0 <= k < rest.len() && rest[k] == i as usize;
                if ready[lo] {
                    assert(all[k + 1] == rest[k]);
                } else {
                    assert(all[k] == rest[k]);
                }
            }
        }
    }
}

/// Every ready slot is worked exactly once a tick, and no other is.
pub proof fn law_each_ready_slot_is_worked_once(ready: Seq<bool>, cursor: int)
    requires
        0 <= cursor <= ready.len() <= usize::MAX,
    ensures
        tick_order(ready, cursor).no_duplicates(),
        forall|i: int|
            0 <= i < ready.len() ==> (tick_order(ready, cursor).contains(i as usize)
                <==> #[trigger] ready[i]),
{
    lemma_ready_range(ready, cursor, ready.len() as int);
    lemma_ready_range(ready, 0, cursor);
    let a = ready_range(ready, cursor, ready.len() as int);
    let b = ready_range(ready, 0, cursor);
    let t = tick_order(ready, cursor);
    assert forall|j: int, k: int| 0 <= j < t.len() && 0 <= k < t.len() && j != k implies t[j]
        != t[k] by {
        if j < a.len() && k < a.len() {
            assert(t[j] == a[j] && t[k] == a[k]);
        } else if j >= a.len() && k >= a.len() {
            assert(t[j] == b[j - a.len()] && t[k] == b[k - a.len()]);
        } else if j < a.len() {
            assert(t[j] == a[j] && t[k] == b[k - a.len()]);
        } else {
            assert(t[j] == b[j - a.len()] && t[k] == a[k]);
        }
    }
    assert forall|i: int| 0 <= i < ready.len() implies (t.contains(i as usize)
        <==> #[trigger] ready[i]) by {
        if ready[i] {
            if i >= cursor {
                let k = choose|k: int| 0 <= k < a.len() && a[k] == i as usize;
                assert(t[k] == a[k]);
            } else {
                let k = choose|k: int| 0 <= k < b.len() && b[k] == i as usize;
                assert(t[a.len() + k] == b[k]);
            }
        }
        if t.contains(i as usize) {
            let k = choose|k: int| 0 <= k < t.len() && t[k] == i as usize;
            if k < a.len() {
                assert(t[k] == a[k]);
            } else {
                assert(t[k] == b[k - a.len()]);
            }
        }
    }
}

/// A ready slot comes first on the tick that starts at it, and every slot gets such a
/// tick: the cursor passes over all of them.
pub proof fn law_no_slot_is_always_last(ready: Seq<bool>, i: int)
    requires
        0 <= i < ready.len() <= usize::MAX,
        ready[i],
    ensures
        tick_order(ready, i).len() > 0,
        tick_order(ready, i)[0] == i,
{
    assert(ready_range(ready, i, ready.len() as int)[0] == i as usize);
}

/// A connection is reported closed exactly when it was reported open, and only once: the
/// slot it leaves behind has nothing to report.
pub proof fn law_closed_is_reported_for_what_opened(before: ConnSlot, after: ConnSlot)
    requires
        after.is_blank(),
    ensures
        released_of(before).1 is Some <==> before.ws.opened_sent,
        released_of(after).1 is None,
{
}

// ── Finding a connection ────────────────────────────────────────────────

proof fn lemma_slot_found(s: Seq<ConnSlot>, conn: u16, from: int)
    requires
        0 <= from <= s.len(),
    ensures
        match slot_of(s, conn, from) {
            Some(i) => from <= i < s.len() && s[i].conn_id == Some(conn) && (forall|k: int|
                from <= k < i ==> (#[trigger] s[k]).conn_id != Some(conn)),
            None => forall|k: int| from <= k < s.len() ==> (#[trigger] s[k]).conn_id != Some(conn),
        },
    decreases s.len() - from,
{
    if from < s.len() && s[from].conn_id != Some(conn) {
        lemma_slot_found(s, conn, from + 1);
    }
}

proof fn lemma_backend_found(s: Seq<ConnSlot>, conn: u16, from: int)
    requires
        0 <= from <= s.len(),
    ensures
        match backend_of(s, conn, from) {
            Some(i) => from <= i < s.len() && s[i].proxy.conn == Some(conn) && (forall|k: int|
                from <= k < i ==> (#[trigger] s[k]).proxy.conn != Some(conn)),
            None => forall|k: int|
                from <= k < s.len() ==> (#[trigger] s[k]).proxy.conn != Some(conn),
        },
    decreases s.len() - from,
{
    if from < s.len() && s[from].proxy.conn != Some(conn) {
        lemma_backend_found(s, conn, from + 1);
    }
}

/// A connection is found in the slot that serves it, or relays to it, and nowhere else where
/// one slot alone does; where none does, it is not found.
pub proof fn law_connection_is_found_in_its_slot(s: Seq<ConnSlot>, conn: u16, at: int)
    requires
        0 <= at < s.len(),
    ensures
        s[at].conn_id == Some(conn) && (forall|k: int|
            0 <= k < s.len() && k != at ==> (#[trigger] s[k]).conn_id != Some(conn)) ==> slot_of(
            s,
            conn,
            0,
        ) == Some(at),
        (forall|k: int| 0 <= k < s.len() ==> (#[trigger] s[k]).conn_id != Some(conn)) ==> slot_of(
            s,
            conn,
            0,
        ) is None,
        s[at].proxy.conn == Some(conn) && (forall|k: int|
            0 <= k < s.len() && k != at ==> (#[trigger] s[k]).proxy.conn != Some(conn))
            ==> backend_of(s, conn, 0) == Some(at),
        (forall|k: int| 0 <= k < s.len() ==> (#[trigger] s[k]).proxy.conn != Some(conn))
            ==> backend_of(s, conn, 0) is None,
        slot_of(s, conn, 0) matches Some(i) ==> s[i].conn_id == Some(conn),
        backend_of(s, conn, 0) matches Some(i) ==> s[i].proxy.conn == Some(conn),
{
    lemma_slot_found(s, conn, 0);
    lemma_backend_found(s, conn, 0);
    assert(s[at].conn_id == s[at].conn_id);
}

/// Taking a free slot raises the count of those in use by one, giving one up lowers it by
/// one, and changing one in use leaves it.
pub proof fn law_slots_in_use_are_counted(s: Seq<ConnSlot>, i: int, slot: ConnSlot)
    requires
        0 <= i < s.len(),
    ensures
        active_in(s.update(i, slot), s.len()) == active_in(s, s.len()) + (if slot.free() {
            0int
        } else {
            1
        }) - (if s[i].free() {
            0int
        } else {
            1
        }),
        (forall|k: int| 0 <= k < s.len() ==> (#[trigger] s[k]).free()) ==> active_in(s, s.len())
            == 0,
{
    lemma_count_update(s, i, slot, s.len());
    lemma_count_free(s, s.len());
}

proof fn lemma_count_update(s: Seq<ConnSlot>, i: int, slot: ConnSlot, n: nat)
    requires
        0 <= i < s.len(),
        n <= s.len(),
    ensures
        active_in(s.update(i, slot), n) == active_in(s, n) + (if i < n {
            (if slot.free() {
                0int
            } else {
                1
            }) - (if s[i].free() {
                0int
            } else {
                1
            })
        } else {
            0
        }),
    decreases n,
{
    if n > 0 {
        lemma_count_update(s, i, slot, (n - 1) as nat);
    }
}

proof fn lemma_count_free(s: Seq<ConnSlot>, n: nat)
    requires
        n <= s.len(),
    ensures
        (forall|k: int| 0 <= k < s.len() ==> (#[trigger] s[k]).free()) ==> active_in(s, n) == 0,
    decreases n,
{
    if n > 0 {
        lemma_count_free(s, (n - 1) as nat);
    }
}

} // verus!
