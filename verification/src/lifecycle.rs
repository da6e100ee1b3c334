//! The end of a connection, the end of a drain, and the requests that are with the
//! application.

use crate::app::{parse_response, response_at, CHANNEL_BUFFER_SIZE, RESP_HDR};
use crate::bytes::{get_u16, u16_at};
use crate::conn::{ConnSlot, Phase};
use crate::h2_app::AwaitingStream;
use crate::listeners::{bound_of, bump, bumped, upserted, withdrawn, ListenersModel};
use crate::peers::{forgotten, noted, MAX_PEER_SVID};
use crate::server::{wrapped, Server, ServerCore};
use crate::slots::{active_in, released_of, slot_of, ClosedEvent, ShedMetrics, SlotTable, MAX_CONCURRENT_CONNS};
use vstd::prelude::*;

verus! {

// ── The end of a connection ─────────────────────────────────────────────

/// Whether a connection has been accepted in this phase.
pub open spec fn past_accept(p: Phase) -> bool {
    !(p is Init || p is Binding || p is WaitBound || p is WaitAccept)
}

pub fn is_past_accept(p: Phase) -> (r: bool)
    ensures
        r == past_accept(p),
{
    !(p == Phase::Init || p == Phase::Binding || p == Phase::WaitBound || p == Phase::WaitAccept)
}

/// What is to be done when a connection ends.
pub struct Ending {
    /// The client's connection to close. Not one that the peer has closed: its number
    /// may already be another's.
    pub close: Option<u16>,
    /// The open file to close.
    pub fd: Option<i32>,
    /// The backend's connection to close.
    pub backend: Option<u16>,
    /// The closure to report.
    pub closed: Option<ClosedEvent>,
    /// The route whose cached body is no longer held.
    pub route: Option<usize>,
}

/// What is to be closed when the connection of a slot ends.
pub open spec fn closes(slot: ConnSlot) -> (Option<u16>, Option<i32>, Option<u16>) {
    (
        if !slot.peer_closed && past_accept(slot.phase) {
            slot.conn_id
        } else {
            None
        },
        if slot.render.fd >= 0 {
            Some(slot.render.fd)
        } else {
            None
        },
        if !slot.proxy.closed {
            slot.proxy.conn
        } else {
            None
        },
    )
}

/// Whether `conn` is free of any identity, where it is a connection.
pub open spec fn unknown_peer(s: Server, conn: Option<u16>) -> bool {
    conn matches Some(c) ==> s.peers.svid_of(c) is None
}

impl Server {
    /// End the connection of a slot: free the slot and everything it owned, forget its
    /// peer, and say what is left to close and report.
    pub fn reset_connection(&mut self, idx: usize) -> (r: Ending)
        requires
            old(self).wf(),
            idx < MAX_CONCURRENT_CONNS,
        ensures
            final(self).wf(),
            ({
                let slot = old(self).table.slots@[idx as int];
                &&& (r.close, r.fd, r.backend) == closes(slot)
                &&& (slot.conn_id, r.closed, r.route) == released_of(slot)
                &&& unknown_peer(*final(self), slot.conn_id)
                &&& match slot.conn_id {
                    Some(c) => forgotten(old(self).peers.entries@, final(self).peers.entries@, c),
                    None => final(self).peers == old(self).peers,
                }
                &&& forall|other: u16|
                    slot.conn_id != Some(other) ==> #[trigger] final(self).peers.svid_of(other)
                        == old(self).peers.svid_of(other)
            }),
            *final(self) == (Server {
                table: final(self).table,
                peers: final(self).peers,
                ..*old(self)
            }),
            final(self).table.slots@ == old(self).table.slots@.update(
                idx as int,
                final(self).table.slots@[idx as int],
            ),
            final(self).table.slots@[idx as int].is_blank(),
            final(self).table.ready@ == old(self).table.ready@.update(idx as int, false),
            final(self).table.cursor == old(self).table.cursor,
            final(self).table.connect_owner == if old(self).table.connect_owner == Some(idx) {
                None
            } else {
                old(self).table.connect_owner
            },
            final(self).table.latest_fanout == if old(self).table.latest_fanout == Some(idx) {
                None
            } else {
                old(self).table.latest_fanout
            },
            final(self).table.file_lock.owner == if old(self).table.file_lock.owner == Some(idx) {
                None
            } else {
                old(self).table.file_lock.owner
            },
    {
        let phase = self.table.slots[idx].phase;
        let close = if !self.table.slots[idx].peer_closed && is_past_accept(phase) {
            self.table.slots[idx].conn_id
        } else {
            None
        };
        let fd: Option<i32> = if self.table.slots[idx].render.fd >= 0 {
            Some(self.table.slots[idx].render.fd)
        } else {
            None
        };
        let backend = if !self.table.slots[idx].proxy.closed {
            self.table.slots[idx].proxy.conn
        } else {
            None
        };
        let rel = self.table.free_slot(idx);
        match rel.conn {
            Some(c) => {
                self.peers.forget_peer(c);
            },
            None => {},
        }
        Ending { close, fd, backend, closed: rel.closed, route: rel.route }
    }

    /// Note what a handshake said of a connection's peer, and count whether an identity
    /// was bound.
    pub fn note_peer(&mut self, conn: u16, fingerprint: Option<&[u8]>) -> (bound: bool)
        requires
            old(self).wf(),
        ensures
            final(self).wf(),
            noted(
                old(self).peers.entries@,
                final(self).peers.entries@,
                conn,
                if bound {
                    Some((fingerprint->0)@)
                } else {
                    None
                },
            ),
            final(self).peers.holds(conn) == bound,
            forall|other: u16|
                other != conn ==> #[trigger] final(self).peers.holds(other)
                    == old(self).peers.holds(other),
            bound == (fingerprint matches Some(fp) && fp@.len() <= MAX_PEER_SVID && (
            old(self).peers.has_room() || old(self).peers.holds(conn))),
            final(self).peers.svid_of(conn) == if bound && (fingerprint->0)@.len() > 0 {
                Some((fingerprint->0)@)
            } else {
                None
            },
            forall|other: u16|
                other != conn ==> #[trigger] final(self).peers.svid_of(other)
                    == old(self).peers.svid_of(other),
            *final(self) == (Server {
                peers: final(self).peers,
                core: ServerCore {
                    peers_bound: if bound {
                        bumped(old(self).core.peers_bound)
                    } else {
                        old(self).core.peers_bound
                    },
                    peers_unbound: if bound {
                        old(self).core.peers_unbound
                    } else {
                        bumped(old(self).core.peers_unbound)
                    },
                    ..old(self).core
                },
                ..*old(self)
            }),
    {
        let bound = self.peers.note_peer_identity(conn, fingerprint);
        if bound {
            self.core.peers_bound = bump(self.core.peers_bound);
        } else {
            self.core.peers_unbound = bump(self.core.peers_unbound);
        }
        bound
    }

    /// Count an identity record too short to name a connection: nothing is bound by it.
    pub fn note_short_identity(&mut self)
        requires
            old(self).wf(),
        ensures
            final(self).wf(),
            *final(self) == (Server {
                core: ServerCore {
                    peers_unbound: bumped(old(self).core.peers_unbound),
                    ..old(self).core
                },
                ..*old(self)
            }),
    {
        self.core.peers_unbound = bump(self.core.peers_unbound);
    }

    /// Whether a drain is complete: no connection is left and every event has been
    /// delivered.
    pub fn drained(&self, events_pending: usize) -> (r: bool)
        requires
            self.wf(),
        ensures
            r == (self.core.draining && self.core.bound && active_in(
                self.table.slots@,
                MAX_CONCURRENT_CONNS as nat,
            ) == 0 && events_pending == 0),
    {
        self.core.draining && self.core.bound && self.table.active_slot_count() == 0
            && events_pending == 0
    }

    /// Note the outcome of a send: `n` bytes taken, or backpressure.
    pub fn note_sent(&mut self, n: usize, taken: bool)
        requires
            old(self).wf(),
            n <= u16::MAX,
        ensures
            final(self).wf(),
            *final(self) == if taken {
                Server {
                    core: ServerCore {
                        bytes_out: wrapped(old(self).core.bytes_out, n as nat),
                        ..old(self).core
                    },
                    ..*old(self)
                }
            } else {
                Server {
                    shed: ShedMetrics { bp_steps: bumped(old(self).shed.bp_steps), ..old(self).shed },
                    ..*old(self)
                }
            },
    {
        if taken {
            self.core.bytes_out = self.core.bytes_out.wrapping_add(n as u32);
        } else {
            self.shed.bp_steps = bump(self.shed.bp_steps);
        }
    }

    /// Count `n` bytes read from the file channel.
    pub fn note_file_read(&mut self, n: usize)
        requires
            old(self).wf(),
            n <= u32::MAX,
        ensures
            final(self).wf(),
            *final(self) == (Server {
                core: ServerCore {
                    bytes_in: wrapped(old(self).core.bytes_in, n as nat),
                    ..old(self).core
                },
                ..*old(self)
            }),
    {
        self.core.bytes_in = self.core.bytes_in.wrapping_add(n as u32);
    }
}

// ── Requests with the application ───────────────────────────────────────

/// The generation `n` requests after `g`.
pub open spec fn generation_after(g: u16, n: nat) -> u16 {
    ((g + n) % 0x1_0000) as u16
}

/// No two of a run of requests carry the same generation, unless so many lie between
/// them that the first has long run out of time.
pub proof fn law_generations_differ(g: u16, i: nat, j: nat)
    requires
        i < j,
        j - i < 0x1_0000,
    ensures
        generation_after(g, i) != generation_after(g, j),
{
}

/// The slot that waits for a response: that of the connection, if its request is with
/// the application under this number.
pub open spec fn awaiting(s: Seq<ConnSlot>, conn: u16, stream: u16) -> Option<int> {
    match slot_of(s, conn, 0) {
        Some(i) => if s[i].app.pending && s[i].app.generation == stream {
            Some(i)
        } else {
            None
        },
        None => None,
    }
}

/// What becomes of a response envelope.
#[derive(Clone, Copy, PartialEq, Eq, Structural, Debug)]
pub enum ResponseRoute {
    /// It does not parse, or nobody waits for it.
    Drop,
    /// Whom it is for has bytes to send first, or cannot send them yet: put it back.
    PutBack { len: usize },
    /// It answers an HTTP/2 stream of this slot.
    Stream { slot: usize, stream: usize, len: usize },
    /// It answers this slot's request.
    Slot { slot: usize, len: usize },
}

/// How long an envelope says it is.
pub open spec fn claimed_len(e: Seq<u8>) -> int {
    RESP_HDR + e[7] + u16_at(e, 8) + u16_at(e, 10)
}

/// What becomes of a response envelope. `h2_stream` is the HTTP/2 stream of the
/// connection's slot that waits for it, if any.
pub open spec fn route_response(
    s: Seq<ConnSlot>,
    e: Seq<u8>,
    h2_stream: Option<AwaitingStream>,
) -> ResponseRoute {
    match response_at(e) {
        None => ResponseRoute::Drop,
        Some(r) => {
            let len = claimed_len(e) as usize;
            match (slot_of(s, r.conn_id, 0), h2_stream) {
                (Some(i), Some(a)) => if s[i].tx.unsent().len() > 0 || a.holds {
                    ResponseRoute::PutBack { len }
                } else {
                    ResponseRoute::Stream { slot: i as usize, stream: a.stream, len }
                },
                _ => match awaiting(s, r.conn_id, r.stream_id) {
                    None => ResponseRoute::Drop,
                    Some(i) => if s[i].tx.unsent().len() > 0 {
                        ResponseRoute::PutBack { len }
                    } else {
                        ResponseRoute::Slot { slot: i as usize, len }
                    },
                },
            }
        },
    }
}

/// Whether an envelope claims more than one read carries.
pub open spec fn oversize(e: Seq<u8>) -> bool {
    e.len() >= RESP_HDR && claimed_len(e) > CHANNEL_BUFFER_SIZE
}

impl SlotTable {
    /// Find the slot that waits for a response.
    pub fn find_awaiting_slot(&self, conn: u16, stream: u16) -> (r: Option<usize>)
        requires
            self.wf(),
        ensures
            match r {
                Some(i) => awaiting(self.slots@, conn, stream) == Some(i as int) && i
                    < MAX_CONCURRENT_CONNS,
                None => awaiting(self.slots@, conn, stream) is None,
            },
    {
        match self.find_slot_by_conn_id(conn) {
            Some(i) => {
                if self.slots[i].app.pending && self.slots[i].app.generation == stream {
                    Some(i)
                } else {
                    None
                }
            },
            None => None,
        }
    }
}

impl Server {
    /// The generation of the next request handed to the application. Each is stamped
    /// with its own: the number of a connection is reused, and a late answer to the
    /// connection that had it before must not reach the one that has it now.
    pub fn next_generation(&mut self) -> (r: u16)
        requires
            old(self).wf(),
        ensures
            final(self).wf(),
            r == old(self).core.app_gen_next,
            *final(self) == (Server {
                core: ServerCore {
                    app_gen_next: generation_after(old(self).core.app_gen_next, 1),
                    ..old(self).core
                },
                ..*old(self)
            }),
    {
        let g: u16 = self.core.app_gen_next;
        self.core.app_gen_next = g.wrapping_add(1);
        g
    }

    /// Decide what becomes of a response envelope. One that claims more than one read
    /// carries is counted.
    pub fn drain_response(&mut self, envelope: &[u8], h2_stream: Option<AwaitingStream>) -> (r: ResponseRoute)
        requires
            old(self).wf(),
            envelope@.len() <= CHANNEL_BUFFER_SIZE,
        ensures
            final(self).wf(),
            r == route_response(old(self).table.slots@, envelope@, h2_stream),
            r matches ResponseRoute::Slot { slot, len } ==> slot < MAX_CONCURRENT_CONNS && len
                <= envelope@.len(),
            r matches ResponseRoute::Stream { slot, stream, len } ==> slot < MAX_CONCURRENT_CONNS
                && len <= envelope@.len(),
            r matches ResponseRoute::PutBack { len } ==> len <= envelope@.len(),
            *final(self) == (Server {
                shed: ShedMetrics {
                    app_envelopes_oversize: if oversize(envelope@) {
                        bumped(old(self).shed.app_envelopes_oversize)
                    } else {
                        old(self).shed.app_envelopes_oversize
                    },
                    ..old(self).shed
                },
                ..*old(self)
            }),
    {
        if envelope.len() < RESP_HDR {
            return ResponseRoute::Drop;
        }
        let len: usize = RESP_HDR + envelope[7] as usize + get_u16(envelope, 8) as usize + get_u16(
            envelope,
            10,
        ) as usize;
        if len > CHANNEL_BUFFER_SIZE {
            self.shed.app_envelopes_oversize = bump(self.shed.app_envelopes_oversize);
            return ResponseRoute::Drop;
        }
        let (conn, stream) = match parse_response(envelope) {
            Some(v) => (v.conn_id, v.stream_id),
            None => {
                return ResponseRoute::Drop;
            },
        };
        match h2_stream {
            Some(a) => {
                match self.table.find_slot_by_conn_id(conn) {
                    Some(i) => {
                        assert(self.table.slots@[i as int].wf());
                        if self.table.slots[i].tx.send_remaining() > 0 || a.holds {
                            return ResponseRoute::PutBack { len };
                        }
                        return ResponseRoute::Stream { slot: i, stream: a.stream, len };
                    },
                    None => {},
                }
            },
            None => {},
        }
        match self.table.find_awaiting_slot(conn, stream) {
            None => ResponseRoute::Drop,
            Some(i) => {
                assert(self.table.slots@[i as int].wf());
                if self.table.slots[i].tx.send_remaining() > 0 {
                    ResponseRoute::PutBack { len }
                } else {
                    ResponseRoute::Slot { slot: i, len }
                }
            },
        }
    }

    /// Count a stream that was refused for want of a place, and a request that no
    /// application answered in time.
    pub fn note_stream(&mut self, refused: bool, timed_out: bool)
        requires
            old(self).wf(),
        ensures
            final(self).wf(),
            *final(self) == (Server {
                shed: ShedMetrics {
                    h2_streams_refused: if refused {
                        bumped(old(self).shed.h2_streams_refused)
                    } else {
                        old(self).shed.h2_streams_refused
                    },
                    app_timeouts: if timed_out {
                        bumped(old(self).shed.app_timeouts)
                    } else {
                        old(self).shed.app_timeouts
                    },
                    ..old(self).shed
                },
                ..*old(self)
            }),
    {
        if refused {
            self.shed.h2_streams_refused = bump(self.shed.h2_streams_refused);
        }
        if timed_out {
            self.shed.app_timeouts = bump(self.shed.app_timeouts);
        }
    }

    /// Note whether an envelope could be put back. One that could not is lost.
    pub fn note_put_back(&mut self, ok: bool)
        requires
            old(self).wf(),
        ensures
            final(self).wf(),
            *final(self) == (Server {
                shed: ShedMetrics {
                    app_envelopes_lost: if ok {
                        old(self).shed.app_envelopes_lost
                    } else {
                        bumped(old(self).shed.app_envelopes_lost)
                    },
                    ..old(self).shed
                },
                ..*old(self)
            }),
    {
        if !ok {
            self.shed.app_envelopes_lost = bump(self.shed.app_envelopes_lost);
        }
    }
}

/// A response reaches only the request it answers: the connection it names has that
/// request, and no other, with the application. An answer to an earlier request, of
/// this holder of the connection's number or of another, reaches nobody.
pub proof fn law_response_reaches_only_its_request(s: Seq<ConnSlot>, e: Seq<u8>)
    requires
        response_at(e) is Some,
        s.len() <= usize::MAX,
    ensures
        ({
            let r = response_at(e)->0;
            &&& route_response(s, e, None) matches ResponseRoute::Slot { slot, len } ==> {
                let w = s[slot as int];
                w.conn_id == Some(r.conn_id) && w.app.pending && w.app.generation == r.stream_id
            }
            &&& (forall|i: int|
                0 <= i < s.len() && (#[trigger] s[i]).conn_id == Some(r.conn_id) && s[i].app.pending
                    ==> s[i].app.generation != r.stream_id) ==> route_response(s, e, None) is Drop
        }),
{
    lemma_slot_found(s, (response_at(e)->0).conn_id, 0);
}

proof fn lemma_slot_found(s: Seq<ConnSlot>, conn: u16, from: int)
    requires
        0 <= from,
    ensures
        slot_of(s, conn, from) matches Some(i) ==> from <= i < s.len() && s[i].conn_id == Some(
            conn,
        ),
    decreases s.len() - from,
{
    if from < s.len() && s[from].conn_id != Some(conn) {
        lemma_slot_found(s, conn, from + 1);
    }
}

// ── Reading and seeding a running server ────────────────────────────────

/// The load-shedding counters.
pub fn test_shed_metrics(s: &Server) -> (r: ShedMetrics)
    ensures
        r == s.shed,
{
    s.shed
}

/// Retried and failed relays.
pub fn test_proxy_metrics(s: &Server) -> (r: (u32, u32))
    ensures
        r == (s.proxy.retries, s.proxy.fives),
{
    (s.proxy.retries, s.proxy.fives)
}

/// Set the address of the client of a connection. Nothing when no slot has it.
pub fn test_set_client_ip(s: &mut Server, conn: u16, ip: u32)
    requires
        old(s).wf(),
    ensures
        final(s).wf(),
        match slot_of(old(s).table.slots@, conn, 0) {
            None => *final(s) == *old(s),
            Some(i) => {
                &&& *final(s) == (Server { table: final(s).table, ..*old(s) })
                &&& final(s).table == (SlotTable {
                    slots: final(s).table.slots,
                    ..old(s).table
                })
                &&& final(s).table.slots@ == old(s).table.slots@.update(
                    i,
                    ConnSlot { client_ip: ip, ..old(s).table.slots@[i] },
                )
            },
        },
{
    match s.table.find_slot_by_conn_id(conn) {
        Some(i) => {
            assert(s.table.slots@[i as int].wf());
            s.table.slots[i].client_ip = ip;
        },
        None => {},
    }
}

/// Turn the dynamic listeners on.
pub fn test_enable_listeners(s: &mut Server)
    requires
        old(s).wf(),
    ensures
        final(s).wf(),
        *final(s) == (Server { listeners_prefix: final(s).listeners_prefix, ..*old(s) }),
        final(s).listeners_prefix@ == seq![0x2fu8],
{
    let mut v: Vec<u8> = Vec::new();
    v.push(0x2f);
    assert(v@ =~= seq![0x2fu8]);
    s.listeners_prefix = v;
}

/// Add or replace a wanted listener.
pub fn test_inject_listener(s: &mut Server, key: &[u8], value: &[u8])
    requires
        old(s).wf(),
    ensures
        final(s).wf(),
        *final(s) == (Server { listeners: final(s).listeners, ..*old(s) }),
        final(s).listeners@ == (match upserted(old(s).listeners@.live, key@, value@) {
            Some(rows) => ListenersModel { live: rows, ..old(s).listeners@ },
            None => ListenersModel {
                dropped: bumped(old(s).listeners.dropped),
                ..old(s).listeners@
            },
        }),
{
    s.listeners.upsert(key, value, false);
}

/// Withdraw a wanted listener.
pub fn test_remove_listener(s: &mut Server, key: &[u8])
    requires
        old(s).wf(),
    ensures
        final(s).wf(),
        *final(s) == (Server { listeners: final(s).listeners, ..*old(s) }),
        final(s).listeners@ == (ListenersModel {
            live: withdrawn(old(s).listeners@.live, key@),
            ..old(s).listeners@
        }),
{
    s.listeners.remove(key, false);
}

/// State and listener of the bind record of a port.
pub fn test_listener_state(s: &Server, port: u16) -> (r: Option<(u8, i32)>)
    ensures
        r == (match bound_of(s.listeners@.bound, port, 0) {
            Some(i) => Some((s.listeners@.bound[i].state, s.listeners@.bound[i].conn_id)),
            None => None,
        }),
{
    s.listeners.test_bound_state(port)
}

} // verus!
