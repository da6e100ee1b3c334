//! The server around the connections: what arrives from the network and whom it is
//! for, what the end of a connection leaves to do, and which request a response
//! answers.

use crate::bytes::{clip, get_u16, put_bytes, u16_at};
use crate::cache::SEND_BUF_SIZE;
use crate::conn::{ConnSlot, Phase, ProxyLeg, RECV_BUF_SIZE};
use crate::listeners::{bound_marked, bump, bumped, is_listen_port, owns_port, refused_marked, DynListeners};
use crate::net::{
    NET_FRAME_HDR, NET_MSG_ACCEPTED, NET_MSG_BIND_REFUSED, NET_MSG_BOUND, NET_MSG_CLOSED, NET_MSG_CONNECTED,
    NET_MSG_DATA, NET_MSG_ERROR,
};
use crate::peers::PeerTable;
use crate::proxy::{is_proxy_relay_phase, relays, ProxyCounters};
use crate::slots::{backend_of, clean_slot, free_slot_from, slot_of, ShedMetrics, SlotTable, MAX_CONCURRENT_CONNS};
use vstd::prelude::*;
use vstd::slice::slice_subrange;

verus! {

/// The server's own configuration and state, beside its connections.
#[derive(Clone, Copy, PartialEq, Eq, Structural)]
pub struct ServerCore {
    /// The configured port.
    pub port: u16,
    /// Whether it is bound.
    pub bound: bool,
    /// Whether no new connection is admitted.
    pub draining: bool,
    /// The tag this server's dials carry; zero for none.
    pub requester_tag: u8,
    /// Whether the transport segments what it sends.
    pub host_tcp: bool,
    /// The generation of the next request handed to the application.
    pub app_gen_next: u16,
    pub bytes_in: u32,
    pub bytes_out: u32,
    /// Verified identities bound to connections, and records that bound none.
    pub peers_bound: u32,
    pub peers_unbound: u32,
}

pub struct Server {
    pub core: ServerCore,
    pub table: SlotTable,
    pub peers: PeerTable,
    pub listeners: DynListeners,
    pub listeners_prefix: Vec<u8>,
    pub shed: ShedMetrics,
    pub proxy: ProxyCounters,
}

// ── Whom a message is for ───────────────────────────────────────────────

/// Whom a message concerns.
#[derive(Clone, Copy, PartialEq, Eq, Structural, Debug)]
pub enum Target {
    Nobody,
    /// The client side of a slot.
    Client(usize),
    /// The backend side of a slot.
    Backend(usize),
    /// The slot whose dial is outstanding.
    Dialler(usize),
}

/// Whom a connection belongs to: a client first, then a backend.
pub open spec fn owner_of(s: Seq<ConnSlot>, conn: u16) -> Target {
    match slot_of(s, conn, 0) {
        Some(i) => Target::Client(i as usize),
        None => match backend_of(s, conn, 0) {
            Some(i) => Target::Backend(i as usize),
            None => Target::Nobody,
        },
    }
}

/// The slot whose dial is outstanding.
pub open spec fn dialler_of(t: SlotTable) -> Target {
    match t.connect_owner {
        Some(i) => Target::Dialler(i),
        None => Target::Nobody,
    }
}

/// Whom an error concerns. A tagged error is a failed dial and is known by its tag
/// alone; an untagged one is of an established connection and goes by its number. One
/// that is neither is a failed dial of ours only if our dials carry no tag.
pub open spec fn error_target(t: SlotTable, conn: u16, tag: u8, me: u8) -> Target {
    if tag != 0 {
        if tag == me {
            dialler_of(t)
        } else {
            Target::Nobody
        }
    } else if owner_of(t.slots@, conn) !is Nobody {
        owner_of(t.slots@, conn)
    } else if me == 0 {
        dialler_of(t)
    } else {
        Target::Nobody
    }
}

/// The slot after its side of a connection has ended or its dial has failed.
pub open spec fn told_ended(slot: ConnSlot, who: Target) -> ConnSlot {
    match who {
        Target::Nobody => slot,
        Target::Client(_) => ConnSlot { peer_closed: true, ..slot },
        Target::Backend(_) => ConnSlot { proxy: ProxyLeg { closed: true, ..slot.proxy }, ..slot },
        Target::Dialler(_) => ConnSlot {
            proxy: ProxyLeg { connect_failed: true, ..slot.proxy },
            ..slot
        },
    }
}

/// The slot a message concerns.
pub open spec fn target_slot(who: Target) -> Option<int> {
    match who {
        Target::Nobody => None,
        Target::Client(i) => Some(i as int),
        Target::Backend(i) => Some(i as int),
        Target::Dialler(i) => Some(i as int),
    }
}

/// The slots after the one concerned has been told.
pub open spec fn ended(s: Seq<ConnSlot>, who: Target) -> Seq<ConnSlot> {
    match target_slot(who) {
        None => s,
        Some(i) => s.update(i, told_ended(s[i], who)),
    }
}

/// The bytes a payload carries behind its connection number.
pub open spec fn data_of(payload: Seq<u8>) -> Seq<u8> {
    payload.skip(2)
}

/// Whether a slot has taken data for one of its sides: as much as there is room for,
/// and for a backend only while the slot relays.
pub open spec fn data_taken(before: ConnSlot, after: ConnSlot, who: Target, data: Seq<u8>) -> bool {
    match who {
        Target::Client(_) => {
            &&& after == (ConnSlot { rx: after.rx, ..before })
            &&& after.rx.head_end == before.rx.head_end
            &&& after.rx.buf@ == clip(before.rx.buf@ + data, RECV_BUF_SIZE as nat)
        },
        Target::Backend(_) => if relays(before.phase) {
            &&& after == (ConnSlot { tx: after.tx, ..before })
            &&& after.tx.sent == before.tx.sent
            &&& after.tx.buf@ == clip(before.tx.buf@ + data, SEND_BUF_SIZE as nat)
        } else {
            after == before
        },
        _ => after == before,
    }
}

/// How many bytes a slot takes.
pub open spec fn taken_len(slot: ConnSlot, who: Target, len: nat) -> nat {
    let room = match who {
        Target::Client(_) => (RECV_BUF_SIZE - slot.rx.buf@.len()) as nat,
        Target::Backend(_) => if relays(slot.phase) {
            (SEND_BUF_SIZE - slot.tx.buf@.len()) as nat
        } else {
            0
        },
        _ => 0,
    };
    if len < room {
        len
    } else {
        room
    }
}

/// What to do with the record at the front of the channel.
#[derive(Clone, Copy, PartialEq, Eq, Structural, Debug)]
pub enum Peek {
    /// Its header is not there yet.
    Wait,
    /// Whoever it is for has no room: leave it where it is.
    Stall,
    Take,
}

/// What to do with a record, going by its header and connection number.
pub open spec fn peek_of(s: Seq<ConnSlot>, hdr: Seq<u8>) -> Peek {
    if hdr.len() < NET_FRAME_HDR {
        Peek::Wait
    } else if hdr[0] == NET_MSG_DATA && u16_at(hdr, 1) > 2 {
        if hdr.len() < NET_FRAME_HDR + 2 {
            Peek::Wait
        } else {
            let n = u16_at(hdr, 1) - 2;
            match owner_of(s, u16_at(hdr, 3)) {
                Target::Client(i) => if n > RECV_BUF_SIZE - s[i as int].rx.buf@.len() {
                    Peek::Stall
                } else {
                    Peek::Take
                },
                Target::Backend(i) => if !relays(s[i as int].phase) || n > SEND_BUF_SIZE
                    - s[i as int].tx.buf@.len() {
                    Peek::Stall
                } else {
                    Peek::Take
                },
                _ => Peek::Take,
            }
        }
    } else {
        Peek::Take
    }
}

/// Data that is taken off the channel is kept whole: nothing is cut for want of room.
pub proof fn law_taken_data_is_kept_whole(s: Seq<ConnSlot>, hdr: Seq<u8>, data: Seq<u8>)
    requires
        hdr.len() >= 5,
        hdr[0] == NET_MSG_DATA,
        u16_at(hdr, 1) == data.len() + 2,
        data.len() > 0,
        peek_of(s, hdr) is Take,
    ensures
        match owner_of(s, u16_at(hdr, 3)) {
            Target::Client(i) => clip(s[i as int].rx.buf@ + data, RECV_BUF_SIZE as nat)
                == s[i as int].rx.buf@ + data,
            Target::Backend(i) => relays(s[i as int].phase) && clip(
                s[i as int].tx.buf@ + data,
                SEND_BUF_SIZE as nat,
            ) == s[i as int].tx.buf@ + data,
            _ => true,
        },
{
}

/// Another consumer's failed dial concerns nobody here, and ours concerns only the
/// slot that dialled, whatever connection number it carries.
pub proof fn law_failed_dials_are_told_apart(t: SlotTable, conn: u16, other: u16, tag: u8, me: u8)
    requires
        tag != 0,
    ensures
        tag != me ==> error_target(t, conn, tag, me) is Nobody,
        tag == me ==> error_target(t, conn, tag, me) == dialler_of(t),
        error_target(t, conn, tag, me) == error_target(t, other, tag, me),
{
}

proof fn lemma_owner(s: Seq<ConnSlot>, conn: u16)
    ensures
        target_slot(owner_of(s, conn)) matches Some(i) ==> 0 <= i < s.len() || s.len()
            > usize::MAX,
{
    lemma_slot_of(s, conn, 0);
    lemma_backend_of(s, conn, 0);
}

proof fn lemma_slot_of(s: Seq<ConnSlot>, conn: u16, from: int)
    requires
        0 <= from,
    ensures
        slot_of(s, conn, from) matches Some(i) ==> from <= i < s.len() && s[i].conn_id == Some(
            conn,
        ),
    decreases s.len() - from,
{
    if from < s.len() && s[from].conn_id != Some(conn) {
        lemma_slot_of(s, conn, from + 1);
    }
}

proof fn lemma_backend_of(s: Seq<ConnSlot>, conn: u16, from: int)
    requires
        0 <= from,
    ensures
        backend_of(s, conn, from) matches Some(i) ==> from <= i < s.len() && s[i].proxy.conn
            == Some(conn),
    decreases s.len() - from,
{
    if from < s.len() && s[from].proxy.conn != Some(conn) {
        lemma_backend_of(s, conn, from + 1);
    }
}

impl SlotTable {
    /// Whom a connection belongs to.
    pub fn owner(&self, conn: u16) -> (r: Target)
        requires
            self.wf(),
        ensures
            r == owner_of(self.slots@, conn),
            target_slot(r) matches Some(i) ==> i < MAX_CONCURRENT_CONNS,
            r matches Target::Client(i) ==> self.slots@[i as int].conn_id == Some(conn),
            r !is Dialler,
    {
        match self.find_slot_by_conn_id(conn) {
            Some(i) => Target::Client(i),
            None => match self.find_slot_by_backend_conn(conn) {
                Some(i) => Target::Backend(i),
                None => Target::Nobody,
            },
        }
    }

    fn dialler(&self) -> (r: Target)
        requires
            self.wf(),
        ensures
            r == dialler_of(*self),
            target_slot(r) matches Some(i) ==> i < MAX_CONCURRENT_CONNS,
    {
        match self.connect_owner {
            Some(i) => Target::Dialler(i),
            None => Target::Nobody,
        }
    }

    /// Tell whoever is concerned that a side of theirs has ended.
    fn tell_ended(&mut self, who: Target)
        requires
            old(self).wf(),
            target_slot(who) matches Some(i) ==> i < MAX_CONCURRENT_CONNS,
            who matches Target::Backend(i) ==> !old(self).slots@[i as int].free()
                || old(self).slots@[i as int].proxy.conn is Some,
            who is Dialler ==> who == dialler_of(*old(self)),
        ensures
            final(self).wf(),
            *final(self) == (SlotTable { slots: final(self).slots, ..*old(self) }),
            final(self).slots@ == ended(old(self).slots@, who),
    {
        match who {
            Target::Nobody => {},
            Target::Client(i) => {
                assert(self.slots@[i as int].wf() && clean_slot(self.slots@[i as int]));
                self.slots[i].peer_closed = true;
            },
            Target::Backend(i) => {
                assert(self.slots@[i as int].wf() && clean_slot(self.slots@[i as int]));
                self.slots[i].proxy.closed = true;
            },
            Target::Dialler(i) => {
                assert(self.slots@[i as int].wf() && clean_slot(self.slots@[i as int]));
                self.slots[i].proxy.connect_failed = true;
            },
        }
    }

    /// Hand data to whoever it is for. Returns how many bytes were taken.
    pub fn deliver(&mut self, conn: u16, data: &[u8]) -> (n: usize)
        requires
            old(self).wf(),
        ensures
            final(self).wf(),
            *final(self) == (SlotTable { slots: final(self).slots, ..*old(self) }),
            match target_slot(owner_of(old(self).slots@, conn)) {
                None => n == 0 && *final(self) == *old(self),
                Some(i) => {
                    &&& 0 <= i < MAX_CONCURRENT_CONNS
                    &&& final(self).slots@ == old(self).slots@.update(i, final(self).slots@[i])
                    &&& data_taken(
                        old(self).slots@[i],
                        final(self).slots@[i],
                        owner_of(old(self).slots@, conn),
                        data@,
                    )
                    &&& n == taken_len(
                        old(self).slots@[i],
                        owner_of(old(self).slots@, conn),
                        data@.len(),
                    )
                },
            },
    {
        proof {
            lemma_owner(self.slots@, conn);
            lemma_backend_of(self.slots@, conn, 0);
            lemma_slot_of(self.slots@, conn, 0);
        }
        match self.owner(conn) {
            Target::Client(i) => {
                assert(self.slots@[i as int].wf() && clean_slot(self.slots@[i as int]));
                let before: usize = self.slots[i].rx.buf.len();
                put_bytes(&mut self.slots[i].rx.buf, RECV_BUF_SIZE, data);
                assert(self.slots@ =~= old(self).slots@.update(i as int, self.slots@[i as int]));
                self.slots[i].rx.buf.len() - before
            },
            Target::Backend(i) => {
                assert(self.slots@[i as int].wf() && clean_slot(self.slots@[i as int]));
                if is_proxy_relay_phase(self.slots[i].phase) {
                    let before: usize = self.slots[i].tx.buf.len();
                    put_bytes(&mut self.slots[i].tx.buf, SEND_BUF_SIZE, data);
                    assert(self.slots@ =~= old(self).slots@.update(
                        i as int,
                        self.slots@[i as int],
                    ));
                    self.slots[i].tx.buf.len() - before
                } else {
                    assert(self.slots@ =~= old(self).slots@.update(
                        i as int,
                        self.slots@[i as int],
                    ));
                    0
                }
            },
            _ => 0,
        }
    }
}

// ── The server ──────────────────────────────────────────────────────────

/// A count with `by` more, wrapping.
pub open spec fn wrapped(n: u32, by: nat) -> u32 {
    ((n + by) % 0x1_0000_0000) as u32
}

fn wrap_count(n: u32, by: usize) -> (r: u32)
    requires
        by <= u16::MAX,
    ensures
        r == wrapped(n, by as nat),
{
    n.wrapping_add(by as u32)
}

/// Whether connections on a port are ours to accept.
pub open spec fn listening(s: Server, port: u16) -> bool {
    port == s.core.port || owns_port(s.listeners@.bound, port)
}

/// Whether an announced connection has been admitted as it should: given a slot, or
/// closed at once when the server drains or has no room. Another listener's
/// connection is left alone.
pub open spec fn admitted(b: Server, a: Server, conn: u16, ours: bool, buffers: bool, r: Option<u16>) -> bool {
    if !ours {
        a == b && r is None
    } else if b.core.draining {
        a == b && r == Some(conn)
    } else {
        match free_slot_from(b.table.slots@, 0) {
            None => r == Some(conn) && a == (Server {
                shed: ShedMetrics {
                    conns_refused_slots: bumped(b.shed.conns_refused_slots),
                    ..b.shed
                },
                ..b
            }),
            Some(i) => if !buffers {
                r == Some(conn) && a == (Server {
                    shed: ShedMetrics {
                        conns_refused_arena: bumped(b.shed.conns_refused_arena),
                        ..b.shed
                    },
                    ..b
                })
            } else {
                &&& r is None
                &&& a == (Server { table: a.table, ..b })
                &&& a.table == (SlotTable { slots: a.table.slots, ready: a.table.ready, ..b.table })
                &&& a.table.slots@ == b.table.slots@.update(
                    i,
                    ConnSlot {
                        conn_id: Some(conn),
                        span: crate::conn::SpanState::idle(),
                        phase: Phase::RecvRequest,
                        ..b.table.slots@[i]
                    },
                )
                &&& a.table.ready@ == b.table.ready@.update(i, true)
            },
        }
    }
}

/// Whether data has been delivered as it should.
pub open spec fn delivered(b: Server, a: Server, conn: u16, data: Seq<u8>) -> bool {
    let who = owner_of(b.table.slots@, conn);
    match target_slot(who) {
        None => a == b,
        Some(i) => {
            &&& a == (Server { table: a.table, core: a.core, ..b })
            &&& a.table == (SlotTable { slots: a.table.slots, ..b.table })
            &&& a.table.slots@ == b.table.slots@.update(i, a.table.slots@[i])
            &&& data_taken(b.table.slots@[i], a.table.slots@[i], who, data)
            &&& a.core == (ServerCore {
                bytes_in: wrapped(
                    b.core.bytes_in,
                    taken_len(b.table.slots@[i], who, data.len()),
                ),
                ..b.core
            })
        },
    }
}

/// Whether whoever is concerned has been told that a side of theirs ended, and nothing
/// else happened.
pub open spec fn told(b: Server, a: Server, who: Target) -> bool {
    &&& a == (Server { table: a.table, ..b })
    &&& a.table == (SlotTable { slots: a.table.slots, ..b.table })
    &&& a.table.slots@ == ended(b.table.slots@, who)
}

/// Whether a dial's success has been noted: the slot whose dial is outstanding has its
/// backend.
pub open spec fn connected(b: Server, a: Server, conn: u16, tag: u8) -> bool {
    if (tag == 0 || tag == b.core.requester_tag) && b.table.connect_owner is Some {
        let i = (b.table.connect_owner->0) as int;
        &&& a == (Server { table: a.table, ..b })
        &&& a.table == (SlotTable { slots: a.table.slots, ..b.table })
        &&& a.table.slots@ == b.table.slots@.update(
            i,
            ConnSlot {
                proxy: ProxyLeg {
                    conn: Some(conn),
                    connected: true,
                    ..b.table.slots@[i].proxy
                },
                ..b.table.slots@[i]
            },
        )
    } else {
        a == b
    }
}

/// The tag of an announcement that carries one in byte `at`; zero for none.
pub open spec fn tag_at(p: Seq<u8>, at: int) -> u8 {
    if p.len() > at {
        p[at]
    } else {
        0
    }
}

/// Whether a record has been acted on as it should. `r` is the connection to close.
pub open spec fn demuxed(b: Server, a: Server, kind: u8, p: Seq<u8>, buffers: bool, r: Option<u16>) -> bool {
    let conn = u16_at(p, 0);
    if kind == NET_MSG_ACCEPTED && p.len() >= 2 {
        admitted(b, a, conn, p.len() < 4 || listening(b, u16_at(p, 2)), buffers, r)
    } else if kind == NET_MSG_BOUND && p.len() >= 4 {
        &&& r is None
        &&& a == (Server { listeners: a.listeners, ..b })
        &&& a.listeners@ == bound_marked(b.listeners@, u16_at(p, 2), conn as i32)
    } else if kind == NET_MSG_BIND_REFUSED && b.listeners_prefix@.len() > 0 && p.len() >= 2 {
        &&& r is None
        &&& a == (Server { listeners: a.listeners, ..b })
        &&& a.listeners@ == refused_marked(b.listeners@, u16_at(p, 0))
    } else if kind == NET_MSG_DATA && p.len() > 2 {
        r is None && delivered(b, a, conn, data_of(p))
    } else if kind == NET_MSG_CONNECTED && p.len() >= 2 {
        r is None && connected(b, a, conn, tag_at(p, 2))
    } else if kind == NET_MSG_ERROR && p.len() >= 2 {
        r is None && told(
            b,
            a,
            error_target(b.table, conn, tag_at(p, 3), b.core.requester_tag),
        )
    } else if kind == NET_MSG_CLOSED && p.len() >= 2 {
        r is None && told(b, a, owner_of(b.table.slots@, conn))
    } else {
        r is None && a == b
    }
}

/// Data for one connection reaches that connection's slot and no other: the others stay
/// as they are, whoever sends and however much.
pub proof fn law_data_reaches_only_its_connection(
    b: Server,
    a: Server,
    p: Seq<u8>,
    buffers: bool,
    r: Option<u16>,
    i: int,
)
    requires
        b.wf(),
        demuxed(b, a, NET_MSG_DATA, p, buffers, r),
        0 <= i < MAX_CONCURRENT_CONNS,
        target_slot(owner_of(b.table.slots@, u16_at(p, 0))) != Some(i),
    ensures
        a.table.slots@[i] == b.table.slots@[i],
{
    lemma_owner(b.table.slots@, u16_at(p, 0));
}

impl Server {
    pub open spec fn wf(self) -> bool {
        &&& self.table.wf()
        &&& self.listeners.wf()
        &&& self.peers.entries@.len() == MAX_CONCURRENT_CONNS
    }

    /// A server that serves nothing yet.
    pub fn new(requester_tag: u8, host_tcp: bool) -> (r: Server)
        ensures
            r.wf(),
            r.core == (ServerCore {
                port: 80,
                bound: false,
                draining: false,
                requester_tag,
                host_tcp,
                app_gen_next: 0,
                bytes_in: 0,
                bytes_out: 0,
                peers_bound: 0,
                peers_unbound: 0,
            }),
            r.shed == ShedMetrics::none(),
            r.proxy == (ProxyCounters { retries: 0, fives: 0 }),
            r.listeners_prefix@.len() == 0,
            forall|conn: u16| r.peers.svid_of(conn) is None,
            forall|i: int|
                0 <= i < MAX_CONCURRENT_CONNS ==> (#[trigger] r.table.slots@[i]).is_blank(),
    {
        Server {
            core: ServerCore {
                port: 80,
                bound: false,
                draining: false,
                requester_tag,
                host_tcp,
                app_gen_next: 0,
                bytes_in: 0,
                bytes_out: 0,
                peers_bound: 0,
                peers_unbound: 0,
            },
            table: SlotTable::new(),
            peers: PeerTable::new(MAX_CONCURRENT_CONNS),
            listeners: DynListeners::new(),
            listeners_prefix: Vec::new(),
            shed: ShedMetrics::zero(),
            proxy: ProxyCounters { retries: 0, fives: 0 },
        }
    }

    /// Decide what to do with the record whose first bytes are `hdr`. A stall is
    /// counted.
    pub fn demux_peek(&mut self, hdr: &[u8]) -> (r: Peek)
        requires
            old(self).wf(),
        ensures
            final(self).wf(),
            r == peek_of(old(self).table.slots@, hdr@),
            *final(self) == (Server {
                shed: ShedMetrics {
                    demux_stalls: if r is Stall {
                        bumped(old(self).shed.demux_stalls)
                    } else {
                        old(self).shed.demux_stalls
                    },
                    ..old(self).shed
                },
                ..*old(self)
            }),
    {
        if hdr.len() < NET_FRAME_HDR {
            return Peek::Wait;
        }
        let len: u16 = get_u16(hdr, 1);
        if hdr[0] != NET_MSG_DATA || len <= 2 {
            return Peek::Take;
        }
        if hdr.len() < NET_FRAME_HDR + 2 {
            return Peek::Wait;
        }
        let n: usize = len as usize - 2;
        let stall = match self.table.owner(get_u16(hdr, 3)) {
            Target::Client(i) => {
                assert(self.table.slots@[i as int].wf());
                n > RECV_BUF_SIZE - self.table.slots[i].rx.buf.len()
            },
            Target::Backend(i) => {
                assert(self.table.slots@[i as int].wf());
                !is_proxy_relay_phase(self.table.slots[i].phase) || n > SEND_BUF_SIZE
                    - self.table.slots[i].tx.buf.len()
            },
            _ => false,
        };
        if stall {
            self.shed.demux_stalls = bump(self.shed.demux_stalls);
            Peek::Stall
        } else {
            Peek::Take
        }
    }

    fn accept_conn(&mut self, conn: u16, ours: bool, buffers: bool) -> (r: Option<u16>)
        requires
            old(self).wf(),
        ensures
            final(self).wf(),
            admitted(*old(self), *final(self), conn, ours, buffers, r),
    {
        if !ours {
            return None;
        }
        if self.core.draining {
            return Some(conn);
        }
        match self.table.alloc_free_slot(conn, buffers, &mut self.shed) {
            Some(i) => {
                assert(self.table.slots@[i as int].wf());
                self.table.slots[i].phase = Phase::RecvRequest;
                assert(self.table.slots@ =~= old(self).table.slots@.update(
                    i as int,
                    ConnSlot {
                        conn_id: Some(conn),
                        span: crate::conn::SpanState::idle(),
                        phase: Phase::RecvRequest,
                        ..old(self).table.slots@[i as int]
                    },
                ));
                None
            },
            None => Some(conn),
        }
    }

    fn note_connected(&mut self, conn: u16, tag: u8)
        requires
            old(self).wf(),
        ensures
            final(self).wf(),
            connected(*old(self), *final(self), conn, tag),
    {
        if tag == 0 || tag == self.core.requester_tag {
            match self.table.connect_owner {
                Some(i) => {
                    assert(self.table.slots@[i as int].wf());
                    self.table.slots[i].proxy.conn = Some(conn);
                    self.table.slots[i].proxy.connected = true;
                    assert(self.table.slots@ =~= old(self).table.slots@.update(
                        i as int,
                        self.table.slots@[i as int],
                    ));
                },
                None => {},
            }
        }
    }

    fn note_error(&mut self, conn: u16, tag: u8)
        requires
            old(self).wf(),
        ensures
            final(self).wf(),
            told(
                *old(self),
                *final(self),
                error_target(old(self).table, conn, tag, old(self).core.requester_tag),
            ),
    {
        proof {
            lemma_backend_of(self.table.slots@, conn, 0);
        }
        let me: u8 = self.core.requester_tag;
        let who = if tag != 0 {
            if tag == me {
                self.table.dialler()
            } else {
                Target::Nobody
            }
        } else {
            let o = self.table.owner(conn);
            if o != Target::Nobody {
                o
            } else if me == 0 {
                self.table.dialler()
            } else {
                Target::Nobody
            }
        };
        self.table.tell_ended(who);
    }

    fn note_closed(&mut self, conn: u16)
        requires
            old(self).wf(),
        ensures
            final(self).wf(),
            told(*old(self), *final(self), owner_of(old(self).table.slots@, conn)),
    {
        proof {
            lemma_backend_of(self.table.slots@, conn, 0);
        }
        let who = self.table.owner(conn);
        self.table.tell_ended(who);
    }

    fn note_data(&mut self, conn: u16, data: &[u8])
        requires
            old(self).wf(),
            data@.len() <= u16::MAX,
        ensures
            final(self).wf(),
            delivered(*old(self), *final(self), conn, data@),
    {
        let n: usize = self.table.deliver(conn, data);
        proof {
            lemma_owner(old(self).table.slots@, conn);
        }
        assert(wrapped(self.core.bytes_in, 0) == self.core.bytes_in);
        self.core.bytes_in = wrap_count(self.core.bytes_in, n);
    }

    /// Act on one record. `buffers` says whether a new connection's buffers can be had.
    /// Returns a connection to close.
    pub fn demux_frame(&mut self, kind: u8, payload: &[u8], buffers: bool) -> (r: Option<u16>)
        requires
            old(self).wf(),
            payload@.len() <= u16::MAX,
        ensures
            final(self).wf(),
            demuxed(*old(self), *final(self), kind, payload@, buffers, r),
    {
        let n: usize = payload.len();
        if n < 2 {
            return None;
        }
        let conn: u16 = get_u16(payload, 0);
        if kind == NET_MSG_ACCEPTED {
            let ours = n < 4 || is_listen_port(
                get_u16(payload, 2),
                self.core.port,
                &self.listeners,
            );
            return self.accept_conn(conn, ours, buffers);
        }
        if kind == NET_MSG_BOUND {
            if n >= 4 {
                self.listeners.mark_bound(get_u16(payload, 2), conn as i32);
            }
        } else if kind == NET_MSG_BIND_REFUSED {
            if self.listeners_prefix.len() > 0 {
                self.listeners.mark_refused(conn);
            }
        } else if kind == NET_MSG_DATA {
            if n > 2 {
                let data = slice_subrange(payload, 2, n);
                assert(data@ =~= data_of(payload@));
                self.note_data(conn, data);
            }
        } else if kind == NET_MSG_CONNECTED {
            let tag: u8 = if n > 2 {
                payload[2]
            } else {
                0
            };
            self.note_connected(conn, tag);
        } else if kind == NET_MSG_ERROR {
            let tag: u8 = if n > 3 {
                payload[3]
            } else {
                0
            };
            self.note_error(conn, tag);
        } else if kind == NET_MSG_CLOSED {
            self.note_closed(conn);
        }
        None
    }
}

} // verus!
