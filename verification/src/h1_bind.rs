//! Binding the configured port, and what arrives before it is bound.

use crate::bytes::{clip, get_u16, put_bytes, u16_at};
use crate::conn::{ConnSlot, Phase, SpanState, TraceCtx, RECV_BUF_SIZE};
use crate::net::{NET_MSG_ACCEPTED, NET_MSG_BOUND, NET_MSG_CLOSED, NET_MSG_DATA, NET_MSG_ERROR, NET_MSG_TRACE_CTX};
use crate::server::{Server, ServerCore};
use crate::slots::{clean_slot, free_slot_from, slot_of, ShedMetrics, SlotTable, MAX_CONCURRENT_CONNS};
use crate::listeners::bumped;
use vstd::prelude::*;
use vstd::slice::slice_subrange;

verus! {

/// Length of a trace-context payload: connection, trace, parent and flags.
pub const TRACE_CTX_LEN: usize = 27;

/// The number eight bytes denote, most significant first.
pub open spec fn be64_at(s: Seq<u8>, at: int) -> u64 {
    (0x100_0000_0000_0000 * s[at] + 0x1_0000_0000_0000 * s[at + 1] + 0x100_0000_0000 * s[at + 2]
        + 0x1_0000_0000 * s[at + 3] + 0x100_0000 * s[at + 4] + 0x1_0000 * s[at + 5] + 0x100 * s[at
        + 6] + s[at + 7]) as u64
}

fn get_be64(s: &[u8], at: usize) -> (r: u64)
    requires
        at + 8 <= s@.len(),
    ensures
        r == be64_at(s@, at as int),
{
    0x100_0000_0000_0000 * (s[at] as u64) + 0x1_0000_0000_0000 * (s[at + 1] as u64)
        + 0x100_0000_0000 * (s[at + 2] as u64) + 0x1_0000_0000 * (s[at + 3] as u64) + 0x100_0000 * (
    s[at + 4] as u64) + 0x1_0000 * (s[at + 5] as u64) + 0x100 * (s[at + 6] as u64) + s[at
        + 7] as u64
}

/// The context a trace-context payload carries.
pub open spec fn trace_ctx_at(p: Seq<u8>) -> TraceCtx {
    TraceCtx {
        trace_hi: be64_at(p, 2),
        trace_lo: be64_at(p, 10),
        parent: be64_at(p, 18),
        flags: p[26],
    }
}

/// What a record that arrives before the port is bound comes to.
#[derive(Clone, Copy, PartialEq, Eq, Structural, Debug)]
pub enum BindOutcome {
    /// The port is bound.
    Bound,
    /// It cannot be bound.
    Failed,
    /// The record has been dealt with.
    Taken,
    /// Close this connection: there is no room for it.
    Close(u16),
}

/// Whether slot `i` alone has become `slot`.
pub open spec fn one_slot(b: Server, a: Server, i: int, slot: ConnSlot) -> bool {
    &&& a == (Server { table: a.table, ..b })
    &&& a.table == (SlotTable { slots: a.table.slots, ..b.table })
    &&& a.table.slots@ == b.table.slots@.update(i, slot)
}

/// Whether a record that arrived before the port was bound has been acted on as it
/// should. Of a shared channel only what concerns our port counts.
pub open spec fn bind_acted(
    b: Server,
    a: Server,
    idx: int,
    kind: u8,
    p: Seq<u8>,
    buffers: bool,
    tracing: bool,
    r: BindOutcome,
) -> bool {
    let ours = p.len() < 4 || u16_at(p, 2) == b.core.port;
    let conn = u16_at(p, 0);
    let at = slot_of(b.table.slots@, conn, 0);
    if kind == NET_MSG_BOUND && ours {
        &&& r is Bound
        &&& a == (Server { table: a.table, core: ServerCore { bound: true, ..b.core }, ..b })
        &&& a.table == (SlotTable { slots: a.table.slots, ready: a.table.ready, ..b.table })
        &&& a.table.slots@ == b.table.slots@.update(
            idx,
            ConnSlot { phase: Phase::WaitAccept, ..b.table.slots@[idx] },
        )
        &&& a.table.ready@ == b.table.ready@.update(idx, false)
    } else if kind == NET_MSG_ERROR {
        r is Failed && one_slot(
            b,
            a,
            idx,
            ConnSlot { phase: Phase::Error, ..b.table.slots@[idx] },
        )
    } else if kind == NET_MSG_ACCEPTED && p.len() >= 2 && ours {
        match free_slot_from(b.table.slots@, 0) {
            None => r == BindOutcome::Close(conn) && a == (Server {
                shed: ShedMetrics {
                    conns_refused_slots: bumped(b.shed.conns_refused_slots),
                    ..b.shed
                },
                ..b
            }),
            Some(i) => if !buffers {
                r == BindOutcome::Close(conn) && a == (Server {
                    shed: ShedMetrics {
                        conns_refused_arena: bumped(b.shed.conns_refused_arena),
                        ..b.shed
                    },
                    ..b
                })
            } else {
                &&& r is Taken
                &&& a == (Server { table: a.table, ..b })
                &&& a.table == (SlotTable { slots: a.table.slots, ready: a.table.ready, ..b.table })
                &&& a.table.slots@ == b.table.slots@.update(
                    i,
                    ConnSlot {
                        conn_id: Some(conn),
                        span: SpanState::idle(),
                        phase: Phase::RecvRequest,
                        ..b.table.slots@[i]
                    },
                )
                &&& a.table.ready@ == b.table.ready@.update(i, true)
            },
        }
    } else if kind == NET_MSG_DATA && p.len() > 2 && at is Some {
        let i = at->0;
        let slot = a.table.slots@[i];
        &&& r is Taken
        &&& one_slot(b, a, i, slot)
        &&& slot == (ConnSlot { rx: slot.rx, ..b.table.slots@[i] })
        &&& slot.rx.head_end == b.table.slots@[i].rx.head_end
        &&& slot.rx.buf@ == clip(b.table.slots@[i].rx.buf@ + p.skip(2), RECV_BUF_SIZE as nat)
    } else if kind == NET_MSG_CLOSED && p.len() >= 2 && at is Some {
        r is Taken && one_slot(
            b,
            a,
            at->0,
            ConnSlot { peer_closed: true, ..b.table.slots@[at->0] },
        )
    } else if kind == NET_MSG_TRACE_CTX && p.len() >= TRACE_CTX_LEN && tracing && at is Some {
        r is Taken && one_slot(
            b,
            a,
            at->0,
            ConnSlot {
                span: SpanState { conn_ctx: trace_ctx_at(p), ..b.table.slots@[at->0].span },
                ..b.table.slots@[at->0]
            },
        )
    } else {
        r is Taken && a == b
    }
}

impl Server {
    /// Whether slot `idx` is the one that binds the port and serves nothing.
    pub open spec fn binds(self, idx: int) -> bool {
        let slot = self.table.slots@[idx];
        &&& slot.conn_id is None
        &&& !slot.free()
        &&& clean_slot(ConnSlot { phase: Phase::WaitAccept, ..slot })
        &&& self.table.connect_owner != Some(idx as usize)
    }

    /// Note that the bind has been issued.
    pub fn note_bind_sent(&mut self, idx: usize)
        requires
            old(self).wf(),
            idx < MAX_CONCURRENT_CONNS,
            old(self).table.slots@[idx as int].conn_id is None,
            old(self).table.slots@[idx as int].phase is Init || old(
                self,
            ).table.slots@[idx as int].phase is Binding,
            clean_slot(
                ConnSlot { phase: Phase::WaitAccept, ..old(self).table.slots@[idx as int] },
            ),
            old(self).table.connect_owner != Some(idx),
        ensures
            final(self).wf(),
            one_slot(
                *old(self),
                *final(self),
                idx as int,
                ConnSlot { phase: Phase::WaitBound, ..old(self).table.slots@[idx as int] },
            ),
            final(self).binds(idx as int),
    {
        assert(self.table.slots@[idx as int].wf());
        self.table.slots[idx].phase = Phase::WaitBound;
    }

    /// Act on a record that arrives before the port is bound, in slot `idx`, which binds
    /// it.
    pub fn bind_frame(
        &mut self,
        idx: usize,
        kind: u8,
        payload: &[u8],
        buffers: bool,
        tracing: bool,
    ) -> (r: BindOutcome)
        requires
            old(self).wf(),
            idx < MAX_CONCURRENT_CONNS,
            old(self).binds(idx as int),
        ensures
            final(self).wf(),
            bind_acted(
                *old(self),
                *final(self),
                idx as int,
                kind,
                payload@,
                buffers,
                tracing,
                r,
            ),
    {
        let n: usize = payload.len();
        let ours = n < 4 || get_u16(payload, 2) == self.core.port;
        assert(self.table.slots@[idx as int].wf());
        if kind == NET_MSG_BOUND {
            if !ours {
                return BindOutcome::Taken;
            }
            self.table.slots[idx].phase = Phase::WaitAccept;
            self.table.ready.set(idx, false);
            self.core.bound = true;
            return BindOutcome::Bound;
        }
        if kind == NET_MSG_ERROR {
            self.table.slots[idx].phase = Phase::Error;
            return BindOutcome::Failed;
        }
        if n < 2 {
            return BindOutcome::Taken;
        }
        let conn: u16 = get_u16(payload, 0);
        if kind == NET_MSG_ACCEPTED {
            if !ours {
                return BindOutcome::Taken;
            }
            match self.table.alloc_free_slot(conn, buffers, &mut self.shed) {
                Some(i) => {
                    assert(self.table.slots@[i as int].wf());
                    self.table.slots[i].phase = Phase::RecvRequest;
                    assert(self.table.slots@ =~= old(self).table.slots@.update(
                        i as int,
                        ConnSlot {
                            conn_id: Some(conn),
                            span: SpanState::idle(),
                            phase: Phase::RecvRequest,
                            ..old(self).table.slots@[i as int]
                        },
                    ));
                    return BindOutcome::Taken;
                },
                None => {
                    return BindOutcome::Close(conn);
                },
            }
        }
        let i: usize = match self.table.find_slot_by_conn_id(conn) {
            Some(i) => i,
            None => {
                return BindOutcome::Taken;
            },
        };
        assert(self.table.slots@[i as int].wf() && clean_slot(self.table.slots@[i as int]));
        if kind == NET_MSG_DATA {
            if n > 2 {
                let data = slice_subrange(payload, 2, n);
                assert(data@ =~= payload@.skip(2));
                put_bytes(&mut self.table.slots[i].rx.buf, RECV_BUF_SIZE, data);
                assert(self.table.slots@ =~= old(self).table.slots@.update(
                    i as int,
                    self.table.slots@[i as int],
                ));
            }
        } else if kind == NET_MSG_CLOSED {
            self.table.slots[i].peer_closed = true;
        } else if kind == NET_MSG_TRACE_CTX && n >= TRACE_CTX_LEN && tracing {
            self.table.slots[i].span.conn_ctx = TraceCtx {
                trace_hi: get_be64(payload, 2),
                trace_lo: get_be64(payload, 10),
                parent: get_be64(payload, 18),
                flags: payload[26],
            };
            assert(self.table.slots@ =~= old(self).table.slots@.update(
                i as int,
                self.table.slots@[i as int],
            ));
        }
        BindOutcome::Taken
    }
}

/// A number in so many bytes, the least significant last.
pub open spec fn big_endian(v: u64, n: nat) -> Seq<u8>
    decreases n,
{
    if n == 0 {
        Seq::empty()
    } else {
        big_endian(v / 256, (n - 1) as nat).push((v % 256) as u8)
    }
}

/// A number in eight bytes, the most significant first.
pub open spec fn eight_bytes(v: u64) -> Seq<u8> {
    big_endian(v, 8)
}

proof fn lemma_eight_digits(v: u64)
    ensures
        eight_bytes(v).len() == 8,
        be64_at(eight_bytes(v), 0) == v,
{
    reveal_with_fuel(big_endian, 9);
    let v1 = v / 256;
    let v2 = v1 / 256;
    let v3 = v2 / 256;
    let v4 = v3 / 256;
    let v5 = v4 / 256;
    let v6 = v5 / 256;
    let v7 = v6 / 256;
    assert(v7 < 256);
    assert(eight_bytes(v) =~= seq![
        v7 as u8,
        (v6 % 256) as u8,
        (v5 % 256) as u8,
        (v4 % 256) as u8,
        (v3 % 256) as u8,
        (v2 % 256) as u8,
        (v1 % 256) as u8,
        (v % 256) as u8,
    ]);
    assert(v6 == 0x100 * v7 + v6 % 256);
    assert(v5 == 0x1_0000 * v7 + 0x100 * (v6 % 256) + v5 % 256);
    assert(v4 == 0x100_0000 * v7 + 0x1_0000 * (v6 % 256) + 0x100 * (v5 % 256) + v4 % 256);
}

proof fn lemma_eight_bytes(pre: Seq<u8>, v: u64, rest: Seq<u8>)
    ensures
        be64_at(pre + eight_bytes(v) + rest, pre.len() as int) == v,
        eight_bytes(v).len() == 8,
{
    let e = eight_bytes(v);
    let s = pre + e + rest;
    let n = pre.len() as int;
    lemma_eight_digits(v);
    assert(s[n] == e[0]);
    assert(s[n + 1] == e[1]);
    assert(s[n + 2] == e[2]);
    assert(s[n + 3] == e[3]);
    assert(s[n + 4] == e[4]);
    assert(s[n + 5] == e[5]);
    assert(s[n + 6] == e[6]);
    assert(s[n + 7] == e[7]);
}

/// A trace context arrives as it was written: behind the connection the two halves of the
/// trace and the parent, the most significant byte first, and the flags.
pub proof fn law_trace_record_reads_back(
    conn: Seq<u8>,
    hi: u64,
    lo: u64,
    parent: u64,
    flags: u8,
)
    requires
        conn.len() == 2,
    ensures
        trace_ctx_at(conn + eight_bytes(hi) + eight_bytes(lo) + eight_bytes(parent) + seq![flags])
            == (TraceCtx { trace_hi: hi, trace_lo: lo, parent, flags }),
{
    let h = eight_bytes(hi);
    let l = eight_bytes(lo);
    let p = eight_bytes(parent);
    let f = seq![flags];
    let s = conn + h + l + p + f;
    lemma_eight_bytes(conn, hi, l + p + f);
    assert(s =~= conn + h + (l + p + f));
    lemma_eight_bytes(conn + h, lo, p + f);
    assert(s =~= conn + h + l + (p + f));
    lemma_eight_bytes(conn + h + l, parent, f);
    assert(h.len() == 8 && l.len() == 8 && p.len() == 8);
    assert(s[26] == flags);
}

} // verus!
