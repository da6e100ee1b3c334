//! WebSocket connections on HTTP/1.1: the newest subscriber takes the fan-out over, a
//! late one first sees what was sent last, and a closing handshake is best effort.

use crate::bytes::{get_u16, u16_at};
use crate::conn::{ConnSlot, Outbox, Phase, WsConn};
use crate::slots::{SlotTable, MAX_CONCURRENT_CONNS};
use crate::ws_wire::{write_frame, ws_frame_bytes, OP_CLOSE};
use vstd::prelude::*;

verus! {

/// Messages handled for one connection in one tick.
pub const WS_BATCH_PER_TICK: usize = 32;

/// Front of a retained message: opcode, final flag and length.
pub const RETAINED_ENVELOPE_HDR: usize = 4;

// ── Opening ─────────────────────────────────────────────────────────────

/// Go on with the handshake. Returns true once it has been sent; then the connection is
/// a WebSocket.
pub fn step_ws_handshake(slot: &mut ConnSlot) -> (done: bool)
    requires
        old(slot).wf(),
    ensures
        final(slot).wf(),
        done == (old(slot).tx.unsent().len() == 0),
        if done {
            &&& *final(slot) == (ConnSlot {
                tx: final(slot).tx,
                phase: Phase::WsActive,
                ..*old(slot)
            })
            &&& final(slot).tx.is_blank()
        } else {
            *final(slot) == *old(slot)
        },
{
    if slot.tx.send_remaining() > 0 {
        return false;
    }
    slot.tx.clear();
    slot.phase = Phase::WsActive;
    true
}

impl SlotTable {
    /// Make a slot the newest fan-out subscriber, if it is one.
    pub fn note_fanout(&mut self, idx: usize)
        requires
            old(self).wf(),
            idx < MAX_CONCURRENT_CONNS,
        ensures
            final(self).wf(),
            *final(self) == (SlotTable {
                latest_fanout: if old(self).slots@[idx as int].ws.fan_out {
                    Some(idx)
                } else {
                    old(self).latest_fanout
                },
                ..*old(self)
            }),
    {
        if self.slots[idx].ws.fan_out {
            self.latest_fanout = Some(idx);
        }
    }

    /// Whether a newer subscriber has taken the fan-out over from this one.
    pub open spec fn displaced(self, idx: usize) -> bool {
        self.slots@[idx as int].ws.fan_out && self.latest_fanout is Some && self.latest_fanout
            != Some(idx)
    }

    pub fn is_displaced(&self, idx: usize) -> (r: bool)
        requires
            self.wf(),
            idx < MAX_CONCURRENT_CONNS,
        ensures
            r == self.displaced(idx),
    {
        self.slots[idx].ws.fan_out && self.latest_fanout.is_some() && self.latest_fanout != Some(
            idx,
        )
    }
}

/// Of two subscribers only the newest stays: once a slot has become the newest, every
/// other subscriber is displaced, and it is not.
pub proof fn law_newest_subscriber_stays(t: SlotTable, idx: usize, other: usize)
    requires
        t.latest_fanout == Some(idx),
        t.slots@[other as int].ws.fan_out,
        other != idx,
    ensures
        t.displaced(other),
        !t.displaced(idx),
{
}

// ── The active phase ────────────────────────────────────────────────────

/// What an active connection may do on a tick.
#[derive(Clone, Copy, PartialEq, Eq, Structural, Debug)]
pub enum WsGate {
    /// Its peer has gone.
    Gone,
    /// It was displaced and says goodbye.
    Closing,
    /// It was displaced and first sends what it has.
    Flush,
    /// It was displaced in the middle of a message.
    Wait,
    Go,
}

/// A close frame with this code.
pub open spec fn close_frame(code: u16) -> Seq<u8> {
    ws_frame_bytes(true, OP_CLOSE, seq![(code / 256) as u8, (code % 256) as u8])
}

/// Whether an active slot has been let through, or stopped, as it should.
pub open spec fn gated(before: ConnSlot, after: ConnSlot, displaced: bool, code: u16, r: WsGate) -> bool {
    if before.peer_closed {
        r is Gone && after == (ConnSlot {
            ws: WsConn { fan_out: false, ..before.ws },
            phase: Phase::CloseConn,
            ..before
        })
    } else if !displaced {
        r is Go && after == before
    } else if before.tx.buf@.len() == 0 && !before.ws.frag_active {
        &&& r is Closing
        &&& after == (ConnSlot {
            tx: after.tx,
            ws: WsConn { close_code: code, ..before.ws },
            phase: Phase::WsClose,
            ..before
        })
        &&& after.tx.buf@ == close_frame(code)
        &&& after.tx.sent == 0
    } else if before.tx.unsent().len() > 0 {
        r is Flush && after == before
    } else {
        r is Wait && after == before
    }
}

/// Say goodbye with a code.
pub fn ws_begin_close(slot: &mut ConnSlot, code: u16)
    requires
        old(slot).wf(),
    ensures
        final(slot).wf(),
        *final(slot) == (ConnSlot {
            tx: final(slot).tx,
            ws: WsConn { close_code: code, ..old(slot).ws },
            phase: Phase::WsClose,
            ..*old(slot)
        }),
        final(slot).tx.buf@ == close_frame(code),
        final(slot).tx.sent == 0,
{
    let mut payload: Vec<u8> = Vec::new();
    payload.push((code / 256) as u8);
    payload.push((code % 256) as u8);
    assert(payload@ =~= seq![(code / 256) as u8, (code % 256) as u8]);
    let frame: Vec<u8> = write_frame(true, OP_CLOSE, payload.as_slice());
    slot.tx.stage(frame);
    slot.ws.close_code = code;
    slot.phase = Phase::WsClose;
}

/// Decide what an active connection may do on this tick. `code` is what a displaced one
/// says goodbye with.
pub fn ws_gate(slot: &mut ConnSlot, displaced: bool, code: u16) -> (r: WsGate)
    requires
        old(slot).wf(),
    ensures
        final(slot).wf(),
        gated(*old(slot), *final(slot), displaced, code, r),
{
    if slot.peer_closed {
        slot.ws.fan_out = false;
        slot.phase = Phase::CloseConn;
        return WsGate::Gone;
    }
    if !displaced {
        return WsGate::Go;
    }
    if slot.tx.buf.len() == 0 && !slot.ws.frag_active {
        ws_begin_close(slot, code);
        return WsGate::Closing;
    }
    if slot.tx.send_remaining() > 0 {
        WsGate::Flush
    } else {
        WsGate::Wait
    }
}

/// Whether what was received may be processed now: there is room for an answer, or it
/// is the peer's goodbye, which needs none.
pub fn ws_may_process(slot: &ConnSlot) -> (r: bool)
    requires
        slot.wf(),
    ensures
        r == (slot.tx.buf@.len() == 0 || (slot.rx.buf@.len() > 0 && slot.rx.buf@[0] == 0x88)),
{
    slot.tx.buf.len() == 0 || (slot.rx.buf.len() > 0 && slot.rx.buf[0] == 0x88)
}

/// Act on a send that has just been tried, `left` bytes having been unsent before it: once
/// all are out the buffer is free. Returns whether any went out.
pub fn ws_flushed(slot: &mut ConnSlot, left: usize) -> (moved: bool)
    requires
        old(slot).wf(),
    ensures
        final(slot).wf(),
        moved == (old(slot).tx.unsent().len() < left),
        if left > 0 && old(slot).tx.unsent().len() == 0 {
            *final(slot) == (ConnSlot { tx: final(slot).tx, ..*old(slot) })
                && final(slot).tx.is_blank()
        } else {
            *final(slot) == *old(slot)
        },
{
    let now: usize = slot.tx.send_remaining();
    if left > 0 && now == 0 {
        slot.tx.clear();
    }
    now < left
}

/// Whether the next message of the fan-out may be taken: the slot is a subscriber and its
/// buffer is free.
pub fn ws_may_output(slot: &ConnSlot) -> (r: bool)
    requires
        slot.wf(),
    ensures
        r == (slot.tx.buf@.len() == 0 && slot.ws.fan_out),
{
    slot.tx.buf.len() == 0 && slot.ws.fan_out
}

/// The rounds of one tick of a WebSocket: each sends, takes a message of the fan-out and
/// handles one received.
#[derive(Clone, Copy, PartialEq, Eq, Structural, Debug)]
pub struct WsBatch {
    pub rounds: usize,
    /// Some round moved something.
    pub any: bool,
}

impl WsBatch {
    pub fn new() -> (r: WsBatch)
        ensures
            r == (WsBatch { rounds: 0, any: false }),
    {
        WsBatch { rounds: 0, any: false }
    }

    /// Note a round: `moved` says whether any part of it did anything. Returns whether
    /// another follows: not after one that did nothing, nor once the connection is
    /// closing, nor beyond what one tick handles.
    pub fn round(&mut self, moved: bool, phase: Phase) -> (again: bool)
        requires
            old(self).rounds < WS_BATCH_PER_TICK,
        ensures
            *final(self) == (WsBatch {
                rounds: (old(self).rounds + 1) as usize,
                any: old(self).any || moved,
            }),
            again == (moved && phase is WsActive && final(self).rounds < WS_BATCH_PER_TICK),
    {
        self.rounds = self.rounds + 1;
        if moved {
            self.any = true;
        }
        moved && phase == Phase::WsActive && self.rounds < WS_BATCH_PER_TICK
    }
}

// ── Replay ──────────────────────────────────────────────────────────────

/// What a late subscriber is given next of what was sent before it came.
#[derive(Clone, Copy, PartialEq, Eq, Structural, Debug)]
pub enum Replay {
    /// Nothing now.
    Skip,
    /// Nothing any more.
    Over,
    /// The message at `at`.
    Message { op: u8, fin: bool, at: usize, len: usize },
}

/// Whether a slot is due a replay.
pub open spec fn replays(slot: ConnSlot) -> bool {
    slot.ws.fan_out && !slot.ws.replay_done && !slot.ws.frag_active && slot.tx.buf@.len() == 0
}

/// The end of what is replayed: what was held when the replay started. What came after
/// reaches the subscriber as it is sent.
pub open spec fn replay_end(ws: WsConn, used: nat) -> u32 {
    if ws.replay_started {
        ws.replay_target
    } else {
        used as u32
    }
}

/// What is replayed next.
pub open spec fn replay_of(ws: WsConn, held: Seq<u8>) -> Replay {
    let end = replay_end(ws, held.len());
    let at = ws.replay_offset as int;
    if at >= end || held.len() < end {
        Replay::Over
    } else if at + RETAINED_ENVELOPE_HDR > end {
        Replay::Skip
    } else {
        let len = u16_at(held, at + 2);
        if at + RETAINED_ENVELOPE_HDR + len > end {
            Replay::Over
        } else {
            Replay::Message {
                op: held[at],
                fin: held[at + 1] != 0,
                at: (at + RETAINED_ENVELOPE_HDR) as usize,
                len: len as usize,
            }
        }
    }
}

/// Decide what is replayed next, out of what is held.
pub fn step_replay(slot: &mut ConnSlot, held: &[u8]) -> (r: Replay)
    requires
        old(slot).wf(),
        held@.len() <= u32::MAX,
    ensures
        final(slot).wf(),
        if !replays(*old(slot)) {
            r is Skip && *final(slot) == *old(slot)
        } else {
            &&& r == replay_of(old(slot).ws, held@)
            &&& *final(slot) == (ConnSlot {
                ws: WsConn {
                    replay_started: true,
                    replay_target: replay_end(old(slot).ws, held@.len()),
                    replay_done: r is Over,
                    ..old(slot).ws
                },
                ..*old(slot)
            })
        },
{
    if !(slot.ws.fan_out && !slot.ws.replay_done && !slot.ws.frag_active && slot.tx.buf.len()
        == 0) {
        return Replay::Skip;
    }
    if !slot.ws.replay_started {
        slot.ws.replay_target = held.len() as u32;
        slot.ws.replay_started = true;
    }
    let end: usize = slot.ws.replay_target as usize;
    let at: usize = slot.ws.replay_offset as usize;
    if at >= end || held.len() < end {
        slot.ws.replay_done = true;
        return Replay::Over;
    }
    if end - at < RETAINED_ENVELOPE_HDR {
        return Replay::Skip;
    }
    let len: usize = get_u16(held, at + 2) as usize;
    if end - at - RETAINED_ENVELOPE_HDR < len {
        slot.ws.replay_done = true;
        return Replay::Over;
    }
    Replay::Message {
        op: held[at],
        fin: held[at + 1] != 0,
        at: at + RETAINED_ENVELOPE_HDR,
        len,
    }
}

/// Note whether a replayed message of `len` bytes could be queued. If not, the replay
/// is over.
pub fn note_replayed(slot: &mut ConnSlot, len: usize, queued: bool)
    requires
        old(slot).wf(),
        len <= u16::MAX,
    ensures
        final(slot).wf(),
        *final(slot) == (ConnSlot {
            ws: if queued {
                WsConn {
                    replay_offset: if old(slot).ws.replay_offset + RETAINED_ENVELOPE_HDR + len
                        > u32::MAX {
                        u32::MAX
                    } else {
                        (old(slot).ws.replay_offset + RETAINED_ENVELOPE_HDR + len) as u32
                    },
                    ..old(slot).ws
                }
            } else {
                WsConn { replay_done: true, ..old(slot).ws }
            },
            ..*old(slot)
        }),
{
    if queued {
        let step: u32 = (RETAINED_ENVELOPE_HDR + len) as u32;
        slot.ws.replay_offset = if slot.ws.replay_offset > u32::MAX - step {
            u32::MAX
        } else {
            slot.ws.replay_offset + step
        };
    } else {
        slot.ws.replay_done = true;
    }
}

/// A replay stays within what was held when it started: no message that came later is
/// replayed, so none is seen twice.
pub proof fn law_replay_stays_within_the_snapshot(ws: WsConn, held: Seq<u8>)
    requires
        held.len() <= u32::MAX,
    ensures
        replay_of(ws, held) matches Replay::Message { op, fin, at, len } ==> at + len <= replay_end(
            ws,
            held.len(),
        ) && at + len <= held.len() && at == ws.replay_offset + RETAINED_ENVELOPE_HDR,
{
}

// ── Closing ─────────────────────────────────────────────────────────────

/// Go on saying goodbye. Returns false when there is nothing left to send; then the
/// connection ends.
pub fn step_ws_close(slot: &mut ConnSlot) -> (send: bool)
    requires
        old(slot).wf(),
    ensures
        final(slot).wf(),
        send == (old(slot).tx.unsent().len() > 0),
        *final(slot) == (ConnSlot {
            phase: if send {
                old(slot).phase
            } else {
                Phase::CloseConn
            },
            ..*old(slot)
        }),
{
    if slot.tx.send_remaining() > 0 {
        return true;
    }
    slot.phase = Phase::CloseConn;
    false
}

/// Note that the network took `n` bytes of a goodbye. One it takes nothing of is not
/// tried again: the peer is not waiting for it.
pub fn note_close_sent(slot: &mut ConnSlot, n: usize)
    requires
        old(slot).wf(),
        n <= old(slot).tx.unsent().len(),
    ensures
        final(slot).wf(),
        *final(slot) == (ConnSlot {
            tx: Outbox { sent: (old(slot).tx.sent + n) as usize, ..old(slot).tx },
            phase: if n == 0 || n == old(slot).tx.unsent().len() {
                Phase::CloseConn
            } else {
                old(slot).phase
            },
            ..*old(slot)
        }),
{
    slot.tx.note_sent(n);
    if n == 0 || slot.tx.send_remaining() == 0 {
        slot.phase = Phase::CloseConn;
    }
}

/// What is held is replayed message by message: behind the opcode, the final flag and the
/// length in two bytes, low byte first, stands the message itself.
pub proof fn law_replay_reads_back(
    ws: WsConn,
    before: Seq<u8>,
    op: u8,
    fin: u8,
    lo: u8,
    hi: u8,
    message: Seq<u8>,
    rest: Seq<u8>,
)
    requires
        message.len() == lo + 256 * hi,
        ws.replay_offset == before.len(),
        before.len() + 4 + message.len() + rest.len() <= u32::MAX,
        !ws.replay_started || (before.len() + 4 + message.len() <= ws.replay_target
            && ws.replay_target <= before.len() + 4 + message.len() + rest.len()),
    ensures
        ({
            let held = before + seq![op, fin, lo, hi] + message + rest;
            &&& replay_of(ws, held) matches Replay::Message { op: o, fin: f, at, len }
            &&& o == op
            &&& f == (fin != 0)
            &&& held.subrange(at as int, at + len) == message
        }),
{
    let held = before + seq![op, fin, lo, hi] + message + rest;
    let n = before.len() as int;
    assert(held[n] == op && held[n + 1] == fin && held[n + 2] == lo && held[n + 3] == hi);
    assert(u16_at(held, n + 2) == lo + 256 * hi);
    assert(held.subrange(n + 4, n + 4 + message.len()) =~= message);
}

/// Once what was held when the replay began has been replayed, nothing more is.
pub proof fn law_replay_ends_with_the_snapshot(ws: WsConn, held: Seq<u8>)
    requires
        ws.replay_started,
        ws.replay_offset >= ws.replay_target,
    ensures
        replay_of(ws, held) is Over,
{
}

/// A close frame carries its code, the high byte first, and is whole and unmasked.
pub proof fn law_close_frame_is_its_bytes(hi: u8, lo: u8)
    ensures
        close_frame((256 * hi + lo) as u16) == seq![0x88u8, 2, hi, lo],
{
    let code = (256 * hi + lo) as u16;
    assert(code / 256 == hi && code % 256 == lo);
    assert(close_frame(code) =~= seq![0x88u8, 2, hi, lo]);
}

} // verus!
