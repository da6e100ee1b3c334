//! The HTTP/1.1 connection machine: what each phase does on a tick.
//!
//! A phase that needs the outside (a send, a file, a channel) says what it needs; its
//! answer comes back to the next function. Nothing here blocks, and a phase that
//! cannot make progress leaves the slot as it is.

use crate::app::app_deadline_passed;
use crate::body::{file_suffix, is_file_number, parse_file_index, FileIndex};
use crate::bytes::{clip, decimal_value, lit};
use crate::cache::{ends_fit, ContentCache, FileLock, SEND_BUF_SIZE};
use crate::conn::{AppWait, ConnSlot, Phase, ProxyLeg, Rendering, Request};
use crate::fields::starts_with;
use crate::h1_dispatch::{
    asks_counters, dispatch_file, dispatch_fs_file, dispatch_fs_list, dispatch_page, dispatch_proxy, dispatch_stream,
    file_dispatched, list_dispatched, page_dispatched, Around, Dispatch,
};
use crate::h1_fs::{refuse, refused};
use crate::listeners::{bump, bumped};
use crate::proxy::{
    forward_head, fresh_leg, proxy_build_forward_head, ProxyCounters, PROXY_CONNECT_TIMEOUT_MS,
};
use crate::routes::{
    match_route_path, picks, route_for, Route, HANDLER_APP, HANDLER_FILE, HANDLER_FS_FILE, HANDLER_FS_LIST,
    HANDLER_PROXY, HANDLER_STATIC, HANDLER_STREAM, HANDLER_TEMPLATE, HANDLER_WEBSOCKET, HANDLER_WEBSOCKET_FANOUT,
    HANDLER_WEBSOCKET_SESSION, MAX_FS_PATH, MAX_ROUTES,
};
use crate::slots::{ShedMetrics, SlotTable, MAX_CONCURRENT_CONNS};
use vstd::prelude::*;

verus! {

// ── A peer that has gone ────────────────────────────────────────────────

/// The phases that a closed peer ends at once. Sending to it would never make
/// progress, and waiting for it would never end.
pub open spec fn ends_with_peer(p: Phase) -> bool {
    p is RecvRequest || p is H2Active || p is SendHeaders || p is SendBody || p is DrainSend || p
        is FetchContent || p is CacheStream || p is WsHandshake || p is WsClose || p is AwaitFsStat
        || p is ProxyConnect || p is ProxyWaitConnect || p is ProxySendRequest || p
        is ProxyRelayHeaders || p is ProxyRelayBody
}

fn is_ended_by_peer(p: Phase) -> (r: bool)
    ensures
        r == ends_with_peer(p),
{
    p == Phase::RecvRequest || p == Phase::H2Active || p == Phase::SendHeaders || p
        == Phase::SendBody || p == Phase::DrainSend || p == Phase::FetchContent || p
        == Phase::CacheStream || p == Phase::WsHandshake || p == Phase::WsClose || p
        == Phase::AwaitFsStat || p == Phase::ProxyConnect || p == Phase::ProxyWaitConnect || p
        == Phase::ProxySendRequest || p == Phase::ProxyRelayHeaders || p == Phase::ProxyRelayBody
}

/// End a connection whose peer has gone. Returns the file to close.
pub fn end_if_peer_gone(slot: &mut ConnSlot) -> (r: Option<i32>)
    requires
        old(slot).wf(),
    ensures
        final(slot).wf(),
        if old(slot).peer_closed && ends_with_peer(old(slot).phase) {
            &&& r == if old(slot).render.fd >= 0 {
                Some(old(slot).render.fd)
            } else {
                None
            }
            &&& *final(slot) == (ConnSlot {
                render: Rendering {
                    fd: if old(slot).render.fd >= 0 {
                        -1i32
                    } else {
                        old(slot).render.fd
                    },
                    ..old(slot).render
                },
                phase: Phase::CloseConn,
                ..*old(slot)
            })
        } else {
            r is None && *final(slot) == *old(slot)
        },
{
    if !slot.peer_closed || !is_ended_by_peer(slot.phase) {
        return None;
    }
    slot.phase = Phase::CloseConn;
    let fd: i32 = slot.render.fd;
    if fd >= 0 {
        slot.render.fd = -1;
        return Some(fd);
    }
    None
}

// ── Dispatch ────────────────────────────────────────────────────────────

/// What a path asks of the files behind a route.
pub open spec fn file_asked(path: Seq<u8>, route_len: int) -> FileIndex {
    let s = file_suffix(path, route_len);
    if s.len() == 0 {
        FileIndex::Listing
    } else if is_file_number(s) {
        FileIndex::File(decimal_value(s) as i16)
    } else {
        FileIndex::Bad
    }
}

/// Whether a request has been dispatched as it should: to the route its path picks.
pub open spec fn dispatched(
    before: ConnSlot,
    after: ConnSlot,
    a: Around,
    b: Around,
    idx: usize,
    files: bool,
    r: Dispatch,
) -> bool {
    let path = before.req.path@;
    if asks_counters(path) {
        r is Counters && after == before && b == a
    } else {
        match route_for(a.routes, path) {
            None => r is NoRoute && after == before && b == a,
            Some(ri) => {
                let at = ConnSlot {
                    req: Request { route: Some(ri as usize), ..before.req },
                    ..before
                };
                let route = a.routes[ri];
                let h = route.handler;
                if h == HANDLER_STATIC || h == HANDLER_TEMPLATE {
                    page_dispatched(at, after, a, b, ri, idx, files, r)
                } else if h == HANDLER_FILE {
                    file_dispatched(
                        at,
                        after,
                        a.lock,
                        b.lock,
                        file_asked(path, route.path@.len() as int),
                        idx,
                        files,
                        r,
                    ) && b == (Around { lock: b.lock, ..a })
                } else if h == HANDLER_STREAM {
                    stream_dispatched(
                        at,
                        after,
                        a.lock,
                        b.lock,
                        route.source_index,
                        idx,
                        files,
                        r,
                    ) && b == (Around { lock: b.lock, ..a })
                } else if h == HANDLER_FS_FILE {
                    b == a && if route.fs_path@.len() == 0 || route.fs_path@.len()
                        > MAX_FS_PATH {
                        r is Done && refused(
                            at,
                            after,
                            "500 Internal Server Error",
                            "FS route missing path\n",
                        )
                    } else {
                        r matches Dispatch::OpenFile(p) && p@ == route.fs_path@ && after == at
                    }
                } else if h == HANDLER_FS_LIST {
                    b == a && list_dispatched(
                        at,
                        after,
                        route.path@.len() as int,
                        route.fs_path@,
                        r,
                    )
                } else if h == HANDLER_APP {
                    r is App && after == at && b == a
                } else if h == HANDLER_PROXY {
                    &&& r is Done
                    &&& b == (Around { proxy: b.proxy, ..a })
                    &&& if route.proxy_ip == 0 || route.proxy_port == 0 {
                        &&& refused(at, after, "502 Bad Gateway", "No proxy backend\n")
                        &&& b.proxy == (ProxyCounters {
                            fives: bumped(a.proxy.fives),
                            ..a.proxy
                        })
                    } else {
                        &&& after == (ConnSlot {
                            proxy: fresh_leg(at.proxy, route.proxy_ip, route.proxy_port, None),
                            keepalive: false,
                            phase: Phase::ProxyConnect,
                            ..at
                        })
                        &&& b.proxy == a.proxy
                    }
                } else if h == HANDLER_WEBSOCKET || h == HANDLER_WEBSOCKET_FANOUT || h
                    == HANDLER_WEBSOCKET_SESSION {
                    r is Upgrade && after == at && b == a
                } else {
                    r is Done && b == a && refused(
                        at,
                        after,
                        "500 Internal Server Error",
                        "Unknown handler\n",
                    )
                }
            },
        }
    }
}

/// Whether a request for a streamed body has been dispatched as it should.
pub open spec fn stream_dispatched(
    before: ConnSlot,
    after: ConnSlot,
    old_lock: FileLock,
    new_lock: FileLock,
    source: i16,
    idx: usize,
    files: bool,
    r: Dispatch,
) -> bool {
    let free = old_lock.owner is None || old_lock.owner == Some(idx);
    if source < 0 || !files {
        &&& r is Done
        &&& new_lock == old_lock
        &&& refused(
            before,
            after,
            "500 Internal Server Error",
            "Stream handler missing source\n",
        )
    } else if free {
        &&& r == (Dispatch::OpenStream { source: source as u32 })
        &&& new_lock == (FileLock { owner: Some(idx) })
        &&& after == before
    } else {
        r is Retry && new_lock == old_lock && after == before
    }
}

/// Dispatch the request of slot `idx`. `files` says whether there is a file channel.
pub fn dispatch(
    slot: &mut ConnSlot,
    routes: &mut Vec<Route>,
    cache: &mut ContentCache,
    lock: &mut FileLock,
    proxy: &mut ProxyCounters,
    idx: usize,
    files: bool,
) -> (r: Dispatch)
    requires
        old(slot).wf(),
        old(routes)@.len() <= MAX_ROUTES,
        ends_fit(old(routes)@),
    ensures
        final(slot).wf(),
        dispatched(
            *old(slot),
            *final(slot),
            Around { routes: old(routes)@, cache: *old(cache), lock: *old(lock), proxy: *old(proxy) },
            Around {
                routes: final(routes)@,
                cache: *final(cache),
                lock: *final(lock),
                proxy: *final(proxy),
            },
            idx,
            files,
            r,
        ),
{
    if starts_with(slot.req.path.as_slice(), lit("/_fan")) {
        return Dispatch::Counters;
    }
    let ri: usize = match match_route_path(routes, slot.req.path.as_slice()) {
        Some(i) => i,
        None => {
            return Dispatch::NoRoute;
        },
    };
    let ghost path = slot.req.path@;
    assert(picks(routes@, path, ri as int));
    slot.req.route = Some(ri);
    let h: u8 = routes[ri].handler;
    if h == HANDLER_STATIC || h == HANDLER_TEMPLATE {
        let r = dispatch_page(slot, idx, ri, routes, cache, lock, files);
        assert(page_dispatched(
            ConnSlot { req: Request { route: Some(ri), ..old(slot).req }, ..*old(slot) },
            *slot,
            Around { routes: old(routes)@, cache: *old(cache), lock: *old(lock), proxy: *old(proxy) },
            Around { routes: routes@, cache: *cache, lock: *lock, proxy: *proxy },
            ri as int,
            idx,
            files,
            r,
        ));
        return r;
    }
    if h == HANDLER_FILE {
        let asked = parse_file_index(slot.req.path.as_slice(), routes[ri].path.len());
        return dispatch_file(slot, idx, asked, lock, files);
    }
    if h == HANDLER_STREAM {
        return dispatch_stream(slot, idx, routes[ri].source_index, lock, files);
    }
    if h == HANDLER_FS_FILE {
        return dispatch_fs_file(slot, routes[ri].fs_path.as_slice());
    }
    if h == HANDLER_FS_LIST {
        return dispatch_fs_list(slot, routes[ri].path.len(), routes[ri].fs_path.as_slice());
    }
    if h == HANDLER_APP {
        return Dispatch::App;
    }
    if h == HANDLER_PROXY {
        dispatch_proxy(slot, routes[ri].proxy_ip, routes[ri].proxy_port, proxy);
        return Dispatch::Done;
    }
    if h == HANDLER_WEBSOCKET || h == HANDLER_WEBSOCKET_FANOUT || h == HANDLER_WEBSOCKET_SESSION {
        return Dispatch::Upgrade;
    }
    refuse(slot, "500 Internal Server Error", "Unknown handler\n");
    Dispatch::Done
}

// ── Waiting for the application ─────────────────────────────────────────

/// What waiting for the application comes to on a tick.
#[derive(Clone, Copy, PartialEq, Eq, Structural, Debug)]
pub enum AwaitStep {
    Wait,
    /// It did not answer in time; 504 is staged.
    TimedOut,
    /// It did not go on in time with a response that had begun: the connection ends, and
    /// the client sees that the body was cut.
    Cut,
    /// The peer has gone.
    Gone,
}

/// Whether a slot has waited for the application as it should.
pub open spec fn awaited(before: ConnSlot, after: ConnSlot, now: u64, r: AwaitStep) -> bool {
    let late = before.app.pending && before.app.deadline_ms != 0 && now >= before.app.deadline_ms;
    let given_up = ConnSlot {
        app: AppWait { pending: false, streaming: false, deadline_ms: 0, ..before.app },
        keepalive: false,
        ..before
    };
    if late && before.app.streaming {
        r is Cut && after == (ConnSlot { phase: Phase::CloseConn, ..given_up })
    } else if late {
        r is TimedOut && refused(given_up, after, "504 Gateway Timeout", "Gateway Timeout\n")
    } else if before.peer_closed {
        r is Gone && after == (ConnSlot {
            app: AppWait { pending: false, ..before.app },
            phase: Phase::CloseConn,
            ..before
        })
    } else {
        r is Wait && after == before
    }
}

/// Wait for the application. A request that it does not answer is counted.
pub fn step_await_app(slot: &mut ConnSlot, now: u64, shed: &mut ShedMetrics) -> (r: AwaitStep)
    requires
        old(slot).wf(),
    ensures
        final(slot).wf(),
        awaited(*old(slot), *final(slot), now, r),
        *final(shed) == (ShedMetrics {
            app_timeouts: if r is TimedOut || r is Cut {
                bumped(old(shed).app_timeouts)
            } else {
                old(shed).app_timeouts
            },
            ..*old(shed)
        }),
{
    if app_deadline_passed(slot.app, now) {
        shed.app_timeouts = bump(shed.app_timeouts);
        let streaming = slot.app.streaming;
        slot.app.pending = false;
        slot.app.streaming = false;
        slot.app.deadline_ms = 0;
        slot.keepalive = false;
        if streaming {
            slot.phase = Phase::CloseConn;
            return AwaitStep::Cut;
        }
        refuse(slot, "504 Gateway Timeout", "Gateway Timeout\n");
        return AwaitStep::TimedOut;
    }
    if slot.peer_closed {
        slot.app.pending = false;
        slot.phase = Phase::CloseConn;
        return AwaitStep::Gone;
    }
    AwaitStep::Wait
}

/// Once part of a response has been sent, no second status line follows it: a response
/// that stops coming ends the connection and stages nothing.
pub proof fn law_begun_response_gets_no_second_head(
    before: ConnSlot,
    after: ConnSlot,
    now: u64,
    r: AwaitStep,
)
    requires
        awaited(before, after, now, r),
        before.app.streaming,
    ensures
        after.tx == before.tx,
        !(r is TimedOut),
{
}

// ── The backend leg ─────────────────────────────────────────────────────

impl SlotTable {
    /// Claim the one outstanding dial for a slot. Fails while another slot has it.
    pub fn claim_dial(&mut self, idx: usize) -> (ok: bool)
        requires
            old(self).wf(),
            idx < MAX_CONCURRENT_CONNS,
            !old(self).slots@[idx as int].free(),
        ensures
            final(self).wf(),
            ok == (old(self).connect_owner is None || old(self).connect_owner == Some(idx)),
            *final(self) == (SlotTable {
                connect_owner: if ok {
                    Some(idx)
                } else {
                    old(self).connect_owner
                },
                ..*old(self)
            }),
    {
        match self.connect_owner {
            Some(o) => {
                if o != idx {
                    return false;
                }
            },
            None => {},
        }
        self.connect_owner = Some(idx);
        true
    }

    /// Give the outstanding dial up.
    pub fn release_dial(&mut self, idx: usize)
        requires
            old(self).wf(),
        ensures
            final(self).wf(),
            *final(self) == (SlotTable {
                connect_owner: if old(self).connect_owner == Some(idx) {
                    None
                } else {
                    old(self).connect_owner
                },
                ..*old(self)
            }),
    {
        if self.connect_owner == Some(idx) {
            self.connect_owner = None;
        }
    }
}

/// Note that a dial has been issued at `now`.
pub fn note_dialled(slot: &mut ConnSlot, now: u32)
    requires
        old(slot).wf(),
    ensures
        final(slot).wf(),
        *final(slot) == (ConnSlot {
            proxy: ProxyLeg { connect_start_ms: now, ..old(slot).proxy },
            phase: Phase::ProxyWaitConnect,
            ..*old(slot)
        }),
{
    slot.proxy.connect_start_ms = now;
    slot.phase = Phase::ProxyWaitConnect;
}

/// What waiting for a dial comes to.
#[derive(Clone, Copy, PartialEq, Eq, Structural, Debug)]
pub enum DialStep {
    Wait,
    /// It failed or took too long.
    Failed,
    /// The backend is there; the head to forward is staged.
    Connected,
}

/// How long a dial has been waited for, on a clock that wraps.
pub open spec fn waited_ms(start: u32, now: u32) -> int {
    (now - start) % 0x1_0000_0000
}

/// Wait for a dial. A failure is acted on by `proxy_connect_failed`.
pub fn step_proxy_wait(slot: &mut ConnSlot, now: u32) -> (r: DialStep)
    requires
        old(slot).wf(),
    ensures
        final(slot).wf(),
        r == if old(slot).proxy.connect_failed {
            DialStep::Failed
        } else if old(slot).proxy.connected {
            DialStep::Connected
        } else if waited_ms(old(slot).proxy.connect_start_ms, now) >= PROXY_CONNECT_TIMEOUT_MS {
            DialStep::Failed
        } else {
            DialStep::Wait
        },
        !(r is Connected) ==> *final(slot) == *old(slot),
        r is Connected ==> *final(slot) == (ConnSlot {
            rx: final(slot).rx,
            tx: final(slot).tx,
            proxy: ProxyLeg { relayed: final(slot).proxy.relayed, ..old(slot).proxy },
            phase: Phase::ProxySendRequest,
            ..*old(slot)
        }),
        r is Connected && old(slot).rx.head_end < 4 ==> {
            &&& final(slot).rx == old(slot).rx
            &&& final(slot).tx == old(slot).tx
            &&& final(slot).proxy == old(slot).proxy
        },
        r is Connected && old(slot).rx.head_end >= 4 ==> {
            &&& final(slot).proxy.relayed == 0
            &&& final(slot).tx.sent == 0
            &&& final(slot).tx.buf@ == clip(
                forward_head(
                    old(slot).rx.buf@.take(old(slot).rx.head_end as int),
                    old(slot).client_ip,
                ),
                SEND_BUF_SIZE as nat,
            )
            &&& final(slot).rx.buf@ == old(slot).rx.buf@.skip(old(slot).rx.head_end as int)
        },
{
    if slot.proxy.connect_failed {
        return DialStep::Failed;
    }
    if slot.proxy.connected {
        proxy_build_forward_head(slot);
        slot.phase = Phase::ProxySendRequest;
        return DialStep::Connected;
    }
    if now.wrapping_sub(slot.proxy.connect_start_ms) >= PROXY_CONNECT_TIMEOUT_MS {
        return DialStep::Failed;
    }
    DialStep::Wait
}

/// What forwarding the head comes to.
#[derive(Clone, Copy, PartialEq, Eq, Structural, Debug)]
pub enum ForwardStep {
    /// There is no backend after all.
    NoBackend,
    /// Send to this connection.
    Send(u16),
    /// All of it has been sent; bytes are relayed from now on.
    Relaying,
}

/// Go on forwarding the head.
pub fn step_proxy_send(slot: &mut ConnSlot) -> (r: ForwardStep)
    requires
        old(slot).wf(),
    ensures
        final(slot).wf(),
        match old(slot).proxy.conn {
            None => r is NoBackend && *final(slot) == *old(slot),
            Some(c) => if old(slot).tx.unsent().len() > 0 {
                r == ForwardStep::Send(c) && *final(slot) == *old(slot)
            } else {
                &&& r is Relaying
                &&& *final(slot) == (ConnSlot {
                    tx: final(slot).tx,
                    phase: Phase::ProxyRelayBody,
                    ..*old(slot)
                })
                &&& final(slot).tx.is_blank()
            },
        },
{
    match slot.proxy.conn {
        None => ForwardStep::NoBackend,
        Some(c) => {
            if slot.tx.send_remaining() > 0 {
                return ForwardStep::Send(c);
            }
            slot.tx.clear();
            slot.phase = Phase::ProxyRelayBody;
            ForwardStep::Relaying
        },
    }
}

/// How long a dial has waited is right across the point where the clock begins anew.
pub proof fn law_dial_clock_may_wrap(start: u32, waited: u32)
    ensures
        start + waited < 0x1_0000_0000 ==> waited_ms(start, (start + waited) as u32) == waited,
        start + waited >= 0x1_0000_0000 ==> waited_ms(
            start,
            (start + waited - 0x1_0000_0000) as u32,
        ) == waited,
{
}

} // verus!
