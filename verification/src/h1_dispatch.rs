//! Dispatching a request: which route serves it, and what that route does first.

use crate::app::EmitResult;
use crate::body::{file_number, is_file_number, FileIndex};
use crate::bytes::{clip, decimal_value, lit, put_bytes, text, to_vec};
use crate::cache::{
    cache_try_or_fetch, ends_fit, entry_for, looked_up, lookup_of, CacheLookup, ContentCache, FileLock, SEND_BUF_SIZE,
};
use crate::conn::{ConnSlot, Phase, Rendering, Request, WsConn};
use crate::h1_fs::{compose_file_path, file_path, refuse, refused, FilePath};
use crate::h1_send::{begin_page, page_begun};
use crate::listeners::{bump, bumped};
use crate::proxy::{begin_proxy, fresh_leg, ProxyCounters};
use crate::response::{build_header, closing_head, staged_head};
use crate::routes::{Route, HANDLER_WEBSOCKET_FANOUT, HANDLER_WEBSOCKET_SESSION, MAX_FS_PATH, MAX_ROUTES};
use vstd::prelude::*;
use vstd::slice::slice_subrange;

verus! {

/// What a dispatch leaves to be done.
pub enum Dispatch {
    /// A channel is in use: try again on the next tick.
    Retry,
    /// The slot has moved on.
    Done,
    /// Ask for the pump counters and stage them.
    Counters,
    /// No route serves the path: look for a dynamic one.
    NoRoute,
    /// Flush the file channel and ask it for this source; the body is fetched.
    Fetch { source: u32 },
    /// Ask how many files there are and begin the index.
    CountFiles,
    /// Flush the file channel and ask it for this file.
    OpenIndexed { index: u32 },
    /// Flush the file channel and ask it for this source; the body is streamed.
    OpenStream { source: u32 },
    /// Open this file.
    OpenFile(Vec<u8>),
    /// List this directory.
    ListDir(Vec<u8>),
    /// Hand the request to the application.
    App,
    /// Upgrade to a WebSocket.
    Upgrade,
}

// ── The file index without routes ───────────────────────────────────────

/// Whether a slot has dispatched a request to a server that has nothing but a file
/// channel: `/` is the index, `/n` the file of that number.
pub open spec fn index_dispatched(
    before: ConnSlot,
    after: ConnSlot,
    old_lock: FileLock,
    new_lock: FileLock,
    idx: usize,
    files: bool,
    r: Dispatch,
) -> bool {
    let path = before.req.path@;
    let free = old_lock.owner is None || old_lock.owner == Some(idx);
    let taken = FileLock { owner: Some(idx) };
    if path == seq![0x2fu8] {
        if !files {
            r is CountFiles && after == before && new_lock == old_lock
        } else if free {
            r is CountFiles && after == before && new_lock == taken
        } else {
            r is Retry && after == before && new_lock == old_lock
        }
    } else if path.len() >= 2 && path[0] == 0x2f && is_file_number(path.skip(1)) {
        let n = decimal_value(path.skip(1));
        let named = ConnSlot {
            render: Rendering { file_index: n as i16, ..before.render },
            req: Request { route: None, ..before.req },
            ..before
        };
        if !files {
            refused(named, after, "404 Not Found", "Not Found\n") && r is Done && new_lock
                == old_lock
        } else if free {
            r == (Dispatch::OpenIndexed { index: n as u32 }) && after == named && new_lock == taken
        } else {
            r is Retry && after == named && new_lock == old_lock
        }
    } else {
        refused(before, after, "400 Bad Request", "Bad Request\n") && r is Done && new_lock
            == old_lock
    }
}

/// Dispatch a request to a server that has nothing but a file channel.
pub fn step_legacy_file_dispatch(slot: &mut ConnSlot, lock: &mut FileLock, idx: usize, files: bool) -> (r: Dispatch)
    requires
        old(slot).wf(),
    ensures
        final(slot).wf(),
        index_dispatched(*old(slot), *final(slot), *old(lock), *final(lock), idx, files, r),
{
    let n: usize = slot.req.path.len();
    if n == 1 && slot.req.path[0] == 0x2f {
        assert(slot.req.path@ =~= seq![0x2fu8]);
        if files && !lock.try_acquire(idx) {
            return Dispatch::Retry;
        }
        return Dispatch::CountFiles;
    }
    assert(slot.req.path@ != seq![0x2fu8]) by {
        if slot.req.path@ == seq![0x2fu8] {
            assert(slot.req.path@.len() == 1);
            assert(slot.req.path@[0] == 0x2f);
        }
    }
    if n >= 2 && slot.req.path[0] == 0x2f {
        let digits = slice_subrange(slot.req.path.as_slice(), 1, n);
        assert(digits@ =~= slot.req.path@.skip(1));
        match file_number(digits) {
            Some(k) => {
                slot.render.file_index = k;
                slot.req.route = None;
                if !files {
                    refuse(slot, "404 Not Found", "Not Found\n");
                    return Dispatch::Done;
                }
                if !lock.try_acquire(idx) {
                    return Dispatch::Retry;
                }
                return Dispatch::OpenIndexed { index: k as u32 };
            },
            None => {},
        }
    }
    refuse(slot, "400 Bad Request", "Bad Request\n");
    Dispatch::Done
}

/// Begin the index of the files. `count` is how many there are, where that is known.
/// `routed` says whether a route serves it.
pub fn begin_index(slot: &mut ConnSlot, count: Option<u16>, routed: bool)
    requires
        old(slot).wf(),
    ensures
        final(slot).wf(),
        staged_head(
            ConnSlot {
                render: Rendering {
                    file_count: match count {
                        Some(n) => n,
                        None => old(slot).render.file_count,
                    },
                    index_pos: 0,
                    file_index: -1i16,
                    ..old(slot).render
                },
                req: Request {
                    route: if routed {
                        old(slot).req.route
                    } else {
                        None
                    },
                    ..old(slot).req
                },
                phase: Phase::SendHeaders,
                ..*old(slot)
            },
            *final(slot),
            closing_head(text("200 OK"), text("text/plain")),
            false,
        ),
{
    match count {
        Some(n) => {
            slot.render.file_count = n;
        },
        None => {},
    }
    slot.render.index_pos = 0;
    slot.render.file_index = -1;
    if !routed {
        slot.req.route = None;
    }
    slot.phase = Phase::SendHeaders;
    build_header(slot, lit("200 OK"), lit("text/plain"));
}

/// Act on the file channel's answer to being asked for a file.
pub fn file_opened(slot: &mut ConnSlot, ok: bool)
    requires
        old(slot).wf(),
    ensures
        final(slot).wf(),
        if ok {
            staged_head(
                ConnSlot { phase: Phase::SendHeaders, ..*old(slot) },
                *final(slot),
                closing_head(text("200 OK"), text("application/octet-stream")),
                false,
            )
        } else {
            refused(*old(slot), *final(slot), "404 Not Found", "Not Found\n")
        },
{
    if !ok {
        refuse(slot, "404 Not Found", "Not Found\n");
        return;
    }
    slot.phase = Phase::SendHeaders;
    build_header(slot, lit("200 OK"), lit("application/octet-stream"));
}

/// The content type of a streamed body.
pub open spec fn stream_type(ct: Seq<u8>) -> Seq<u8> {
    if ct.len() == 0 {
        text("application/octet-stream")
    } else {
        ct
    }
}

/// Act on the file channel's answer to being asked for a stream.
pub fn stream_opened(slot: &mut ConnSlot, ok: bool, ct: &[u8])
    requires
        old(slot).wf(),
    ensures
        final(slot).wf(),
        if ok {
            staged_head(
                ConnSlot { phase: Phase::SendHeaders, ..*old(slot) },
                *final(slot),
                closing_head(text("200 OK"), stream_type(ct@)),
                false,
            )
        } else {
            refused(
                *old(slot),
                *final(slot),
                "500 Internal Server Error",
                "Stream NOTIFY failed\n",
            )
        },
{
    if !ok {
        refuse(slot, "500 Internal Server Error", "Stream NOTIFY failed\n");
        return;
    }
    slot.phase = Phase::SendHeaders;
    if ct.len() == 0 {
        build_header(slot, lit("200 OK"), lit("application/octet-stream"));
    } else {
        build_header(slot, lit("200 OK"), ct);
    }
}

/// Stage the pump counters. The end of the connection delimits them.
pub fn stage_counters(slot: &mut ConnSlot, counters: &[u8])
    requires
        old(slot).wf(),
    ensures
        final(slot).wf(),
        *final(slot) == (ConnSlot {
            tx: final(slot).tx,
            keepalive: false,
            phase: Phase::DrainSend,
            ..*old(slot)
        }),
        final(slot).tx.sent == 0,
        final(slot).tx.buf@ == clip(
            clip(closing_head(text("200 OK"), text("text/plain")), SEND_BUF_SIZE as nat)
                + counters@,
            SEND_BUF_SIZE as nat,
        ),
{
    build_header(slot, lit("200 OK"), lit("text/plain"));
    put_bytes(&mut slot.tx.buf, SEND_BUF_SIZE, counters);
    slot.phase = Phase::DrainSend;
}

// ── Routes ──────────────────────────────────────────────────────────────

/// Whether a path asks for the pump counters. Every server answers that, routes or no.
pub open spec fn asks_counters(path: Seq<u8>) -> bool {
    text("/_fan").is_prefix_of(path)
}

/// What a dispatch may change beside its slot.
#[verifier::ext_equal]
pub struct Around {
    pub routes: Seq<Route>,
    pub cache: ContentCache,
    pub lock: FileLock,
    pub proxy: ProxyCounters,
}

/// Whether a page has been dispatched as it should: from the cache where it holds the
/// body, by a fetch where there is a source to fetch from, else inline.
pub open spec fn page_dispatched(
    before: ConnSlot,
    after: ConnSlot,
    a: Around,
    b: Around,
    ri: int,
    idx: usize,
    files: bool,
    r: Dispatch,
) -> bool {
    let route = a.routes[ri];
    let found = lookup_of(a.cache, a.lock, a.routes, ri, idx, files);
    let held = a.cache.entries@[entry_for(a.cache.entries@, ri as u8, true, 0)];
    &&& looked_up(a.cache, b.cache, a.lock, b.lock, a.routes, b.routes, ri, idx, found)
    &&& b.proxy == a.proxy
    &&& match found {
        CacheLookup::NoSource => {
            &&& r is Done
            &&& page_begun(
                before,
                after,
                route.handler,
                route.content_type@,
                route.body_len,
                false,
            )
        },
        CacheLookup::Hit => {
            &&& r is Done
            &&& page_begun(before, after, route.handler, route.content_type@, held.length, true)
        },
        CacheLookup::Pending => {
            &&& r == (Dispatch::Fetch { source: route.source_index as u32 })
            &&& after == (ConnSlot { phase: Phase::FetchContent, ..before })
        },
        CacheLookup::Busy => r is Retry && after == before,
    }
}

/// Dispatch a request for an inline body or a template.
pub fn dispatch_page(
    slot: &mut ConnSlot,
    idx: usize,
    ri: usize,
    routes: &mut Vec<Route>,
    cache: &mut ContentCache,
    lock: &mut FileLock,
    files: bool,
) -> (r: Dispatch)
    requires
        old(slot).wf(),
        ri < old(routes)@.len(),
        old(routes)@.len() <= MAX_ROUTES,
        ends_fit(old(routes)@),
    ensures
        final(slot).wf(),
        forall|p: ProxyCounters|
            #[trigger] page_dispatched(
                *old(slot),
                *final(slot),
                Around { routes: old(routes)@, cache: *old(cache), lock: *old(lock), proxy: p },
                Around {
                    routes: final(routes)@,
                    cache: *final(cache),
                    lock: *final(lock),
                    proxy: p,
                },
                ri as int,
                idx,
                files,
                r,
            ),
{
    let handler: u8 = routes[ri].handler;
    let source: i16 = routes[ri].source_index;
    let ct: Vec<u8> = to_vec(routes[ri].content_type.as_slice());
    match cache_try_or_fetch(cache, lock, routes, ri, idx, files) {
        CacheLookup::NoSource => {
            begin_page(slot, handler, ct.as_slice(), routes[ri].body_len, false);
            Dispatch::Done
        },
        CacheLookup::Hit => {
            begin_page(slot, handler, ct.as_slice(), routes[ri].body_len, true);
            Dispatch::Done
        },
        CacheLookup::Pending => {
            slot.phase = Phase::FetchContent;
            Dispatch::Fetch { source: source as u32 }
        },
        CacheLookup::Busy => Dispatch::Retry,
    }
}

/// Whether a request for the files behind a route has been dispatched as it should.
pub open spec fn file_dispatched(
    before: ConnSlot,
    after: ConnSlot,
    old_lock: FileLock,
    new_lock: FileLock,
    asked: FileIndex,
    idx: usize,
    files: bool,
    r: Dispatch,
) -> bool {
    let free = old_lock.owner is None || old_lock.owner == Some(idx);
    match asked {
        FileIndex::Listing => {
            &&& r is CountFiles
            &&& new_lock == old_lock
            &&& after == (ConnSlot {
                render: Rendering { file_index: -1i16, ..before.render },
                ..before
            })
        },
        FileIndex::File(n) => {
            let named = ConnSlot {
                render: Rendering { file_index: n, ..before.render },
                ..before
            };
            if !files {
                &&& r is Done
                &&& new_lock == old_lock
                &&& refused(named, after, "404 Not Found", "Not Found\n")
            } else if free {
                &&& r == (Dispatch::OpenIndexed { index: n as u32 })
                &&& new_lock == (FileLock { owner: Some(idx) })
                &&& after == named
            } else {
                r is Retry && new_lock == old_lock && after == named
            }
        },
        FileIndex::Bad => {
            &&& r is Done
            &&& new_lock == old_lock
            &&& refused(
                ConnSlot { render: Rendering { file_index: -2i16, ..before.render }, ..before },
                after,
                "400 Bad Request",
                "Bad Request\n",
            )
        },
    }
}

/// Dispatch a request for the files behind a route.
pub fn dispatch_file(slot: &mut ConnSlot, idx: usize, asked: FileIndex, lock: &mut FileLock, files: bool) -> (r: Dispatch)
    requires
        old(slot).wf(),
        asked matches FileIndex::File(n) ==> n >= 0,
    ensures
        final(slot).wf(),
        file_dispatched(*old(slot), *final(slot), *old(lock), *final(lock), asked, idx, files, r),
{
    match asked {
        FileIndex::Listing => {
            slot.render.file_index = -1;
            Dispatch::CountFiles
        },
        FileIndex::File(n) => {
            slot.render.file_index = n;
            if !files {
                refuse(slot, "404 Not Found", "Not Found\n");
                return Dispatch::Done;
            }
            if !lock.try_acquire(idx) {
                return Dispatch::Retry;
            }
            Dispatch::OpenIndexed { index: n as u32 }
        },
        FileIndex::Bad => {
            slot.render.file_index = -2;
            refuse(slot, "400 Bad Request", "Bad Request\n");
            Dispatch::Done
        },
    }
}

/// Dispatch a request for a streamed body.
pub fn dispatch_stream(slot: &mut ConnSlot, idx: usize, source: i16, lock: &mut FileLock, files: bool) -> (r: Dispatch)
    requires
        old(slot).wf(),
    ensures
        final(slot).wf(),
        ({
            let free = old(lock).owner is None || old(lock).owner == Some(idx);
            if source < 0 || !files {
                &&& r is Done
                &&& *final(lock) == *old(lock)
                &&& refused(
                    *old(slot),
                    *final(slot),
                    "500 Internal Server Error",
                    "Stream handler missing source\n",
                )
            } else if free {
                &&& r == (Dispatch::OpenStream { source: source as u32 })
                &&& *final(lock) == (FileLock { owner: Some(idx) })
                &&& *final(slot) == *old(slot)
            } else {
                r is Retry && *final(lock) == *old(lock) && *final(slot) == *old(slot)
            }
        }),
{
    if source < 0 || !files {
        refuse(slot, "500 Internal Server Error", "Stream handler missing source\n");
        return Dispatch::Done;
    }
    if !lock.try_acquire(idx) {
        return Dispatch::Retry;
    }
    Dispatch::OpenStream { source: source as u32 }
}

/// Dispatch a request for a file of the filesystem provider.
pub fn dispatch_fs_file(slot: &mut ConnSlot, fs_path: &[u8]) -> (r: Dispatch)
    requires
        old(slot).wf(),
    ensures
        final(slot).wf(),
        if fs_path@.len() == 0 || fs_path@.len() > MAX_FS_PATH {
            r is Done && refused(
                *old(slot),
                *final(slot),
                "500 Internal Server Error",
                "FS route missing path\n",
            )
        } else {
            r matches Dispatch::OpenFile(p) && p@ == fs_path@ && *final(slot) == *old(slot)
        },
{
    if fs_path.len() == 0 || fs_path.len() > MAX_FS_PATH {
        refuse(slot, "500 Internal Server Error", "FS route missing path\n");
        return Dispatch::Done;
    }
    Dispatch::OpenFile(to_vec(fs_path))
}

/// Whether a request to a listing route has been dispatched as it should: the listing
/// for the route's own path, a file below the directory for a longer one.
pub open spec fn list_dispatched(before: ConnSlot, after: ConnSlot, route_len: int, dir: Seq<u8>, r: Dispatch) -> bool {
    let path = before.req.path@;
    if path.len() > route_len + 1 {
        exists|f: FilePath|
            #[trigger] file_path(dir, path.skip(route_len), f) && (match f {
                FilePath::TooLong => r is Done && refused(
                    before,
                    after,
                    "500 Internal Server Error",
                    "FS_LIST file path too long\n",
                ),
                FilePath::BadByte => r is Done && refused(
                    before,
                    after,
                    "400 Bad Request",
                    "bad path\n",
                ),
                FilePath::Climbs => r is Done && refused(
                    before,
                    after,
                    "400 Bad Request",
                    "path traversal rejected\n",
                ),
                FilePath::Open(p) => r == Dispatch::OpenFile(p) && after == before,
            })
    } else if dir.len() == 0 || dir.len() > MAX_FS_PATH {
        r is Done && refused(
            before,
            after,
            "500 Internal Server Error",
            "FS_LIST route missing path\n",
        )
    } else {
        r matches Dispatch::ListDir(p) && p@ == dir && after == before
    }
}

/// Dispatch a request to a listing route.
pub fn dispatch_fs_list(slot: &mut ConnSlot, route_len: usize, dir: &[u8]) -> (r: Dispatch)
    requires
        old(slot).wf(),
        route_len <= old(slot).req.path@.len(),
    ensures
        final(slot).wf(),
        list_dispatched(*old(slot), *final(slot), route_len as int, dir@, r),
{
    let n: usize = slot.req.path.len();
    if n - route_len > 1 {
        let suffix = slice_subrange(slot.req.path.as_slice(), route_len, n);
        assert(suffix@ =~= slot.req.path@.skip(route_len as int));
        let f = compose_file_path(dir, suffix);
        assert(file_path(dir@, slot.req.path@.skip(route_len as int), f));
        match f {
            FilePath::TooLong => {
                refuse(slot, "500 Internal Server Error", "FS_LIST file path too long\n");
                Dispatch::Done
            },
            FilePath::BadByte => {
                refuse(slot, "400 Bad Request", "bad path\n");
                Dispatch::Done
            },
            FilePath::Climbs => {
                refuse(slot, "400 Bad Request", "path traversal rejected\n");
                Dispatch::Done
            },
            FilePath::Open(p) => Dispatch::OpenFile(p),
        }
    } else if dir.len() == 0 || dir.len() > MAX_FS_PATH {
        refuse(slot, "500 Internal Server Error", "FS_LIST route missing path\n");
        Dispatch::Done
    } else {
        Dispatch::ListDir(to_vec(dir))
    }
}

/// Act on the answer to opening a directory.
pub fn dir_opened(slot: &mut ConnSlot, ok: bool)
    requires
        old(slot).wf(),
    ensures
        final(slot).wf(),
        if ok {
            *final(slot) == *old(slot)
        } else {
            refused(*old(slot), *final(slot), "404 Not Found", "Directory not found\n")
        },
{
    if !ok {
        refuse(slot, "404 Not Found", "Directory not found\n");
    }
}

/// Dispatch a request to a configured backend.
pub fn dispatch_proxy(slot: &mut ConnSlot, ip: u32, port: u16, counters: &mut ProxyCounters)
    requires
        old(slot).wf(),
    ensures
        final(slot).wf(),
        if ip == 0 || port == 0 {
            &&& refused(*old(slot), *final(slot), "502 Bad Gateway", "No proxy backend\n")
            &&& *final(counters) == (ProxyCounters {
                fives: bumped(old(counters).fives),
                ..*old(counters)
            })
        } else {
            &&& *final(slot) == (ConnSlot {
                proxy: fresh_leg(old(slot).proxy, ip, port, None),
                keepalive: false,
                phase: Phase::ProxyConnect,
                ..*old(slot)
            })
            &&& *final(counters) == *old(counters)
        },
{
    if ip == 0 || port == 0 {
        counters.fives = bump(counters.fives);
        refuse(slot, "502 Bad Gateway", "No proxy backend\n");
    } else {
        begin_proxy(slot, ip, port, None);
    }
}

/// Act on what became of handing a request to the application. A full channel is tried
/// again; what no retry can mend is answered 503.
pub fn emit_settled(slot: &mut ConnSlot, result: EmitResult)
    requires
        old(slot).wf(),
    ensures
        final(slot).wf(),
        match result {
            EmitResult::Sent => *final(slot) == *old(slot),
            EmitResult::Full => *final(slot) == *old(slot),
            EmitResult::Unwired => refused(
                *old(slot),
                *final(slot),
                "503 Service Unavailable",
                "No application wired to req_out\n",
            ),
            EmitResult::TooLarge => refused(
                *old(slot),
                *final(slot),
                "503 Service Unavailable",
                "Request exceeds the req_out ring\n",
            ),
        },
{
    match result {
        EmitResult::Sent => {},
        EmitResult::Full => {},
        EmitResult::Unwired => {
            refuse(slot, "503 Service Unavailable", "No application wired to req_out\n");
        },
        EmitResult::TooLarge => {
            refuse(slot, "503 Service Unavailable", "Request exceeds the req_out ring\n");
        },
    }
}

/// Begin a WebSocket whose handshake has been staged. A session sees no replay of what
/// was sent before it.
pub fn begin_websocket(slot: &mut ConnSlot, handler: u8)
    requires
        old(slot).wf(),
    ensures
        final(slot).wf(),
        *final(slot) == (ConnSlot {
            ws: WsConn {
                fan_out: handler == HANDLER_WEBSOCKET_FANOUT || handler
                    == HANDLER_WEBSOCKET_SESSION,
                replay_started: old(slot).ws.replay_started || handler
                    == HANDLER_WEBSOCKET_SESSION,
                replay_done: old(slot).ws.replay_done || handler == HANDLER_WEBSOCKET_SESSION,
                ..old(slot).ws
            },
            phase: Phase::WsHandshake,
            ..*old(slot)
        }),
{
    slot.phase = Phase::WsHandshake;
    slot.ws.fan_out = handler == HANDLER_WEBSOCKET_FANOUT || handler == HANDLER_WEBSOCKET_SESSION;
    if handler == HANDLER_WEBSOCKET_SESSION {
        slot.ws.replay_started = true;
        slot.ws.replay_done = true;
    }
}

/// Answer that nothing serves the path.
pub fn not_found(slot: &mut ConnSlot)
    requires
        old(slot).wf(),
    ensures
        final(slot).wf(),
        refused(*old(slot), *final(slot), "404 Not Found", "Not Found\n"),
{
    refuse(slot, "404 Not Found", "Not Found\n");
}

} // verus!
