//! Dispatch of HTTP/2 requests: which stream is next, and what its route makes of it.

use crate::app::{
    app_deadline, deadline_after, request_envelope, stream_id_fits, write_request_envelope, EmitResult,
    CHANNEL_BUFFER_SIZE,
};
use crate::body::{parse_file_index, FileIndex};
use crate::cache::{cache_try_or_fetch, ends_fit, looked_up, lookup_of, CacheLookup, ContentCache, FileLock};
use crate::conn::Rendering;
use crate::h1::file_asked;
use crate::h2::{H2Model, H2State, StreamModel, StreamState, Sub, MAX_STREAMS};
use crate::h2_hold::{answer, grpc_answer};
use crate::h2_request::{DoneModel, FrameDone};
use crate::method::{method_sends_response_body, sends_response_body};
use crate::routes::{
    match_route_path, route_for, Route, HANDLER_APP, HANDLER_FILE, HANDLER_GRPC, HANDLER_STATIC, HANDLER_TEMPLATE,
    MAX_ROUTES,
};
use vstd::prelude::*;

verus! {

/// What is to be done for a request that has been dispatched.
pub enum H2Act {
    /// Nothing more than this.
    Settled(FrameDone),
    /// Flush the file channel and ask it for this source.
    Fetch { source: u32 },
    /// Try again later to fetch the body.
    Wait,
    /// Ask the file channel how many files there are.
    CountFiles,
    /// Flush the file channel and ask it for this file.
    OpenIndexed { index: u32 },
    /// Hand this envelope to the application.
    Emit(Vec<u8>),
}

/// Whether a dispatch is settled with this connection and this outcome.
pub open spec fn settled_as(r: H2Act, n: H2Model, to: (H2Model, DoneModel)) -> bool {
    n == to.0 && (r matches H2Act::Settled(d) && d@ == to.1)
}

/// The connection after stream `i` has been made ready to be answered.
pub open spec fn armed(m: H2Model, i: int, handler: u8, file_index: i16, route: usize, cached: bool) -> H2Model {
    H2Model {
        sub: if m.sub is Closing {
            m.sub
        } else {
            Sub::SendingBody
        },
        ..m.with_stream(
            i,
            StreamModel {
                handler,
                route: Some(route),
                holds_cache: m.streams[i].holds_cache || cached,
                file_index,
                pos: 0,
                headers_sent: false,
                state: StreamState::Sending,
                ..m.streams[i]
            },
        )
    }
}

/// The connection after stream `i` has begun to fetch its body.
pub open spec fn fetching(m: H2Model, i: int, handler: u8, route: usize) -> H2Model {
    H2Model {
        sub: if m.sub is Closing {
            m.sub
        } else {
            Sub::SendingBody
        },
        file_owner: Some(i as usize),
        ..m.with_stream(
            i,
            StreamModel {
                handler,
                route: Some(route),
                file_index: -1i16,
                pos: 0,
                headers_sent: false,
                state: StreamState::Fetching,
                ..m.streams[i]
            },
        )
    }
}

/// Does a request behind this route need the file channel or the cache to itself?
pub open spec fn exclusive(r: Route) -> bool {
    r.handler == HANDLER_FILE || ((r.handler == HANDLER_STATIC || r.handler == HANDLER_TEMPLATE)
        && r.source_index >= 0)
}

/// Does the request on this stream need the file channel or the cache to itself?
pub open spec fn wants_exclusive(st: StreamModel, routes: Seq<Route>) -> bool {
    match route_for(routes, st.path) {
        Some(k) => exclusive(routes[k]),
        None => false,
    }
}

/// Can the request on stream `i` be dispatched now?
pub open spec fn may_dispatch(m: H2Model, routes: Seq<Route>, i: int) -> bool {
    m.streams[i].state is Pending && (wants_exclusive(m.streams[i], routes) ==> m.file_owner is None)
}

/// The first stream from `from` on whose request can be dispatched now.
pub open spec fn next_pending(m: H2Model, routes: Seq<Route>, from: int) -> Option<int>
    decreases m.streams.len() - from,
{
    if from < 0 || from >= m.streams.len() {
        None
    } else if may_dispatch(m, routes, from) {
        Some(from)
    } else {
        next_pending(m, routes, from + 1)
    }
}

// ── The kinds of route ──────────────────────────────────────────────────

/// Whether a request for a page has been dispatched as it should.
pub open spec fn page_on_stream(
    m: H2Model,
    n: H2Model,
    look: CacheLookup,
    route: Route,
    ri: usize,
    i: int,
    r: H2Act,
) -> bool {
    match look {
        CacheLookup::Hit => settled_as(
            r,
            n,
            (armed(m, i, route.handler, -1i16, ri, true), DoneModel::nothing()),
        ),
        CacheLookup::NoSource => settled_as(
            r,
            n,
            (armed(m, i, route.handler, -1i16, ri, false), DoneModel::nothing()),
        ),
        CacheLookup::Pending => n == fetching(m, i, route.handler, ri) && r == (H2Act::Fetch {
            source: route.source_index as u32,
        }),
        CacheLookup::Busy => n == fetching(m, i, route.handler, ri) && r is Wait,
    }
}

/// A stream answered with a short text. A response to HEAD carries no body on HTTP/2, an
/// error no more than a page: its text is not sent.
pub open spec fn refused_with(m: H2Model, i: int, status: &str, body: &str) -> (H2Model, DoneModel) {
    answer(m, i, status, body, sends_response_body(m.streams[i].method))
}

/// Whether a request for the files behind a route has been dispatched as it should.
pub open spec fn file_on_stream(
    m: H2Model,
    n: H2Model,
    old_lock: FileLock,
    new_lock: FileLock,
    asked: FileIndex,
    ri: usize,
    i: int,
    idx: usize,
    files: bool,
    r: H2Act,
) -> bool {
    let free = old_lock.owner is None || old_lock.owner == Some(idx);
    match asked {
        FileIndex::Listing => {
            &&& r is CountFiles
            &&& new_lock == old_lock
            &&& n == (H2Model {
                file_owner: Some(i as usize),
                ..armed(m, i, HANDLER_FILE, -1i16, ri, false)
            })
        },
        FileIndex::File(k) => if !files {
            &&& new_lock == old_lock
            &&& settled_as(r, n, refused_with(m, i, "404", "Not Found\n"))
        } else if !free {
            &&& new_lock == old_lock
            &&& settled_as(r, n, refused_with(m, i, "503", "Service Unavailable: file channel busy\n"))
        } else {
            &&& new_lock == (FileLock { owner: Some(idx) })
            &&& r == (H2Act::OpenIndexed { index: k as u32 })
            &&& n == m
        },
        FileIndex::Bad => {
            &&& new_lock == old_lock
            &&& settled_as(r, n, refused_with(m, i, "400", "Bad Request\n"))
        },
    }
}

/// Whether a request for an application has been dispatched as it should.
pub open spec fn app_on_stream(m: H2Model, n: H2Model, i: int, conn_id: u16, wired: bool, r: H2Act) -> bool {
    let st = m.streams[i];
    let e = request_envelope(conn_id, st.id as u16, st.method, st.path, st.fields, st.body);
    if wired && st.id <= u16::MAX && e.len() <= CHANNEL_BUFFER_SIZE {
        n == m && (r matches H2Act::Emit(v) && v@ == e)
    } else {
        settled_as(r, n, refused_with(m, i, "503", "No application wired to req_out\n"))
    }
}

/// The one message of every answered remote call.
pub open spec fn grpc_reply() -> Seq<u8> {
    seq![0u8, 0u8, 0u8, 0u8, 4u8, 0x0au8, 2u8, 0x68u8, 0x69u8]
}

/// What the server brings to a dispatch besides the connection.
#[verifier::ext_equal]
pub struct Surroundings {
    pub routes: Seq<Route>,
    pub cache: ContentCache,
    pub lock: FileLock,
}

/// Whether the request on stream `i` has been dispatched as it should.
pub open spec fn dispatched_on_stream(
    m: H2Model,
    n: H2Model,
    before: Surroundings,
    after: Surroundings,
    i: int,
    idx: usize,
    conn_id: u16,
    files: bool,
    wired: bool,
    r: H2Act,
) -> bool {
    let st = m.streams[i];
    match route_for(before.routes, st.path) {
        None => after == before && settled_as(r, n, refused_with(m, i, "404", "Not Found\n")),
        Some(ri) => {
            let route = before.routes[ri];
            if route.handler == HANDLER_STATIC || route.handler == HANDLER_TEMPLATE {
                let look = lookup_of(before.cache, before.lock, before.routes, ri, idx, files);
                &&& looked_up(
                    before.cache,
                    after.cache,
                    before.lock,
                    after.lock,
                    before.routes,
                    after.routes,
                    ri,
                    idx,
                    look,
                )
                &&& page_on_stream(m, n, look, route, ri as usize, i, r)
            } else if route.handler == HANDLER_FILE {
                &&& after.routes == before.routes
                &&& after.cache == before.cache
                &&& file_on_stream(
                    m,
                    n,
                    before.lock,
                    after.lock,
                    file_asked(st.path, route.path@.len() as int),
                    ri as usize,
                    i,
                    idx,
                    files,
                    r,
                )
            } else if route.handler == HANDLER_APP {
                after == before && app_on_stream(m, n, i, conn_id, wired, r)
            } else if route.handler == HANDLER_GRPC {
                after == before && settled_as(r, n, grpc_answer(m, i, grpc_reply(), 0))
            } else {
                after == before && settled_as(r, n, refused_with(m, i, "501", "handler unsupported on h2\n"))
            }
        },
    }
}

impl H2State {
    /// Make a stream ready to be answered.
    #[verifier::rlimit(40)]
    pub fn arm_slot_for_emission(&mut self, i: usize, handler: u8, file_index: i16, route: usize, cached: bool)
        requires
            old(self).wf(),
            i < MAX_STREAMS,
            !(old(self)@.streams[i as int].state is Idle),
            old(self)@.streams[i as int].rest.len() == 0,
        ensures
            final(self).wf(),
            final(self)@ == armed(old(self)@, i as int, handler, file_index, route, cached),
    {
        assert(self@.streams[i as int] == self.streams@[i as int]@);
        assert(self@.streams[i as int].wf());
        self.streams[i].handler = handler;
        self.streams[i].route = Some(route);
        if cached {
            self.streams[i].holds_cache = true;
        }
        self.streams[i].file_index = file_index;
        self.streams[i].pos = 0;
        self.streams[i].headers_sent = false;
        self.streams[i].state = StreamState::Sending;
        if self.sub != Sub::Closing {
            self.sub = Sub::SendingBody;
        }
        proof {
            let n = armed(old(self)@, i as int, handler, file_index, route, cached);
            assert(self.streams@ =~= old(self).streams@.update(i as int, self.streams@[i as int]));
            assert(self.streams@[i as int]@ =~= n.streams[i as int]);
            assert(self@.streams =~= n.streams);
            assert(self@ =~= n);
        }
    }

    fn begin_fetch(&mut self, i: usize, handler: u8, route: usize)
        requires
            old(self).wf(),
            i < MAX_STREAMS,
            old(self)@.streams[i as int].state is Pending,
            old(self)@.file_owner is None,
        ensures
            final(self).wf(),
            final(self)@ == fetching(old(self)@, i as int, handler, route),
    {
        assert(self@.streams[i as int] == self.streams@[i as int]@);
        assert(self@.streams[i as int].wf());
        self.streams[i].handler = handler;
        self.streams[i].route = Some(route);
        self.streams[i].file_index = -1;
        self.streams[i].pos = 0;
        self.streams[i].headers_sent = false;
        self.streams[i].state = StreamState::Fetching;
        self.file_owner = Some(i);
        if self.sub != Sub::Closing {
            self.sub = Sub::SendingBody;
        }
        proof {
            let n = fetching(old(self)@, i as int, handler, route);
            assert(self.streams@ =~= old(self).streams@.update(i as int, self.streams@[i as int]));
            assert(self.streams@[i as int]@ =~= n.streams[i as int]);
            assert(self@.streams =~= n.streams);
            assert(self@ =~= n);
        }
    }

    fn needs_exclusive_for_request(&self, i: usize, routes: &Vec<Route>) -> (r: bool)
        requires
            self.wf(),
            i < MAX_STREAMS,
        ensures
            r == wants_exclusive(self@.streams[i as int], routes@),
    {
        assert(self@.streams[i as int] == self.streams@[i as int]@);
        match match_route_path(routes, self.streams[i].path.as_slice()) {
            None => false,
            Some(k) => routes[k].handler == HANDLER_FILE || ((routes[k].handler == HANDLER_STATIC
                || routes[k].handler == HANDLER_TEMPLATE) && routes[k].source_index >= 0),
        }
    }

    /// Find the next request that can be dispatched, from stream `from` on. One that needs
    /// the file channel waits for the stream that uses it.
    pub fn next_dispatch(&self, routes: &Vec<Route>, from: usize) -> (r: Option<usize>)
        requires
            self.wf(),
            from <= MAX_STREAMS,
        ensures
            match r {
                Some(i) => next_pending(self@, routes@, from as int) == Some(i as int) && from <= i
                    < MAX_STREAMS && may_dispatch(self@, routes@, i as int),
                None => next_pending(self@, routes@, from as int) is None,
            },
    {
        let mut i: usize = from;
        while i < MAX_STREAMS
            invariant
                from <= i <= MAX_STREAMS,
                self.wf(),
                next_pending(self@, routes@, i as int) == next_pending(
                    self@,
                    routes@,
                    from as int,
                ),
            decreases MAX_STREAMS - i,
        {
            assert(self@.streams[i as int] == self.streams@[i as int]@);
            if self.streams[i].state == StreamState::Pending && (self.file_owner.is_none()
                || !self.needs_exclusive_for_request(i, routes)) {
                return Some(i);
            }
            i += 1;
        }
        None
    }

    /// Answer a stream with a short text.
    fn refuse_stream(&mut self, i: usize, status: &'static str, body: &'static str) -> (r: FrameDone)
        requires
            old(self).wf(),
            i < MAX_STREAMS,
            !(old(self)@.streams[i as int].state is Idle),
            !(old(self)@.streams[i as int].state is Sending),
        ensures
            final(self).wf(),
            (final(self)@, r@) == refused_with(old(self)@, i as int, status, body),
    {
        assert(self@.streams[i as int] == self.streams@[i as int]@);
        assert(self@.streams[i as int].wf());
        let with_body = method_sends_response_body(self.streams[i].method);
        self.emit_response(i, status, body, with_body)
    }

    fn begin_cached_response(
        &mut self,
        i: usize,
        ri: usize,
        idx: usize,
        routes: &mut Vec<Route>,
        cache: &mut ContentCache,
        lock: &mut FileLock,
        files: bool,
    ) -> (r: H2Act)
        requires
            old(self).wf(),
            i < MAX_STREAMS,
            old(self)@.streams[i as int].state is Pending,
            ri < old(routes)@.len(),
            old(routes)@.len() <= MAX_ROUTES,
            ends_fit(old(routes)@),
            exclusive(old(routes)@[ri as int]) ==> old(self)@.file_owner is None,
            old(routes)@[ri as int].handler == HANDLER_STATIC || old(routes)@[ri as int].handler
                == HANDLER_TEMPLATE,
        ensures
            final(self).wf(),
            ({
                let look = lookup_of(*old(cache), *old(lock), old(routes)@, ri as int, idx, files);
                &&& looked_up(
                    *old(cache),
                    *final(cache),
                    *old(lock),
                    *final(lock),
                    old(routes)@,
                    final(routes)@,
                    ri as int,
                    idx,
                    look,
                )
                &&& page_on_stream(
                    old(self)@,
                    final(self)@,
                    look,
                    old(routes)@[ri as int],
                    ri,
                    i as int,
                    r,
                )
            }),
    {
        let handler: u8 = routes[ri].handler;
        let source: i16 = routes[ri].source_index;
        match cache_try_or_fetch(cache, lock, routes, ri, idx, files) {
            CacheLookup::Hit => {
                self.arm_slot_for_emission(i, handler, -1, ri, true);
                H2Act::Settled(FrameDone::nothing())
            },
            CacheLookup::NoSource => {
                self.arm_slot_for_emission(i, handler, -1, ri, false);
                H2Act::Settled(FrameDone::nothing())
            },
            CacheLookup::Pending => {
                self.begin_fetch(i, handler, ri);
                H2Act::Fetch { source: source as u32 }
            },
            CacheLookup::Busy => {
                self.begin_fetch(i, handler, ri);
                H2Act::Wait
            },
        }
    }

    fn begin_file_response(&mut self, i: usize, ri: usize, asked: FileIndex, idx: usize, lock: &mut FileLock, files: bool) -> (r: H2Act)
        requires
            old(self).wf(),
            i < MAX_STREAMS,
            old(self)@.streams[i as int].state is Pending,
            old(self)@.file_owner is None,
            asked matches FileIndex::File(k) ==> k >= 0,
        ensures
            final(self).wf(),
            file_on_stream(
                old(self)@,
                final(self)@,
                *old(lock),
                *final(lock),
                asked,
                ri,
                i as int,
                idx,
                files,
                r,
            ),
    {
        match asked {
            FileIndex::Listing => {
                self.arm_slot_for_emission(i, HANDLER_FILE, -1, ri, false);
                let ghost mid = self@;
                self.file_owner = Some(i);
                assert(self@ =~= (H2Model { file_owner: Some(i), ..mid }));
                H2Act::CountFiles
            },
            FileIndex::File(k) => {
                if !files {
                    return H2Act::Settled(self.refuse_stream(i, "404", "Not Found\n"));
                }
                if !lock.try_acquire(idx) {
                    return H2Act::Settled(
                        self.refuse_stream(i, "503", "Service Unavailable: file channel busy\n"),
                    );
                }
                H2Act::OpenIndexed { index: k as u32 }
            },
            FileIndex::Bad => H2Act::Settled(self.refuse_stream(i, "400", "Bad Request\n")),
        }
    }

    fn emit_app_request(&mut self, i: usize, conn_id: u16, wired: bool) -> (r: H2Act)
        requires
            old(self).wf(),
            i < MAX_STREAMS,
            old(self)@.streams[i as int].state is Pending,
        ensures
            final(self).wf(),
            app_on_stream(old(self)@, final(self)@, i as int, conn_id, wired, r),
    {
        assert(self@.streams[i as int] == self.streams@[i as int]@);
        if wired && stream_id_fits(self.streams[i].id) {
            let e = write_request_envelope(
                conn_id,
                self.streams[i].id as u16,
                self.streams[i].method,
                self.streams[i].path.as_slice(),
                self.streams[i].fields.as_slice(),
                self.streams[i].body.as_slice(),
            );
            if let Some(v) = e {
                return H2Act::Emit(v);
            }
        }
        H2Act::Settled(self.refuse_stream(i, "503", "No application wired to req_out\n"))
    }

    /// Dispatch the request on a stream. `idx` is the connection's slot; `files` and
    /// `wired` say whether there is a file channel and an application.
    pub fn dispatch_request(
        &mut self,
        i: usize,
        idx: usize,
        conn_id: u16,
        routes: &mut Vec<Route>,
        cache: &mut ContentCache,
        lock: &mut FileLock,
        files: bool,
        wired: bool,
    ) -> (r: H2Act)
        requires
            old(self).wf(),
            i < MAX_STREAMS,
            may_dispatch(old(self)@, old(routes)@, i as int),
            old(routes)@.len() <= MAX_ROUTES,
            ends_fit(old(routes)@),
        ensures
            final(self).wf(),
            dispatched_on_stream(
                old(self)@,
                final(self)@,
                (Surroundings { routes: old(routes)@, cache: *old(cache), lock: *old(lock) }),
                (Surroundings { routes: final(routes)@, cache: *final(cache), lock: *final(lock) }),
                i as int,
                idx,
                conn_id,
                files,
                wired,
                r,
            ),
    {
        assert(self@.streams[i as int] == self.streams@[i as int]@);
        let ri: usize = match match_route_path(routes, self.streams[i].path.as_slice()) {
            None => {
                return H2Act::Settled(self.refuse_stream(i, "404", "Not Found\n"));
            },
            Some(ri) => ri,
        };
        let handler: u8 = routes[ri].handler;
        if handler == HANDLER_STATIC || handler == HANDLER_TEMPLATE {
            return self.begin_cached_response(i, ri, idx, routes, cache, lock, files);
        }
        if handler == HANDLER_FILE {
            let asked = parse_file_index(self.streams[i].path.as_slice(), routes[ri].path.len());
            return self.begin_file_response(i, ri, asked, idx, lock, files);
        }
        if handler == HANDLER_APP {
            return self.emit_app_request(i, conn_id, wired);
        }
        if handler == HANDLER_GRPC {
            let reply: [u8; 9] = [0, 0, 0, 0, 4, 0x0a, 2, 0x68, 0x69];
            assert(reply@ =~= grpc_reply());
            return H2Act::Settled(self.emit_grpc_response(i, reply.as_slice(), 0));
        }
        H2Act::Settled(self.refuse_stream(i, "501", "handler unsupported on h2\n"))
    }

    /// Act on the file channel's answer to being asked for a file.
    pub fn note_file_opened(&mut self, i: usize, ri: usize, index: i16, opened: bool, idx: usize, lock: &mut FileLock) -> (r: FrameDone)
        requires
            old(self).wf(),
            i < MAX_STREAMS,
            old(self)@.streams[i as int].state is Pending,
            old(self)@.file_owner is None,
        ensures
            final(self).wf(),
            opened ==> {
                &&& final(self)@ == (H2Model {
                    file_owner: Some(i),
                    ..armed(old(self)@, i as int, HANDLER_FILE, index, ri, false)
                })
                &&& r@ == DoneModel::nothing()
                &&& *final(lock) == *old(lock)
            },
            !opened ==> {
                &&& (final(self)@, r@) == refused_with(old(self)@, i as int, "404", "Not Found\n")
                &&& final(lock).owner == if old(lock).owner == Some(idx) {
                    None
                } else {
                    old(lock).owner
                }
            },
    {
        if !opened {
            lock.release(idx);
            return self.refuse_stream(i, "404", "Not Found\n");
        }
        self.arm_slot_for_emission(i, HANDLER_FILE, index, ri, false);
        let ghost mid = self@;
        self.file_owner = Some(i);
        assert(self@ =~= (H2Model { file_owner: Some(i), ..mid }));
        FrameDone::nothing()
    }

    /// Act on what became of an attempt to hand over a stream's request. A full channel
    /// leaves the request for the next pass.
    pub fn note_app_emitted(&mut self, i: usize, sent: EmitResult, now: u64) -> (r: FrameDone)
        requires
            old(self).wf(),
            i < MAX_STREAMS,
            old(self)@.streams[i as int].state is Pending,
            old(self)@.streams[i as int].id <= u16::MAX,
        ensures
            final(self).wf(),
            match sent {
                EmitResult::Sent => final(self)@ == old(self)@.with_stream(
                    i as int,
                    StreamModel {
                        app_pending: true,
                        app_deadline_ms: deadline_after(now),
                        state: StreamState::Open,
                        ..old(self)@.streams[i as int]
                    },
                ) && r@ == DoneModel::nothing(),
                EmitResult::Full => final(self)@ == old(self)@ && r@ == DoneModel::nothing(),
                _ => (final(self)@, r@) == refused_with(
                    old(self)@,
                    i as int,
                    "503",
                    "No application wired to req_out\n",
                ),
            },
    {
        match sent {
            EmitResult::Sent => {
                assert(self@.streams[i as int] == self.streams@[i as int]@);
                assert(self@.streams[i as int].wf());
                self.streams[i].app_pending = true;
                self.streams[i].app_deadline_ms = app_deadline(now);
                self.streams[i].state = StreamState::Open;
                proof {
                    let st = StreamModel {
                        app_pending: true,
                        app_deadline_ms: deadline_after(now),
                        state: StreamState::Open,
                        ..old(self)@.streams[i as int]
                    };
                    assert(self.streams@ =~= old(self).streams@.update(
                        i as int,
                        self.streams@[i as int],
                    ));
                    assert(self.streams@[i as int]@ =~= st);
                    assert(self@.streams =~= old(self)@.streams.update(i as int, st));
                    assert(self@ =~= old(self)@.with_stream(i as int, st));
                }
                FrameDone::nothing()
            },
            EmitResult::Full => FrameDone::nothing(),
            _ => self.refuse_stream(i, "503", "No application wired to req_out\n"),
        }
    }
}

/// Begin the index of the files on a connection. `count` is how many there are, where
/// that is known.
pub fn note_files_counted(render: &mut Rendering, count: Option<u16>)
    ensures
        *final(render) == (Rendering {
            file_count: match count {
                Some(n) => n,
                None => old(render).file_count,
            },
            index_pos: 0,
            ..*old(render)
        }),
{
    if let Some(n) = count {
        render.file_count = n;
    }
    render.index_pos = 0;
}

// ── Fetching ────────────────────────────────────────────────────────────

/// The connection after the fetch for stream `i` has come to an end with its body.
pub open spec fn fetch_done(m: H2Model, i: int, cached: bool) -> H2Model {
    H2Model {
        file_owner: None,
        ..armed(m, i, m.streams[i].handler, -1i16, m.streams[i].route->0, cached)
    }
}

impl H2State {
    fn finish_fetch(&mut self, i: usize, ri: usize, cached: bool)
        requires
            old(self).wf(),
            i < MAX_STREAMS,
            old(self)@.streams[i as int].state is Fetching,
            old(self)@.streams[i as int].route == Some(ri),
        ensures
            final(self).wf(),
            final(self)@ == fetch_done(old(self)@, i as int, cached),
    {
        assert(self@.streams[i as int] == self.streams@[i as int]@);
        let handler: u8 = self.streams[i].handler;
        self.arm_slot_for_emission(i, handler, -1, ri, cached);
        let ghost mid = self@;
        self.file_owner = None;
        assert(self@ =~= (H2Model { file_owner: None, ..mid }));
    }

    /// Ask again for the body of a stream whose connection does not hold the file
    /// channel yet.
    pub fn retry_fetch(
        &mut self,
        i: usize,
        ri: usize,
        idx: usize,
        routes: &mut Vec<Route>,
        cache: &mut ContentCache,
        lock: &mut FileLock,
        files: bool,
    ) -> (r: CacheLookup)
        requires
            old(self).wf(),
            i < MAX_STREAMS,
            old(self)@.streams[i as int].state is Fetching,
            old(self)@.streams[i as int].route == Some(ri),
            ri < old(routes)@.len(),
            old(routes)@.len() <= MAX_ROUTES,
            ends_fit(old(routes)@),
            old(lock).owner != Some(idx),
        ensures
            final(self).wf(),
            r == lookup_of(*old(cache), *old(lock), old(routes)@, ri as int, idx, files),
            looked_up(
                *old(cache),
                *final(cache),
                *old(lock),
                *final(lock),
                old(routes)@,
                final(routes)@,
                ri as int,
                idx,
                r,
            ),
            final(self)@ == match r {
                CacheLookup::Hit => fetch_done(old(self)@, i as int, true),
                CacheLookup::NoSource => fetch_done(old(self)@, i as int, false),
                _ => old(self)@,
            },
    {
        let look = cache_try_or_fetch(cache, lock, routes, ri, idx, files);
        match look {
            CacheLookup::Hit => self.finish_fetch(i, ri, true),
            CacheLookup::NoSource => self.finish_fetch(i, ri, false),
            _ => {},
        }
        look
    }

    /// Act on the end of a fetch: with the body, or without one.
    pub fn settle_fetch(&mut self, i: usize, ri: usize, ok: bool, idx: usize, lock: &mut FileLock) -> (r: FrameDone)
        requires
            old(self).wf(),
            i < MAX_STREAMS,
            old(self)@.streams[i as int].state is Fetching,
            old(self)@.streams[i as int].route == Some(ri),
        ensures
            final(self).wf(),
            final(lock).owner == if old(lock).owner == Some(idx) {
                None
            } else {
                old(lock).owner
            },
            ok ==> final(self)@ == fetch_done(old(self)@, i as int, true) && r@
                == DoneModel::nothing(),
            !ok ==> (final(self)@, r@) == refused_with(
                old(self)@,
                i as int,
                "500",
                "cache fetch failed\n",
            ),
    {
        lock.release(idx);
        if ok {
            self.finish_fetch(i, ri, true);
            return FrameDone::nothing();
        }
        self.refuse_stream(i, "500", "cache fetch failed\n")
    }
}

// ── Laws ────────────────────────────────────────────────────────────────

/// At most one stream of a connection fetches its body at a time.
pub proof fn law_one_stream_fetches(m: H2Model, i: int, j: int)
    requires
        m.wf(),
        0 <= i < MAX_STREAMS,
        0 <= j < MAX_STREAMS,
        m.streams[i].state is Fetching,
        m.streams[j].state is Fetching,
    ensures
        i == j,
{
}

/// A request that needs the file channel is not begun while another stream uses it, and
/// no request waits for it that does not need it.
pub proof fn law_file_channel_is_not_shared(m: H2Model, routes: Seq<Route>, from: int)
    requires
        m.wf(),
        0 <= from <= MAX_STREAMS,
        m.file_owner is Some,
    ensures
        match next_pending(m, routes, from) {
            Some(i) => from <= i < MAX_STREAMS && m.streams[i].state is Pending && !wants_exclusive(
                m.streams[i],
                routes,
            ),
            None => forall|k: int|
                from <= k < MAX_STREAMS && (#[trigger] m.streams[k]).state is Pending
                    ==> wants_exclusive(m.streams[k], routes),
        },
    decreases MAX_STREAMS - from,
{
    if from < MAX_STREAMS && !may_dispatch(m, routes, from) {
        law_file_channel_is_not_shared(m, routes, from + 1);
    }
}

} // verus!
