//! Answering HTTP/2 streams: their turns, their windows, and the connection's own steps.

use crate::body::{
    chunk_end, chunk_text, index_lines, index_stop, render_index_into, render_static_into, render_template_route_into,
};
use crate::bytes::clip;
use crate::conn::Rendering;
use crate::h2::{
    in_state, lower_window, lowered, refilled, Freed, H2Model, H2State, StreamModel, StreamState, Sub, MAX_STREAMS,
};
use crate::h2_app::swept;
use crate::h2_frames::received;
use crate::h2_hold::held_sent;
use crate::h2_request::{ended_with, DoneModel, FrameDone};
use crate::h2_response::{body_headers, emit_slot_headers};
use crate::h2_wire::{
    data_frame, h2_frame, settings_payload, write_data, write_settings, FRAME_HEADER_LEN, FRAME_SETTINGS,
    SETTINGS_ENABLE_CONNECT_PROTOCOL, SETTINGS_ENABLE_PUSH, SETTINGS_HEADER_TABLE_SIZE,
    SETTINGS_MAX_CONCURRENT_STREAMS,
};
use crate::h2_ws::tunnel_next;
use crate::method::{method_sends_response_body, sends_response_body};
use crate::cache::SEND_BUF_SIZE;
use crate::routes::{Route, HANDLER_FILE, HANDLER_STATIC, HANDLER_TEMPLATE};
use crate::site::Site;
use vstd::prelude::*;

verus! {

// ── Turns ───────────────────────────────────────────────────────────────

/// The first place looked at for the next turn: the one behind the last.
pub open spec fn turn_start(cursor: Option<usize>) -> int {
    match cursor {
        None => 0,
        Some(c) => (c + 1) % (MAX_STREAMS as int),
    }
}

/// The first stream being answered, `off` places or more behind `start`, going round.
pub open spec fn turn_from(s: Seq<StreamModel>, start: int, off: int) -> Option<int>
    decreases MAX_STREAMS - off,
{
    if off < 0 || off >= MAX_STREAMS {
        None
    } else if s[(start + off) % (MAX_STREAMS as int)].state is Sending {
        Some((start + off) % (MAX_STREAMS as int))
    } else {
        turn_from(s, start, off + 1)
    }
}

/// The stream whose turn it is.
pub open spec fn turn_of(m: H2Model) -> Option<int> {
    turn_from(m.streams, turn_start(m.cursor), 0)
}

/// How many bytes of body stream `i` may send now.
pub open spec fn room_of(m: H2Model, i: int) -> int {
    let w = if m.send_window < m.streams[i].send_window {
        m.send_window as int
    } else {
        m.streams[i].send_window as int
    };
    if w <= 0 {
        0
    } else if w < SEND_BUF_SIZE - FRAME_HEADER_LEN {
        w
    } else {
        SEND_BUF_SIZE - FRAME_HEADER_LEN
    }
}

/// What a turn comes to.
pub enum Turn {
    /// A body is being fetched and nothing else can be done.
    Wait,
    /// Nothing is being answered.
    Rest,
    /// The headers of the stream whose turn it is.
    Headers(FrameDone),
    /// Some of what it holds of an answer.
    Held(FrameDone),
    /// The peer must raise a window before stream `i` can go on.
    Stalled { stream: usize },
    /// Stream `i` may send up to so many bytes.
    Data { stream: usize, room: usize },
}

/// The connection after the headers of stream `i` have been sent. They end it when its
/// method asks for no body: a response to HEAD carries none on HTTP/2 for the same reason
/// as on HTTP/1, and data behind it would break the stream's state, which a peer may answer
/// by ending every stream of the connection.
pub open spec fn headers_sent(m: H2Model, i: int) -> (H2Model, DoneModel) {
    let st = m.streams[i];
    let end = !sends_response_body(st.method);
    let out = body_headers(st.id, st.handler, st.file_index, end);
    if end {
        ended_with(m, i, out)
    } else {
        (m.with_stream(i, StreamModel { headers_sent: true, ..st }), DoneModel::sent(out))
    }
}

/// Whether a turn has been taken as it should.
pub open spec fn turn_taken(m: H2Model, n: H2Model, now: u64, r: Turn) -> bool {
    match turn_of(m) {
        None => if in_state(m.streams, StreamState::Fetching, 0) is Some {
            r is Wait && n == m
        } else {
            r is Rest && n == (H2Model {
                sub: if m.sub is Closing {
                    m.sub
                } else {
                    Sub::Active
                },
                cursor: None,
                ..m
            })
        },
        Some(i) => {
            let c = H2Model { cursor: Some(i as usize), ..m };
            if !m.streams[i].headers_sent {
                &&& r matches Turn::Headers(d)
                &&& (n, d@) == headers_sent(c, i)
            } else if room_of(m, i) == 0 {
                n == c && r == (Turn::Stalled { stream: i as usize })
            } else if m.streams[i].rest.len() > 0 {
                &&& r matches Turn::Held(d)
                &&& (n, d@) == held_sent(c, i, now)
            } else {
                n == c && r == (Turn::Data { stream: i as usize, room: room_of(m, i) as usize })
            }
        },
    }
}

/// The connection after `data` of stream `i` has been sent. The last piece ends the
/// stream.
pub open spec fn data_sent(m: H2Model, i: int, data: Seq<u8>, more: bool) -> (H2Model, DoneModel) {
    let st = m.streams[i];
    let out = data_frame(st.id, data, !more);
    let c = H2Model { send_window: lowered(m.send_window, data.len() as u32), ..m };
    if more {
        (
            c.with_stream(
                i,
                StreamModel { send_window: lowered(st.send_window, data.len() as u32), ..st },
            ),
            DoneModel::sent(out),
        )
    } else {
        ended_with(c, i, out)
    }
}

impl H2State {
    /// Find the stream whose turn it is.
    fn find_turn(&self) -> (r: Option<usize>)
        requires
            self.wf(),
        ensures
            match r {
                Some(i) => turn_of(self@) == Some(i as int) && i < MAX_STREAMS
                    && self@.streams[i as int].state is Sending,
                None => turn_of(self@) is None,
            },
    {
        let start: usize = match self.cursor {
            None => 0,
            Some(c) => (c + 1) % MAX_STREAMS,
        };
        let mut off: usize = 0;
        while off < MAX_STREAMS
            invariant
                off <= MAX_STREAMS,
                start < MAX_STREAMS,
                start == turn_start(self@.cursor),
                self.wf(),
                turn_from(self@.streams, start as int, off as int) == turn_of(self@),
            decreases MAX_STREAMS - off,
        {
            let i: usize = (start + off) % MAX_STREAMS;
            assert(self@.streams[i as int] == self.streams@[i as int]@);
            if self.streams[i].state == StreamState::Sending {
                return Some(i);
            }
            off += 1;
        }
        None
    }

    /// Work out how many bytes a stream may send.
    pub fn data_room(&self, i: usize) -> (r: usize)
        requires
            self.wf(),
            i < MAX_STREAMS,
        ensures
            r == room_of(self@, i as int),
    {
        assert(self@.streams[i as int] == self.streams@[i as int]@);
        let a: i32 = self.send_window;
        let b: i32 = self.streams[i].send_window;
        let w: i32 = if a < b {
            a
        } else {
            b
        };
        if w <= 0 {
            0
        } else if (w as usize) < SEND_BUF_SIZE - FRAME_HEADER_LEN {
            w as usize
        } else {
            SEND_BUF_SIZE - FRAME_HEADER_LEN
        }
    }

    /// Take a turn: the next stream being answered sends its headers or some of its body.
    #[verifier::rlimit(40)]
    pub fn step_sending_body(&mut self, now: u64) -> (r: Turn)
        requires
            old(self).wf(),
        ensures
            final(self).wf(),
            turn_taken(old(self)@, final(self)@, now, r),
    {
        let i: usize = match self.find_turn() {
            None => {
                if self.find_state(StreamState::Fetching, 0).is_some() {
                    return Turn::Wait;
                }
                if self.sub != Sub::Closing {
                    self.sub = Sub::Active;
                }
                self.cursor = None;
                return Turn::Rest;
            },
            Some(i) => i,
        };
        self.cursor = Some(i);
        let ghost c = H2Model { cursor: Some(i), ..old(self)@ };
        assert(self@ =~= c);
        assert(self@.streams[i as int] == self.streams@[i as int]@);
        assert(self@.streams[i as int].wf());
        if !self.streams[i].headers_sent {
            let end = !method_sends_response_body(self.streams[i].method);
            let out: Vec<u8> = emit_slot_headers(
                self.streams[i].id,
                self.streams[i].handler,
                self.streams[i].file_index,
                end,
            );
            if end {
                return Turn::Headers(self.end_with(i, out));
            }
            let ghost mid = self.streams@;
            self.streams[i].headers_sent = true;
            proof {
                let st = StreamModel { headers_sent: true, ..c.streams[i as int] };
                assert(self.streams@ =~= mid.update(i as int, self.streams@[i as int]));
                assert(self.streams@[i as int]@ =~= st);
                assert(self@.streams =~= c.streams.update(i as int, st));
                assert(self@ =~= c.with_stream(i as int, st));
            }
            return Turn::Headers(FrameDone::sent(out));
        }
        let room: usize = self.data_room(i);
        if room == 0 {
            Turn::Stalled { stream: i }
        } else if self.streams[i].rest.len() > 0 {
            Turn::Held(self.send_held(i, now))
        } else {
            Turn::Data { stream: i, room }
        }
    }

    /// Send a piece of a stream's body. An empty piece that is not the last sends
    /// nothing.
    pub fn send_data(&mut self, i: usize, data: &[u8], more: bool) -> (r: FrameDone)
        requires
            old(self).wf(),
            i < MAX_STREAMS,
            old(self)@.streams[i as int].state is Sending,
            old(self)@.streams[i as int].rest.len() == 0,
            data@.len() <= room_of(old(self)@, i as int),
        ensures
            final(self).wf(),
            if data@.len() == 0 && more {
                *final(self) == *old(self) && r@ == DoneModel::nothing()
            } else {
                (final(self)@, r@) == data_sent(old(self)@, i as int, data@, more)
            },
    {
        if data.len() == 0 && more {
            return FrameDone::nothing();
        }
        assert(self@.streams[i as int] == self.streams@[i as int]@);
        assert(self@.streams[i as int].wf());
        let out: Vec<u8> = write_data(self.streams[i].id, data, !more);
        let n: u32 = data.len() as u32;
        self.send_window = lower_window(self.send_window, n);
        let ghost c = H2Model {
            send_window: lowered(old(self)@.send_window, data@.len() as u32),
            ..old(self)@
        };
        assert(self@ =~= c);
        if !more {
            return self.end_with(i, out);
        }
        let ghost mid = self.streams@;
        let w: i32 = lower_window(self.streams[i].send_window, n);
        self.streams[i].send_window = w;
        proof {
            let st = StreamModel {
                send_window: lowered(c.streams[i as int].send_window, data@.len() as u32),
                ..c.streams[i as int]
            };
            assert(self.streams@ =~= mid.update(i as int, self.streams@[i as int]));
            assert(self.streams@[i as int]@ =~= st);
            assert(self@.streams =~= c.streams.update(i as int, st));
            assert(self@ =~= c.with_stream(i as int, st));
        }
        FrameDone::sent(out)
    }
}

impl H2State {
    /// Send what the file channel gave for a stream. The file ends when the channel has
    /// hung up and gives no more.
    pub fn send_file_piece(&mut self, i: usize, data: &[u8], hung_up: bool) -> (r: FrameDone)
        requires
            old(self).wf(),
            i < MAX_STREAMS,
            old(self)@.streams[i as int].state is Sending,
            old(self)@.streams[i as int].rest.len() == 0,
            data@.len() <= room_of(old(self)@, i as int),
        ensures
            final(self).wf(),
            if data@.len() == 0 && !hung_up {
                *final(self) == *old(self) && r@ == DoneModel::nothing()
            } else {
                (final(self)@, r@) == data_sent(old(self)@, i as int, data@, data@.len() > 0)
            },
    {
        self.send_data(i, data, data.len() > 0 || !hung_up)
    }

    /// Whether a stream that was stalled can go on with its body, and with how many bytes.
    /// One that has ended meanwhile cannot; one that holds an answer has its next turn.
    pub fn resume_room(&self, i: usize) -> (r: Option<usize>)
        requires
            self.wf(),
            i < MAX_STREAMS,
        ensures
            r == if self@.streams[i as int].state is Sending && self@.streams[i as int].rest.len()
                == 0 && room_of(self@, i as int) > 0 {
                Some(room_of(self@, i as int) as usize)
            } else {
                None
            },
    {
        assert(self@.streams[i as int] == self.streams@[i as int]@);
        let room: usize = self.data_room(i);
        if self.streams[i].state == StreamState::Sending && self.streams[i].rest.len() == 0 && room
            > 0 {
            Some(room)
        } else {
            None
        }
    }
}

// ── Bodies ──────────────────────────────────────────────────────────────

/// The next piece of a body.
pub enum Piece {
    /// These bytes, and whether more follow.
    Bytes(Vec<u8>, bool),
    /// What the file channel has.
    ReadFile,
}

/// Whether the next piece of stream `i`'s body has been made as it should.
pub open spec fn piece_made(
    m: H2Model,
    n: H2Model,
    before: Rendering,
    after: Rendering,
    i: int,
    site: Site,
    room: usize,
    r: Piece,
) -> bool {
    let st = m.streams[i];
    let served = st.route matches Some(k) && k < site.routes@.len();
    let body = site.body_of(st.route->0 as int);
    if st.handler == HANDLER_STATIC && served {
        let left = if st.pos < body.len() {
            body.skip(st.pos as int)
        } else {
            Seq::empty()
        };
        let piece = clip(left, room as nat);
        &&& after == before
        &&& n == m.with_stream(i, StreamModel { pos: (st.pos + piece.len()) as usize, ..st })
        &&& r matches Piece::Bytes(b, more)
        &&& b@ == piece
        &&& more == (st.pos + piece.len() < body.len())
    } else if st.handler == HANDLER_TEMPLATE && served {
        let next = chunk_end(body, site.vars, st.pos as int, room as int);
        &&& after == before
        &&& n == m.with_stream(i, StreamModel { pos: next as usize, ..st })
        &&& r matches Piece::Bytes(b, more)
        &&& b@ == chunk_text(body, site.vars, st.pos as int, room as int)
        &&& more == (next < body.len())
    } else if st.handler == HANDLER_FILE && st.file_index < 0 {
        let next = index_stop(before.index_pos as int, before.file_count as int, 0, room as int, 7);
        &&& after == (Rendering { index_pos: next as u16, ..before })
        &&& n == m
        &&& r matches Piece::Bytes(b, more)
        &&& b@ == index_lines(before.index_pos as int, next)
        &&& more == (next < before.file_count)
    } else if st.handler == HANDLER_FILE {
        after == before && n == m && r is ReadFile
    } else {
        &&& after == before
        &&& n == m
        &&& r matches Piece::Bytes(b, more)
        &&& b@ == Seq::<u8>::empty()
        &&& !more
    }
}

impl H2State {
    fn set_pos(&mut self, i: usize, pos: usize)
        requires
            old(self).wf(),
            i < MAX_STREAMS,
            old(self)@.streams[i as int].state is Sending,
        ensures
            final(self).wf(),
            final(self)@ == old(self)@.with_stream(
                i as int,
                StreamModel { pos, ..old(self)@.streams[i as int] },
            ),
    {
        assert(self@.streams[i as int] == self.streams@[i as int]@);
        assert(self@.streams[i as int].wf());
        self.streams[i].pos = pos;
        proof {
            let st = StreamModel { pos, ..old(self)@.streams[i as int] };
            assert(self.streams@ =~= old(self).streams@.update(i as int, self.streams@[i as int]));
            assert(self.streams@[i as int]@ =~= st);
            assert(self@.streams =~= old(self)@.streams.update(i as int, st));
            assert(self@ =~= old(self)@.with_stream(i as int, st));
        }
    }

    /// Make the next piece of a stream's body, of at most `room` bytes.
    #[verifier::rlimit(40)]
    pub fn render_piece(&mut self, i: usize, site: &Site, render: &mut Rendering, room: usize) -> (r: Piece)
        requires
            old(self).wf(),
            site.wf(),
            i < MAX_STREAMS,
            old(self)@.streams[i as int].state is Sending,
        ensures
            final(self).wf(),
            piece_made(
                old(self)@,
                final(self)@,
                *old(render),
                *final(render),
                i as int,
                *site,
                room,
                r,
            ),
            r matches Piece::Bytes(b, _) ==> b@.len() <= room,
            room_of(final(self)@, i as int) == room_of(old(self)@, i as int),
            final(self)@.streams[i as int].rest == old(self)@.streams[i as int].rest,
            final(self)@.streams[i as int].state is Sending,
    {
        assert(self@.streams[i as int] == self.streams@[i as int]@);
        let handler: u8 = self.streams[i].handler;
        if handler == HANDLER_STATIC || handler == HANDLER_TEMPLATE {
            let route = self.streams[i].route;
            if let Some(k) = route {
                if k < site.routes.len() {
                    let body = site.body(k);
                    let ghost at = self.streams@[i as int].pos as int;
                    let mut pos: usize = self.streams[i].pos;
                    let (b, more) = if handler == HANDLER_STATIC {
                        render_static_into(body, &mut pos, room)
                    } else {
                        render_template_route_into(body, &site.vars, &mut pos, room)
                    };
                    self.set_pos(i, pos);
                    proof {
                        if handler == HANDLER_STATIC && at < body@.len() {
                            assert(b@ =~= clip(body@.skip(at), room as nat));
                        }
                    }
                    return Piece::Bytes(b, more);
                }
            }
        }
        if handler == HANDLER_FILE {
            if self.streams[i].file_index >= 0 {
                return Piece::ReadFile;
            }
            let mut index: u16 = render.index_pos;
            let (b, more) = render_index_into(&mut index, render.file_count, room, 7);
            render.index_pos = index;
            return Piece::Bytes(b, more);
        }
        let none: Vec<u8> = Vec::new();
        assert(none@ =~= Seq::<u8>::empty());
        Piece::Bytes(none, false)
    }
}

// ── The connection's steps ──────────────────────────────────────────────

/// Our settings.
pub open spec fn our_h2_settings() -> Seq<u8> {
    h2_frame(
        FRAME_SETTINGS,
        0,
        0,
        settings_payload(
            seq![
                (SETTINGS_ENABLE_PUSH, 0u32),
                (SETTINGS_MAX_CONCURRENT_STREAMS, MAX_STREAMS as u32),
                (SETTINGS_HEADER_TABLE_SIZE, 0u32),
                (SETTINGS_ENABLE_CONNECT_PROTOCOL, 1u32),
            ],
        ),
    )
}

/// What a connection does next.
pub enum H2Step {
    /// The connection has ended.
    Done,
    /// Send this. `timed_out` says that it ends a wait for an application.
    Send { done: FrameDone, timed_out: bool },
    /// Act on what was received.
    Read,
    /// Take a turn.
    Body,
}

/// Whether a connection has taken a step as it should. `flushed` says that staged bytes
/// have just been sent to the last.
pub open spec fn stepped(m: H2Model, n: H2Model, now: u64, flushed: bool, r: H2Step) -> bool {
    if flushed && m.sub is Closing {
        n == m && r is Done
    } else {
        match swept(m, now) {
            Some((k, d)) => {
                &&& n == k
                &&& r matches H2Step::Send { done, timed_out }
                &&& done@ == d
                &&& timed_out
            },
            None => match m.sub {
                Sub::SendSettings => {
                    &&& n == (H2Model { sub: Sub::Active, ..m })
                    &&& r matches H2Step::Send { done, timed_out }
                    &&& done@ == DoneModel::sent(our_h2_settings())
                    &&& !timed_out
                },
                Sub::Active => n == m && r is Read,
                Sub::SendingBody => n == m && r is Body,
                Sub::Closing => n == m && r is Done,
            },
        }
    }
}

/// What comes before frames are read: one window is refilled, or one tunnelled frame is
/// answered.
pub open spec fn before_reading(m: H2Model) -> (H2Model, Seq<u8>, Freed) {
    let (n, out) = refilled(m);
    if out.len() > 0 {
        (n, out, Freed::nothing())
    } else {
        tunnel_next(n)
    }
}

impl H2State {
    /// Decide what the connection does next. Nothing is staged.
    pub fn step(&mut self, now: u64, flushed: bool) -> (r: H2Step)
        requires
            old(self).wf(),
        ensures
            final(self).wf(),
            stepped(old(self)@, final(self)@, now, flushed, r),
    {
        if flushed && self.sub == Sub::Closing {
            return H2Step::Done;
        }
        if let Some(done) = self.sweep_app_timeouts(now) {
            return H2Step::Send { done, timed_out: true };
        }
        match self.sub {
            Sub::SendSettings => {
                let pairs: [(u16, u32); 4] = [
                    (SETTINGS_ENABLE_PUSH, 0),
                    (SETTINGS_MAX_CONCURRENT_STREAMS, MAX_STREAMS as u32),
                    (SETTINGS_HEADER_TABLE_SIZE, 0),
                    (SETTINGS_ENABLE_CONNECT_PROTOCOL, 1),
                ];
                assert(pairs@ =~= seq![
                    (SETTINGS_ENABLE_PUSH, 0u32),
                    (SETTINGS_MAX_CONCURRENT_STREAMS, MAX_STREAMS as u32),
                    (SETTINGS_HEADER_TABLE_SIZE, 0u32),
                    (SETTINGS_ENABLE_CONNECT_PROTOCOL, 1u32),
                ]);
                let out: Vec<u8> = write_settings(pairs.as_slice());
                self.sub = Sub::Active;
                assert(self@ =~= (H2Model { sub: Sub::Active, ..old(self)@ }));
                H2Step::Send { done: FrameDone::sent(out), timed_out: false }
            },
            Sub::Active => H2Step::Read,
            Sub::SendingBody => H2Step::Body,
            Sub::Closing => H2Step::Done,
        }
    }

    /// Do what comes before frames are read. Returns what is to be sent, if anything.
    pub fn begin_reading(&mut self) -> (r: (Vec<u8>, Freed))
        requires
            old(self).wf(),
        ensures
            final(self).wf(),
            (final(self)@, r.0@, r.1) == before_reading(old(self)@),
    {
        let out: Vec<u8> = self.queue_window_update();
        if out.len() > 0 {
            return (out, Freed::none());
        }
        self.ws_drain_buf()
    }
}

/// The connection after the frames at the front of `rx`, up to the first that comes to
/// anything: what that is, and what is left of `rx`.
pub open spec fn read_run(m: H2Model, rx: Seq<u8>, routes: Seq<Route>, max_body: u32) -> (
    H2Model,
    DoneModel,
    Seq<u8>,
)
    decreases rx.len(),
{
    match received(m, rx, routes, max_body) {
        None => (m, DoneModel::nothing(), rx),
        Some((n, done, rest)) => if done != DoneModel::nothing() || rest.len() >= rx.len() {
            (n, done, rest)
        } else {
            read_run(n, rest, routes, max_body)
        },
    }
}

/// What a connection that reads comes to on one pass.
pub open spec fn activity(m: H2Model, rx: Seq<u8>, routes: Seq<Route>, max_body: u32) -> (
    H2Model,
    DoneModel,
    Seq<u8>,
) {
    let (n, out, freed) = before_reading(m);
    if out.len() > 0 || freed != Freed::nothing() {
        (n, DoneModel { freed, ..DoneModel::sent(out) }, rx)
    } else {
        read_run(n, rx, routes, max_body)
    }
}

impl H2State {
    /// Act on the frames received, up to the first that comes to anything.
    pub fn read_frames(&mut self, rx: &mut Vec<u8>, routes: &Vec<Route>, max_body: u32) -> (r: FrameDone)
        requires
            old(self).wf(),
        ensures
            final(self).wf(),
            (final(self)@, r@, final(rx)@) == read_run(old(self)@, old(rx)@, routes@, max_body),
    {
        loop
            invariant
                self.wf(),
                read_run(self@, rx@, routes@, max_body) == read_run(
                    old(self)@,
                    old(rx)@,
                    routes@,
                    max_body,
                ),
            decreases rx@.len(),
        {
            let len: usize = rx.len();
            match self.process_one_frame(rx, routes, max_body) {
                None => {
                    return FrameDone::nothing();
                },
                Some(done) => {
                    if done.is_something() || rx.len() >= len {
                        return done;
                    }
                },
            }
        }
    }

    /// One pass of a connection that reads: a window is refilled, or a tunnelled frame
    /// answered, or frames are acted on.
    pub fn active(&mut self, rx: &mut Vec<u8>, routes: &Vec<Route>, max_body: u32) -> (r: FrameDone)
        requires
            old(self).wf(),
        ensures
            final(self).wf(),
            (final(self)@, r@, final(rx)@) == activity(old(self)@, old(rx)@, routes@, max_body),
    {
        let (out, freed) = self.begin_reading();
        if out.len() > 0 || freed != Freed::none() {
            let r = FrameDone { out, error: None, freed, refused: false, dispatch: false };
            return r;
        }
        self.read_frames(rx, routes, max_body)
    }
}

// ── Laws ────────────────────────────────────────────────────────────────

/// Data never exceeds what the peer's windows allow, and is taken off both.
pub proof fn law_h2_windows_are_kept(m: H2Model, i: int, data: Seq<u8>)
    requires
        m.wf(),
        0 <= i < MAX_STREAMS,
        0 < data.len() <= room_of(m, i),
    ensures
        data.len() <= m.send_window,
        data.len() <= m.streams[i].send_window,
        data_sent(m, i, data, true).0.send_window == m.send_window - data.len(),
        data_sent(m, i, data, true).0.streams[i].send_window == m.streams[i].send_window
            - data.len(),
        data_frame(m.streams[i].id, data, false).len() <= SEND_BUF_SIZE,
{
}

/// The body of a page goes out in order and whole: each piece, followed by what is left
/// from the new position on, is what was left before; the last piece leaves nothing.
pub proof fn law_h2_body_is_sent_in_order(
    m: H2Model,
    n: H2Model,
    before: Rendering,
    after: Rendering,
    i: int,
    site: Site,
    room: usize,
    r: Piece,
)
    requires
        site.wf(),
        0 <= i < m.streams.len(),
        m.streams[i].handler == HANDLER_STATIC,
        m.streams[i].route matches Some(k) && k < site.routes@.len(),
        m.streams[i].pos <= site.body_of(m.streams[i].route->0 as int).len(),
        piece_made(m, n, before, after, i, site, room, r),
    ensures
        r matches Piece::Bytes(b, more) && {
            let body = site.body_of(m.streams[i].route->0 as int);
            &&& b@ + body.skip(n.streams[i].pos as int) == body.skip(m.streams[i].pos as int)
            &&& !more ==> body.skip(n.streams[i].pos as int).len() == 0
            &&& b@.len() <= room
        },
{
    let k = m.streams[i].route->0 as int;
    assert(crate::site::route_wf(site.routes@[k], site.pool@.len()));
    let body = site.body_of(k);
    let pos = m.streams[i].pos as int;
    if let Piece::Bytes(b, more) = r {
        assert(b@ =~= clip(body.skip(pos), room as nat));
        assert(b@ + body.skip(pos + b@.len()) =~= body.skip(pos));
    }
}

/// How many places stream `k` is behind the place looked at first.
pub open spec fn places_behind(cursor: Option<usize>, k: int) -> int {
    (k - turn_start(cursor) + MAX_STREAMS) % (MAX_STREAMS as int)
}

proof fn lemma_turn(m: H2Model, off: int)
    requires
        m.wf(),
        0 <= off <= MAX_STREAMS,
    ensures
        match turn_from(m.streams, turn_start(m.cursor), off) {
            Some(i) => 0 <= i < MAX_STREAMS && m.streams[i].state is Sending && off
                <= places_behind(m.cursor, i) && forall|k: int|
                0 <= k < MAX_STREAMS && (#[trigger] m.streams[k]).state is Sending && off
                    <= places_behind(m.cursor, k) ==> places_behind(m.cursor, i)
                    <= places_behind(m.cursor, k),
            None => forall|k: int|
                0 <= k < MAX_STREAMS && off <= places_behind(m.cursor, k) ==> !((
                #[trigger] m.streams[k]).state is Sending),
        },
    decreases MAX_STREAMS - off,
{
    if off < MAX_STREAMS {
        let start = turn_start(m.cursor);
        let i = (start + off) % (MAX_STREAMS as int);
        assert(places_behind(m.cursor, i) == off);
        assert forall|k: int| 0 <= k < MAX_STREAMS && places_behind(m.cursor, k) == off implies k
            == i by {}
        if !(m.streams[i].state is Sending) {
            lemma_turn(m, off + 1);
        }
    }
}

/// Streams being answered take turns: the one that has waited longest goes first, and the
/// one just served goes last.
pub proof fn law_h2_streams_take_turns(m: H2Model, i: int)
    requires
        m.wf(),
        turn_of(m) == Some(i),
    ensures
        m.streams[i].state is Sending,
        forall|k: int|
            0 <= k < MAX_STREAMS && (#[trigger] m.streams[k]).state is Sending ==> places_behind(
                m.cursor,
                i,
            ) <= places_behind(m.cursor, k),
        forall|k: int|
            0 <= k < MAX_STREAMS && k != i ==> #[trigger] places_behind(Some(i as usize), k)
                < places_behind(Some(i as usize), i),
{
    lemma_turn(m, 0);
    assert(0 <= i < MAX_STREAMS);
    assert forall|k: int| 0 <= k < MAX_STREAMS && k != i implies #[trigger] places_behind(
        Some(i as usize),
        k,
    ) < places_behind(Some(i as usize), i) by {
        assert(places_behind(Some(i as usize), i) == MAX_STREAMS - 1);
    }
}

} // verus!
