//! Answers within the peer's windows. What the windows do not allow yet is held with the
//! stream and goes out in its turns.

use crate::app::{app_deadline, deadline_after};
use crate::bytes::{decimal, decimal_bytes, extend, lit, text, to_vec};
use crate::cache::SEND_BUF_SIZE;
use crate::h2::{
    lower_window, lowered, Freed, H2Model, H2State, StreamModel, StreamState, Sub, MAX_STREAMS,
};
use crate::h2_request::{ended_with, DoneModel, FrameDone};
use crate::h2_response::{answer_head, answer_head_vec, response_block, response_block_vec, TRAILER_RESERVE};
use crate::h2_send::room_of;
use crate::h2_wire::{
    data_frame, headers_frame, rst_stream, write_data, write_headers, write_rst_stream, ERR_INTERNAL_ERROR,
    FRAME_HEADER_LEN,
};
use crate::hpack::{encode_header, hpack_bytes};
use vstd::prelude::*;
use vstd::slice::slice_subrange;

verus! {

/// How many of `len` bytes stream `i` may send now.
pub open spec fn cut_at(m: H2Model, i: int, len: int) -> int {
    if len < room_of(m, i) {
        len
    } else {
        room_of(m, i)
    }
}

/// The connection after `n` bytes of data on stream `i`: they are taken off both windows.
pub open spec fn taken_off(m: H2Model, i: int, n: int) -> H2Model {
    H2Model {
        send_window: lowered(m.send_window, n as u32),
        ..m.with_stream(
            i,
            StreamModel {
                send_window: lowered(m.streams[i].send_window, n as u32),
                ..m.streams[i]
            },
        )
    }
}

/// The connection with the rest of an answer held on stream `i`, which no longer uses the
/// file channel.
pub open spec fn holding(m: H2Model, i: int, rest: Seq<u8>, trailer: Seq<u8>, last: bool) -> H2Model {
    H2Model {
        sub: if m.sub is Closing {
            m.sub
        } else {
            Sub::SendingBody
        },
        file_owner: if m.file_owner == Some(i as usize) {
            None
        } else {
            m.file_owner
        },
        ..m.with_stream(
            i,
            StreamModel {
                state: StreamState::Sending,
                headers_sent: true,
                rest,
                trailer,
                rest_last: last,
                ..m.streams[i]
            },
        )
    }
}

/// The first `n` bytes of data as they are sent, where there are any.
pub open spec fn front(id: u32, body: Seq<u8>, n: int) -> Seq<u8> {
    if n > 0 {
        data_frame(id, body.take(n), false)
    } else {
        Seq::empty()
    }
}

/// What answering stream `i` comes to: `head`, then the data, then `trailer`, and with
/// the last of them the end of the stream. Data goes out as far as both windows allow; the
/// rest is held. An answer that does not fit the send buffer ends the stream with an
/// error: none is sent in part.
pub open spec fn answered(
    m: H2Model,
    i: int,
    head: Seq<u8>,
    body: Seq<u8>,
    trailer: Seq<u8>,
    last: bool,
) -> (H2Model, DoneModel) {
    let id = m.streams[i].id;
    let n = cut_at(m, i, body.len() as int);
    let c = taken_off(m, i, n);
    if head.len() + FRAME_HEADER_LEN + body.len() + trailer.len() > SEND_BUF_SIZE {
        ended_with(m, i, rst_stream(id, ERR_INTERNAL_ERROR))
    } else if n < body.len() {
        (
            holding(c, i, body.skip(n), trailer, last),
            DoneModel {
                freed: Freed { file: m.file_owner == Some(i as usize), route: None },
                ..DoneModel::sent(head + front(id, body, n))
            },
        )
    } else if last {
        ended_with(c, i, head + data_frame(id, body, trailer.len() == 0) + trailer)
    } else {
        (
            c.with_stream(i, StreamModel { headers_sent: true, ..c.streams[i] }),
            DoneModel::sent(head + data_frame(id, body, false)),
        )
    }
}

/// What a turn of a stream that holds the rest of an answer comes to. When all of it is
/// out the stream ends, or waits for more: its application has time again from `now` on.
pub open spec fn held_sent(m: H2Model, i: int, now: u64) -> (H2Model, DoneModel) {
    let st = m.streams[i];
    let n = cut_at(m, i, st.rest.len() as int);
    let c = taken_off(m, i, n);
    if n < st.rest.len() {
        (
            c.with_stream(i, StreamModel { rest: st.rest.skip(n), ..c.streams[i] }),
            DoneModel::sent(front(st.id, st.rest, n)),
        )
    } else if st.rest_last {
        ended_with(c, i, data_frame(st.id, st.rest, st.trailer.len() == 0) + st.trailer)
    } else {
        (
            c.with_stream(
                i,
                StreamModel {
                    rest: Seq::empty(),
                    state: StreamState::Open,
                    app_deadline_ms: deadline_after(now),
                    ..c.streams[i]
                },
            ),
            DoneModel::sent(data_frame(st.id, st.rest, false)),
        )
    }
}

/// An answer with its headers. `body` is what its length is stated of, which is stated only
/// where it is the whole of the answer; `sent` is what is sent of it.
pub open spec fn framed(
    m: H2Model,
    i: int,
    status: Seq<u8>,
    ct: Seq<u8>,
    body: Seq<u8>,
    sent: Seq<u8>,
    end: bool,
) -> (H2Model, DoneModel) {
    answered(m, i, answer_head(m.streams[i].id, status, ct, body, end), sent, Seq::empty(), end)
}

/// A short answer of the server's own, which ends the stream. A method that asks for no
/// body is sent none, here as everywhere on HTTP/2: data would break the stream's state.
pub open spec fn answer(m: H2Model, i: int, status: &str, body: &str, with_body: bool) -> (
    H2Model,
    DoneModel,
) {
    framed(
        m,
        i,
        text(status),
        text("text/plain"),
        text(body),
        if with_body {
            text(body)
        } else {
            Seq::empty()
        },
        true,
    )
}

/// The answer to a remote call: headers, one message, and trailers, which carry the
/// result and end the stream.
pub open spec fn grpc_answer(m: H2Model, i: int, message: Seq<u8>, grpc_status: u8) -> (
    H2Model,
    DoneModel,
) {
    let id = m.streams[i].id;
    let head = headers_frame(
        id,
        response_block(text("200"), text("application/grpc"), None),
        false,
    );
    if head.len() + FRAME_HEADER_LEN + message.len() + FRAME_HEADER_LEN + TRAILER_RESERVE
        > SEND_BUF_SIZE {
        ended_with(m, i, rst_stream(id, ERR_INTERNAL_ERROR))
    } else {
        answered(
            m,
            i,
            head,
            message,
            headers_frame(
                id,
                hpack_bytes(text("grpc-status"), decimal(grpc_status as nat)),
                true,
            ),
            true,
        )
    }
}

impl H2State {
    /// Take data off both windows.
    pub fn take_off(&mut self, i: usize, n: usize)
        requires
            old(self).wf(),
            i < MAX_STREAMS,
            !(old(self)@.streams[i as int].state is Idle),
            n <= SEND_BUF_SIZE,
        ensures
            final(self).wf(),
            final(self)@ == taken_off(old(self)@, i as int, n as int),
    {
        assert(self@.streams[i as int] == self.streams@[i as int]@);
        assert(self@.streams[i as int].wf());
        self.send_window = lower_window(self.send_window, n as u32);
        let w: i32 = lower_window(self.streams[i].send_window, n as u32);
        self.streams[i].send_window = w;
        proof {
            let st = taken_off(old(self)@, i as int, n as int).streams[i as int];
            assert(self.streams@ =~= old(self).streams@.update(i as int, self.streams@[i as int]));
            assert(self.streams@[i as int]@ =~= st);
            assert(self@.streams =~= old(self)@.streams.update(i as int, st));
            assert(self@ =~= taken_off(old(self)@, i as int, n as int));
        }
    }

    /// Hold the rest of an answer.
    fn hold(&mut self, i: usize, rest: Vec<u8>, trailer: Vec<u8>, last: bool)
        requires
            old(self).wf(),
            i < MAX_STREAMS,
            !(old(self)@.streams[i as int].state is Idle),
            rest@.len() <= SEND_BUF_SIZE,
        ensures
            final(self).wf(),
            final(self)@ == holding(old(self)@, i as int, rest@, trailer@, last),
    {
        assert(self@.streams[i as int] == self.streams@[i as int]@);
        assert(self@.streams[i as int].wf());
        self.streams[i].rest = rest;
        self.streams[i].trailer = trailer;
        self.streams[i].rest_last = last;
        self.streams[i].headers_sent = true;
        self.streams[i].state = StreamState::Sending;
        if self.file_owner == Some(i) {
            self.file_owner = None;
        }
        if self.sub != Sub::Closing {
            self.sub = Sub::SendingBody;
        }
        proof {
            let want = holding(old(self)@, i as int, rest@, trailer@, last);
            assert(self.streams@ =~= old(self).streams@.update(i as int, self.streams@[i as int]));
            assert(self.streams@[i as int]@ =~= want.streams[i as int]);
            assert(self@.streams =~= want.streams);
            assert(self@ =~= want);
        }
    }

    /// Answer a stream, as far as the windows allow.
    #[verifier::rlimit(40)]
    pub fn answer_with(&mut self, i: usize, head: Vec<u8>, body: &[u8], trailer: Vec<u8>, last: bool) -> (r: FrameDone)
        requires
            old(self).wf(),
            i < MAX_STREAMS,
            !(old(self)@.streams[i as int].state is Idle),
            old(self)@.streams[i as int].rest.len() == 0,
            head@.len() <= SEND_BUF_SIZE,
            trailer@.len() <= SEND_BUF_SIZE,
        ensures
            final(self).wf(),
            (final(self)@, r@) == answered(old(self)@, i as int, head@, body@, trailer@, last),
    {
        assert(self@.streams[i as int] == self.streams@[i as int]@);
        let id: u32 = self.streams[i].id;
        if body.len() > SEND_BUF_SIZE || head.len() + FRAME_HEADER_LEN + body.len() + trailer.len()
            > SEND_BUF_SIZE {
            return self.end_with(i, write_rst_stream(id, ERR_INTERNAL_ERROR));
        }
        let room: usize = self.data_room(i);
        let n: usize = if body.len() < room {
            body.len()
        } else {
            room
        };
        let file = self.file_owner == Some(i);
        self.take_off(i, n);
        let ghost c = self@;
        assert(self@.streams[i as int] == self.streams@[i as int]@);
        let mut out: Vec<u8> = head;
        if n < body.len() {
            if n > 0 {
                let piece = slice_subrange(body, 0, n);
                assert(piece@ =~= body@.take(n as int));
                extend(&mut out, write_data(id, piece, false).as_slice());
            } else {
                assert(out@ + Seq::<u8>::empty() =~= out@);
            }
            let rest: Vec<u8> = to_vec(slice_subrange(body, n, body.len()));
            assert(rest@ =~= body@.skip(n as int));
            self.hold(i, rest, trailer, last);
            let r = FrameDone {
                out,
                error: None,
                freed: Freed { file, route: None },
                refused: false,
                dispatch: false,
            };
            assert(r@ =~= answered(old(self)@, i as int, head@, body@, trailer@, last).1);
            return r;
        }
        extend(&mut out, write_data(id, body, last && trailer.len() == 0).as_slice());
        if last {
            extend(&mut out, trailer.as_slice());
            return self.end_with(i, out);
        }
        let ghost before = self.streams@;
        self.streams[i].headers_sent = true;
        proof {
            let st = StreamModel { headers_sent: true, ..c.streams[i as int] };
            assert(self.streams@ =~= before.update(i as int, self.streams@[i as int]));
            assert(self.streams@[i as int]@ =~= st);
            assert(self@.streams =~= c.streams.update(i as int, st));
            assert(self@ =~= c.with_stream(i as int, st));
        }
        FrameDone::sent(out)
    }

    /// Send what the windows allow of an answer that is held.
    #[verifier::rlimit(40)]
    pub fn send_held(&mut self, i: usize, now: u64) -> (r: FrameDone)
        requires
            old(self).wf(),
            i < MAX_STREAMS,
            old(self)@.streams[i as int].rest.len() > 0,
            room_of(old(self)@, i as int) > 0,
        ensures
            final(self).wf(),
            (final(self)@, r@) == held_sent(old(self)@, i as int, now),
    {
        assert(self@.streams[i as int] == self.streams@[i as int]@);
        assert(self@.streams[i as int].wf());
        let id: u32 = self.streams[i].id;
        let len: usize = self.streams[i].rest.len();
        let room: usize = self.data_room(i);
        let n: usize = if len < room {
            len
        } else {
            room
        };
        let ghost st = self@.streams[i as int];
        self.take_off(i, n);
        let ghost c = self@;
        assert(self@.streams[i as int] == self.streams@[i as int]@);
        let ghost before = self.streams@;
        if n < len {
            let piece = slice_subrange(self.streams[i].rest.as_slice(), 0, n);
            assert(piece@ =~= st.rest.take(n as int));
            let out: Vec<u8> = write_data(id, piece, false);
            let rest: Vec<u8> = to_vec(slice_subrange(self.streams[i].rest.as_slice(), n, len));
            assert(rest@ =~= st.rest.skip(n as int));
            self.streams[i].rest = rest;
            proof {
                let next = StreamModel { rest: st.rest.skip(n as int), ..c.streams[i as int] };
                assert(self.streams@ =~= before.update(i as int, self.streams@[i as int]));
                assert(self.streams@[i as int]@ =~= next);
                assert(self@.streams =~= c.streams.update(i as int, next));
                assert(self@ =~= c.with_stream(i as int, next));
            }
            return FrameDone::sent(out);
        }
        if self.streams[i].rest_last {
            let ends = self.streams[i].trailer.len() == 0;
            let mut out: Vec<u8> = write_data(id, self.streams[i].rest.as_slice(), ends);
            extend(&mut out, self.streams[i].trailer.as_slice());
            return self.end_with(i, out);
        }
        let out: Vec<u8> = write_data(id, self.streams[i].rest.as_slice(), false);
        self.streams[i].rest = Vec::new();
        self.streams[i].state = StreamState::Open;
        self.streams[i].app_deadline_ms = app_deadline(now);
        proof {
            let next = StreamModel {
                rest: Seq::empty(),
                state: StreamState::Open,
                app_deadline_ms: deadline_after(now),
                ..c.streams[i as int]
            };
            assert(self.streams@ =~= before.update(i as int, self.streams@[i as int]));
            assert(self.streams@[i as int]@ =~= next);
            assert(self@.streams =~= c.streams.update(i as int, next));
            assert(self@ =~= c.with_stream(i as int, next));
        }
        FrameDone::sent(out)
    }

    /// Answer a stream with headers and data. `with_body` says whether the body is sent.
    pub fn emit_response_framed(
        &mut self,
        i: usize,
        status: &[u8],
        ct: &[u8],
        body: &[u8],
        with_body: bool,
        end: bool,
    ) -> (r: FrameDone)
        requires
            old(self).wf(),
            i < MAX_STREAMS,
            !(old(self)@.streams[i as int].state is Idle),
            old(self)@.streams[i as int].rest.len() == 0,
        ensures
            final(self).wf(),
            (final(self)@, r@) == framed(
                old(self)@,
                i as int,
                status@,
                ct@,
                body@,
                if with_body {
                    body@
                } else {
                    Seq::empty()
                },
                end,
            ),
    {
        assert(self@.streams[i as int] == self.streams@[i as int]@);
        let id: u32 = self.streams[i].id;
        let head: Vec<u8> = answer_head_vec(id, status, ct, body, end);
        if head.len() > SEND_BUF_SIZE {
            return self.end_with(i, write_rst_stream(id, ERR_INTERNAL_ERROR));
        }
        let none: Vec<u8> = Vec::new();
        assert(none@ =~= Seq::<u8>::empty());
        let trailer: Vec<u8> = Vec::new();
        assert(trailer@ =~= Seq::<u8>::empty());
        self.answer_with(
            i,
            head,
            if with_body {
                body
            } else {
                none.as_slice()
            },
            trailer,
            end,
        )
    }

    /// Answer a stream with a short text of the server's own.
    pub fn emit_response(&mut self, i: usize, status: &'static str, body: &'static str, with_body: bool) -> (r: FrameDone)
        requires
            old(self).wf(),
            i < MAX_STREAMS,
            !(old(self)@.streams[i as int].state is Idle),
            old(self)@.streams[i as int].rest.len() == 0,
        ensures
            final(self).wf(),
            (final(self)@, r@) == answer(old(self)@, i as int, status, body, with_body),
    {
        self.emit_response_framed(i, lit(status), lit("text/plain"), lit(body), with_body, true)
    }

    /// Send more of an answer whose headers have been sent.
    pub fn emit_data_chunk(&mut self, i: usize, body: &[u8], end: bool) -> (r: FrameDone)
        requires
            old(self).wf(),
            i < MAX_STREAMS,
            !(old(self)@.streams[i as int].state is Idle),
            old(self)@.streams[i as int].rest.len() == 0,
        ensures
            final(self).wf(),
            (final(self)@, r@) == answered(
                old(self)@,
                i as int,
                Seq::empty(),
                body@,
                Seq::empty(),
                end,
            ),
    {
        let head: Vec<u8> = Vec::new();
        assert(head@ =~= Seq::<u8>::empty());
        let trailer: Vec<u8> = Vec::new();
        assert(trailer@ =~= Seq::<u8>::empty());
        self.answer_with(i, head, body, trailer, end)
    }

    /// Answer a remote call.
    pub fn emit_grpc_response(&mut self, i: usize, message: &[u8], grpc_status: u8) -> (r: FrameDone)
        requires
            old(self).wf(),
            i < MAX_STREAMS,
            !(old(self)@.streams[i as int].state is Idle),
            old(self)@.streams[i as int].rest.len() == 0,
        ensures
            final(self).wf(),
            (final(self)@, r@) == grpc_answer(old(self)@, i as int, message@, grpc_status),
    {
        assert(self@.streams[i as int] == self.streams@[i as int]@);
        let id: u32 = self.streams[i].id;
        let block: Vec<u8> = response_block_vec(lit("200"), lit("application/grpc"), None);
        let head: Vec<u8> = write_headers(id, block.as_slice(), false);
        let fixed: usize = 2 * FRAME_HEADER_LEN + TRAILER_RESERVE;
        if head.len() > SEND_BUF_SIZE - fixed || message.len() > SEND_BUF_SIZE - fixed - head.len() {
            return self.end_with(i, write_rst_stream(id, ERR_INTERNAL_ERROR));
        }
        let code: Vec<u8> = decimal_bytes(grpc_status as u64);
        let field: Vec<u8> = encode_header(lit("grpc-status"), code.as_slice());
        let trailer: Vec<u8> = write_headers(id, field.as_slice(), true);
        if trailer.len() > SEND_BUF_SIZE {
            return self.end_with(i, write_rst_stream(id, ERR_INTERNAL_ERROR));
        }
        self.answer_with(i, head, message, trailer, true)
    }
}

// ── Laws ────────────────────────────────────────────────────────────────

/// The data of an answer stays within both windows and is taken off both, also where the
/// answer is cut: neither window goes below zero, and one that is closed lets no data out.
pub proof fn law_h2_answers_keep_windows(m: H2Model, i: int, len: int)
    requires
        m.wf(),
        0 <= i < MAX_STREAMS,
        0 <= len,
    ensures
        ({
            let n = cut_at(m, i, len);
            let c = taken_off(m, i, n);
            &&& 0 <= n <= len
            &&& n > 0 ==> n <= m.send_window && n <= m.streams[i].send_window
            &&& c.send_window == m.send_window - n
            &&& c.streams[i].send_window == m.streams[i].send_window - n
            &&& n > 0 ==> c.send_window >= 0 && c.streams[i].send_window >= 0
            &&& n < len ==> n == room_of(m, i)
        }),
{
}

/// An answer goes out in order and whole. Where the windows cut it, what is sent and what
/// is held make it up; where they do not, it is sent in one go.
pub proof fn law_h2_answer_is_sent_in_order(
    m: H2Model,
    i: int,
    head: Seq<u8>,
    body: Seq<u8>,
    trailer: Seq<u8>,
    last: bool,
)
    requires
        m.wf(),
        0 <= i < MAX_STREAMS,
        head.len() + FRAME_HEADER_LEN + body.len() + trailer.len() <= SEND_BUF_SIZE,
    ensures
        ({
            let (n, done) = answered(m, i, head, body, trailer, last);
            let id = m.streams[i].id;
            if body.len() <= room_of(m, i) {
                &&& last ==> n.streams[i] == StreamModel::none() && done.out == head + data_frame(
                    id,
                    body,
                    trailer.len() == 0,
                ) + trailer
                &&& !last ==> done.out == head + data_frame(id, body, false) && n.streams[i].rest
                    == m.streams[i].rest
            } else {
                let k = room_of(m, i);
                &&& done.out == head + front(id, body, k)
                &&& body.take(k) + n.streams[i].rest == body
                &&& n.streams[i].trailer == trailer
                &&& n.streams[i].rest_last == last
            }
        }),
{
    let k = cut_at(m, i, body.len() as int);
    assert(body.take(k) + body.skip(k) =~= body);
}

/// What is held goes out in order and whole, in its turns: each piece, followed by what is
/// left, is what was held. The stream ends with the last of it, and no sooner.
pub proof fn law_h2_held_answer_is_sent_in_order(m: H2Model, i: int, now: u64)
    requires
        m.wf(),
        0 <= i < MAX_STREAMS,
        m.streams[i].rest.len() > 0,
        room_of(m, i) > 0,
    ensures
        ({
            let (n, done) = held_sent(m, i, now);
            let st = m.streams[i];
            if st.rest.len() > room_of(m, i) {
                let piece = st.rest.take(room_of(m, i));
                &&& done.out == data_frame(st.id, piece, false)
                &&& piece + n.streams[i].rest == st.rest
                &&& n.streams[i].rest_last == st.rest_last
                &&& n.streams[i].trailer == st.trailer
            } else {
                &&& done.out == data_frame(
                    st.id,
                    st.rest,
                    st.rest_last && st.trailer.len() == 0,
                ) + if st.rest_last {
                    st.trailer
                } else {
                    Seq::empty()
                }
                &&& n.streams[i].rest.len() == 0
                &&& st.rest_last <==> n.streams[i].state is Idle
            }
        }),
{
    let st = m.streams[i];
    let k = cut_at(m, i, st.rest.len() as int);
    assert(st.rest.take(k) + st.rest.skip(k) =~= st.rest);
    let d = data_frame(st.id, st.rest, false);
    assert(d + Seq::<u8>::empty() =~= d);
}

} // verus!
