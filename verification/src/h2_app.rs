//! Application responses on HTTP/2 streams, and requests that no application answered.

use crate::app::{allows_body, app_deadline, deadline_after, status_allows_body};
use crate::bytes::{lit, text};
use crate::cache::SEND_BUF_SIZE;
use crate::h2::{H2Model, H2State, StreamModel, MAX_STREAMS};
use crate::h2_hold::{answer, answered, cut_at, framed, front};
use crate::h2_request::{ended_with, DoneModel, FrameDone};
use crate::h2_wire::{data_frame, rst_stream, write_rst_stream, ERR_INTERNAL_ERROR, FRAME_HEADER_LEN};
use crate::method::{method_sends_response_body, sends_response_body};
use crate::response::{status_digits, status_digits_vec};
use vstd::prelude::*;

verus! {

/// The stream that waits for the response with this number, from `from` on.
pub open spec fn app_stream_of(s: Seq<StreamModel>, stream_id: u16, from: int) -> Option<int>
    decreases s.len() - from,
{
    if from < 0 || from >= s.len() {
        None
    } else if s[from].app_pending && s[from].id % 0x1_0000 == stream_id {
        Some(from)
    } else {
        app_stream_of(s, stream_id, from + 1)
    }
}

/// The stream that an application's response is for.
#[derive(Clone, Copy, PartialEq, Eq, Structural, Debug)]
pub struct AwaitingStream {
    pub stream: usize,
    /// The peer's windows still hold back some of an earlier piece: this one stays with
    /// its sender until that is out.
    pub holds: bool,
}

/// What a piece of an application's response on stream `i` comes to. `more` says that
/// another piece follows.
pub open spec fn app_delivered(
    m: H2Model,
    i: int,
    status: u16,
    content_type: Seq<u8>,
    body: Seq<u8>,
    more: bool,
    now: u64,
) -> (H2Model, DoneModel) {
    let st = m.streams[i];
    let allows = allows_body(status, st.method);
    let streaming = more && allows;
    let out = if allows {
        body
    } else {
        Seq::empty()
    };
    let n = m.with_stream(
        i,
        StreamModel {
            app_pending: streaming,
            app_deadline_ms: if streaming {
                deadline_after(now)
            } else {
                0
            },
            ..st
        },
    );
    if st.headers_sent {
        answered(n, i, Seq::empty(), out, Seq::empty(), !streaming)
    } else {
        framed(
            n,
            i,
            status_digits(status),
            if content_type.len() == 0 {
                text("application/octet-stream")
            } else {
                content_type
            },
            out,
            out,
            !streaming,
        )
    }
}

/// Has the wait of this stream for its application run out? It does not run while the
/// peer's windows hold back what the application has given.
pub open spec fn app_overdue(st: StreamModel, now: u64) -> bool {
    st.app_pending && st.rest.len() == 0 && st.app_deadline_ms != 0 && now >= st.app_deadline_ms
}

/// The first stream from `from` on whose wait has run out.
pub open spec fn overdue_of(s: Seq<StreamModel>, now: u64, from: int) -> Option<int>
    decreases s.len() - from,
{
    if from < 0 || from >= s.len() {
        None
    } else if app_overdue(s[from], now) {
        Some(from)
    } else {
        overdue_of(s, now, from + 1)
    }
}

/// The connection after one stream whose wait has run out has been ended: with an answer,
/// or with an error where a response has begun.
pub open spec fn swept(m: H2Model, now: u64) -> Option<(H2Model, DoneModel)> {
    match overdue_of(m.streams, now, 0) {
        None => None,
        Some(i) => {
            let st = m.streams[i];
            Some(
                if st.headers_sent {
                    ended_with(m, i, rst_stream(st.id, ERR_INTERNAL_ERROR))
                } else {
                    answer(
                        m.with_stream(i, StreamModel { app_pending: false, ..st }),
                        i,
                        "504",
                        "Gateway Timeout\n",
                        sends_response_body(st.method),
                    )
                },
            )
        },
    }
}

impl H2State {
    /// Find the stream that waits for the response with this number.
    pub fn find_app_stream(&self, stream_id: u16) -> (r: Option<usize>)
        requires
            self.wf(),
        ensures
            match r {
                Some(i) => app_stream_of(self@.streams, stream_id, 0) == Some(i as int) && i
                    < MAX_STREAMS && self@.streams[i as int].app_pending,
                None => app_stream_of(self@.streams, stream_id, 0) is None,
            },
    {
        let mut i: usize = 0;
        while i < MAX_STREAMS
            invariant
                i <= MAX_STREAMS,
                self.wf(),
                app_stream_of(self@.streams, stream_id, i as int) == app_stream_of(
                    self@.streams,
                    stream_id,
                    0,
                ),
            decreases MAX_STREAMS - i,
        {
            assert(self@.streams[i as int] == self.streams@[i as int]@);
            if self.streams[i].app_pending && self.streams[i].id % 0x1_0000 == stream_id as u32 {
                return Some(i);
            }
            i += 1;
        }
        None
    }

    /// Find the stream that waits for the response with this number, and whether it can take
    /// it now.
    pub fn awaiting_stream(&self, stream_id: u16) -> (r: Option<AwaitingStream>)
        requires
            self.wf(),
        ensures
            match r {
                Some(a) => {
                    &&& app_stream_of(self@.streams, stream_id, 0) == Some(a.stream as int)
                    &&& a.stream < MAX_STREAMS
                    &&& self@.streams[a.stream as int].app_pending
                    &&& a.holds == (self@.streams[a.stream as int].rest.len() > 0)
                },
                None => app_stream_of(self@.streams, stream_id, 0) is None,
            },
    {
        match self.find_app_stream(stream_id) {
            Some(i) => {
                assert(self@.streams[i as int] == self.streams@[i as int]@);
                Some(AwaitingStream { stream: i, holds: self.streams[i].rest.len() > 0 })
            },
            None => None,
        }
    }

    /// Send a piece of an application's response.
    pub fn deliver_app_response(
        &mut self,
        i: usize,
        status: u16,
        content_type: &[u8],
        body: &[u8],
        more: bool,
        now: u64,
    ) -> (r: FrameDone)
        requires
            old(self).wf(),
            i < MAX_STREAMS,
            old(self)@.streams[i as int].app_pending,
            old(self)@.streams[i as int].rest.len() == 0,
        ensures
            final(self).wf(),
            (final(self)@, r@) == app_delivered(
                old(self)@,
                i as int,
                status,
                content_type@,
                body@,
                more,
                now,
            ),
    {
        assert(self@.streams[i as int] == self.streams@[i as int]@);
        assert(self@.streams[i as int].wf());
        let allows = status_allows_body(status, self.streams[i].method);
        let none: Vec<u8> = Vec::new();
        assert(none@ =~= Seq::<u8>::empty());
        let out: &[u8] = if allows {
            body
        } else {
            none.as_slice()
        };
        let streaming = more && allows;
        self.set_waiting(
            i,
            streaming,
            if streaming {
                app_deadline(now)
            } else {
                0
            },
        );
        assert(self@.streams[i as int] == self.streams@[i as int]@);
        if self.streams[i].headers_sent {
            return self.emit_data_chunk(i, out, !streaming);
        }
        let code: Vec<u8> = status_digits_vec(status);
        let ct: &[u8] = if content_type.len() == 0 {
            lit("application/octet-stream")
        } else {
            content_type
        };
        self.emit_response_framed(i, code.as_slice(), ct, out, true, !streaming)
    }

    /// Set whether and until when a stream waits for its application.
    fn set_waiting(&mut self, i: usize, waiting: bool, deadline_ms: u64)
        requires
            old(self).wf(),
            i < MAX_STREAMS,
            old(self)@.streams[i as int].app_pending,
        ensures
            final(self).wf(),
            final(self)@ == old(self)@.with_stream(
                i as int,
                StreamModel {
                    app_pending: waiting,
                    app_deadline_ms: deadline_ms,
                    ..old(self)@.streams[i as int]
                },
            ),
    {
        assert(self@.streams[i as int] == self.streams@[i as int]@);
        assert(self@.streams[i as int].wf());
        self.streams[i].app_pending = waiting;
        self.streams[i].app_deadline_ms = deadline_ms;
        proof {
            let next = StreamModel {
                app_pending: waiting,
                app_deadline_ms: deadline_ms,
                ..old(self)@.streams[i as int]
            };
            assert(self.streams@ =~= old(self).streams@.update(i as int, self.streams@[i as int]));
            assert(self.streams@[i as int]@ =~= next);
            assert(self@.streams =~= old(self)@.streams.update(i as int, next));
            assert(self@ =~= old(self)@.with_stream(i as int, next));
        }
    }

    /// End one stream whose wait for its application has run out. `None` when there is
    /// none.
    pub fn sweep_app_timeouts(&mut self, now: u64) -> (r: Option<FrameDone>)
        requires
            old(self).wf(),
        ensures
            final(self).wf(),
            match r {
                Some(d) => swept(old(self)@, now) == Some((final(self)@, d@)),
                None => swept(old(self)@, now) is None && *final(self) == *old(self),
            },
    {
        let mut i: usize = 0;
        while i < MAX_STREAMS
            invariant
                i <= MAX_STREAMS,
                self.wf(),
                *self == *old(self),
                overdue_of(self@.streams, now, i as int) == overdue_of(self@.streams, now, 0),
            decreases MAX_STREAMS - i,
        {
            assert(self@.streams[i as int] == self.streams@[i as int]@);
            if self.streams[i].app_pending && self.streams[i].rest.len() == 0
                && self.streams[i].app_deadline_ms != 0 && now >= self.streams[i].app_deadline_ms {
                assert(self@.streams[i as int].wf());
                if self.streams[i].headers_sent {
                    let id: u32 = self.streams[i].id;
                    return Some(self.end_with(i, write_rst_stream(id, ERR_INTERNAL_ERROR)));
                }
                let with_body = method_sends_response_body(self.streams[i].method);
                let deadline_ms: u64 = self.streams[i].app_deadline_ms;
                self.set_waiting(i, false, deadline_ms);
                assert(self@ =~= old(self)@.with_stream(
                    i as int,
                    StreamModel { app_pending: false, ..old(self)@.streams[i as int] },
                ));
                return Some(self.emit_response(i, "504", "Gateway Timeout\n", with_body));
            }
            i += 1;
        }
        None
    }
}

// ── Laws ────────────────────────────────────────────────────────────────

proof fn lemma_app_stream_of(s: Seq<StreamModel>, stream_id: u16, from: int)
    requires
        0 <= from,
    ensures
        match app_stream_of(s, stream_id, from) {
            Some(i) => from <= i < s.len() && s[i].app_pending && s[i].id % 0x1_0000 == stream_id,
            None => forall|k: int|
                from <= k < s.len() ==> !((#[trigger] s[k]).app_pending && s[k].id % 0x1_0000
                    == stream_id),
        },
    decreases s.len() - from,
{
    if from < s.len() && !(s[from].app_pending && s[from].id % 0x1_0000 == stream_id) {
        lemma_app_stream_of(s, stream_id, from + 1);
    }
}

/// A response reaches the stream whose request it answers, and no other: the numbers of
/// requests handed over fit the envelope, so no two streams under way share one.
pub proof fn law_h2_response_finds_its_stream(m: H2Model, i: int)
    requires
        m.wf(),
        0 <= i < MAX_STREAMS,
        m.streams[i].app_pending,
    ensures
        app_stream_of(m.streams, m.streams[i].id as u16, 0) == Some(i),
{
    lemma_app_stream_of(m.streams, m.streams[i].id as u16, 0);
    let j = app_stream_of(m.streams, m.streams[i].id as u16, 0);
    assert(j is Some);
    let k = j->0;
    assert(m.streams[k].wf() && m.streams[i].wf());
    assert(m.streams[k].id == m.streams[i].id);
    if k < i {
        assert(m.streams[k].id != m.streams[i].id);
    } else if i < k {
        assert(m.streams[i].id != m.streams[k].id);
    }
}

/// A wait that has run out ends its own stream alone.
pub proof fn law_timeout_spares_the_others(m: H2Model, now: u64, k: int)
    requires
        m.wf(),
        0 <= k < MAX_STREAMS,
        !app_overdue(m.streams[k], now),
        swept(m, now) is Some,
    ensures
        (swept(m, now)->0).0.streams[k] == m.streams[k],
{
    lemma_overdue(m.streams, now, 0);
}

proof fn lemma_overdue(s: Seq<StreamModel>, now: u64, from: int)
    requires
        0 <= from,
    ensures
        overdue_of(s, now, from) matches Some(i) ==> from <= i < s.len() && app_overdue(s[i], now),
    decreases s.len() - from,
{
    if from < s.len() && !app_overdue(s[from], now) {
        lemma_overdue(s, now, from + 1);
    }
}

/// A response that has begun gets no second head: what follows is data, the end of the
/// stream, or nothing yet.
pub proof fn law_h2_response_has_one_head(
    m: H2Model,
    i: int,
    status: u16,
    content_type: Seq<u8>,
    body: Seq<u8>,
    more: bool,
    now: u64,
)
    requires
        0 <= i < m.streams.len(),
        m.streams[i].headers_sent,
    ensures
        ({
            let out = app_delivered(m, i, status, content_type, body, more, now).1.out;
            let id = m.streams[i].id;
            ||| out.len() == 0
            ||| out == rst_stream(id, ERR_INTERNAL_ERROR)
            ||| exists|data: Seq<u8>, end: bool| out == #[trigger] data_frame(id, data, end)
        }),
{
    let st = m.streams[i];
    let id = st.id;
    let allows = allows_body(status, st.method);
    let sent = if allows {
        body
    } else {
        Seq::empty()
    };
    let end = !(more && allows);
    let n = m.with_stream(
        i,
        StreamModel {
            app_pending: !end,
            app_deadline_ms: if !end {
                deadline_after(now)
            } else {
                0
            },
            ..st
        },
    );
    let none = Seq::<u8>::empty();
    let out = app_delivered(m, i, status, content_type, body, more, now).1.out;
    let k = cut_at(n, i, sent.len() as int);
    if FRAME_HEADER_LEN + sent.len() <= SEND_BUF_SIZE {
        if k < sent.len() {
            assert(out =~= front(id, sent, k));
        } else if end {
            assert(out =~= data_frame(id, sent, true));
        } else {
            assert(out =~= data_frame(id, sent, false));
        }
    }
}

} // verus!
