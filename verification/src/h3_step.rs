//! One step of the HTTP/3 server: what is counted, what is dropped, and when it is done.

use crate::h3::{H3Model, H3State};
use crate::h3_pump::{begin_drain, drain_begun, drained, ingress_step, quiescent, step_ingress};
use crate::h3_stream::H3StreamOutcome;
use crate::mux::MUX_QUIC_STREAM_RX_FRAME_MAX;
use crate::site::Site;
use vstd::prelude::*;

verus! {

/// Requests that configuration or the peer kept from being answered as asked.
#[derive(Clone, Copy, PartialEq, Eq, Structural, Debug)]
pub struct H3Tally {
    /// Answered 501: the route's handler is not served over HTTP/3.
    pub handler_unavailable: u32,
    /// Reset: the peer's limit leaves no room for an answer.
    pub field_limit_refused: u32,
}

/// The counts after one more outcome.
pub open spec fn tallied(t: H3Tally, what: H3StreamOutcome) -> H3Tally {
    match what {
        H3StreamOutcome::HandlerNotShared(_) => H3Tally {
            handler_unavailable: t.handler_unavailable.wrapping_add(1),
            ..t
        },
        H3StreamOutcome::PeerFieldLimit => H3Tally {
            field_limit_refused: t.field_limit_refused.wrapping_add(1),
            ..t
        },
        _ => t,
    }
}

/// The endpoint at the beginning of a step.
pub open spec fn step_begun(st: H3Model, draining: bool) -> H3Model {
    let n = H3Model { draining, ..st };
    if draining {
        drain_begun(n)
    } else {
        n
    }
}

/// Begin a step. `draining` says whether the server is to take on nothing new.
pub fn begin_step(st: &mut H3State, draining: bool)
    requires
        old(st)@.wf(),
    ensures
        final(st)@.wf(),
        final(st)@ == step_begun(old(st)@, draining),
{
    st.draining = draining;
    assert(st@ =~= (H3Model { draining, ..old(st)@ }));
    if draining {
        begin_drain(st);
    }
}

/// Act on a frame of the transport. One longer than the transport may send is dropped
/// whole: a part of it could not be told from a frame.
pub fn take_mux_frame(st: &mut H3State, site: &Site, msg_type: u8, payload: &[u8], tally: &mut H3Tally) -> (r: Option<
    H3StreamOutcome,
>)
    requires
        old(st)@.wf(),
        site.wf(),
    ensures
        final(st)@.wf(),
        if payload@.len() > MUX_QUIC_STREAM_RX_FRAME_MAX {
            r is None && *final(st) == *old(st) && *final(tally) == *old(tally)
        } else {
            &&& r is Some
            &&& (final(st)@, r->0) == ingress_step(*site, old(st)@, msg_type, payload@)
            &&& *final(tally) == tallied(*old(tally), r->0)
        },
{
    if payload.len() > MUX_QUIC_STREAM_RX_FRAME_MAX {
        return None;
    }
    let what = step_ingress(st, site, msg_type, payload);
    match what {
        H3StreamOutcome::HandlerNotShared(_) => {
            tally.handler_unavailable = tally.handler_unavailable.wrapping_add(1);
        },
        H3StreamOutcome::PeerFieldLimit => {
            tally.field_limit_refused = tally.field_limit_refused.wrapping_add(1);
        },
        _ => {},
    }
    Some(what)
}

/// Decide whether the endpoint is done: it drains, and nothing is owed.
pub fn step_done(st: &H3State) -> (r: bool)
    ensures
        r == (st@.draining && quiescent(st@)),
{
    st.draining && drained(st)
}

} // verus!
