//! Choosing the HTTP/3 response for a request.
//!
//! Static and template routes are answered here, and a WebSocket route by accepting
//! an extended CONNECT. A route with another handler exists but cannot be served over
//! HTTP/3: it is answered with a 501, so that the configuration, not the connection,
//! looks at fault.

use crate::body::{chunk_end, expanded, law_chunks_make_the_whole, render_template_route_into};
use crate::bytes::{copy_into, lit, splice, text};
use crate::h3_request::{
    decode_request_headers, request_of, H3Error, H3Request, RequestModel, H3_METHOD_CONNECT,
};
use crate::h3_response::{
    fits_peer_field_limit, lines_of, lines_size, response_bytes, response_fits, response_lines,
    response_vec, within_limit, H3_TEMPLATE_BUF,
};
use crate::qpack::FieldLine;
use crate::routes::{
    match_route_path, route_for, HANDLER_STATIC, HANDLER_TEMPLATE, HANDLER_WEBSOCKET,
};
use crate::site::{route_wf, Site};
use vstd::prelude::*;

verus! {

/// What dispatching a request produced.
#[derive(Clone, Copy, PartialEq, Eq, Structural, Debug)]
pub enum H3Dispatch {
    /// A response of this many bytes.
    Response(usize),
    /// No route; a 404 of this many bytes.
    NotFound(usize),
    /// The route's handler is not served over HTTP/3; a 501 of this many bytes, and
    /// the handler.
    HandlerNotShared(usize, u8),
    /// The response does not fit. Nothing is written.
    TooLarge,
    /// The response's field section is over the peer's limit. Nothing is written.
    PeerFieldLimit,
    /// An extended CONNECT was accepted; a 200 of this many bytes without a body.
    WebSocketAccepted(usize),
}

/// The answer to a request, before it is encoded.
pub enum Answer {
    NotFound,
    NotShared(u8),
    Upgrade,
    Page { content_type: Seq<u8>, body: Seq<u8> },
    /// A template that does not fit its bound. Half a page is no answer.
    Oversized,
}

/// A route's content type, `text/plain` when it states none.
pub open spec fn content_type_of(site: Site, i: int) -> Seq<u8> {
    if site.routes@[i].content_type@.len() == 0 {
        text("text/plain")
    } else {
        site.routes@[i].content_type@
    }
}

pub open spec fn template_cap(tmpl_cap: usize) -> int {
    if tmpl_cap < H3_TEMPLATE_BUF {
        tmpl_cap as int
    } else {
        H3_TEMPLATE_BUF as int
    }
}

/// The answer to a request, templates rendering to at most `tmpl_cap` bytes.
pub open spec fn answer_for(site: Site, req: RequestModel, tmpl_cap: usize) -> Answer {
    match route_for(site.routes@, req.path) {
        None => Answer::NotFound,
        Some(i) => {
            let handler = site.routes@[i].handler;
            let body = site.body_of(i);
            if req.method_kind == H3_METHOD_CONNECT && req.protocol_ws {
                if handler == HANDLER_WEBSOCKET {
                    Answer::Upgrade
                } else {
                    Answer::NotShared(handler)
                }
            } else if handler == HANDLER_STATIC {
                Answer::Page { content_type: content_type_of(site, i), body }
            } else if handler == HANDLER_TEMPLATE {
                if chunk_end(body, site.vars, 0, template_cap(tmpl_cap)) < body.len() {
                    Answer::Oversized
                } else {
                    Answer::Page {
                        content_type: content_type_of(site, i),
                        body: expanded(body, site.vars, 0),
                    }
                }
            } else {
                Answer::NotShared(handler)
            }
        },
    }
}

pub open spec fn content_type_field(v: Seq<u8>) -> Seq<FieldLine> {
    seq![FieldLine { name: text("content-type"), value: v }]
}

/// Status, fields and body of an answer.
pub open spec fn answer_parts(a: Answer) -> (Seq<u8>, Seq<FieldLine>, Seq<u8>) {
    match a {
        Answer::NotFound => (
            text("404"),
            content_type_field(text("text/plain")),
            text("Not Found\n"),
        ),
        Answer::NotShared(_) => (
            text("501"),
            content_type_field(text("text/plain")),
            text("Handler not available over HTTP/3 for this"),
        ),
        Answer::Upgrade => (text("200"), Seq::empty(), Seq::empty()),
        Answer::Page { content_type, body } => (
            text("200"),
            content_type_field(content_type),
            body,
        ),
        Answer::Oversized => (Seq::empty(), Seq::empty(), Seq::empty()),
    }
}

/// What comes of an answer under a peer's limit and `cap` bytes of room, and the
/// bytes written.
pub open spec fn answered(a: Answer, peer_limit: u32, cap: int) -> (H3Dispatch, Seq<u8>) {
    let (status, fields, body) = answer_parts(a);
    let bytes = response_bytes(status, fields, body);
    if a is Oversized {
        (H3Dispatch::TooLarge, Seq::empty())
    } else if !within_limit(peer_limit, lines_size(response_lines(status, fields))) {
        (H3Dispatch::PeerFieldLimit, Seq::empty())
    } else if !response_fits(status, fields, body, cap) {
        (H3Dispatch::TooLarge, Seq::empty())
    } else {
        let n = bytes.len() as usize;
        (
            match a {
                Answer::NotFound => H3Dispatch::NotFound(n),
                Answer::NotShared(h) => H3Dispatch::HandlerNotShared(n, h),
                Answer::Upgrade => H3Dispatch::WebSocketAccepted(n),
                _ => H3Dispatch::Response(n),
            },
            bytes,
        )
    }
}

/// What dispatching a request comes to.
pub open spec fn dispatched(
    site: Site,
    req: RequestModel,
    cap: int,
    tmpl_cap: usize,
    peer_limit: u32,
) -> (H3Dispatch, Seq<u8>) {
    answered(answer_for(site, req, tmpl_cap), peer_limit, cap)
}

/// A response goes out whole or not at all: what is written is the whole encoding of
/// the answer, or nothing.
pub proof fn law_no_partial_response(
    site: Site,
    req: RequestModel,
    cap: int,
    tmpl_cap: usize,
    peer_limit: u32,
)
    ensures
        ({
            let (what, bytes) = dispatched(site, req, cap, tmpl_cap, peer_limit);
            let (status, fields, body) = answer_parts(answer_for(site, req, tmpl_cap));
            if what is TooLarge || what is PeerFieldLimit {
                bytes.len() == 0
            } else {
                bytes == response_bytes(status, fields, body) && bytes.len() <= cap
            }
        }),
{
}

/// Refuse a response over the peer's limit, and render it otherwise.
fn render(
    status: &'static str,
    fields: &[(&[u8], &[u8])],
    body: &[u8],
    peer_limit: u32,
    cap: usize,
) -> (r: Result<Vec<u8>, H3Dispatch>)
    requires
        lines_size(response_lines(text(status), lines_of(fields@))) <= usize::MAX,
    ensures
        ({
            let f = lines_of(fields@);
            match r {
                Ok(v) => within_limit(peer_limit, lines_size(response_lines(text(status), f)))
                    && response_fits(text(status), f, body@, cap as int) && v@ == response_bytes(
                    text(status),
                    f,
                    body@,
                ),
                Err(e) => if within_limit(
                    peer_limit,
                    lines_size(response_lines(text(status), f)),
                ) {
                    e is TooLarge && !response_fits(text(status), f, body@, cap as int)
                } else {
                    e is PeerFieldLimit
                },
            }
        }),
{
    if !fits_peer_field_limit(peer_limit, lit(status), fields) {
        return Err(H3Dispatch::PeerFieldLimit);
    }
    match response_vec(lit(status), fields, body, cap) {
        Some(v) => Ok(v),
        None => Err(H3Dispatch::TooLarge),
    }
}

proof fn lemma_one_field_size(status: Seq<u8>, content_type: Seq<u8>)
    ensures
        lines_size(response_lines(status, content_type_field(content_type))) == text(
            ":status",
        ).len() + status.len() + text("content-type").len() + content_type.len() + 64,
        lines_size(response_lines(status, Seq::empty())) == text(":status").len() + status.len()
            + 32,
{
    let one = response_lines(status, Seq::empty());
    let two = response_lines(status, content_type_field(content_type));
    assert(one.drop_last() =~= Seq::empty());
    assert(two.drop_last() =~= one);
    assert(one.last() == (FieldLine { name: text(":status"), value: status }));
    assert(two.last() == (FieldLine { name: text("content-type"), value: content_type }));
    reveal_with_fuel(lines_size, 3);
}

proof fn lemma_literal_sizes()
    ensures
        text(":status").len() == 7,
        text("content-type").len() == 12,
        text("text/plain").len() == 10,
        text("200").len() == 3,
        text("404").len() == 3,
        text("501").len() == 3,
{
    reveal_strlit(":status");
    reveal_strlit("content-type");
    reveal_strlit("text/plain");
    reveal_strlit("200");
    reveal_strlit("404");
    reveal_strlit("501");
    crate::bytes::lemma_text(":status");
    crate::bytes::lemma_text("content-type");
    crate::bytes::lemma_text("text/plain");
    crate::bytes::lemma_text("200");
    crate::bytes::lemma_text("404");
    crate::bytes::lemma_text("501");
}

fn render_typed(
    status: &'static str,
    content_type: &[u8],
    body: &[u8],
    peer_limit: u32,
    cap: usize,
) -> (r: Result<Vec<u8>, H3Dispatch>)
    requires
        text(status).len() == 3,
        content_type@.len() <= 0xffff,
    ensures
        ({
            let f = content_type_field(content_type@);
            match r {
                Ok(v) => within_limit(peer_limit, lines_size(response_lines(text(status), f)))
                    && response_fits(text(status), f, body@, cap as int) && v@ == response_bytes(
                    text(status),
                    f,
                    body@,
                ),
                Err(e) => if within_limit(
                    peer_limit,
                    lines_size(response_lines(text(status), f)),
                ) {
                    e is TooLarge && !response_fits(text(status), f, body@, cap as int)
                } else {
                    e is PeerFieldLimit
                },
            }
        }),
{
    let fields = [(lit("content-type"), content_type)];
    proof {
        lemma_literal_sizes();
        lemma_one_field_size(text(status), content_type@);
        assert(lines_of(fields@) =~= content_type_field(content_type@));
    }
    render(status, &fields, body, peer_limit, cap)
}

fn not_implemented(peer_limit: u32, handler: u8, cap: usize) -> (r: (H3Dispatch, Vec<u8>))
    ensures
        (r.0, r.1@) == answered(Answer::NotShared(handler), peer_limit, cap as int),
{
    proof {
        lemma_literal_sizes();
    }
    match render_typed(
        "501",
        lit("text/plain"),
        lit("Handler not available over HTTP/3 for this"),
        peer_limit,
        cap,
    ) {
        Ok(v) => (H3Dispatch::HandlerNotShared(v.len(), handler), v),
        Err(e) => (e, Vec::new()),
    }
}

fn not_found(peer_limit: u32, cap: usize) -> (r: (H3Dispatch, Vec<u8>))
    ensures
        (r.0, r.1@) == answered(Answer::NotFound, peer_limit, cap as int),
{
    proof {
        lemma_literal_sizes();
    }
    match render_typed("404", lit("text/plain"), lit("Not Found\n"), peer_limit, cap) {
        Ok(v) => (H3Dispatch::NotFound(v.len()), v),
        Err(e) => (e, Vec::new()),
    }
}

fn upgrade(peer_limit: u32, cap: usize) -> (r: (H3Dispatch, Vec<u8>))
    ensures
        (r.0, r.1@) == answered(Answer::Upgrade, peer_limit, cap as int),
{
    let fields: [(&[u8], &[u8]); 0] = [];
    let body: Vec<u8> = Vec::new();
    proof {
        lemma_literal_sizes();
        lemma_one_field_size(text("200"), Seq::empty());
        assert(lines_of(fields@) =~= Seq::empty());
        assert(body@ =~= Seq::empty());
    }
    match render("200", &fields, body.as_slice(), peer_limit, cap) {
        Ok(v) => (H3Dispatch::WebSocketAccepted(v.len()), v),
        Err(e) => (e, Vec::new()),
    }
}

fn page(content_type: &[u8], body: &[u8], peer_limit: u32, cap: usize) -> (r: (
    H3Dispatch,
    Vec<u8>,
))
    requires
        content_type@.len() <= 0xffff,
    ensures
        (r.0, r.1@) == answered(
            Answer::Page { content_type: content_type@, body: body@ },
            peer_limit,
            cap as int,
        ),
{
    proof {
        lemma_literal_sizes();
    }
    match render_typed("200", content_type, body, peer_limit, cap) {
        Ok(v) => (H3Dispatch::Response(v.len()), v),
        Err(e) => (e, Vec::new()),
    }
}

/// Match a request to a route and render its response into an owned buffer of at most
/// `cap` bytes.
pub fn dispatch_vec(
    site: &Site,
    req: &H3Request,
    cap: usize,
    tmpl_cap: usize,
    peer_limit: u32,
) -> (r: (H3Dispatch, Vec<u8>))
    requires
        site.wf(),
    ensures
        (r.0, r.1@) == dispatched(*site, req@, cap as int, tmpl_cap, peer_limit),
{
    let i: usize = match match_route_path(&site.routes, req.path_bytes()) {
        Some(i) => i,
        None => return not_found(peer_limit, cap),
    };
    let handler: u8 = site.routes[i].handler;
    if req.method_kind == H3_METHOD_CONNECT && req.protocol_ws {
        if handler != HANDLER_WEBSOCKET {
            return not_implemented(peer_limit, handler, cap);
        }
        return upgrade(peer_limit, cap);
    }
    assert(route_wf(site.routes@[i as int], site.pool@.len()));
    proof {
        lemma_literal_sizes();
    }
    let content_type: &[u8] = if site.routes[i].content_type.len() == 0 {
        lit("text/plain")
    } else {
        site.routes[i].content_type.as_slice()
    };
    if handler == HANDLER_STATIC {
        return page(content_type, site.body(i), peer_limit, cap);
    }
    if handler == HANDLER_TEMPLATE {
        let room: usize = if tmpl_cap < H3_TEMPLATE_BUF {
            tmpl_cap
        } else {
            H3_TEMPLATE_BUF
        };
        let mut cursor: usize = 0;
        let body = site.body(i);
        let (rendered, more) = render_template_route_into(body, &site.vars, &mut cursor, room);
        if more {
            return (H3Dispatch::TooLarge, Vec::new());
        }
        proof {
            law_chunks_make_the_whole(body@, site.vars, 0, room as int);
            assert(rendered@ + Seq::<u8>::empty() =~= rendered@);
        }
        return page(content_type, rendered.as_slice(), peer_limit, cap);
    }
    not_implemented(peer_limit, handler, cap)
}

/// Match a request to a route and render its response at the front of `out`.
pub fn dispatch_request_bounded(
    site: &Site,
    req: &H3Request,
    out: &mut [u8],
    tmpl_cap: usize,
    peer_limit: u32,
) -> (r: H3Dispatch)
    requires
        site.wf(),
    ensures
        ({
            let (what, bytes) = dispatched(
                *site,
                req@,
                old(out)@.len() as int,
                tmpl_cap,
                peer_limit,
            );
            r == what && final(out)@ == splice(old(out)@, 0, bytes)
        }),
{
    let (what, bytes) = dispatch_vec(site, req, out.len(), tmpl_cap, peer_limit);
    proof {
        law_no_partial_response(*site, req@, out@.len() as int, tmpl_cap, peer_limit);
    }
    copy_into(out, 0, bytes.as_slice());
    what
}

/// [`dispatch_request_bounded`] with the standing template bound.
pub fn dispatch_request(site: &Site, req: &H3Request, out: &mut [u8], peer_limit: u32) -> (r:
    H3Dispatch)
    requires
        site.wf(),
    ensures
        ({
            let (what, bytes) = dispatched(
                *site,
                req@,
                old(out)@.len() as int,
                H3_TEMPLATE_BUF,
                peer_limit,
            );
            r == what && final(out)@ == splice(old(out)@, 0, bytes)
        }),
{
    dispatch_request_bounded(site, req, out, H3_TEMPLATE_BUF, peer_limit)
}

/// Decode a header section and dispatch the request it is.
pub fn test_decode_and_dispatch_bounded(
    site: &Site,
    block: &[u8],
    out: &mut [u8],
    tmpl_cap: usize,
    peer_limit: u32,
) -> (r: Result<H3Dispatch, H3Error>)
    requires
        site.wf(),
    ensures
        match request_of(block@) {
            Ok((req, _)) => {
                let (what, bytes) = dispatched(
                    *site,
                    req,
                    old(out)@.len() as int,
                    tmpl_cap,
                    peer_limit,
                );
                r == Ok::<H3Dispatch, H3Error>(what) && final(out)@ == splice(old(out)@, 0, bytes)
            },
            Err(e) => r == Err::<H3Dispatch, H3Error>(e) && final(out)@ == old(out)@,
        },
{
    let mut req = H3Request::empty();
    match decode_request_headers(block, &mut req) {
        Ok(_) => Ok(dispatch_request_bounded(site, &req, out, tmpl_cap, peer_limit)),
        Err(e) => Err(e),
    }
}

/// Decode and dispatch under a peer's field-section limit.
pub fn test_decode_and_dispatch_limited(
    site: &Site,
    block: &[u8],
    out: &mut [u8],
    peer_limit: u32,
) -> (r: Result<H3Dispatch, H3Error>)
    requires
        site.wf(),
    ensures
        match request_of(block@) {
            Ok((req, _)) => {
                let (what, bytes) = dispatched(
                    *site,
                    req,
                    old(out)@.len() as int,
                    H3_TEMPLATE_BUF,
                    peer_limit,
                );
                r == Ok::<H3Dispatch, H3Error>(what) && final(out)@ == splice(old(out)@, 0, bytes)
            },
            Err(e) => r == Err::<H3Dispatch, H3Error>(e) && final(out)@ == old(out)@,
        },
{
    test_decode_and_dispatch_bounded(site, block, out, H3_TEMPLATE_BUF, peer_limit)
}

/// Decode and dispatch for a peer that stated no limit.
pub fn test_decode_and_dispatch(site: &Site, block: &[u8], out: &mut [u8]) -> (r: Result<
    H3Dispatch,
    H3Error,
>)
    requires
        site.wf(),
    ensures
        match request_of(block@) {
            Ok((req, _)) => {
                let (what, bytes) = dispatched(
                    *site,
                    req,
                    old(out)@.len() as int,
                    H3_TEMPLATE_BUF,
                    u32::MAX,
                );
                r == Ok::<H3Dispatch, H3Error>(what) && final(out)@ == splice(old(out)@, 0, bytes)
            },
            Err(e) => r == Err::<H3Dispatch, H3Error>(e) && final(out)@ == old(out)@,
        },
{
    test_decode_and_dispatch_limited(site, block, out, u32::MAX)
}

} // verus!
