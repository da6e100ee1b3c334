//! HTTP/3 requests: the frames of a request stream and the header section that makes
//! a request (RFC 9114 §4, §7).

use crate::bytes::{
    clip, eq_ascii_ci, is_text, is_upper, lit, number_of, parse_u64, same_ci, text, to_vec,
};
use crate::h3::{H3_FRAME_UNEXPECTED, H3_MESSAGE_ERROR, QPACK_DECOMPRESSION_FAILED};
use crate::h3_wire::{
    frame_at, parse_h3_frame, payload_of, H3_FRAME_CANCEL_PUSH, H3_FRAME_DATA, H3_FRAME_GOAWAY,
    H3_FRAME_HEADERS, H3_FRAME_MAX_PUSH_ID, H3_FRAME_SETTINGS,
};
use crate::prefix_int::prefix_int_at;
use crate::qpack::{
    bounded_field_at, field_bytes, law_field_reads_back, lemma_field_bounds, qpack_decode_block_prefix,
    qpack_decode_field, section_start, FieldLine,
};
use vstd::prelude::*;
use vstd::slice::slice_subrange;

verus! {

/// Longest request target accepted.
pub const H3_MAX_PATH: usize = 200;
/// Longest authority kept.
pub const H3_MAX_AUTHORITY: usize = 64;
/// Largest field, name and value together. A larger one is refused, not cut: a cut
/// header is another request.
pub const H3_FIELD_SCRATCH: usize = 512;

pub const H3_METHOD_NONE: u8 = 0;
pub const H3_METHOD_GET: u8 = 1;
pub const H3_METHOD_CONNECT: u8 = 2;
pub const H3_METHOD_BODY: u8 = 3;

/// Why a header section was refused.
#[derive(Clone, Copy, PartialEq, Eq, Structural, Debug)]
pub enum H3Error {
    /// The request is malformed.
    MessageError,
    /// The field section does not decode.
    QpackFailed,
    /// The frame type has no place on a request stream.
    FrameUnexpected,
}

impl H3Error {
    pub open spec fn wire_code(self) -> u64 {
        match self {
            H3Error::MessageError => H3_MESSAGE_ERROR,
            H3Error::QpackFailed => QPACK_DECOMPRESSION_FAILED,
            H3Error::FrameUnexpected => H3_FRAME_UNEXPECTED,
        }
    }

    /// The error code to send.
    pub fn code(self) -> (r: u64)
        ensures
            r == self.wire_code(),
            r != 0,
    {
        match self {
            H3Error::MessageError => H3_MESSAGE_ERROR,
            H3Error::QpackFailed => QPACK_DECOMPRESSION_FAILED,
            H3Error::FrameUnexpected => H3_FRAME_UNEXPECTED,
        }
    }
}

/// A decoded request header section.
pub struct H3Request {
    pub method_kind: u8,
    pub path: Vec<u8>,
    pub authority: Vec<u8>,
    /// An extended CONNECT for `websocket`.
    pub protocol_ws: bool,
    pub content_length: Option<u64>,
}

#[verifier::ext_equal]
pub struct RequestModel {
    pub method_kind: u8,
    pub path: Seq<u8>,
    pub authority: Seq<u8>,
    pub protocol_ws: bool,
    pub content_length: Option<u64>,
}

impl View for H3Request {
    type V = RequestModel;

    open spec fn view(&self) -> RequestModel {
        RequestModel {
            method_kind: self.method_kind,
            path: self.path@,
            authority: self.authority@,
            protocol_ws: self.protocol_ws,
            content_length: self.content_length,
        }
    }
}

impl RequestModel {
    pub open spec fn none() -> RequestModel {
        RequestModel {
            method_kind: H3_METHOD_NONE,
            path: Seq::empty(),
            authority: Seq::empty(),
            protocol_ws: false,
            content_length: None,
        }
    }
}

impl H3Request {
    pub fn empty() -> (r: H3Request)
        ensures
            r@ == RequestModel::none(),
    {
        let r = H3Request {
            method_kind: H3_METHOD_NONE,
            path: Vec::new(),
            authority: Vec::new(),
            protocol_ws: false,
            content_length: None,
        };
        assert(r@ =~= RequestModel::none());
        r
    }

    pub fn path_bytes(&self) -> (r: &[u8])
        ensures
            r@ == self@.path,
    {
        self.path.as_slice()
    }

    pub fn authority_bytes(&self) -> (r: &[u8])
        ensures
            r@ == self@.authority,
    {
        self.authority.as_slice()
    }
}

// ── The message rules ───────────────────────────────────────────────────

/// Which kind of request a method asks for.
pub open spec fn method_kind_of(v: Seq<u8>) -> Option<u8> {
    if v == text("GET") || v == text("HEAD") {
        Some(H3_METHOD_GET)
    } else if v == text("CONNECT") {
        Some(H3_METHOD_CONNECT)
    } else if v == text("POST") || v == text("PUT") || v == text("PATCH") || v == text("DELETE") {
        Some(H3_METHOD_BODY)
    } else {
        None
    }
}

fn method_kind(v: &[u8]) -> (r: Option<u8>)
    ensures
        r == method_kind_of(v@),
{
    if is_text(v, "GET") || is_text(v, "HEAD") {
        Some(H3_METHOD_GET)
    } else if is_text(v, "CONNECT") {
        Some(H3_METHOD_CONNECT)
    } else if is_text(v, "POST") || is_text(v, "PUT") || is_text(v, "PATCH") || is_text(
        v,
        "DELETE",
    ) {
        Some(H3_METHOD_BODY)
    } else {
        None
    }
}

/// A header section part way: the request so far, and what has been seen.
#[verifier::ext_equal]
pub struct HeadModel {
    pub req: RequestModel,
    pub fields: nat,
    pub regular: bool,
    pub scheme: bool,
    pub method: bool,
    pub path: bool,
    pub authority: bool,
    pub protocol: bool,
}

impl HeadModel {
    pub open spec fn start() -> HeadModel {
        HeadModel {
            req: RequestModel::none(),
            fields: 0,
            regular: false,
            scheme: false,
            method: false,
            path: false,
            authority: false,
            protocol: false,
        }
    }
}

pub open spec fn has_upper(s: Seq<u8>) -> bool {
    exists|i: int| 0 <= i < s.len() && is_upper(#[trigger] s[i])
}

pub open spec fn is_pseudo(name: Seq<u8>) -> bool {
    name.len() > 0 && name[0] == 0x3a
}

/// What a pseudo-header does to a section part way. `None` when it is malformed: out
/// of place, repeated, unknown or of a value that cannot be taken.
pub open spec fn pseudo_step(h: HeadModel, f: FieldLine) -> Option<HeadModel> {
    let n = f.name;
    let v = f.value;
    let m = HeadModel { fields: h.fields + 1, ..h };
    if h.regular {
        None
    } else if n == text(":method") {
        match method_kind_of(v) {
            Some(k) => if h.method {
                None
            } else {
                Some(
                    HeadModel { method: true, req: RequestModel { method_kind: k, ..h.req }, ..m },
                )
            },
            None => None,
        }
    } else if n == text(":path") {
        if h.path || v.len() == 0 || v.len() > H3_MAX_PATH {
            None
        } else {
            Some(HeadModel { path: true, req: RequestModel { path: v, ..h.req }, ..m })
        }
    } else if n == text(":authority") {
        if h.authority {
            None
        } else {
            Some(
                HeadModel {
                    authority: true,
                    req: RequestModel { authority: clip(v, H3_MAX_AUTHORITY as nat), ..h.req },
                    ..m
                },
            )
        }
    } else if n == text(":scheme") {
        if h.scheme {
            None
        } else {
            Some(HeadModel { scheme: true, ..m })
        }
    } else if n == text(":protocol") {
        if h.protocol {
            None
        } else {
            Some(
                HeadModel {
                    protocol: true,
                    req: RequestModel { protocol_ws: v == text("websocket"), ..h.req },
                    ..m
                },
            )
        }
    } else {
        None
    }
}

/// What a regular field does. `None` when its name is not in lower case or it is a
/// content length that is no number.
pub open spec fn regular_step(h: HeadModel, f: FieldLine) -> Option<HeadModel> {
    let m = HeadModel { fields: h.fields + 1, regular: true, ..h };
    if has_upper(f.name) {
        None
    } else if same_ci(f.name, text("content-length")) {
        match number_of(f.value) {
            Some(n) => Some(
                HeadModel { req: RequestModel { content_length: Some(n), ..h.req }, ..m },
            ),
            None => None,
        }
    } else {
        Some(m)
    }
}

#[verifier::opaque]
pub open spec fn head_step(h: HeadModel, f: FieldLine) -> Option<HeadModel> {
    if is_pseudo(f.name) {
        pseudo_step(h, f)
    } else {
        regular_step(h, f)
    }
}

/// The field lines of a section, taken one after another.
pub open spec fn head_walk(buf: Seq<u8>, h: HeadModel) -> Result<HeadModel, H3Error>
    decreases buf.len(),
{
    if buf.len() == 0 {
        Ok(h)
    } else {
        match bounded_field_at(buf, H3_FIELD_SCRATCH as nat) {
            None => Err(H3Error::QpackFailed),
            Some((f, n)) => match head_step(h, f) {
                None => Err(H3Error::MessageError),
                Some(g) => {
                    proof {
                        lemma_field_bounds(buf);
                    }
                    head_walk(buf.skip(n as int), g)
                },
            },
        }
    }
}

/// Whether the mandatory pseudo-headers are there: the authority for CONNECT, and
/// method, path and scheme for everything else.
pub open spec fn head_whole(h: HeadModel) -> bool {
    if h.req.method_kind == H3_METHOD_CONNECT {
        h.authority
    } else {
        h.method && h.path && h.scheme && h.req.path.len() > 0
    }
}

/// The request a field section is, with the number of its fields.
#[verifier::opaque]
pub open spec fn request_of(block: Seq<u8>) -> Result<(RequestModel, nat), H3Error> {
    match section_start(block) {
        None => Err(H3Error::QpackFailed),
        Some(n) => match head_walk(block.skip(n as int), HeadModel::start()) {
            Err(e) => Err(e),
            Ok(h) => if head_whole(h) {
                Ok((h.req, h.fields))
            } else {
                Err(H3Error::MessageError)
            },
        },
    }
}

/// An accepted request states its method, and unless it is a CONNECT its target.
pub proof fn law_accepted_request_is_whole(block: Seq<u8>)
    ensures
        match request_of(block) {
            Ok((r, _)) => if r.method_kind == H3_METHOD_CONNECT {
                true
            } else {
                &&& r.method_kind == H3_METHOD_GET || r.method_kind == H3_METHOD_BODY
                &&& 0 < r.path.len() <= H3_MAX_PATH
            },
            Err(e) => !(e is FrameUnexpected),
        },
        request_of(block) matches Ok((r, _)) ==> r.path.len() <= H3_MAX_PATH && r.authority.len()
            <= H3_MAX_AUTHORITY,
{
    reveal(request_of);
    if let Some(n) = section_start(block) {
        lemma_walk_bounds(block.skip(n as int), HeadModel::start());
    }
}

/// What every section part way keeps: a target of accepted length, and a method of a
/// known kind from the moment one was seen.
pub open spec fn head_inv(h: HeadModel) -> bool {
    &&& h.req.path.len() <= H3_MAX_PATH
    &&& h.req.authority.len() <= H3_MAX_AUTHORITY
    &&& h.method ==> h.req.method_kind == H3_METHOD_GET || h.req.method_kind == H3_METHOD_CONNECT
        || h.req.method_kind == H3_METHOD_BODY
}

proof fn lemma_walk_bounds(buf: Seq<u8>, h: HeadModel)
    requires
        head_inv(h),
    ensures
        head_walk(buf, h) matches Ok(g) ==> head_inv(g),
        head_walk(buf, h) matches Err(e) ==> !(e is FrameUnexpected),
    decreases buf.len(),
{
    reveal(head_step);
    if buf.len() > 0 {
        lemma_field_bounds(buf);
        if let Some((f, n)) = bounded_field_at(buf, H3_FIELD_SCRATCH as nat) {
            if let Some(g) = head_step(h, f) {
                lemma_walk_bounds(buf.skip(n as int), g);
            }
        }
    }
}

/// Whether a section part way has had the pseudo-header of this name.
pub open spec fn had(h: HeadModel, name: Seq<u8>) -> bool {
    ||| h.method && name == text(":method")
    ||| h.path && name == text(":path")
    ||| h.authority && name == text(":authority")
    ||| h.scheme && name == text(":scheme")
    ||| h.protocol && name == text(":protocol")
}

/// A pseudo-header behind a regular field, or one that was there before, is malformed.
pub proof fn law_pseudo_headers_lead_and_do_not_repeat(h: HeadModel, f: FieldLine)
    requires
        is_pseudo(f.name),
        h.regular || had(h, f.name),
    ensures
        head_step(h, f) is None,
{
    reveal(head_step);
    lemma_pseudo_names();
}

/// The names of the pseudo-headers differ.
proof fn lemma_pseudo_names()
    ensures
        text(":method") != text(":path"),
        text(":method") != text(":authority"),
        text(":method") != text(":scheme"),
        text(":method") != text(":protocol"),
        text(":path") != text(":authority"),
        text(":path") != text(":scheme"),
        text(":path") != text(":protocol"),
        text(":authority") != text(":scheme"),
        text(":authority") != text(":protocol"),
        text(":scheme") != text(":protocol"),
{
    reveal_strlit(":method");
    reveal_strlit(":path");
    reveal_strlit(":authority");
    reveal_strlit(":scheme");
    reveal_strlit(":protocol");
    crate::bytes::lemma_text(":method");
    crate::bytes::lemma_text(":path");
    crate::bytes::lemma_text(":authority");
    crate::bytes::lemma_text(":scheme");
    crate::bytes::lemma_text(":protocol");
    assert(text(":method")[1] == 0x6d && text(":path")[1] == 0x70 && text(":authority")[1] == 0x61
        && text(":scheme")[1] == 0x73 && text(":protocol")[1] == 0x70);
    assert(text(":path").len() != text(":protocol").len());
}

/// The field lines of a section, each within what is decoded.
pub open spec fn section_lines(buf: Seq<u8>) -> Option<Seq<FieldLine>>
    decreases buf.len(),
{
    if buf.len() == 0 {
        Some(Seq::empty())
    } else {
        match bounded_field_at(buf, H3_FIELD_SCRATCH as nat) {
            None => None,
            Some((f, n)) => {
                proof {
                    lemma_field_bounds(buf);
                }
                match section_lines(buf.skip(n as int)) {
                    None => None,
                    Some(rest) => Some(seq![f] + rest),
                }
            },
        }
    }
}

/// A pseudo-header that occurs twice makes a request malformed, whatever its name and
/// wherever in the section the two stand.
pub proof fn law_repeated_pseudo_header_is_refused(block: Seq<u8>, a: int, b: int)
    requires
        section_start(block) is Some,
        section_lines(block.skip(section_start(block)->0 as int)) is Some,
        ({
            let lines = section_lines(block.skip(section_start(block)->0 as int))->0;
            0 <= a < b < lines.len() && is_pseudo(lines[a].name) && lines[a].name == lines[b].name
        }),
    ensures
        request_of(block) == Err::<(RequestModel, nat), H3Error>(H3Error::MessageError),
{
    reveal(request_of);
    lemma_repeat_stops_walk(
        block.skip(section_start(block)->0 as int),
        HeadModel::start(),
        a,
        b,
    );
}

proof fn lemma_repeat_stops_walk(buf: Seq<u8>, h: HeadModel, a: int, b: int)
    requires
        section_lines(buf) is Some,
        ({
            let lines = section_lines(buf)->0;
            0 <= a < b < lines.len() && is_pseudo(lines[a].name) && lines[a].name == lines[b].name
        }),
    ensures
        head_walk(buf, h) == Err::<HeadModel, H3Error>(H3Error::MessageError),
    decreases buf.len(),
{
    reveal(head_step);
    lemma_field_bounds(buf);
    let (f, n) = bounded_field_at(buf, H3_FIELD_SCRATCH as nat)->0;
    let rest = section_lines(buf.skip(n as int))->0;
    let lines = section_lines(buf)->0;
    assert(lines == seq![f] + rest);
    if let Some(g) = head_step(h, f) {
        if a == 0 {
            assert(lines[b] == rest[b - 1]);
            lemma_pseudo_names();
            assert(had(g, f.name));
            lemma_had_stops_walk(buf.skip(n as int), g, b - 1);
        } else {
            assert(lines[a] == rest[a - 1] && lines[b] == rest[b - 1]);
            lemma_repeat_stops_walk(buf.skip(n as int), g, a - 1, b - 1);
        }
    }
}

proof fn lemma_had_stops_walk(buf: Seq<u8>, h: HeadModel, b: int)
    requires
        section_lines(buf) is Some,
        ({
            let lines = section_lines(buf)->0;
            0 <= b < lines.len() && is_pseudo(lines[b].name) && had(h, lines[b].name)
        }),
    ensures
        head_walk(buf, h) == Err::<HeadModel, H3Error>(H3Error::MessageError),
    decreases buf.len(),
{
    lemma_field_bounds(buf);
    let (f, n) = bounded_field_at(buf, H3_FIELD_SCRATCH as nat)->0;
    let rest = section_lines(buf.skip(n as int))->0;
    let lines = section_lines(buf)->0;
    assert(lines == seq![f] + rest);
    if b == 0 {
        law_pseudo_headers_lead_and_do_not_repeat(h, f);
    } else if let Some(g) = head_step(h, f) {
        assert(lines[b] == rest[b - 1]);
        assert(had(g, lines[b].name)) by {
            reveal(head_step);
        }
        lemma_had_stops_walk(buf.skip(n as int), g, b - 1);
    }
}

// ── Decoding ────────────────────────────────────────────────────────────

/// A section part way, as it is decoded.
struct Head {
    req: H3Request,
    fields: usize,
    regular: bool,
    scheme: bool,
    method: bool,
    path: bool,
    authority: bool,
    protocol: bool,
}

impl Head {
    spec fn model(self) -> HeadModel {
        HeadModel {
            req: self.req@,
            fields: self.fields as nat,
            regular: self.regular,
            scheme: self.scheme,
            method: self.method,
            path: self.path,
            authority: self.authority,
            protocol: self.protocol,
        }
    }
}

fn any_upper(s: &[u8]) -> (r: bool)
    ensures
        r == has_upper(s@),
{
    let mut i: usize = 0;
    while i < s.len()
        invariant
            i <= s@.len(),
            forall|k: int| 0 <= k < i ==> !is_upper(#[trigger] s@[k]),
        decreases s@.len() - i,
    {
        if 0x41 <= s[i] && s[i] <= 0x5a {
            assert(is_upper(s@[i as int]));
            return true;
        }
        i += 1;
    }
    false
}

fn take_pseudo(h: &mut Head, name: &[u8], value: &[u8]) -> (r: bool)
    requires
        old(h).fields < usize::MAX,
    ensures
        match pseudo_step(old(h).model(), FieldLine { name: name@, value: value@ }) {
            Some(g) => r && final(h).model() == g,
            None => !r,
        },
{
    let ghost want = pseudo_step(h.model(), FieldLine { name: name@, value: value@ });
    if h.regular {
        return false;
    }
    if is_text(name, ":method") {
        match method_kind(value) {
            Some(k) => {
                if h.method {
                    return false;
                }
                h.method = true;
                h.req.method_kind = k;
            },
            None => {
                return false;
            },
        }
    } else if is_text(name, ":path") {
        if h.path || value.len() == 0 || value.len() > H3_MAX_PATH {
            return false;
        }
        h.path = true;
        h.req.path = to_vec(value);
    } else if is_text(name, ":authority") {
        if h.authority {
            return false;
        }
        h.authority = true;
        let n: usize = if value.len() > H3_MAX_AUTHORITY {
            H3_MAX_AUTHORITY
        } else {
            value.len()
        };
        h.req.authority = to_vec(slice_subrange(value, 0, n));
        assert(h.req.authority@ =~= clip(value@, H3_MAX_AUTHORITY as nat));
    } else if is_text(name, ":scheme") {
        if h.scheme {
            return false;
        }
        h.scheme = true;
    } else if is_text(name, ":protocol") {
        if h.protocol {
            return false;
        }
        h.protocol = true;
        h.req.protocol_ws = is_text(value, "websocket");
    } else {
        return false;
    }
    h.fields = h.fields + 1;
    assert(h.model() =~= want->0);
    true
}

fn take_regular(h: &mut Head, name: &[u8], value: &[u8]) -> (r: bool)
    requires
        old(h).fields < usize::MAX,
    ensures
        match regular_step(old(h).model(), FieldLine { name: name@, value: value@ }) {
            Some(g) => r && final(h).model() == g,
            None => !r,
        },
{
    let ghost want = regular_step(h.model(), FieldLine { name: name@, value: value@ });
    if any_upper(name) {
        return false;
    }
    h.regular = true;
    if eq_ascii_ci(name, lit("content-length")) {
        match parse_u64(value) {
            Some(n) => {
                h.req.content_length = Some(n);
            },
            None => {
                return false;
            },
        }
    }
    h.fields = h.fields + 1;
    assert(h.model() =~= want->0);
    true
}

/// Take the field line at the front of `rest`; the bytes it takes on success.
fn take_field(h: &mut Head, rest: &[u8]) -> (r: Result<usize, H3Error>)
    requires
        old(h).fields < usize::MAX,
    ensures
        match bounded_field_at(rest@, H3_FIELD_SCRATCH as nat) {
            None => r == Err::<usize, H3Error>(H3Error::QpackFailed),
            Some((f, n)) => match head_step(old(h).model(), f) {
                None => r == Err::<usize, H3Error>(H3Error::MessageError),
                Some(g) => {
                    &&& r == Ok::<usize, H3Error>(n as usize)
                    &&& 1 <= n <= rest@.len()
                    &&& final(h).model() == g
                    &&& g.fields == old(h).model().fields + 1
                },
            },
        },
{
    proof {
        reveal(head_step);
    }
    let f = match qpack_decode_field(rest, H3_FIELD_SCRATCH) {
        Some(f) => f,
        None => return Err(H3Error::QpackFailed),
    };
    let name = f.name.as_slice();
    let value = f.value.as_slice();
    assert(f.line() == (FieldLine { name: name@, value: value@ }));
    let ok: bool = if name.len() > 0 && name[0] == 0x3a {
        take_pseudo(h, name, value)
    } else {
        take_regular(h, name, value)
    };
    if ok {
        Ok(f.consumed)
    } else {
        Err(H3Error::MessageError)
    }
}

/// Decode a header section into `out`; the number of its field lines on success.
///
/// On an error `out` is left as [`H3Request::empty`].
pub fn decode_request_headers(block: &[u8], out: &mut H3Request) -> (r: Result<usize, H3Error>)
    ensures
        match request_of(block@) {
            Ok((req, n)) => r == Ok::<usize, H3Error>(n as usize) && final(out)@ == req && n
                <= block@.len(),
            Err(e) => r == Err::<usize, H3Error>(e) && final(out)@ == RequestModel::none(),
        },
{
    proof {
        reveal(request_of);
    }
    *out = H3Request::empty();
    let mut off: usize = match qpack_decode_block_prefix(block) {
        Some(n) => n,
        None => return Err(H3Error::QpackFailed),
    };
    let ghost first = block@.skip(off as int);
    let mut h = Head {
        req: H3Request::empty(),
        fields: 0,
        regular: false,
        scheme: false,
        method: false,
        path: false,
        authority: false,
        protocol: false,
    };
    assert(h.model() =~= HeadModel::start());
    while off < block.len()
        invariant
            off <= block@.len(),
            h.fields <= off,
            head_walk(block@.skip(off as int), h.model()) == head_walk(first, HeadModel::start()),
            out@ == RequestModel::none(),
            section_start(block@) is Some,
            first == block@.skip(section_start(block@)->0 as int),
        decreases block@.len() - off,
    {
        proof {
            reveal(request_of);
        }
        let rest = slice_subrange(block, off, block.len());
        assert(rest@ =~= block@.skip(off as int));
        match take_field(&mut h, rest) {
            Err(e) => {
                return Err(e);
            },
            Ok(n) => {
                assert(rest@.skip(n as int) =~= block@.skip(off + n));
                off += n;
            },
        }
    }
    assert(block@.skip(off as int).len() == 0);
    let whole: bool = if h.req.method_kind == H3_METHOD_CONNECT {
        h.authority
    } else {
        h.method && h.path && h.scheme && h.req.path.len() > 0
    };
    if !whole {
        return Err(H3Error::MessageError);
    }
    *out = h.req;
    Ok(h.fields)
}

// ── Frames of a request stream ──────────────────────────────────────────

/// What a piece of a request stream is.
#[derive(Clone, Copy, PartialEq, Eq, Structural, Debug)]
pub enum H3Ingest {
    /// No whole frame, or one without meaning.
    NeedMore,
    /// A header section was decoded.
    Headers,
    /// Body bytes, as a range of the buffer.
    Data(usize, usize),
    /// The stream must be reset with this error.
    Error(H3Error),
}

/// Types a request stream may carry: DATA, HEADERS and the reserved ones.
pub open spec fn request_frame_legal(t: u64) -> bool {
    t == H3_FRAME_DATA || t == H3_FRAME_HEADERS || (t >= 0x21 && (t - 0x21) % 0x1f == 0)
}

pub fn is_request_stream_frame(frame_type: u64) -> (r: bool)
    ensures
        r == request_frame_legal(frame_type),
{
    frame_type == H3_FRAME_DATA || frame_type == H3_FRAME_HEADERS || (frame_type >= 0x21 && (
    frame_type - 0x21) % 0x1f == 0)
}

pub fn is_control_stream_frame(frame_type: u64) -> (r: bool)
    ensures
        r == (frame_type == H3_FRAME_SETTINGS || frame_type == H3_FRAME_GOAWAY || frame_type
            == H3_FRAME_MAX_PUSH_ID || frame_type == H3_FRAME_CANCEL_PUSH),
{
    frame_type == H3_FRAME_SETTINGS || frame_type == H3_FRAME_GOAWAY || frame_type
        == H3_FRAME_MAX_PUSH_ID || frame_type == H3_FRAME_CANCEL_PUSH
}

/// What the front of a request stream's bytes is, how many bytes that takes, and the
/// request once it is read.
pub open spec fn ingested(buf: Seq<u8>, req: RequestModel) -> (H3Ingest, int, RequestModel) {
    match frame_at(buf) {
        None => (H3Ingest::NeedMore, 0, req),
        Some(f) => if !request_frame_legal(f.frame_type) {
            (H3Ingest::Error(H3Error::FrameUnexpected), f.end, req)
        } else if f.frame_type == H3_FRAME_HEADERS {
            match request_of(payload_of(buf, f)) {
                Ok((r, _)) => (H3Ingest::Headers, f.end, r),
                Err(e) => (H3Ingest::Error(e), f.end, RequestModel::none()),
            }
        } else if f.frame_type == H3_FRAME_DATA {
            (H3Ingest::Data(f.start as usize, f.end as usize), f.end, req)
        } else {
            (H3Ingest::NeedMore, f.end, req)
        },
    }
}

/// Consume one frame from the front of a request stream.
pub fn ingest_request_frame(buf: &[u8], req: &mut H3Request) -> (r: (H3Ingest, usize))
    ensures
        (r.0, r.1 as int, final(req)@) == ingested(buf@, old(req)@),
        r.1 <= buf@.len(),
        r.1 == 0 ==> r.0 is NeedMore,
        r.1 == 0 <==> frame_at(buf@) is None,
{
    let (frame, consumed) = match parse_h3_frame(buf) {
        Some(x) => x,
        None => return (H3Ingest::NeedMore, 0),
    };
    if !is_request_stream_frame(frame.frame_type) {
        return (H3Ingest::Error(H3Error::FrameUnexpected), consumed);
    }
    if frame.frame_type == H3_FRAME_HEADERS {
        return match decode_request_headers(frame.payload, req) {
            Ok(_) => (H3Ingest::Headers, consumed),
            Err(e) => (H3Ingest::Error(e), consumed),
        };
    }
    if frame.frame_type == H3_FRAME_DATA {
        return (H3Ingest::Data(consumed - frame.payload.len(), consumed), consumed);
    }
    (H3Ingest::NeedMore, consumed)
}

/// Fields as they are written, one behind the other.
pub open spec fn section_bytes(lines: Seq<FieldLine>) -> Seq<u8>
    decreases lines.len(),
{
    if lines.len() == 0 {
        Seq::empty()
    } else {
        field_bytes(lines[0].name, lines[0].value) + section_bytes(lines.skip(1))
    }
}

/// What fields come to, taken one after another.
pub open spec fn lines_walk(lines: Seq<FieldLine>, h: HeadModel) -> Result<HeadModel, H3Error>
    decreases lines.len(),
{
    if lines.len() == 0 {
        Ok(h)
    } else if lines[0].name.len() + lines[0].value.len() > H3_FIELD_SCRATCH {
        Err(H3Error::QpackFailed)
    } else {
        match head_step(h, lines[0]) {
            None => Err(H3Error::MessageError),
            Some(g) => lines_walk(lines.skip(1), g),
        }
    }
}

proof fn lemma_section_walk(lines: Seq<FieldLine>, h: HeadModel)
    requires
        forall|k: int|
            0 <= k < lines.len() ==> (#[trigger] lines[k]).name.len() <= i64::MAX
                && lines[k].value.len() <= i64::MAX,
    ensures
        head_walk(section_bytes(lines), h) == lines_walk(lines, h),
    decreases lines.len(),
{
    if lines.len() > 0 {
        let f = lines[0];
        let rest = lines.skip(1);
        let first = field_bytes(f.name, f.value);
        assert(forall|k: int| 0 <= k < rest.len() ==> rest[k] == lines[k + 1]);
        law_field_reads_back(f.name, f.value, section_bytes(rest));
        assert(FieldLine { name: f.name, value: f.value } == f);
        assert((first + section_bytes(rest)).skip(first.len() as int) =~= section_bytes(rest));
        if let Some(g) = head_step(h, f) {
            lemma_section_walk(rest, g);
        }
    }
}

/// A request is taken as it was sent: fields written into a section that refers to no
/// dynamic table come out as the request they ask for.
pub proof fn law_h3_request_reads_back(lines: Seq<FieldLine>)
    requires
        forall|k: int|
            0 <= k < lines.len() ==> (#[trigger] lines[k]).name.len() <= i64::MAX
                && lines[k].value.len() <= i64::MAX,
    ensures
        request_of(seq![0u8, 0u8] + section_bytes(lines)) == match lines_walk(
            lines,
            HeadModel::start(),
        ) {
            Err(e) => Err(e),
            Ok(h) => if head_whole(h) {
                Ok((h.req, h.fields))
            } else {
                Err(H3Error::MessageError)
            },
        },
{
    reveal(request_of);
    let block = seq![0u8, 0u8] + section_bytes(lines);
    lemma_section_walk(lines, HeadModel::start());
    assert(block.skip(2) =~= section_bytes(lines));
    assert(block[0] == 0 && block[1] == 0);
    assert(block.skip(1)[0] == 0);
    assert(prefix_int_at(block, 8) == Some((0u64, 1nat)));
    assert(prefix_int_at(block.skip(1), 7) == Some((0u64, 1nat)));
    assert(section_start(block) == Some(2nat));
}

} // verus!
