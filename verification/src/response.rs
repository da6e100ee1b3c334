//! Response heads: which head a response gets, and whether the connection survives
//! it.
//!
//! A head without a `Content-Length` is delimited by the end of the connection, so
//! the builders of such heads give up keep-alive. The others keep it.

use crate::bytes::{
    clip, decimal, decimal_bytes, eq_ascii_ci, extend, find_byte, index_from, is_digit, lemma_decimal, lemma_index_from, lemma_text, lit,
    number_of, put_bytes, same_ci, text, to_vec,
};
use crate::cache::SEND_BUF_SIZE;
use crate::conn::ConnSlot;
use crate::h1_wire::{
    connection_word, crlf_at, field_values, field_values_from, find_crlf, framing_of, head_len, lemma_head_goes_on,
    lemma_line_end, line_end, line_names, line_value, status_fields, status_fields_vec, trim_end, trim_start, trimmed,
    BodyFraming,
};
use vstd::prelude::*;
use vstd::slice::slice_subrange;

verus! {

/// `bytes` cut to what the send buffer holds.
fn fitted(bytes: &[u8]) -> (r: Vec<u8>)
    ensures
        r@ == clip(bytes@, SEND_BUF_SIZE as nat),
        r@.len() <= SEND_BUF_SIZE,
{
    let mut v: Vec<u8> = Vec::new();
    put_bytes(&mut v, SEND_BUF_SIZE, bytes);
    assert(Seq::<u8>::empty() + bytes@ =~= bytes@);
    v
}

/// The slot after `bytes` have been staged to send, and nothing else changed but the
/// keep-alive mark.
pub open spec fn staged_head(old_slot: ConnSlot, new_slot: ConnSlot, bytes: Seq<u8>, keepalive: bool) -> bool {
    &&& new_slot == (ConnSlot { tx: new_slot.tx, keepalive: keepalive, ..old_slot })
    &&& new_slot.tx.buf@ == clip(bytes, SEND_BUF_SIZE as nat)
    &&& new_slot.tx.sent == 0
    &&& new_slot.wf()
}

/// Stage `bytes`, setting the keep-alive mark.
fn stage_head(slot: &mut ConnSlot, bytes: &[u8], keepalive: bool)
    requires
        old(slot).wf(),
    ensures
        staged_head(*old(slot), *final(slot), bytes@, keepalive),
{
    slot.keepalive = keepalive;
    slot.tx.stage(fitted(bytes));
}

// ── Fixed-status heads ──────────────────────────────────────────────────

/// A head that the end of the connection delimits.
pub open spec fn closing_head(status: Seq<u8>, content_type: Seq<u8>) -> Seq<u8> {
    status_fields(status, content_type, false) + text("\r\n\r\n")
}

/// Stage a head that the end of the connection delimits.
pub fn build_header(slot: &mut ConnSlot, status: &[u8], content_type: &[u8])
    requires
        old(slot).wf(),
    ensures
        staged_head(*old(slot), *final(slot), closing_head(status@, content_type@), false),
{
    let mut v: Vec<u8> = status_fields_vec(status, content_type, false);
    extend(&mut v, lit("\r\n\r\n"));
    stage_head(slot, v.as_slice(), false);
}

/// A status line and the fields every response carries as they stand in the send
/// buffer, open for more fields.
pub open spec fn open_head(status: Seq<u8>, content_type: Seq<u8>, keepalive: bool) -> Seq<u8> {
    let h = clip(
        status_fields(status, content_type, keepalive) + text("\r\n\r\n"),
        SEND_BUF_SIZE as nat,
    );
    h.take(h.len() - 4)
}

/// A head that fits the send buffer loses nothing.
pub proof fn law_fitting_head_is_whole(status: Seq<u8>, content_type: Seq<u8>, keepalive: bool)
    requires
        status_fields(status, content_type, keepalive).len() + 4 <= SEND_BUF_SIZE,
    ensures
        open_head(status, content_type, keepalive) == status_fields(
            status,
            content_type,
            keepalive,
        ),
{
    reveal_strlit("\r\n\r\n");
    lemma_text("\r\n\r\n");
    assert(open_head(status, content_type, keepalive) =~= status_fields(
        status,
        content_type,
        keepalive,
    ));
}

fn open_head_vec(status: &[u8], content_type: &[u8], keepalive: bool) -> (r: Vec<u8>)
    ensures
        r@ == open_head(status@, content_type@, keepalive),
        r@.len() <= SEND_BUF_SIZE,
{
    let mut v: Vec<u8> = status_fields_vec(status, content_type, keepalive);
    extend(&mut v, lit("\r\n\r\n"));
    proof {
        reveal_strlit("\r\n\r\n");
        lemma_text("\r\n\r\n");
    }
    let h: Vec<u8> = fitted(v.as_slice());
    let cut = slice_subrange(h.as_slice(), 0, h.len() - 4);
    assert(cut@ =~= h@.take(h@.len() - 4));
    to_vec(cut)
}

/// A head that states the length of its body.
pub open spec fn sized_head(
    status: Seq<u8>,
    content_type: Seq<u8>,
    keepalive: bool,
    content_length: u32,
) -> Seq<u8> {
    open_head(status, content_type, keepalive) + text("\r\nContent-Length: ") + decimal(
        content_length as nat,
    ) + text("\r\n\r\n")
}

/// Stage a head that states the length of its body.
pub fn build_header_with_len(
    slot: &mut ConnSlot,
    status: &[u8],
    content_type: &[u8],
    content_length: u32,
)
    requires
        old(slot).wf(),
    ensures
        staged_head(
            *old(slot),
            *final(slot),
            sized_head(status@, content_type@, old(slot).keepalive, content_length),
            old(slot).keepalive,
        ),
{
    let keepalive = slot.keepalive;
    let mut v: Vec<u8> = open_head_vec(status, content_type, keepalive);
    extend(&mut v, lit("\r\nContent-Length: "));
    extend(&mut v, decimal_bytes(content_length as u64).as_slice());
    extend(&mut v, lit("\r\n\r\n"));
    stage_head(slot, v.as_slice(), keepalive);
}

/// The head of a whole file: its length, and that ranges of it can be asked for.
pub open spec fn file_head(
    status: Seq<u8>,
    content_type: Seq<u8>,
    keepalive: bool,
    content_length: u32,
) -> Seq<u8> {
    open_head(status, content_type, keepalive) + text(
        "\r\nAccept-Ranges: bytes\r\nContent-Length: ",
    ) + decimal(content_length as nat) + text("\r\n\r\n")
}

/// Stage the head of a whole file.
pub fn build_header_fs_full(
    slot: &mut ConnSlot,
    status: &[u8],
    content_type: &[u8],
    content_length: u32,
)
    requires
        old(slot).wf(),
    ensures
        staged_head(
            *old(slot),
            *final(slot),
            file_head(status@, content_type@, old(slot).keepalive, content_length),
            old(slot).keepalive,
        ),
{
    let keepalive = slot.keepalive;
    let mut v: Vec<u8> = open_head_vec(status, content_type, keepalive);
    extend(&mut v, lit("\r\nAccept-Ranges: bytes\r\nContent-Length: "));
    extend(&mut v, decimal_bytes(content_length as u64).as_slice());
    extend(&mut v, lit("\r\n\r\n"));
    stage_head(slot, v.as_slice(), keepalive);
}

/// The head of the bytes `start` to `end` of a file of `total` bytes.
pub open spec fn partial_head(
    content_type: Seq<u8>,
    keepalive: bool,
    start: u32,
    end: u32,
    total: u32,
) -> Seq<u8> {
    open_head(text("206 Partial Content"), content_type, keepalive) + text(
        "\r\nAccept-Ranges: bytes\r\nContent-Range: bytes ",
    ) + decimal(start as nat) + text("-") + decimal(end as nat) + text("/") + decimal(total as nat)
        + text("\r\nContent-Length: ") + decimal((end - start + 1) as nat) + text("\r\n\r\n")
}

/// Stage the head of part of a file.
pub fn build_header_fs_partial(
    slot: &mut ConnSlot,
    content_type: &[u8],
    start: u32,
    end: u32,
    total: u32,
)
    requires
        old(slot).wf(),
        start <= end,
        end - start < u32::MAX,
    ensures
        staged_head(
            *old(slot),
            *final(slot),
            partial_head(content_type@, old(slot).keepalive, start, end, total),
            old(slot).keepalive,
        ),
{
    let keepalive = slot.keepalive;
    let mut v: Vec<u8> = open_head_vec(lit("206 Partial Content"), content_type, keepalive);
    extend(&mut v, lit("\r\nAccept-Ranges: bytes\r\nContent-Range: bytes "));
    extend(&mut v, decimal_bytes(start as u64).as_slice());
    extend(&mut v, lit("-"));
    extend(&mut v, decimal_bytes(end as u64).as_slice());
    extend(&mut v, lit("/"));
    extend(&mut v, decimal_bytes(total as u64).as_slice());
    extend(&mut v, lit("\r\nContent-Length: "));
    extend(&mut v, decimal_bytes((end - start + 1) as u64).as_slice());
    extend(&mut v, lit("\r\n\r\n"));
    stage_head(slot, v.as_slice(), keepalive);
}

/// A whole error response.
pub open spec fn error_response(code: Seq<u8>, body: Seq<u8>) -> Seq<u8> {
    status_fields(code, text("text/plain"), false) + text("\r\n\r\n") + body
}

/// Stage an error response. The end of the connection delimits it.
pub fn build_error(slot: &mut ConnSlot, code: &[u8], body: &[u8])
    requires
        old(slot).wf(),
    ensures
        staged_head(*old(slot), *final(slot), error_response(code@, body@), false),
{
    let mut v: Vec<u8> = status_fields_vec(code, lit("text/plain"), false);
    extend(&mut v, lit("\r\n\r\n"));
    extend(&mut v, body);
    stage_head(slot, v.as_slice(), false);
}

/// The answer to a range outside the resource: it says how long the resource is.
pub open spec fn range_error_response(total: u32) -> Seq<u8> {
    text(
        "HTTP/1.1 416 Range Not Satisfiable\r\nConnection: close\r\nContent-Range: bytes */",
    ) + decimal(total as nat) + text("\r\nContent-Length: 22\r\n\r\nRange Not Satisfiable\n")
}

/// Stage the answer to a range outside the resource.
pub fn build_error_416(slot: &mut ConnSlot, total: u32)
    requires
        old(slot).wf(),
    ensures
        staged_head(*old(slot), *final(slot), range_error_response(total), false),
{
    let mut v: Vec<u8> = to_vec(
        lit("HTTP/1.1 416 Range Not Satisfiable\r\nConnection: close\r\nContent-Range: bytes */"),
    );
    extend(&mut v, decimal_bytes(total as u64).as_slice());
    extend(&mut v, lit("\r\nContent-Length: 22\r\n\r\nRange Not Satisfiable\n"));
    stage_head(slot, v.as_slice(), false);
}

// ── Application heads ───────────────────────────────────────────────────

/// A status as three digits; one beyond 999 is written as 999.
pub open spec fn status_digits(status: u16) -> Seq<u8> {
    let s = if status > 999 {
        999u16
    } else {
        status
    };
    seq![(0x30 + s / 100) as u8, (0x30 + s / 10 % 10) as u8, (0x30 + s % 10) as u8]
}

pub fn status_digits_vec(status: u16) -> (r: Vec<u8>)
    ensures
        r@ == status_digits(status),
{
    let s: u16 = if status > 999 {
        999
    } else {
        status
    };
    let mut v: Vec<u8> = Vec::new();
    v.push(0x30 + (s / 100) as u8);
    v.push(0x30 + (s / 10 % 10) as u8);
    v.push(0x30 + (s % 10) as u8);
    assert(v@ =~= status_digits(status));
    v
}

/// Whether a field name is one that the server itself decides.
pub open spec fn owned_name(name: Seq<u8>) -> bool {
    same_ci(name, text("content-length")) || same_ci(name, text("connection")) || same_ci(
        name,
        text("transfer-encoding"),
    ) || same_ci(name, text("content-type"))
}

/// Whether an application's header line is dropped: it names a field that the server
/// decides, or is no field line at all.
pub open spec fn framing_line(line: Seq<u8>) -> bool {
    let c = index_from(line, 0x3a, 0);
    c >= line.len() || owned_name(line.take(c))
}

pub fn is_framing_header(line: &[u8]) -> (r: bool)
    ensures
        r == framing_line(line@),
{
    match find_byte(line, 0x3a) {
        None => true,
        Some(c) => {
            let name = slice_subrange(line, 0, c);
            assert(name@ =~= line@.take(c as int));
            eq_ascii_ci(name, lit("content-length")) || eq_ascii_ci(name, lit("connection"))
                || eq_ascii_ci(name, lit("transfer-encoding")) || eq_ascii_ci(
                name,
                lit("content-type"),
            )
        },
    }
}

/// What is sent of one application header line.
pub open spec fn kept_line(line: Seq<u8>) -> Seq<u8> {
    if line.len() == 0 || framing_line(line) {
        Seq::empty()
    } else {
        line + text("\r\n")
    }
}

/// What is sent of an application's header block from `from` on.
pub open spec fn app_fields(extra: Seq<u8>, from: int) -> Seq<u8>
    decreases extra.len() - from,
{
    if from < 0 || from >= extra.len() {
        Seq::empty()
    } else {
        let e = line_end(extra, from);
        let line = kept_line(extra.subrange(from, e));
        if from <= e && e + 2 <= extra.len() {
            line + app_fields(extra, e + 2)
        } else {
            line
        }
    }
}

/// Append an application's header block, without the lines the server decides.
fn put_app_headers(out: &mut Vec<u8>, extra: &[u8])
    ensures
        final(out)@ == old(out)@ + app_fields(extra@, 0),
{
    let ghost base = out@;
    let n: usize = extra.len();
    let mut from: usize = 0;
    assert(base + app_fields(extra@, 0) =~= out@ + app_fields(extra@, 0));
    while from < n
        invariant
            from <= n,
            n == extra@.len(),
            out@ + app_fields(extra@, from as int) == base + app_fields(extra@, 0),
        decreases n - from,
    {
        let e: usize = find_crlf(extra, from);
        let line = slice_subrange(extra, from, e);
        let ghost before = out@;
        if line.len() > 0 && !is_framing_header(line) {
            extend(out, line);
            extend(out, lit("\r\n"));
        }
        assert(out@ =~= before + kept_line(line@));
        if e < n {
            from = e + 2;
            assert(before + (kept_line(line@) + app_fields(extra@, from as int)) =~= out@
                + app_fields(extra@, from as int));
        } else {
            from = n;
            assert(out@ + Seq::<u8>::empty() =~= out@);
        }
    }
    assert(out@ + Seq::<u8>::empty() =~= out@);
}

/// The head of an application's response. Without a length, the end of the connection
/// delimits the body.
pub open spec fn app_head(
    status: u16,
    content_type: Seq<u8>,
    length: Option<u32>,
    keepalive: bool,
    extra: Seq<u8>,
) -> Seq<u8> {
    status_fields(status_digits(status), content_type, keepalive) + (match length {
        Some(n) => text("\r\nContent-Length: ") + decimal(n as nat),
        None => Seq::empty(),
    }) + text("\r\n") + app_fields(extra, 0) + text("\r\n")
}

fn app_head_vec(
    status: u16,
    content_type: &[u8],
    length: Option<u32>,
    keepalive: bool,
    extra: &[u8],
) -> (r: Vec<u8>)
    ensures
        r@ == app_head(status, content_type@, length, keepalive, extra@),
{
    let digits: Vec<u8> = status_digits_vec(status);
    let mut v: Vec<u8> = status_fields_vec(digits.as_slice(), content_type, keepalive);
    let ghost fields = v@;
    match length {
        Some(n) => {
            extend(&mut v, lit("\r\nContent-Length: "));
            extend(&mut v, decimal_bytes(n as u64).as_slice());
            assert(v@ =~= fields + (text("\r\nContent-Length: ") + decimal(n as nat)));
        },
        None => {
            assert(v@ =~= fields + Seq::<u8>::empty());
        },
    }
    extend(&mut v, lit("\r\n"));
    put_app_headers(&mut v, extra);
    extend(&mut v, lit("\r\n"));
    v
}

/// Stage the head of an application's response that states its length.
pub fn build_app_header(
    slot: &mut ConnSlot,
    status: u16,
    content_type: &[u8],
    content_length: u32,
    extra: &[u8],
)
    requires
        old(slot).wf(),
    ensures
        staged_head(
            *old(slot),
            *final(slot),
            app_head(status, content_type@, Some(content_length), old(slot).keepalive, extra@),
            old(slot).keepalive,
        ),
{
    let keepalive = slot.keepalive;
    let v: Vec<u8> = app_head_vec(status, content_type, Some(content_length), keepalive, extra);
    stage_head(slot, v.as_slice(), keepalive);
}

/// Stage the head of an application's response that the end of the connection
/// delimits. The keep-alive mark is the caller's to clear.
pub fn build_app_header_open_ended(
    slot: &mut ConnSlot,
    status: u16,
    content_type: &[u8],
    extra: &[u8],
)
    requires
        old(slot).wf(),
    ensures
        staged_head(
            *old(slot),
            *final(slot),
            app_head(status, content_type@, None, false, extra@),
            old(slot).keepalive,
        ),
{
    let keepalive = slot.keepalive;
    let v: Vec<u8> = app_head_vec(status, content_type, None, false, extra);
    stage_head(slot, v.as_slice(), keepalive);
}

// ── What a reader sees of an application head ───────────────────────────

/// Whether a byte string holds no line end.
pub open spec fn one_line(s: Seq<u8>) -> bool {
    forall|k: int| !#[trigger] crlf_at(s, k)
}

/// What one line of a head contributes to the values of a field.
pub open spec fn line_values(line: Seq<u8>, name: Seq<u8>) -> Seq<Seq<u8>> {
    if line_names(line, name) {
        seq![line_value(line)]
    } else {
        Seq::empty()
    }
}

/// A line that starts where another line's end left off is found whole.
pub proof fn lemma_line_in(pre: Seq<u8>, line: Seq<u8>, rest: Seq<u8>)
    requires
        one_line(line),
    ensures
        line_end(pre + line + text("\r\n") + rest, pre.len() as int) == pre.len() + line.len(),
        (pre + line + text("\r\n") + rest).subrange(
            pre.len() as int,
            (pre.len() + line.len()) as int,
        ) == line,
        text("\r\n") == seq![0x0du8, 0x0au8],
{
    reveal_strlit("\r\n");
    lemma_text("\r\n");
    assert(text("\r\n") =~= seq![0x0du8, 0x0au8]);
    let s = pre + line + text("\r\n") + rest;
    let p = pre.len() as int;
    let e = (pre.len() + line.len()) as int;
    assert(s.subrange(p, e) =~= line);
    lemma_line_end(s, p);
    assert(crlf_at(s, e));
    let f = line_end(s, p);
    if f < e {
        assert(crlf_at(s, f));
        assert(s[f] == line[f - p]);
        if f + 1 < e {
            assert(s[f + 1] == line[f + 1 - p]);
            assert(crlf_at(line, f - p));
        } else {
            assert(s[f + 1] == 0x0d);
        }
    } else if f > e {
        assert(!crlf_at(s, e));
    }
}

/// A whole field line at the front of what is left of a head contributes its value.
pub proof fn lemma_field_line(pre: Seq<u8>, line: Seq<u8>, rest: Seq<u8>, name: Seq<u8>)
    requires
        one_line(line),
        line.len() > 0,
    ensures
        field_values_from(pre + line + text("\r\n") + rest, pre.len() as int, name) == line_values(
            line,
            name,
        ) + field_values_from(
            pre + line + text("\r\n") + rest,
            (pre.len() + line.len() + 2) as int,
            name,
        ),
{
    lemma_line_in(pre, line, rest);
    let s = pre + line + text("\r\n") + rest;
    let more = field_values_from(s, (pre.len() + line.len() + 2) as int, name);
    assert(Seq::<Seq<u8>>::empty() + more =~= more);
}

/// The lines kept of an application's header block contribute nothing to a field that
/// the server decides.
proof fn lemma_app_fields_silent(pre: Seq<u8>, extra: Seq<u8>, from: int, name: Seq<u8>)
    requires
        0 <= from,
        owned_name(name),
    ensures
        field_values_from(pre + app_fields(extra, from) + text("\r\n"), pre.len() as int, name)
            == Seq::<Seq<u8>>::empty(),
    decreases extra.len() - from,
{
    let tail = app_fields(extra, from);
    if from >= extra.len() {
        lemma_line_in(pre, Seq::empty(), Seq::empty());
        assert(pre + tail + text("\r\n") =~= pre + Seq::<u8>::empty() + text("\r\n")
            + Seq::<u8>::empty());
    } else {
        lemma_line_end(extra, from);
        let e = line_end(extra, from);
        let line = extra.subrange(from, e);
        let next = if e + 2 <= extra.len() {
            e + 2
        } else {
            extra.len() as int
        };
        let more = app_fields(extra, next);
        assert(tail =~= kept_line(line) + more);
        assert forall|k: int| !#[trigger] crlf_at(line, k) by {
            if crlf_at(line, k) {
                assert(crlf_at(extra, from + k));
            }
        }
        if kept_line(line).len() == 0 {
            assert(tail =~= more);
            lemma_app_fields_silent(pre, extra, next, name);
        } else {
            let pre2 = pre + line + text("\r\n");
            lemma_field_line(pre, line, more + text("\r\n"), name);
            assert(pre + tail + text("\r\n") =~= pre + line + text("\r\n") + (more + text(
                "\r\n",
            )));
            assert(pre2 + more + text("\r\n") =~= pre + line + text("\r\n") + (more + text(
                "\r\n",
            )));
            lemma_line_in(pre, line, more + text("\r\n"));
            lemma_app_fields_silent(pre2, extra, next, name);
            let c = index_from(line, 0x3a, 0);
            lemma_index_from(line, 0x3a, 0);
            if line_names(line, name) {
                lemma_same_name(line.take(c), name);
            }
            assert(line_values(line, name) =~= Seq::empty());
        }
    }
}

/// A name that differs only in case from one the server decides is one too.
proof fn lemma_same_name(a: Seq<u8>, b: Seq<u8>)
    requires
        same_ci(a, b),
        owned_name(b),
    ensures
        owned_name(a),
{
}

/// The fixed field lines of an application head contribute what they say.
proof fn lemma_owned_lines(word: Seq<u8>, content_type: Seq<u8>, n: nat)
    ensures
        line_values(text("Connection: ") + word, text("content-length")) == Seq::<
            Seq<u8>,
        >::empty(),
        line_values(text("Content-Type: ") + content_type, text("content-length")) == Seq::<
            Seq<u8>,
        >::empty(),
        line_names(text("Content-Length: ") + decimal(n), text("content-length")),
        line_value(text("Content-Length: ") + decimal(n)) == trimmed(
            text(" ") + decimal(n),
        ),
{
    reveal_strlit("Connection: ");
    reveal_strlit("Content-Type: ");
    reveal_strlit("Content-Length: ");
    reveal_strlit("content-length");
    reveal_strlit(" ");
    lemma_text("Connection: ");
    lemma_text("Content-Type: ");
    lemma_text("Content-Length: ");
    lemma_text("content-length");
    lemma_text(" ");
    let a = text("Connection: ") + word;
    let b = text("Content-Type: ") + content_type;
    let c = text("Content-Length: ") + decimal(n);
    lemma_colon(a, 10);
    lemma_colon(b, 12);
    lemma_colon(c, 14);
    assert(c.skip(15) =~= text(" ") + decimal(n));
    assert(c.take(14).len() == 14);
}

/// The first colon is where no earlier one stands.
proof fn lemma_colon(s: Seq<u8>, at: int)
    requires
        0 <= at < s.len(),
        s[at] == 0x3a,
        forall|k: int| 0 <= k < at ==> s[k] != 0x3a,
    ensures
        index_from(s, 0x3a, 0) == at,
{
    lemma_index_from(s, 0x3a, 0);
}

/// A byte string without a carriage return is one line.
pub proof fn lemma_plain_line(a: Seq<u8>, b: Seq<u8>)
    requires
        forall|k: int| 0 <= k < a.len() ==> a[k] != 0x0d,
        one_line(b),
    ensures
        one_line(a + b),
{
    assert forall|k: int| !#[trigger] crlf_at(a + b, k) by {
        if crlf_at(a + b, k) && k >= a.len() {
            assert(crlf_at(b, k - a.len()));
        }
    }
}

/// Decimal text is one line, is not blank at either end, and reads back.
proof fn lemma_decimal_field(n: nat)
    requires
        n <= u32::MAX,
    ensures
        one_line(decimal(n)),
        trimmed(text(" ") + decimal(n)) == decimal(n),
        number_of(decimal(n)) == Some(n as u64),
{
    lemma_decimal(n);
    lemma_decimal_len(n, 10);
    let d = decimal(n);
    reveal_strlit(" ");
    lemma_text(" ");
    assert(text(" ") =~= seq![0x20u8]);
    let t = text(" ") + d;
    assert(t.skip(1) =~= d);
    assert(is_digit(d[0]) && is_digit(d[d.len() - 1]));
    assert(trim_start(d) == d);
    assert(trim_start(t) == d);
    assert(trim_end(d) == d);
    assert forall|k: int| !#[trigger] crlf_at(d, k) by {
        if crlf_at(d, k) {
            assert(is_digit(d[k]));
        }
    }
}

/// A number below a power of ten has no more digits than its exponent.
pub proof fn lemma_decimal_len(n: nat, k: nat)
    requires
        1 <= k <= 10,
        k == 10 ==> n <= u32::MAX,
        k < 10 ==> n < pow10(k),
    ensures
        decimal(n).len() <= k,
    decreases k,
{
    reveal_with_fuel(pow10, 11);
    if n >= 10 {
        lemma_decimal_len(n / 10, (k - 1) as nat);
    }
}

pub open spec fn pow10(k: nat) -> nat
    decreases k,
{
    if k == 0 {
        1
    } else {
        10 * pow10((k - 1) as nat)
    }
}

/// The literals of an application head, cut at their line ends.
proof fn lemma_head_literals()
    ensures
        text("\r\n") == seq![0x0du8, 0x0au8],
        text("\r\nConnection: ") == text("\r\n") + text("Connection: "),
        text("\r\nContent-Type: ") == text("\r\n") + text("Content-Type: "),
        text("\r\nContent-Length: ") == text("\r\n") + text("Content-Length: "),
        forall|k: int| 0 <= k < text("HTTP/1.1 ").len() ==> text("HTTP/1.1 ")[k] != 0x0d,
        forall|k: int| 0 <= k < text("Connection: ").len() ==> text("Connection: ")[k] != 0x0d,
        forall|k: int| 0 <= k < text("Content-Type: ").len() ==> text("Content-Type: ")[k] != 0x0d,
        forall|k: int|
            0 <= k < text("Content-Length: ").len() ==> text("Content-Length: ")[k] != 0x0d,
        one_line(text("keep-alive")),
        one_line(text("close")),
        text("HTTP/1.1 ").len() == 9,
        text("Connection: ").len() == 12,
        text("Content-Type: ").len() == 14,
        text("Content-Length: ").len() == 16,
{
    reveal_strlit("\r\n");
    reveal_strlit("\r\nConnection: ");
    reveal_strlit("\r\nContent-Type: ");
    reveal_strlit("\r\nContent-Length: ");
    reveal_strlit("Connection: ");
    reveal_strlit("Content-Type: ");
    reveal_strlit("Content-Length: ");
    reveal_strlit("HTTP/1.1 ");
    reveal_strlit("keep-alive");
    reveal_strlit("close");
    lemma_text("\r\n");
    lemma_text("\r\nConnection: ");
    lemma_text("\r\nContent-Type: ");
    lemma_text("\r\nContent-Length: ");
    lemma_text("Connection: ");
    lemma_text("Content-Type: ");
    lemma_text("Content-Length: ");
    lemma_text("HTTP/1.1 ");
    lemma_text("keep-alive");
    lemma_text("close");
    assert(text("\r\n") =~= seq![0x0du8, 0x0au8]);
    assert(text("\r\nConnection: ") =~= text("\r\n") + text("Connection: "));
    assert(text("\r\nContent-Type: ") =~= text("\r\n") + text("Content-Type: "));
    assert(text("\r\nContent-Length: ") =~= text("\r\n") + text("Content-Length: "));
}

/// The fixed lines of an application head contribute nothing to `Transfer-Encoding`.
proof fn lemma_no_encoding_lines(word: Seq<u8>, content_type: Seq<u8>, n: nat)
    ensures
        line_values(text("Connection: ") + word, text("transfer-encoding")) == Seq::<
            Seq<u8>,
        >::empty(),
        line_values(text("Content-Type: ") + content_type, text("transfer-encoding")) == Seq::<
            Seq<u8>,
        >::empty(),
        line_values(text("Content-Length: ") + decimal(n), text("transfer-encoding")) == Seq::<
            Seq<u8>,
        >::empty(),
{
    reveal_strlit("Connection: ");
    reveal_strlit("Content-Type: ");
    reveal_strlit("Content-Length: ");
    reveal_strlit("transfer-encoding");
    lemma_text("Connection: ");
    lemma_text("Content-Type: ");
    lemma_text("Content-Length: ");
    lemma_text("transfer-encoding");
    lemma_colon(text("Connection: ") + word, 10);
    lemma_colon(text("Content-Type: ") + content_type, 12);
    lemma_colon(text("Content-Length: ") + decimal(n), 14);
}

/// A head of a start line and two or three field lines, cut before each of them.
proof fn lemma_cut(l0: Seq<u8>, l1: Seq<u8>, l2: Seq<u8>, l3: Seq<u8>, eol: Seq<u8>, rest: Seq<u8>)
    ensures
        ({
            let three = l0 + eol + l1 + eol + l2 + eol + l3 + eol + rest;
            let two = l0 + eol + l1 + eol + l2 + eol + rest;
            let none = Seq::<u8>::empty();
            &&& three == none + l0 + eol + (l1 + eol + l2 + eol + l3 + eol + rest)
            &&& three == l0 + eol + l1 + eol + (l2 + eol + l3 + eol + rest)
            &&& three == l0 + eol + l1 + eol + l2 + eol + (l3 + eol + rest)
            &&& two == none + l0 + eol + (l1 + eol + l2 + eol + rest)
            &&& two == l0 + eol + l1 + eol + (l2 + eol + rest)
        }),
{
    let three = l0 + eol + l1 + eol + l2 + eol + l3 + eol + rest;
    let two = l0 + eol + l1 + eol + l2 + eol + rest;
    let none = Seq::<u8>::empty();
    assert(three =~= none + l0 + eol + (l1 + eol + l2 + eol + l3 + eol + rest));
    assert(three =~= l0 + eol + l1 + eol + (l2 + eol + l3 + eol + rest));
    assert(three =~= l0 + eol + l1 + eol + l2 + eol + (l3 + eol + rest));
    assert(two =~= none + l0 + eol + (l1 + eol + l2 + eol + rest));
    assert(two =~= l0 + eol + l1 + eol + (l2 + eol + rest));
}

/// An application head is its lines, each with its line end.
proof fn lemma_app_head_lines(
    status: u16,
    content_type: Seq<u8>,
    length: Option<u32>,
    keepalive: bool,
    extra: Seq<u8>,
)
    ensures
        ({
            let eol = text("\r\n");
            let front = text("HTTP/1.1 ") + status_digits(status) + eol + (text("Connection: ")
                + connection_word(keepalive)) + eol + (text("Content-Type: ") + content_type) + eol;
            app_head(status, content_type, length, keepalive, extra) == (match length {
                Some(n) => front + (text("Content-Length: ") + decimal(n as nat)) + eol + (
                app_fields(extra, 0) + eol),
                None => front + (app_fields(extra, 0) + eol),
            })
        }),
{
    lemma_head_literals();
    let eol = text("\r\n");
    let front = text("HTTP/1.1 ") + status_digits(status) + eol + (text("Connection: ")
        + connection_word(keepalive)) + eol + (text("Content-Type: ") + content_type);
    let sf = status_fields(status_digits(status), content_type, keepalive);
    assert(sf =~= front);
    let head = app_head(status, content_type, length, keepalive, extra);
    match length {
        Some(n) => {
            assert(head =~= front + eol + (text("Content-Length: ") + decimal(n as nat)) + eol + (
            app_fields(extra, 0) + eol));
        },
        None => {
            assert(head =~= front + eol + (app_fields(extra, 0) + eol));
        },
    }
}

/// What a field that the server decides is given by lines like those of an
/// application head.
proof fn lemma_lines_values(
    l0: Seq<u8>,
    l1: Seq<u8>,
    l2: Seq<u8>,
    l3: Option<Seq<u8>>,
    extra: Seq<u8>,
    name: Seq<u8>,
)
    requires
        one_line(l0),
        one_line(l1),
        one_line(l2),
        l1.len() > 0,
        l2.len() > 0,
        l3 matches Some(l) ==> one_line(l) && l.len() > 0,
        owned_name(name),
    ensures
        ({
            let eol = text("\r\n");
            let front = l0 + eol + l1 + eol + l2 + eol;
            let rest = app_fields(extra, 0) + eol;
            let both = line_values(l1, name) + line_values(l2, name);
            match l3 {
                Some(l) => field_values(front + l + eol + rest, name) == both + line_values(
                    l,
                    name,
                ),
                None => field_values(front + rest, name) == both,
            }
        }),
{
    let eol = text("\r\n");
    let rest = app_fields(extra, 0) + eol;
    let front = l0 + eol + l1 + eol + l2 + eol;
    let none = Seq::<u8>::empty();
    assert(eol.len() == 2) by {
        lemma_head_literals();
    }
    match l3 {
        Some(l) => {
            lemma_cut(l0, l1, l2, l, eol, rest);
            lemma_line_in(none, l0, l1 + eol + l2 + eol + l + eol + rest);
            lemma_field_line(l0 + eol, l1, l2 + eol + l + eol + rest, name);
            lemma_field_line(l0 + eol + l1 + eol, l2, l + eol + rest, name);
            lemma_field_line(front, l, rest, name);
            let p4 = front + l + eol;
            assert(p4 + app_fields(extra, 0) + eol =~= p4 + rest);
            lemma_app_fields_silent(p4, extra, 0, name);
            assert(field_values(front + l + eol + rest, name) =~= line_values(l1, name)
                + line_values(l2, name) + line_values(l, name));
        },
        None => {
            lemma_cut(l0, l1, l2, none, eol, rest);
            lemma_line_in(none, l0, l1 + eol + l2 + eol + rest);
            lemma_field_line(l0 + eol, l1, l2 + eol + rest, name);
            lemma_field_line(l0 + eol + l1 + eol, l2, rest, name);
            assert(front + app_fields(extra, 0) + eol =~= front + rest);
            lemma_app_fields_silent(front, extra, 0, name);
            assert(field_values(front + rest, name) =~= line_values(l1, name) + line_values(
                l2,
                name,
            ));
        },
    }
}

/// What a field that the server decides is given by an application head: what its
/// fixed lines say of it.
proof fn lemma_app_head_values(
    status: u16,
    content_type: Seq<u8>,
    length: Option<u32>,
    keepalive: bool,
    extra: Seq<u8>,
    name: Seq<u8>,
)
    requires
        one_line(content_type),
        owned_name(name),
    ensures
        field_values(app_head(status, content_type, length, keepalive, extra), name) == line_values(
            text("Connection: ") + connection_word(keepalive),
            name,
        ) + line_values(text("Content-Type: ") + content_type, name) + (match length {
            Some(n) => line_values(text("Content-Length: ") + decimal(n as nat), name),
            None => Seq::empty(),
        }),
{
    lemma_head_literals();
    let word = connection_word(keepalive);
    let l0 = text("HTTP/1.1 ") + status_digits(status);
    let l1 = text("Connection: ") + word;
    let l2 = text("Content-Type: ") + content_type;
    assert(one_line(status_digits(status)));
    lemma_plain_line(text("HTTP/1.1 "), status_digits(status));
    lemma_plain_line(text("Connection: "), word);
    lemma_plain_line(text("Content-Type: "), content_type);
    lemma_app_head_lines(status, content_type, length, keepalive, extra);
    match length {
        Some(n) => {
            lemma_decimal_field(n as nat);
            lemma_plain_line(text("Content-Length: "), decimal(n as nat));
            let l3 = text("Content-Length: ") + decimal(n as nat);
            lemma_lines_values(l0, l1, l2, Some(l3), extra, name);
        },
        None => {
            lemma_lines_values(l0, l1, l2, None, extra, name);
            let both = line_values(l1, name) + line_values(l2, name);
            assert(both + Seq::<Seq<u8>>::empty() =~= both);
        },
    }
}

/// An application cannot contradict the framing of its own response: whatever header
/// block it hands over, a reader of the head finds the length that the server states
/// and no other, or none where the end of the connection delimits the body.
pub proof fn law_app_head_states_one_length(
    status: u16,
    content_type: Seq<u8>,
    length: Option<u32>,
    keepalive: bool,
    extra: Seq<u8>,
)
    requires
        one_line(content_type),
    ensures
        ({
            let head = app_head(status, content_type, length, keepalive, extra);
            framing_of(
                field_values(head, text("transfer-encoding")),
                field_values(head, text("content-length")),
            ) == (match length {
                Some(n) => BodyFraming::Length(n as u64),
                None => BodyFraming::Unframed,
            })
        }),
{
    let word = connection_word(keepalive);
    let n: nat = match length {
        Some(n) => n as nat,
        None => 0,
    };
    assert(same_ci(text("content-length"), text("content-length")));
    assert(same_ci(text("transfer-encoding"), text("transfer-encoding")));
    lemma_owned_lines(word, content_type, n);
    lemma_no_encoding_lines(word, content_type, n);
    lemma_decimal_field(n);
    lemma_app_head_values(status, content_type, length, keepalive, extra, text("content-length"));
    lemma_app_head_values(status, content_type, length, keepalive, extra, text("transfer-encoding"));
    let head = app_head(status, content_type, length, keepalive, extra);
    assert(field_values(head, text("transfer-encoding")) =~= Seq::empty());
    if length is Some {
        assert(field_values(head, text("content-length")) =~= seq![decimal(n)]);
    } else {
        assert(field_values(head, text("content-length")) =~= Seq::empty());
    }
}

/// The head of a response with or without a stated length.
pub open spec fn plain_head(
    status: Seq<u8>,
    content_type: Seq<u8>,
    keepalive: bool,
    length: Option<u32>,
) -> Seq<u8> {
    match length {
        Some(n) => sized_head(status, content_type, keepalive, n),
        None => closing_head(status, content_type),
    }
}

/// Such a head is its lines, each with its line end.
proof fn lemma_plain_head_lines(
    status: Seq<u8>,
    content_type: Seq<u8>,
    keepalive: bool,
    length: Option<u32>,
)
    requires
        status_fields(status, content_type, keepalive).len() + 4 <= SEND_BUF_SIZE,
    ensures
        ({
            let eol = text("\r\n");
            let word = connection_word(keepalive && length is Some);
            let front = text("HTTP/1.1 ") + status + eol + (text("Connection: ") + word) + eol + (
            text("Content-Type: ") + content_type) + eol;
            let rest = app_fields(Seq::empty(), 0) + eol;
            plain_head(status, content_type, keepalive, length) == (match length {
                Some(n) => front + (text("Content-Length: ") + decimal(n as nat)) + eol + rest,
                None => front + rest,
            })
        }),
{
    lemma_head_literals();
    reveal_strlit("\r\n\r\n");
    lemma_text("\r\n\r\n");
    let eol = text("\r\n");
    assert(text("\r\n\r\n") =~= eol + eol);
    let ka = keepalive && length is Some;
    let front = text("HTTP/1.1 ") + status + eol + (text("Connection: ") + connection_word(ka))
        + eol + (text("Content-Type: ") + content_type);
    assert(status_fields(status, content_type, ka) =~= front);
    assert(app_fields(Seq::empty(), 0) =~= Seq::<u8>::empty());
    let head = plain_head(status, content_type, keepalive, length);
    match length {
        Some(n) => {
            law_fitting_head_is_whole(status, content_type, keepalive);
            assert(head =~= front + eol + (text("Content-Length: ") + decimal(n as nat)) + eol + (
            Seq::<u8>::empty() + eol));
        },
        None => {
            assert(head =~= front + eol + (Seq::<u8>::empty() + eol));
        },
    }
}

/// A response frames its own body: a reader of its head finds the length that was stated,
/// or none where the end of the connection delimits the body.
pub proof fn law_head_frames_its_body(
    status: Seq<u8>,
    content_type: Seq<u8>,
    keepalive: bool,
    length: Option<u32>,
)
    requires
        one_line(status),
        one_line(content_type),
        status_fields(status, content_type, keepalive).len() + 4 <= SEND_BUF_SIZE,
    ensures
        ({
            let head = plain_head(status, content_type, keepalive, length);
            framing_of(
                field_values(head, text("transfer-encoding")),
                field_values(head, text("content-length")),
            ) == (match length {
                Some(n) => BodyFraming::Length(n as u64),
                None => BodyFraming::Unframed,
            })
        }),
{
    let word = connection_word(keepalive && length is Some);
    let n: nat = match length {
        Some(n) => n as nat,
        None => 0,
    };
    assert(same_ci(text("content-length"), text("content-length")));
    assert(same_ci(text("transfer-encoding"), text("transfer-encoding")));
    lemma_owned_lines(word, content_type, n);
    lemma_no_encoding_lines(word, content_type, n);
    lemma_decimal_field(n);
    lemma_plain_head_lines(status, content_type, keepalive, length);
    assert(one_line(word)) by {
        lemma_head_literals();
    }
    lemma_plain_head_values(status, content_type, word, length, text("content-length"));
    lemma_plain_head_values(status, content_type, word, length, text("transfer-encoding"));
    let head = plain_head(status, content_type, keepalive, length);
    assert(field_values(head, text("transfer-encoding")) =~= Seq::empty());
    if length is Some {
        assert(field_values(head, text("content-length")) =~= seq![decimal(n)]);
    } else {
        assert(field_values(head, text("content-length")) =~= Seq::empty());
    }
}

/// What a field that the server decides is given by the lines of such a head.
proof fn lemma_plain_head_values(
    status: Seq<u8>,
    content_type: Seq<u8>,
    word: Seq<u8>,
    length: Option<u32>,
    name: Seq<u8>,
)
    requires
        one_line(status),
        one_line(content_type),
        one_line(word),
        owned_name(name),
    ensures
        ({
            let eol = text("\r\n");
            let l1 = text("Connection: ") + word;
            let l2 = text("Content-Type: ") + content_type;
            let front = text("HTTP/1.1 ") + status + eol + l1 + eol + l2 + eol;
            let rest = app_fields(Seq::empty(), 0) + eol;
            let both = line_values(l1, name) + line_values(l2, name);
            match length {
                Some(n) => {
                    let l3 = text("Content-Length: ") + decimal(n as nat);
                    field_values(front + l3 + eol + rest, name) == both + line_values(l3, name)
                },
                None => field_values(front + rest, name) == both,
            }
        }),
{
    lemma_head_literals();
    let l0 = text("HTTP/1.1 ") + status;
    let l1 = text("Connection: ") + word;
    let l2 = text("Content-Type: ") + content_type;
    lemma_plain_line(text("HTTP/1.1 "), status);
    lemma_plain_line(text("Connection: "), word);
    lemma_plain_line(text("Content-Type: "), content_type);
    match length {
        Some(n) => {
            lemma_decimal_field(n as nat);
            lemma_plain_line(text("Content-Length: "), decimal(n as nat));
            let l3 = text("Content-Length: ") + decimal(n as nat);
            lemma_lines_values(l0, l1, l2, Some(l3), Seq::empty(), name);
        },
        None => {
            lemma_lines_values(l0, l1, l2, None, Seq::empty(), name);
        },
    }
}

/// Lines that are not empty, and an empty one behind them: that is where a head ends.
proof fn lemma_lines_end(l0: Seq<u8>, l1: Seq<u8>, l2: Seq<u8>, l3: Option<Seq<u8>>, body: Seq<u8>)
    requires
        one_line(l0),
        one_line(l1),
        one_line(l2),
        l1.len() > 0,
        l2.len() > 0,
        l3 matches Some(l) ==> one_line(l) && l.len() > 0,
    ensures
        ({
            let eol = text("\r\n");
            let front = l0 + eol + l1 + eol + l2 + eol;
            let head = match l3 {
                Some(l) => front + l + eol + eol,
                None => front + eol,
            };
            head_len(head + body, 0) == Some(head.len() as int)
        }),
{
    let eol = text("\r\n");
    let none = Seq::<u8>::empty();
    let front = l0 + eol + l1 + eol + l2 + eol;
    let rest = eol + body;
    lemma_head_literals();
    let p1 = l0.len() + 2;
    let p2 = p1 + l1.len() + 2;
    let p3 = p2 + l2.len() + 2;
    match l3 {
        Some(l) => {
            let s = front + l + eol + eol + body;
            lemma_cut(l0, l1, l2, l, eol, rest);
            assert(s =~= front + l + eol + rest);
            lemma_line_in(none, l0, l1 + eol + l2 + eol + l + eol + rest);
            lemma_line_in(l0 + eol, l1, l2 + eol + l + eol + rest);
            lemma_line_in(l0 + eol + l1 + eol, l2, l + eol + rest);
            lemma_line_in(front, l, rest);
            lemma_head_goes_on(s, 0);
            lemma_line_end(s, p1 as int);
            lemma_head_goes_on(s, p1 as int);
            lemma_line_end(s, p2 as int);
            lemma_head_goes_on(s, p2 as int);
            lemma_line_end(s, p3 as int);
            lemma_head_goes_on(s, p3 as int);
            assert(crlf_at(s, (p3 + l.len() + 2) as int));
        },
        None => {
            let s = front + eol + body;
            lemma_cut(l0, l1, l2, none, eol, rest);
            assert(s =~= front + rest);
            lemma_line_in(none, l0, l1 + eol + l2 + eol + rest);
            lemma_line_in(l0 + eol, l1, l2 + eol + rest);
            lemma_line_in(l0 + eol + l1 + eol, l2, rest);
            lemma_head_goes_on(s, 0);
            lemma_line_end(s, p1 as int);
            lemma_head_goes_on(s, p1 as int);
            lemma_line_end(s, p2 as int);
            lemma_head_goes_on(s, p2 as int);
            assert(crlf_at(s, p3 as int));
        },
    }
}

/// A reader finds the body right behind the head, whatever the body holds.
pub proof fn law_body_follows_its_head(
    status: Seq<u8>,
    content_type: Seq<u8>,
    keepalive: bool,
    length: Option<u32>,
    body: Seq<u8>,
)
    requires
        one_line(status),
        one_line(content_type),
        status_fields(status, content_type, keepalive).len() + 4 <= SEND_BUF_SIZE,
    ensures
        ({
            let head = plain_head(status, content_type, keepalive, length);
            &&& head_len(head + body, 0) == Some(head.len() as int)
            &&& (head + body).skip(head.len() as int) == body
        }),
{
    let word = connection_word(keepalive && length is Some);
    let eol = text("\r\n");
    let l0 = text("HTTP/1.1 ") + status;
    let l1 = text("Connection: ") + word;
    let l2 = text("Content-Type: ") + content_type;
    let l3 = match length {
        Some(n) => Some(text("Content-Length: ") + decimal(n as nat)),
        None => None,
    };
    lemma_plain_head_lines(status, content_type, keepalive, length);
    assert(app_fields(Seq::empty(), 0) + eol =~= eol);
    assert(one_line(l0) && one_line(l1) && one_line(l2) && l1.len() > 0 && l2.len() > 0) by {
        lemma_head_literals();
        lemma_plain_line(text("HTTP/1.1 "), status);
        lemma_plain_line(text("Connection: "), word);
        lemma_plain_line(text("Content-Type: "), content_type);
    }
    if let Some(n) = length {
        lemma_decimal_field(n as nat);
        assert(one_line(l3->0) && (l3->0).len() > 0) by {
            lemma_head_literals();
            lemma_plain_line(text("Content-Length: "), decimal(n as nat));
        }
    }
    lemma_lines_end(l0, l1, l2, l3, body);
    let head = plain_head(status, content_type, keepalive, length);
    assert((head + body).skip(head.len() as int) =~= body);
}

} // verus!
