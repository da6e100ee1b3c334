//! Responses on HTTP/2: their header blocks.

use crate::bytes::{decimal, decimal_bytes, extend, lit, text};
use crate::cache::SEND_BUF_SIZE;
use crate::h2_wire::{
    data_frame, frame_head_at, headers_frame, law_h2_frame_reads_back, write_headers, FrameHead,
    FLAG_END_HEADERS, FLAG_END_STREAM, FRAME_DATA, FRAME_HEADERS,
};
use crate::hpack::{block_fields, encode_header, hpack_block, hpack_bytes, law_hpack_block_reads_back, lemma_block_cons};
use crate::qpack::FieldLine;
use crate::routes::{HANDLER_FILE, HANDLER_STATIC, HANDLER_TEMPLATE};
use vstd::prelude::*;

verus! {

/// The header block of a response. The length is stated only where one piece is the
/// whole body: what comes after it would exceed it.
pub open spec fn response_block(status: Seq<u8>, ct: Seq<u8>, length: Option<u32>) -> Seq<u8> {
    hpack_bytes(text(":status"), status) + hpack_bytes(text("content-type"), ct) + (match length {
        Some(n) => hpack_bytes(text("content-length"), decimal(n as nat)),
        None => Seq::empty(),
    })
}

pub fn response_block_vec(status: &[u8], ct: &[u8], length: Option<u32>) -> (r: Vec<u8>)
    ensures
        r@ == response_block(status@, ct@, length),
{
    let mut v: Vec<u8> = encode_header(lit(":status"), status);
    extend(&mut v, encode_header(lit("content-type"), ct).as_slice());
    match length {
        Some(n) => {
            let d: Vec<u8> = decimal_bytes(n as u64);
            extend(&mut v, encode_header(lit("content-length"), d.as_slice()).as_slice());
        },
        None => {
            assert(v@ + Seq::<u8>::empty() =~= v@);
        },
    }
    v
}

/// The headers of an answer. `end` says that one piece is the whole of it.
pub open spec fn answer_head(stream_id: u32, status: Seq<u8>, ct: Seq<u8>, body: Seq<u8>, end: bool) -> Seq<u8> {
    headers_frame(
        stream_id,
        response_block(
            status,
            ct,
            if end {
                Some(body.len() as u32)
            } else {
                None
            },
        ),
        false,
    )
}

pub fn answer_head_vec(stream_id: u32, status: &[u8], ct: &[u8], body: &[u8], end: bool) -> (r: Vec<u8>)
    ensures
        r@ == answer_head(stream_id, status@, ct@, body@, end),
{
    let length: Option<u32> = if end {
        Some(body.len() as u32)
    } else {
        None
    };
    let block: Vec<u8> = response_block_vec(status, ct, length);
    write_headers(stream_id, block.as_slice(), false)
}

/// A response in one go: its headers, and data that may end the stream. `body` is what
/// its length is stated of, `sent` what is sent of it.
pub open spec fn whole_response(
    stream_id: u32,
    status: Seq<u8>,
    ct: Seq<u8>,
    body: Seq<u8>,
    sent: Seq<u8>,
    end: bool,
) -> Seq<u8> {
    answer_head(stream_id, status, ct, body, end) + data_frame(stream_id, sent, end)
}

/// The content type of a streamed body.
pub open spec fn body_type(handler: u8, file_index: i16) -> Seq<u8> {
    if handler == HANDLER_STATIC || handler == HANDLER_TEMPLATE {
        text("text/html")
    } else if handler == HANDLER_FILE && file_index >= 0 {
        text("application/octet-stream")
    } else {
        text("text/plain")
    }
}

/// The headers of a streamed body. They end the stream where no body follows.
pub open spec fn body_headers(stream_id: u32, handler: u8, file_index: i16, end: bool) -> Seq<u8> {
    headers_frame(
        stream_id,
        response_block(text("200"), body_type(handler, file_index), None),
        end,
    )
}

pub fn emit_slot_headers(stream_id: u32, handler: u8, file_index: i16, end: bool) -> (r: Vec<u8>)
    ensures
        r@ == body_headers(stream_id, handler, file_index, end),
{
    let ct: &[u8] = if handler == HANDLER_STATIC || handler == HANDLER_TEMPLATE {
        lit("text/html")
    } else if handler == HANDLER_FILE && file_index >= 0 {
        lit("application/octet-stream")
    } else {
        lit("text/plain")
    };
    let block: Vec<u8> = response_block_vec(lit("200"), ct, None);
    write_headers(stream_id, block.as_slice(), end)
}

/// Room kept for the trailers of a remote call.
pub const TRAILER_RESERVE: usize = 64;

// ── Laws ────────────────────────────────────────────────────────────────

/// A header block reads back as the fields it was made of.
pub proof fn law_response_block_reads_back(status: Seq<u8>, ct: Seq<u8>, length: Option<u32>)
    requires
        status.len() <= SEND_BUF_SIZE,
        ct.len() <= SEND_BUF_SIZE,
    ensures
        block_fields(response_block(status, ct, length)) == Some(
            seq![
                FieldLine { name: text(":status"), value: status },
                FieldLine { name: text("content-type"), value: ct },
            ] + (match length {
                Some(n) => seq![
                    FieldLine { name: text("content-length"), value: decimal(n as nat) },
                ],
                None => Seq::empty(),
            }),
        ),
{
    reveal_strlit(":status");
    reveal_strlit("content-type");
    reveal_strlit("content-length");
    crate::bytes::lemma_text(":status");
    crate::bytes::lemma_text("content-type");
    crate::bytes::lemma_text("content-length");
    let s = FieldLine { name: text(":status"), value: status };
    let t = FieldLine { name: text("content-type"), value: ct };
    let none = Seq::<FieldLine>::empty();
    match length {
        Some(n) => {
            crate::response::lemma_decimal_len(n as nat, 10);
            let u = FieldLine { name: text("content-length"), value: decimal(n as nat) };
            lemma_three_fields(s, t, u);
            law_hpack_block_reads_back(seq![s, t] + seq![u]);
        },
        None => {
            lemma_two_fields(s, t);
            law_hpack_block_reads_back(seq![s, t] + none);
        },
    }
}

proof fn lemma_two_fields(s: FieldLine, t: FieldLine)
    ensures
        hpack_block(seq![s, t] + Seq::<FieldLine>::empty()) == hpack_bytes(s.name, s.value)
            + hpack_bytes(t.name, t.value) + Seq::<u8>::empty(),
{
    let none = Seq::<FieldLine>::empty();
    lemma_block_cons(t, none);
    lemma_block_cons(s, seq![t] + none);
    assert(seq![s, t] + none =~= seq![s] + (seq![t] + none));
    let a = hpack_bytes(s.name, s.value);
    let b = hpack_bytes(t.name, t.value);
    assert(a + (b + Seq::<u8>::empty()) =~= a + b + Seq::<u8>::empty());
}

proof fn lemma_three_fields(s: FieldLine, t: FieldLine, u: FieldLine)
    ensures
        hpack_block(seq![s, t] + seq![u]) == hpack_bytes(s.name, s.value) + hpack_bytes(
            t.name,
            t.value,
        ) + hpack_bytes(u.name, u.value),
{
    let none = Seq::<FieldLine>::empty();
    lemma_block_cons(u, none);
    lemma_block_cons(t, seq![u] + none);
    lemma_block_cons(s, seq![t] + (seq![u] + none));
    assert(seq![s, t] + seq![u] =~= seq![s] + (seq![t] + (seq![u] + none)));
    let a = hpack_bytes(s.name, s.value);
    let b = hpack_bytes(t.name, t.value);
    let c = hpack_bytes(u.name, u.value);
    assert(a + (b + (c + Seq::<u8>::empty())) =~= a + b + c);
}

/// A response that fits reads back: a header block that does not end the stream, then
/// data that ends it exactly where it should.
pub proof fn law_h2_response_reads_back(
    stream_id: u32,
    status: Seq<u8>,
    ct: Seq<u8>,
    body: Seq<u8>,
    sent: Seq<u8>,
    end: bool,
)
    requires
        stream_id < 0x8000_0000,
        whole_response(stream_id, status, ct, body, sent, end).len() <= SEND_BUF_SIZE,
    ensures
        ({
            let r = whole_response(stream_id, status, ct, body, sent, end);
            let block = response_block(
                status,
                ct,
                if end {
                    Some(body.len() as u32)
                } else {
                    None
                },
            );
            let rest = r.skip(9 + block.len() as int);
            &&& frame_head_at(r) == Some(
                FrameHead {
                    length: block.len() as u32,
                    kind: FRAME_HEADERS,
                    flags: FLAG_END_HEADERS,
                    stream_id,
                },
            )
            &&& r.subrange(9, 9 + block.len() as int) == block
            &&& frame_head_at(rest) == Some(
                FrameHead {
                    length: sent.len() as u32,
                    kind: FRAME_DATA,
                    flags: if end {
                        FLAG_END_STREAM
                    } else {
                        0
                    },
                    stream_id,
                },
            )
            &&& rest.skip(9) == sent
        }),
{
    let block = response_block(
        status,
        ct,
        if end {
            Some(body.len() as u32)
        } else {
            None
        },
    );
    let r = whole_response(stream_id, status, ct, body, sent, end);
    let d = data_frame(stream_id, sent, end);
    let h = headers_frame(stream_id, block, false);
    assert(h.len() == 9 + block.len());
    assert(d.len() == 9 + sent.len());
    law_h2_frame_reads_back(FRAME_HEADERS, FLAG_END_HEADERS, stream_id, block, d);
    law_h2_frame_reads_back(
        FRAME_DATA,
        if end {
            FLAG_END_STREAM
        } else {
            0
        },
        stream_id,
        sent,
        Seq::empty(),
    );
    let rest = r.skip(9 + block.len() as int);
    assert(rest =~= d + Seq::<u8>::empty());
    assert(rest.skip(9) =~= sent);
}

} // verus!
