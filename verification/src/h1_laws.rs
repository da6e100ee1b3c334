//! What the bytes of HTTP/1 messages mean: laws of what is read and of what is written, stated
//! from the bytes.

use crate::app::{block_of, blank_from, declared_from, line_length};
use crate::bytes::{
    decimal, index_from, ipv4_text, law_address_is_dotted, law_decimal_reads_back, lemma_decimal, lemma_index_from, lemma_text,
    number_of, same_ci, text,
};
use crate::cache::{SEND_BUF_SIZE, FileLock};
use crate::conn::{ConnSlot, TraceCtx};
use crate::h1_dispatch::{index_dispatched, Dispatch};
use crate::h1_fs::{asked_range, comma_joined, digit_for, file_type};
use crate::h1_recv::{all_hex, heard, preface, sampled, traceparent_of, Heard};
use crate::h1_wire::{
    chunk_header_at, connection_word, crlf_at, field_values, field_values_from, framing_of,
    head_len, header_of, hex_digit, hex_number, hex_value, is_blank, is_hex, is_word, keeps_alive,
    law_request_line_reads_back, lemma_head_goes_on, lemma_line_end, line_end, list_has, range_of,
    status_fields, trim_end, trim_start, trimmed, waits_for_continue, BodyFraming, ChunkHeader,
    RangeParse,
};
use crate::method::{method_of, sends_response_body};
use crate::proxy::{forward_head, host_of, law_forwarded_head_adds_one_field};
use crate::reqbody::{chunk_move, planned, BodyModel, BodyPlan, BodyStep};
use crate::response::{
    app_fields, closing_head, error_response, file_head, kept_line, law_body_follows_its_head,
    law_fitting_head_is_whole, lemma_field_line, lemma_line_in, lemma_plain_line, line_values,
    one_line, partial_head, status_digits,
};
use crate::routes::type_of_path;
use vstd::prelude::*;

verus! {

// ── Fields ──────────────────────────────────────────────────────────────

/// Whether these bytes are spaces and tabs.
pub open spec fn all_blank(s: Seq<u8>) -> bool {
    forall|i: int| 0 <= i < s.len() ==> #[trigger] s[i] == 0x20 || s[i] == 0x09
}

/// Whether neither end is a space or a tab.
pub open spec fn unpadded(s: Seq<u8>) -> bool {
    s.len() > 0 ==> s[0] != 0x20 && s[0] != 0x09 && s[s.len() - 1] != 0x20 && s[s.len() - 1] != 0x09
}

/// Blanks around a text are taken off, and nothing else.
pub proof fn law_blanks_are_trimmed(left: Seq<u8>, s: Seq<u8>, right: Seq<u8>)
    requires
        all_blank(left),
        all_blank(right),
        unpadded(s),
    ensures
        trimmed(left + s + right) == s,
{
    lemma_trim_start(left, s + right);
    assert(left + s + right =~= left + (s + right));
    if s.len() > 0 {
        assert((s + right)[0] == s[0]);
        assert(trim_start(s + right) == s + right);
        lemma_trim_end(s, right);
        assert(trim_end(s) == s);
    } else {
        assert(s + right =~= right);
        lemma_trim_start(right, Seq::empty());
        assert(right + Seq::<u8>::empty() =~= right);
        assert(trim_start(Seq::<u8>::empty()) =~= s);
        assert(trim_end(s) =~= s);
    }
}

proof fn lemma_trim_start(left: Seq<u8>, s: Seq<u8>)
    requires
        all_blank(left),
    ensures
        trim_start(left + s) == trim_start(s),
    decreases left.len(),
{
    let t = left + s;
    if left.len() > 0 {
        assert(is_blank(left[0]));
        assert(t[0] == left[0]);
        assert(t.skip(1) =~= left.skip(1) + s);
        assert(forall|i: int| 0 <= i < left.skip(1).len() ==> left.skip(1)[i] == left[i + 1]);
        lemma_trim_start(left.skip(1), s);
    } else {
        assert(t =~= s);
    }
}

proof fn lemma_trim_end(s: Seq<u8>, right: Seq<u8>)
    requires
        all_blank(right),
    ensures
        trim_end(s + right) == trim_end(s),
    decreases right.len(),
{
    let t = s + right;
    if right.len() > 0 {
        let r = right.drop_last();
        assert(is_blank(right[right.len() - 1]));
        assert(t.last() == right.last());
        assert(t.drop_last() =~= s + r);
        assert(forall|i: int| 0 <= i < r.len() ==> r[i] == right[i]);
        lemma_trim_end(s, r);
    } else {
        assert(t =~= s);
    }
}

proof fn lemma_line_end_shift(pre: Seq<u8>, s: Seq<u8>, p: int)
    requires
        0 <= p,
    ensures
        line_end(pre + s, pre.len() + p) == pre.len() + line_end(s, p),
    decreases s.len() - p,
{
    if p + 1 < s.len() {
        assert((pre + s)[pre.len() + p] == s[p]);
        assert((pre + s)[pre.len() + p + 1] == s[p + 1]);
        if !crlf_at(s, p) {
            lemma_line_end_shift(pre, s, p + 1);
        }
    }
}

proof fn lemma_values_shift(pre: Seq<u8>, s: Seq<u8>, p: int, name: Seq<u8>)
    requires
        0 <= p,
    ensures
        field_values_from(pre + s, pre.len() + p, name) == field_values_from(s, p, name),
    decreases s.len() - p,
{
    lemma_line_end_shift(pre, s, p);
    let e = line_end(s, p);
    if p <= s.len() && e + 2 <= s.len() && e > p {
        assert((pre + s).subrange(pre.len() + p, pre.len() + e) =~= s.subrange(p, e));
        lemma_values_shift(pre, s, e + 2, name);
        assert(pre.len() + e + 2 == pre.len() + (e + 2));
    }
}

/// A field line is read by its name, in any case of letters, and gives its value without
/// the blanks around it; the other lines of the head give what they give without it.
pub proof fn law_field_is_read(
    first: Seq<u8>,
    name: Seq<u8>,
    left: Seq<u8>,
    value: Seq<u8>,
    right: Seq<u8>,
    rest: Seq<u8>,
    asked: Seq<u8>,
)
    requires
        one_line(first),
        one_line(name + seq![0x3au8] + left + value + right),
        !name.contains(0x3a),
        all_blank(left),
        all_blank(right),
        unpadded(value),
    ensures
        ({
            let eol = seq![0x0du8, 0x0au8];
            field_values(
                first + eol + (name + seq![0x3au8] + left + value + right) + eol + rest,
                asked,
            ) == (if same_ci(name, asked) {
                seq![value]
            } else {
                Seq::empty()
            }) + field_values(first + eol + rest, asked)
        }),
{
    let eol = seq![0x0du8, 0x0au8];
    let line = name + seq![0x3au8] + left + value + right;
    let head = first + eol + line + eol + rest;
    lemma_line_in(Seq::empty(), first, line + eol + rest);
    assert(text("\r\n") == eol);
    assert(Seq::<u8>::empty() + first + eol + (line + eol + rest) =~= head);
    let pre = first + eol;
    assert(line_end(head, 0) == first.len());
    lemma_field_line(pre, line, rest, asked);
    assert(pre + line + eol + rest =~= head);
    let n = name.len() as int;
    assert(line[n] == 0x3a);
    assert forall|k: int| 0 <= k < n implies line[k] != 0x3a by {
        assert(line[k] == name[k]);
    }
    lemma_index_from(line, 0x3a, 0);
    assert(index_from(line, 0x3a, 0) == n);
    assert(line.take(n) =~= name);
    assert(line.skip(n + 1) =~= left + value + right);
    law_blanks_are_trimmed(left, value, right);
    let before = pre + line + eol;
    assert(head =~= before + rest);
    lemma_values_shift(before, rest, 0, asked);
    let short = first + eol + rest;
    lemma_line_in(Seq::empty(), first, rest);
    assert(Seq::<u8>::empty() + first + eol + rest =~= short);
    lemma_values_shift(pre, rest, 0, asked);
}

/// An empty line ends the fields: what follows it is none.
pub proof fn law_empty_line_ends_the_fields(first: Seq<u8>, rest: Seq<u8>, asked: Seq<u8>)
    requires
        one_line(first),
    ensures
        field_values(first + seq![0x0du8, 0x0au8] + (seq![0x0du8, 0x0au8] + rest), asked) == Seq::<
            Seq<u8>,
        >::empty(),
{
    let eol = seq![0x0du8, 0x0au8];
    let head = first + eol + (eol + rest);
    lemma_line_in(Seq::empty(), first, eol + rest);
    assert(text("\r\n") == eol);
    assert(Seq::<u8>::empty() + first + eol + (eol + rest) =~= head);
    lemma_line_in(first + eol, Seq::empty(), rest);
    assert(first + eol + Seq::<u8>::empty() + eol + rest =~= head);
}

// ── Lists and connections ───────────────────────────────────────────────

proof fn lemma_list_parts(pre: Seq<u8>, parts: Seq<Seq<u8>>, token: Seq<u8>)
    requires
        parts.len() > 0,
        forall|i: int| 0 <= i < parts.len() ==> !(#[trigger] parts[i]).contains(0x2c),
    ensures
        list_has(pre + comma_joined(parts), pre.len() as int, token) <==> exists|i: int|
            0 <= i < parts.len() && same_ci(trimmed(#[trigger] parts[i]), token),
    decreases parts.len(),
{
    let s = pre + comma_joined(parts);
    let from = pre.len() as int;
    let p = parts[0];
    let e = from + p.len();
    assert(!p.contains(0x2c));
    assert forall|i: int| from <= i < e implies #[trigger] s[i] != 0x2c by {
        assert(s[i] == p[i - from]);
    }
    if parts.len() > 1 {
        let head = pre + p + seq![0x2cu8];
        assert(s =~= head + comma_joined(parts.skip(1)));
        assert(s[e] == head[e]);
    }
    lemma_index_from(s, 0x2c, from);
    assert(index_from(s, 0x2c, from) == e);
    assert(s.subrange(from, e) =~= p);
    if parts.len() == 1 {
        if same_ci(trimmed(parts[0]), token) {
            assert(list_has(s, from, token));
        }
    } else {
        let rest = parts.skip(1);
        let head = pre + p + seq![0x2cu8];
        assert(forall|i: int| 0 <= i < rest.len() ==> rest[i] == parts[i + 1]);
        lemma_list_parts(head, rest, token);
        assert(list_has(s, from, token) <==> same_ci(trimmed(p), token) || list_has(s, e + 1, token));
        if exists|i: int| 0 <= i < rest.len() && same_ci(trimmed(#[trigger] rest[i]), token) {
            let i = choose|i: int| 0 <= i < rest.len() && same_ci(trimmed(#[trigger] rest[i]), token);
            assert(same_ci(trimmed(parts[i + 1]), token));
        }
        if exists|i: int| 0 <= i < parts.len() && same_ci(trimmed(#[trigger] parts[i]), token) {
            let i = choose|i: int|
                0 <= i < parts.len() && same_ci(trimmed(#[trigger] parts[i]), token);
            if i > 0 {
                assert(rest[i - 1] == parts[i]);
            }
        }
    }
}

/// A list holds a word exactly where one of its comma-separated parts is the word, but for
/// blanks around it and the case of letters.
pub proof fn law_list_holds_its_parts(parts: Seq<Seq<u8>>, token: Seq<u8>)
    requires
        parts.len() > 0,
        forall|i: int| 0 <= i < parts.len() ==> !(#[trigger] parts[i]).contains(0x2c),
    ensures
        list_has(comma_joined(parts), 0, token) <==> exists|i: int|
            0 <= i < parts.len() && same_ci(trimmed(#[trigger] parts[i]), token),
{
    lemma_list_parts(Seq::empty(), parts, token);
    assert(Seq::<u8>::empty() + comma_joined(parts) =~= comma_joined(parts));
}

/// A connection is kept where the request is of HTTP/1.1 and does not ask to close it, or is
/// of HTTP/1.0 and asks to keep it. One that asks to close it is always closed.
pub proof fn law_connection_is_kept_as_asked(
    token: Seq<u8>,
    target: Seq<u8>,
    version: Seq<u8>,
    rest: Seq<u8>,
)
    requires
        is_word(token),
        is_word(target),
        is_word(version),
    ensures
        ({
            let head = token + seq![0x20u8] + target + seq![0x20u8] + version + seq![0x0du8, 0x0au8]
                + rest;
            let asked = field_values(head, text("connection"));
            let closes = exists|i: int|
                0 <= i < asked.len() && list_has(#[trigger] asked[i], 0, text("close"));
            let keeps = exists|i: int|
                0 <= i < asked.len() && list_has(#[trigger] asked[i], 0, text("keep-alive"));
            keeps_alive(head) <==> !closes && (version == seq![
                0x48u8,
                0x54,
                0x54,
                0x50,
                0x2f,
                0x31,
                0x2e,
                0x31,
            ] || (version == seq![0x48u8, 0x54, 0x54, 0x50, 0x2f, 0x31, 0x2e, 0x30] && keeps))
        }),
{
    law_request_line_reads_back(token, target, version, rest);
    reveal_strlit("HTTP/1.1");
    reveal_strlit("HTTP/1.0");
    lemma_text("HTTP/1.1");
    lemma_text("HTTP/1.0");
    assert(text("HTTP/1.1") =~= seq![0x48u8, 0x54, 0x54, 0x50, 0x2f, 0x31, 0x2e, 0x31]);
    assert(text("HTTP/1.0") =~= seq![0x48u8, 0x54, 0x54, 0x50, 0x2f, 0x31, 0x2e, 0x30]);
}

// ── Bodies ──────────────────────────────────────────────────────────────

/// How a body is delimited: by the one length that every `Content-Length` states, or in
/// chunks where the one `Transfer-Encoding` is `chunked`; both together, another encoding
/// or lengths that differ or are none contradict themselves.
pub proof fn law_framing_goes_by_the_fields(te: Seq<Seq<u8>>, cl: Seq<Seq<u8>>, n: u64)
    ensures
        te.len() == 0 && cl.len() == 0 ==> framing_of(te, cl) is Unframed,
        te.len() == 0 && cl.len() > 0 && (forall|i: int|
            0 <= i < cl.len() ==> #[trigger] cl[i] == decimal(n as nat)) ==> framing_of(te, cl)
            == BodyFraming::Length(n),
        te.len() == 0 && (exists|i: int| 0 <= i < cl.len() && number_of(#[trigger] cl[i]) is None)
            ==> framing_of(te, cl) is Invalid,
        te.len() == 0 && (exists|i: int, j: int|
            0 <= i < cl.len() && 0 <= j < cl.len() && number_of(#[trigger] cl[i]) != number_of(
                #[trigger] cl[j],
            )) ==> framing_of(te, cl) is Invalid,
        te.len() == 1 && cl.len() == 0 && same_ci(te[0], text("chunked")) ==> framing_of(te, cl)
            is Chunked,
        te.len() == 1 && !same_ci(te[0], text("chunked")) ==> framing_of(te, cl) is Invalid,
        te.len() > 1 ==> framing_of(te, cl) is Invalid,
        te.len() > 0 && cl.len() > 0 ==> framing_of(te, cl) is Invalid,
{
    law_decimal_reads_back(n);
}

/// What becomes of a body: one that is framed is read if it is within the limit, one stated
/// to be larger is refused, and a method that brings a body must say where it ends.
pub proof fn law_body_is_taken_within_the_limit(token: Seq<u8>, n: u64, waits: bool, limit: u32)
    ensures
        planned(BodyFraming::Length(n), method_of(token), waits, limit) == (if n == 0 {
            BodyPlan::Absent
        } else if n <= limit {
            BodyPlan::Read { continue_first: waits }
        } else {
            BodyPlan::TooLarge
        }),
        planned(BodyFraming::Chunked, method_of(token), waits, limit) == (BodyPlan::Read {
            continue_first: waits,
        }),
        planned(BodyFraming::Invalid, method_of(token), waits, limit) is Invalid,
        token == text("POST") || token == text("PUT") || token == text("PATCH") ==> planned(
            BodyFraming::Unframed,
            method_of(token),
            waits,
            limit,
        ) is LengthRequired,
        token == text("GET") || token == text("HEAD") || token == text("DELETE") ==> planned(
            BodyFraming::Unframed,
            method_of(token),
            waits,
            limit,
        ) is Absent,
{
    lemma_tokens_differ();
}

proof fn lemma_tokens_differ()
    ensures
        text("GET").len() == 3 && text("GET")[0] == 0x47,
        text("PUT").len() == 3 && text("PUT")[0] == 0x50,
        text("HEAD").len() == 4 && text("HEAD")[0] == 0x48,
        text("POST").len() == 4 && text("POST")[0] == 0x50,
        text("PATCH").len() == 5,
        text("DELETE").len() == 6,
        text("OPTIONS").len() == 7 && text("OPTIONS")[0] == 0x4f,
        text("CONNECT").len() == 7 && text("CONNECT")[0] == 0x43,
{
    reveal_strlit("GET");
    reveal_strlit("PUT");
    reveal_strlit("HEAD");
    reveal_strlit("POST");
    reveal_strlit("PATCH");
    reveal_strlit("DELETE");
    reveal_strlit("OPTIONS");
    reveal_strlit("CONNECT");
    lemma_text("GET");
    lemma_text("PUT");
    lemma_text("HEAD");
    lemma_text("POST");
    lemma_text("PATCH");
    lemma_text("DELETE");
    lemma_text("OPTIONS");
    lemma_text("CONNECT");
}

/// Different methods are told apart, and of those known HEAD alone is answered without a
/// body.
pub proof fn law_methods_are_told_apart(a: Seq<u8>, b: Seq<u8>)
    requires
        method_of(a) == method_of(b),
    ensures
        method_of(a) != 0 ==> a == b,
        sends_response_body(method_of(a)) <==> a != text("HEAD"),
        method_of(a) != 0 <==> a == text("GET") || a == text("HEAD") || a == text("POST") || a
            == text("PUT") || a == text("PATCH") || a == text("DELETE") || a == text("OPTIONS") || a
            == text("CONNECT"),
{
    lemma_tokens_differ();
}

/// A hexadecimal digit is its value, in either case; a digit behind a number is sixteen
/// times the number and the digit.
pub proof fn law_hex_digits_make_numbers(s: Seq<u8>, c: u8, v: int)
    requires
        digit_for(c, v),
    ensures
        hex_number(seq![c]) == Some(v as u64),
        1 <= s.len() < 16 && hex_number(s) is Some ==> hex_number(s.push(c)) == Some(
            (16 * hex_value(s) + v) as u64,
        ),
{
    assert(is_hex(c) && hex_digit(c) == v);
    let one = seq![c];
    assert(one.drop_last() =~= Seq::<u8>::empty());
    reveal_with_fuel(hex_value, 2);
    let t = s.push(c);
    assert(t.drop_last() =~= s);
    assert(forall|i: int| 0 <= i < s.len() ==> t[i] == s[i]);
}

/// A chunk begins with its size in hexadecimal digits, which an extension may follow behind
/// a semicolon; its data begins behind the line end.
pub proof fn law_chunk_line_states_its_size(
    digits: Seq<u8>,
    blanks: Seq<u8>,
    ext: Seq<u8>,
    rest: Seq<u8>,
)
    requires
        1 <= digits.len() <= 16,
        forall|i: int| 0 <= i < digits.len() ==> is_hex(#[trigger] digits[i]),
        all_blank(blanks),
        ext.len() == 0 || ext[0] == 0x3b,
        one_line(ext),
    ensures
        chunk_header_at(digits + blanks + ext + seq![0x0du8, 0x0au8] + rest) == (
        ChunkHeader::Chunk {
            size: hex_value(digits) as u64,
            consumed: (digits.len() + blanks.len() + ext.len() + 2) as usize,
        }) || digits.len() + blanks.len() + ext.len() + 2 > usize::MAX,
{
    let eol = seq![0x0du8, 0x0au8];
    let front = digits + blanks;
    let line = front + ext;
    let s = line + eol + rest;
    assert forall|k: int| 0 <= k < front.len() implies front[k] != 0x0d && front[k] != 0x3b by {
        if k < digits.len() {
            assert(is_hex(digits[k]));
        } else {
            assert(blanks[k - digits.len()] == 0x20 || blanks[k - digits.len()] == 0x09);
        }
    }
    lemma_plain_line(front, ext);
    lemma_line_in(Seq::empty(), line, rest);
    assert(text("\r\n") == eol);
    assert(Seq::<u8>::empty() + line + eol + rest =~= s);
    assert(s.take(line.len() as int) =~= line);
    lemma_index_from(line, 0x3b, 0);
    assert forall|k: int| 0 <= k < front.len() implies line[k] != 0x3b by {
        assert(line[k] == front[k]);
    }
    if ext.len() > 0 {
        assert(line[front.len() as int] == ext[0]);
    }
    assert(index_from(line, 0x3b, 0) == front.len());
    assert(line.take(front.len() as int) =~= Seq::<u8>::empty() + digits + blanks);
    assert(is_hex(digits[0]) && is_hex(digits[digits.len() - 1]));
    law_blanks_are_trimmed(Seq::empty(), digits, blanks);
}

// ── Ranges ──────────────────────────────────────────────────────────────

proof fn lemma_range_text(first: Seq<u8>, last: Seq<u8>)
    requires
        forall|i: int| 0 <= i < first.len() ==> 0x30 <= #[trigger] first[i] <= 0x39,
        forall|i: int| 0 <= i < last.len() ==> 0x30 <= #[trigger] last[i] <= 0x39,
    ensures
        ({
            let value = text("bytes=") + first + seq![0x2du8] + last;
            &&& value.len() >= 6
            &&& value.take(6) == text("bytes=")
            &&& index_from(value.skip(6), 0x2d, 0) == first.len()
            &&& first.len() < value.skip(6).len()
            &&& trimmed(value.skip(6).take(first.len() as int)) == first
            &&& trimmed(value.skip(6).skip(first.len() as int + 1)) == last
        }),
{
    reveal_strlit("bytes=");
    lemma_text("bytes=");
    let value = text("bytes=") + first + seq![0x2du8] + last;
    let r = value.skip(6);
    let n = first.len() as int;
    assert(value.take(6) =~= text("bytes="));
    assert(r =~= first + seq![0x2du8] + last);
    assert(r[n] == 0x2d);
    assert forall|k: int| 0 <= k < n implies r[k] != 0x2d by {
        assert(r[k] == first[k]);
    }
    lemma_index_from(r, 0x2d, 0);
    assert(r.take(n) =~= Seq::<u8>::empty() + first + Seq::<u8>::empty());
    assert(r.skip(n + 1) =~= Seq::<u8>::empty() + last + Seq::<u8>::empty());
    law_blanks_are_trimmed(Seq::empty(), first, Seq::empty());
    law_blanks_are_trimmed(Seq::empty(), last, Seq::empty());
}

/// A range is from its first byte to its last, both counted, and ends with the resource; a
/// range that begins behind the resource cannot be had.
pub proof fn law_range_is_first_to_last(a: u64, b: u64, total: u32)
    requires
        a <= b,
    ensures
        range_of(
            text("bytes=") + decimal(a as nat) + seq![0x2du8] + decimal(b as nat),
            total,
        ) == (if a < total {
            RangeParse::Satisfiable {
                start: a as u32,
                end: if b < total {
                    b as u32
                } else {
                    (total - 1) as u32
                },
            }
        } else {
            RangeParse::Unsatisfiable
        }),
{
    lemma_decimal(a as nat);
    lemma_decimal(b as nat);
    law_decimal_reads_back(a);
    law_decimal_reads_back(b);
    lemma_digit_bytes(decimal(a as nat));
    lemma_digit_bytes(decimal(b as nat));
    lemma_range_text(decimal(a as nat), decimal(b as nat));
}

proof fn lemma_digit_bytes(d: Seq<u8>)
    requires
        forall|i: int| 0 <= i < d.len() ==> crate::bytes::is_digit(#[trigger] d[i]),
    ensures
        forall|i: int| 0 <= i < d.len() ==> 0x30 <= #[trigger] d[i] <= 0x39,
{
    assert forall|i: int| 0 <= i < d.len() implies 0x30 <= #[trigger] d[i] <= 0x39 by {
        assert(crate::bytes::is_digit(d[i]));
    }
}

/// A range without a last byte goes to the end of the resource.
pub proof fn law_open_range_goes_to_the_end(a: u64, total: u32)
    ensures
        range_of(text("bytes=") + decimal(a as nat) + seq![0x2du8] + Seq::<u8>::empty(), total) == (
        if a < total {
            RangeParse::Satisfiable { start: a as u32, end: (total - 1) as u32 }
        } else {
            RangeParse::Unsatisfiable
        }),
{
    lemma_decimal(a as nat);
    law_decimal_reads_back(a);
    lemma_digit_bytes(decimal(a as nat));
    lemma_range_text(decimal(a as nat), Seq::empty());
}

/// A range without a first byte is so many of the last bytes, or all there are.
pub proof fn law_suffix_range_is_the_last_bytes(n: u64, total: u32)
    ensures
        range_of(text("bytes=") + Seq::<u8>::empty() + seq![0x2du8] + decimal(n as nat), total) == (
        if n == 0 || total == 0 {
            RangeParse::Unsatisfiable
        } else {
            RangeParse::Satisfiable {
                start: if n < total {
                    (total - n) as u32
                } else {
                    0
                },
                end: (total - 1) as u32,
            }
        }),
{
    lemma_decimal(n as nat);
    law_decimal_reads_back(n);
    lemma_digit_bytes(decimal(n as nat));
    lemma_range_text(Seq::empty(), decimal(n as nat));
}

// ── Trace contexts ──────────────────────────────────────────────────────

/// A trace context is the trace, the parent and the flags that its hexadecimal digits state,
/// between dashes behind version `00`. A trace or parent of zero is none, and so is a text
/// of another length or with another digit.
pub proof fn law_trace_context_reads_back(hi: Seq<u8>, lo: Seq<u8>, parent: Seq<u8>, flags: Seq<u8>)
    requires
        hi.len() == 16 && lo.len() == 16 && parent.len() == 16 && flags.len() == 2,
    ensures
        ({
            let dash = seq![0x2du8];
            let v = seq![0x30u8, 0x30, 0x2d] + hi + lo + dash + parent + dash + flags;
            traceparent_of(v) == (if all_hex(hi) && all_hex(lo) && all_hex(parent) && all_hex(flags)
                && (hex_value(hi) != 0 || hex_value(lo) != 0) && hex_value(parent) != 0 {
                Some(
                    TraceCtx {
                        trace_hi: hex_value(hi) as u64,
                        trace_lo: hex_value(lo) as u64,
                        parent: hex_value(parent) as u64,
                        flags: hex_value(flags) as u8,
                    },
                )
            } else {
                None
            })
        }),
{
    reveal_strlit("00-");
    lemma_text("00-");
    let dash = seq![0x2du8];
    let v = seq![0x30u8, 0x30, 0x2d] + hi + lo + dash + parent + dash + flags;
    assert(v.take(3) =~= text("00-"));
    assert(v.subrange(3, 19) =~= hi);
    assert(v.subrange(19, 35) =~= lo);
    assert(v.subrange(36, 52) =~= parent);
    assert(v.subrange(53, 55) =~= flags);
    assert(v[35] == 0x2d && v[52] == 0x2d);
}

/// Where a caller hands its context on, the lowest flag says whether the request is recorded.
pub proof fn law_caller_decides_what_is_recorded(ctx: TraceCtx)
    ensures
        ctx.parent != 0 && (ctx.trace_hi != 0 || ctx.trace_lo != 0) ==> (sampled(ctx)
            <==> ctx.flags % 2 == 1),
        ctx.trace_hi == 0 && ctx.trace_lo == 0 && ctx.parent == 0 ==> sampled(ctx),
{
}

// ── Response heads ──────────────────────────────────────────────────────

/// A status is written in decimal.
pub proof fn law_status_is_decimal(status: u16)
    requires
        100 <= status <= 999,
    ensures
        status_digits(status) == decimal(status as nat),
{
    reveal_with_fuel(decimal, 3);
    assert(status_digits(status) =~= decimal(status as nat));
}

/// A field line of an application is sent as it is, unless it is one of the four that the
/// server decides, in any case of letters.
pub proof fn law_app_field_is_sent(name: Seq<u8>, value: Seq<u8>, rest: Seq<u8>)
    requires
        !name.contains(0x3a),
        one_line(name + seq![0x3au8] + value),
    ensures
        ({
            let line = name + seq![0x3au8] + value + seq![0x0du8, 0x0au8];
            app_fields(line + rest, 0) == (if same_ci(name, text("content-length")) || same_ci(
                name,
                text("connection"),
            ) || same_ci(name, text("transfer-encoding")) || same_ci(name, text("content-type")) {
                Seq::empty()
            } else {
                line
            }) + app_fields(rest, 0)
        }),
{
    let eol = seq![0x0du8, 0x0au8];
    let line = name + seq![0x3au8] + value;
    let n = name.len() as int;
    assert(line[n] == 0x3a);
    assert forall|k: int| 0 <= k < n implies line[k] != 0x3a by {
        assert(line[k] == name[k]);
    }
    lemma_index_from(line, 0x3a, 0);
    assert(index_from(line, 0x3a, 0) == n);
    assert(line.take(n) =~= name);
    lemma_app_line(line, rest);
    assert(line + eol + rest =~= name + seq![0x3au8] + value + seq![0x0du8, 0x0au8] + rest);
    assert(Seq::<u8>::empty() + app_fields(rest, 0) =~= app_fields(rest, 0));
}

/// A line of an application that is no field is not sent.
pub proof fn law_app_line_without_a_name_is_not_sent(line: Seq<u8>, rest: Seq<u8>)
    requires
        one_line(line),
        !line.contains(0x3a),
    ensures
        app_fields(line + seq![0x0du8, 0x0au8] + rest, 0) == app_fields(rest, 0),
{
    lemma_index_from(line, 0x3a, 0);
    let c = index_from(line, 0x3a, 0);
    if c < line.len() {
        assert(line[c] == 0x3a);
    }
    lemma_app_line(line, rest);
    assert(Seq::<u8>::empty() + app_fields(rest, 0) =~= app_fields(rest, 0));
}

proof fn lemma_app_line(line: Seq<u8>, rest: Seq<u8>)
    requires
        one_line(line),
    ensures
        app_fields(line + seq![0x0du8, 0x0au8] + rest, 0) == kept_line(line) + app_fields(rest, 0),
        text("\r\n") == seq![0x0du8, 0x0au8],
{
    let eol = seq![0x0du8, 0x0au8];
    let s = line + eol + rest;
    lemma_line_in(Seq::empty(), line, rest);
    assert(Seq::<u8>::empty() + line + eol + rest =~= s);
    let pre = line + eol;
    lemma_app_shift(pre, rest, 0);
    assert(s =~= pre + rest);
}

proof fn lemma_app_shift(pre: Seq<u8>, s: Seq<u8>, p: int)
    requires
        0 <= p,
    ensures
        app_fields(pre + s, pre.len() + p) == app_fields(s, p),
    decreases s.len() - p,
{
    lemma_line_end_shift(pre, s, p);
    if p < s.len() {
        lemma_line_end(s, p);
        let e = line_end(s, p);
        assert((pre + s).subrange(pre.len() + p, pre.len() + e) =~= s.subrange(p, e));
        if e + 2 <= s.len() {
            lemma_app_shift(pre, s, e + 2);
            assert(pre.len() + e + 2 == pre.len() + (e + 2));
        }
    }
}

/// A field line as the server writes it.
pub open spec fn field_line(name: Seq<u8>, value: Seq<u8>) -> Seq<u8> {
    name + seq![0x3au8, 0x20u8] + value + seq![0x0du8, 0x0au8]
}

proof fn lemma_field_line_read(first: Seq<u8>, name: Seq<u8>, value: Seq<u8>, rest: Seq<u8>, asked: Seq<u8>)
    requires
        one_line(first),
        one_line(value),
        !name.contains(0x3a),
        forall|i: int| 0 <= i < name.len() ==> #[trigger] name[i] != 0x0d,
        unpadded(value),
    ensures
        ({
            let eol = seq![0x0du8, 0x0au8];
            field_values(first + eol + (field_line(name, value) + rest), asked) == (if same_ci(
                name,
                asked,
            ) {
                seq![value]
            } else {
                Seq::empty()
            }) + field_values(first + eol + rest, asked)
        }),
{
    let eol = seq![0x0du8, 0x0au8];
    let front = name + seq![0x3au8] + seq![0x20u8];
    assert forall|i: int| 0 <= i < front.len() implies front[i] != 0x0d by {
        if i < name.len() {
            assert(front[i] == name[i]);
        }
    }
    lemma_plain_line(front, value);
    let line = name + seq![0x3au8] + seq![0x20u8] + value + Seq::<u8>::empty();
    assert(line =~= front + value);
    law_field_is_read(first, name, seq![0x20u8], value, Seq::empty(), rest, asked);
    assert(first + eol + (field_line(name, value) + rest) =~= first + eol + line + eol + rest);
}

// ── Numbered files ──────────────────────────────────────────────────────

/// A path of a number opens the file of that number, where the channel is free, and holds
/// the channel for its slot.
pub proof fn law_numbered_file_is_opened(
    before: ConnSlot,
    after: ConnSlot,
    old_lock: FileLock,
    new_lock: FileLock,
    idx: usize,
    n: u64,
    r: Dispatch,
)
    requires
        n <= 0x7fff,
        before.req.path@ == seq![0x2fu8] + decimal(n as nat),
        old_lock.owner is None,
        index_dispatched(before, after, old_lock, new_lock, idx, true, r),
    ensures
        r == (Dispatch::OpenIndexed { index: n as u32 }),
        new_lock.owner == Some(idx),
{
    let path = before.req.path@;
    lemma_decimal(n as nat);
    law_decimal_reads_back(n);
    assert(path.skip(1) =~= decimal(n as nat));
    if path == seq![0x2fu8] {
        assert(path.len() == 1);
    }
}

// ── An application's own header block ───────────────────────────────────

proof fn lemma_declared_shift(pre: Seq<u8>, s: Seq<u8>, p: int)
    requires
        0 <= p,
    ensures
        declared_from(pre + s, pre.len() + p) == declared_from(s, p),
    decreases s.len() - p,
{
    lemma_line_end_shift(pre, s, p);
    if p < s.len() {
        lemma_line_end(s, p);
        let e = line_end(s, p);
        assert((pre + s).subrange(pre.len() + p, pre.len() + e) =~= s.subrange(p, e));
        if e + 2 <= s.len() {
            lemma_declared_shift(pre, s, e + 2);
            assert(pre.len() + e + 2 == pre.len() + (e + 2));
        }
    }
}

proof fn lemma_declared_line(line: Seq<u8>, rest: Seq<u8>)
    requires
        one_line(line),
    ensures
        declared_from(line + seq![0x0du8, 0x0au8] + rest, 0) == (if line_length(line) is Some {
            line_length(line)
        } else {
            declared_from(rest, 0)
        }),
{
    let eol = seq![0x0du8, 0x0au8];
    let s = line + eol + rest;
    lemma_line_in(Seq::empty(), line, rest);
    assert(Seq::<u8>::empty() + line + eol + rest =~= s);
    lemma_declared_shift(line + eol, rest, 0);
    assert(s =~= line + eol + rest);
}

/// The length an application states is that of its first `Content-Length` line that states
/// one, in any case of letters; other lines say nothing of it.
pub proof fn law_app_length_is_read(
    name: Seq<u8>,
    left: Seq<u8>,
    n: u32,
    right: Seq<u8>,
    rest: Seq<u8>,
)
    requires
        !name.contains(0x3a),
        all_blank(left),
        all_blank(right),
        one_line(name + seq![0x3au8] + (left + decimal(n as nat) + right)),
    ensures
        declared_from(
            name + seq![0x3au8] + (left + decimal(n as nat) + right) + seq![0x0du8, 0x0au8] + rest,
            0,
        ) == (if same_ci(name, text("content-length")) {
            Some(n)
        } else {
            declared_from(rest, 0)
        }),
{
    let d = decimal(n as nat);
    let value = left + d + right;
    let line = name + seq![0x3au8] + value;
    let k = name.len() as int;
    assert(line[k] == 0x3a);
    assert forall|j: int| 0 <= j < k implies line[j] != 0x3a by {
        assert(line[j] == name[j]);
    }
    lemma_index_from(line, 0x3a, 0);
    assert(index_from(line, 0x3a, 0) == k);
    assert(line.take(k) =~= name);
    assert(line.skip(k + 1) =~= left + (d + right));
    lemma_decimal(n as nat);
    lemma_digit_bytes(d);
    lemma_trim_start(left, d + right);
    let t = d + right;
    assert(t[0] == d[0]);
    assert(trim_start(t) == t);
    lemma_blank_at(d, right, 0);
    assert(t.take(d.len() as int) =~= d);
    lemma_declared_line(line, rest);
}

proof fn lemma_blank_at(d: Seq<u8>, right: Seq<u8>, from: int)
    requires
        0 <= from <= d.len(),
        forall|i: int| 0 <= i < d.len() ==> 0x30 <= #[trigger] d[i] <= 0x39,
        all_blank(right),
    ensures
        blank_from(d + right, from) == d.len(),
    decreases d.len() - from,
{
    let t = d + right;
    if from < d.len() {
        assert(t[from] == d[from]);
        lemma_blank_at(d, right, from + 1);
    } else if right.len() > 0 {
        assert(t[from] == right[0]);
    }
}

// ── Parts of files ──────────────────────────────────────────────────────

/// The head of part of a file says which part it is of how many bytes, and how long it is.
pub proof fn law_partial_head_states_its_part(
    content_type: Seq<u8>,
    keepalive: bool,
    start: u32,
    end: u32,
    total: u32,
)
    requires
        start <= end < total,
        one_line(content_type),
        unpadded(content_type),
        status_fields(text("206 Partial Content"), content_type, keepalive).len() + 4 <= SEND_BUF_SIZE,
    ensures
        ({
            let head = partial_head(content_type, keepalive, start, end, total);
            &&& field_values(head, text("content-range")) == seq![
                text("bytes ") + decimal(start as nat) + seq![0x2du8] + decimal(end as nat)
                    + seq![0x2fu8] + decimal(total as nat),
            ]
            &&& field_values(head, text("content-length")) == seq![
                decimal((end - start + 1) as nat),
            ]
            &&& field_values(head, text("content-type")) == seq![content_type]
            &&& field_values(head, text("connection")) == seq![
                if keepalive {
                    text("keep-alive")
                } else {
                    text("close")
                },
            ]
        }),
{
    let head = partial_head(content_type, keepalive, start, end, total);
    lemma_partial_lines(content_type, keepalive, start, end, total);
    lemma_names_apart();
    assert(field_values(head, text("content-range")) == seq![part_name(start, end, total)]) by {
        lemma_partial_values(content_type, keepalive, start, end, total, text("content-range"));
    }
    assert(field_values(head, text("content-length")) == seq![decimal((end - start + 1) as nat)])
        by {
        lemma_partial_values(content_type, keepalive, start, end, total, text("content-length"));
    }
    assert(field_values(head, text("content-type")) == seq![content_type]) by {
        lemma_partial_values(content_type, keepalive, start, end, total, text("content-type"));
    }
    assert(field_values(head, text("connection")) == seq![connection_word(keepalive)]) by {
        lemma_partial_values(content_type, keepalive, start, end, total, text("connection"));
    }
}

/// What a part is called in `Content-Range`.
pub open spec fn part_name(start: u32, end: u32, total: u32) -> Seq<u8> {
    text("bytes ") + decimal(start as nat) + seq![0x2du8] + decimal(end as nat) + seq![0x2fu8]
        + decimal(total as nat)
}

proof fn lemma_part_name(start: u32, end: u32, total: u32)
    ensures
        one_line(part_name(start, end, total)),
        unpadded(part_name(start, end, total)),
{
    reveal_strlit("bytes ");
    lemma_text("bytes ");
    let v = part_name(start, end, total);
    lemma_decimal(start as nat);
    lemma_decimal(end as nat);
    lemma_decimal(total as nat);
    lemma_digit_bytes(decimal(start as nat));
    lemma_digit_bytes(decimal(end as nat));
    lemma_digit_bytes(decimal(total as nat));
    let a = decimal(start as nat);
    let b = decimal(end as nat);
    let c = decimal(total as nat);
    assert forall|k: int| 0 <= k < v.len() implies v[k] != 0x0d by {
        if k < 6 {
            assert(v[k] == text("bytes ")[k]);
        } else if k < 6 + a.len() {
            assert(v[k] == a[k - 6]);
        } else if k == 6 + a.len() {
        } else if k < 7 + a.len() + b.len() {
            assert(v[k] == b[k - 7 - a.len()]);
        } else if k == 7 + a.len() + b.len() {
        } else {
            assert(v[k] == c[k - 8 - a.len() - b.len()]);
        }
    }
    assert(one_line(v)) by {
        assert forall|k: int| !#[trigger] crlf_at(v, k) by {}
    }
    assert(v[v.len() - 1] == c[c.len() - 1]);
    assert(v[0] == text("bytes ")[0]);
}

proof fn lemma_number_line(n: nat)
    ensures
        one_line(decimal(n)),
        unpadded(decimal(n)),
{
    let v = decimal(n);
    lemma_decimal(n);
    lemma_digit_bytes(v);
    assert(one_line(v)) by {
        assert forall|k: int| !#[trigger] crlf_at(v, k) by {}
    }
}

/// The fields of such a head, line by line.
pub open spec fn partial_fields(content_type: Seq<u8>, keepalive: bool, start: u32, end: u32, total: u32) -> Seq<u8> {
    field_line(
        text("Connection"),
        connection_word(keepalive),
    ) + (field_line(text("Content-Type"), content_type) + (field_line(
        text("Accept-Ranges"),
        text("bytes"),
    ) + (field_line(text("Content-Range"), part_name(start, end, total)) + (field_line(
        text("Content-Length"),
        decimal((end - start + 1) as nat),
    ) + seq![0x0du8, 0x0au8]))))
}

proof fn lemma_partial_literals()
    ensures
        ({
            let eol = seq![0x0du8, 0x0au8];
            let sep = seq![0x3au8, 0x20u8];
            &&& text("\r\nConnection: ") == eol + text("Connection") + sep
            &&& text("\r\nContent-Type: ") == eol + text("Content-Type") + sep
            &&& text("\r\nAccept-Ranges: bytes\r\nContent-Range: bytes ") == eol + text(
                "Accept-Ranges",
            ) + sep + text("bytes") + eol + text("Content-Range") + sep + text("bytes ")
            &&& text("\r\nContent-Length: ") == eol + text("Content-Length") + sep
            &&& text("\r\n\r\n") == eol + eol
            &&& text("-") == seq![0x2du8]
            &&& text("/") == seq![0x2fu8]
        }),
{
    reveal_strlit("\r\nConnection: ");
    reveal_strlit("\r\nContent-Type: ");
    reveal_strlit("\r\nAccept-Ranges: bytes\r\nContent-Range: bytes ");
    reveal_strlit("\r\nContent-Length: ");
    reveal_strlit("\r\n\r\n");
    reveal_strlit("-");
    reveal_strlit("/");
    reveal_strlit("Connection");
    reveal_strlit("Content-Type");
    reveal_strlit("Accept-Ranges");
    reveal_strlit("bytes");
    reveal_strlit("bytes ");
    reveal_strlit("Content-Range");
    reveal_strlit("Content-Length");
    lemma_text("\r\nConnection: ");
    lemma_text("\r\nContent-Type: ");
    lemma_text("\r\nAccept-Ranges: bytes\r\nContent-Range: bytes ");
    lemma_text("\r\nContent-Length: ");
    lemma_text("\r\n\r\n");
    lemma_text("-");
    lemma_text("/");
    lemma_text("Connection");
    lemma_text("Content-Type");
    lemma_text("Accept-Ranges");
    lemma_text("bytes");
    lemma_text("bytes ");
    lemma_text("Content-Range");
    lemma_text("Content-Length");
    let eol = seq![0x0du8, 0x0au8];
    let sep = seq![0x3au8, 0x20u8];
    assert(text("\r\nConnection: ") =~= eol + text("Connection") + sep);
    assert(text("\r\nContent-Type: ") =~= eol + text("Content-Type") + sep);
    assert(text("\r\nAccept-Ranges: bytes\r\nContent-Range: bytes ") =~= eol + text(
        "Accept-Ranges",
    ) + sep + text("bytes") + eol + text("Content-Range") + sep + text("bytes "));
    assert(text("\r\nContent-Length: ") =~= eol + text("Content-Length") + sep);
    assert(text("\r\n\r\n") =~= eol + eol);
    assert(text("-") =~= seq![0x2du8]);
    assert(text("/") =~= seq![0x2fu8]);
}

proof fn lemma_joined(a: Seq<u8>, name: Seq<u8>, value: Seq<u8>, rest: Seq<u8>)
    ensures
        ({
            let eol = seq![0x0du8, 0x0au8];
            let sep = seq![0x3au8, 0x20u8];
            a + (eol + name + sep) + value + (eol + rest) == a + eol + (field_line(name, value)
                + rest)
        }),
{
    let eol = seq![0x0du8, 0x0au8];
    let sep = seq![0x3au8, 0x20u8];
    assert(a + (eol + name + sep) + value + (eol + rest) =~= a + eol + (field_line(name, value)
        + rest));
}

proof fn lemma_partial_front(a: Seq<u8>, w: Seq<u8>, ct: Seq<u8>, rest: Seq<u8>)
    ensures
        ({
            let eol = seq![0x0du8, 0x0au8];
            let sep = seq![0x3au8, 0x20u8];
            a + (eol + text("Connection") + sep) + w + (eol + text("Content-Type") + sep) + ct + (eol
                + rest) == a + eol + (field_line(text("Connection"), w) + (field_line(
                text("Content-Type"),
                ct,
            ) + rest))
        }),
{
    let eol = seq![0x0du8, 0x0au8];
    let sep = seq![0x3au8, 0x20u8];
    let x = a + (eol + text("Connection") + sep) + w;
    lemma_joined(x, text("Content-Type"), ct, rest);
    let more = field_line(text("Content-Type"), ct) + rest;
    lemma_joined(a, text("Connection"), w, more);
    assert(x + eol + more =~= x + (eol + more));
}

proof fn lemma_partial_back(v: Seq<u8>, d: Seq<u8>)
    ensures
        ({
            let eol = seq![0x0du8, 0x0au8];
            let sep = seq![0x3au8, 0x20u8];
            eol + text("Accept-Ranges") + sep + text("bytes") + eol + text("Content-Range") + sep + v
                + (eol + text("Content-Length") + sep) + d + (eol + eol) == eol + (field_line(
                text("Accept-Ranges"),
                text("bytes"),
            ) + (field_line(text("Content-Range"), v) + (field_line(text("Content-Length"), d)
                + eol)))
        }),
{
    let eol = seq![0x0du8, 0x0au8];
    let sep = seq![0x3au8, 0x20u8];
    let none = Seq::<u8>::empty();
    let r2 = field_line(text("Content-Length"), d) + eol;
    let r1 = field_line(text("Content-Range"), v) + r2;
    lemma_joined(none, text("Accept-Ranges"), text("bytes"), r1);
    let x = none + (eol + text("Accept-Ranges") + sep) + text("bytes");
    lemma_joined(x, text("Content-Range"), v, r2);
    let y = x + (eol + text("Content-Range") + sep) + v;
    lemma_joined(y, text("Content-Length"), d, eol);
    assert(y + eol + r2 =~= y + (eol + r2));
    assert(x + eol + r1 =~= x + (eol + r1));
    assert(none + eol =~= eol);
    assert(y =~= eol + text("Accept-Ranges") + sep + text("bytes") + eol + text("Content-Range")
        + sep + v);
}

proof fn lemma_partial_lines(
    content_type: Seq<u8>,
    keepalive: bool,
    start: u32,
    end: u32,
    total: u32,
)
    requires
        status_fields(text("206 Partial Content"), content_type, keepalive).len() + 4 <= SEND_BUF_SIZE,
    ensures
        partial_head(content_type, keepalive, start, end, total) == text("HTTP/1.1 ") + text(
            "206 Partial Content",
        ) + seq![0x0du8, 0x0au8] + partial_fields(content_type, keepalive, start, end, total),
{
    law_fitting_head_is_whole(text("206 Partial Content"), content_type, keepalive);
    lemma_partial_literals();
    let eol = seq![0x0du8, 0x0au8];
    let sep = seq![0x3au8, 0x20u8];
    let s0 = text("HTTP/1.1 ") + text("206 Partial Content");
    let w = connection_word(keepalive);
    let a = decimal(start as nat);
    let b = decimal(end as nat);
    let c = decimal(total as nat);
    let d = decimal((end - start + 1) as nat);
    let v = part_name(start, end, total);
    lemma_partial_back(v, d);
    let back = field_line(text("Accept-Ranges"), text("bytes")) + (field_line(
        text("Content-Range"),
        v,
    ) + (field_line(text("Content-Length"), d) + eol));
    lemma_partial_front(s0, w, content_type, back);
    let open = s0 + (eol + text("Connection") + sep) + w + (eol + text("Content-Type") + sep)
        + content_type;
    let ranges = eol + text("Accept-Ranges") + sep + text("bytes") + eol + text("Content-Range")
        + sep;
    let size = eol + text("Content-Length") + sep;
    lemma_part_joined(open, ranges, a, b, c, size, d, eol + eol);
    assert(ranges + text("bytes ") =~= eol + text("Accept-Ranges") + sep + text("bytes") + eol
        + text("Content-Range") + sep + text("bytes "));
}

proof fn lemma_part_joined(
    open: Seq<u8>,
    ranges: Seq<u8>,
    a: Seq<u8>,
    b: Seq<u8>,
    c: Seq<u8>,
    size: Seq<u8>,
    d: Seq<u8>,
    done: Seq<u8>,
)
    ensures
        open + (ranges + text("bytes ")) + a + seq![0x2du8] + b + seq![0x2fu8] + c + size + d + done
            == open + (ranges + (text("bytes ") + a + seq![0x2du8] + b + seq![0x2fu8] + c) + size + d
            + done),
{
    let v = text("bytes ") + a + seq![0x2du8] + b + seq![0x2fu8] + c;
    assert(open + (ranges + text("bytes ")) + a + seq![0x2du8] + b + seq![0x2fu8] + c =~= open + (
    ranges + v));
    assert(open + (ranges + v) + size + d + done =~= open + (ranges + v + size + d + done));
}

proof fn lemma_partial_values(
    content_type: Seq<u8>,
    keepalive: bool,
    start: u32,
    end: u32,
    total: u32,
    asked: Seq<u8>,
)
    requires
        start <= end < total,
        one_line(content_type),
        unpadded(content_type),
    ensures
        field_values(
            text("HTTP/1.1 ") + text("206 Partial Content") + seq![0x0du8, 0x0au8]
                + partial_fields(content_type, keepalive, start, end, total),
            asked,
        ) == given(text("Connection"), connection_word(keepalive), asked) + (given(
            text("Content-Type"),
            content_type,
            asked,
        ) + (given(text("Accept-Ranges"), text("bytes"), asked) + (given(
            text("Content-Range"),
            part_name(start, end, total),
            asked,
        ) + (given(text("Content-Length"), decimal((end - start + 1) as nat), asked) + Seq::<
            Seq<u8>,
        >::empty())))),
{
    lemma_plain_words();
    lemma_part_name(start, end, total);
    lemma_number_line((end - start + 1) as nat);
    let eol = seq![0x0du8, 0x0au8];
    let first = text("HTTP/1.1 ") + text("206 Partial Content");
    lemma_plain_line(text("HTTP/1.1 "), text("206 Partial Content"));
    let r5 = eol;
    let r4 = field_line(text("Content-Length"), decimal((end - start + 1) as nat)) + r5;
    let r3 = field_line(text("Content-Range"), part_name(start, end, total)) + r4;
    let r2 = field_line(text("Accept-Ranges"), text("bytes")) + r3;
    let r1 = field_line(text("Content-Type"), content_type) + r2;
    lemma_field_line_read(first, text("Connection"), connection_word(keepalive), r1, asked);
    lemma_field_line_read(first, text("Content-Type"), content_type, r2, asked);
    lemma_field_line_read(first, text("Accept-Ranges"), text("bytes"), r3, asked);
    lemma_field_line_read(first, text("Content-Range"), part_name(start, end, total), r4, asked);
    lemma_field_line_read(
        first,
        text("Content-Length"),
        decimal((end - start + 1) as nat),
        r5,
        asked,
    );
    law_empty_line_ends_the_fields(first, Seq::empty(), asked);
    assert(eol + Seq::<u8>::empty() =~= eol);
}

/// What a field gives one who asks for a name.
pub open spec fn given(name: Seq<u8>, value: Seq<u8>, asked: Seq<u8>) -> Seq<Seq<u8>> {
    if same_ci(name, asked) {
        seq![value]
    } else {
        Seq::empty()
    }
}

/// Whether a text is a line without a colon.
pub open spec fn plain_word(s: Seq<u8>) -> bool {
    &&& one_line(s)
    &&& unpadded(s)
    &&& !s.contains(0x3a)
    &&& forall|i: int| 0 <= i < s.len() ==> #[trigger] s[i] != 0x0d
}

proof fn lemma_plain_word(s: Seq<u8>)
    requires
        unpadded(s),
        forall|i: int| 0 <= i < s.len() ==> #[trigger] s[i] != 0x0d && s[i] != 0x3a,
    ensures
        plain_word(s),
{
    assert forall|k: int| !#[trigger] crlf_at(s, k) by {}
}

proof fn lemma_plain_words()
    ensures
        plain_word(text("Connection")),
        plain_word(text("Content-Type")),
        plain_word(text("Accept-Ranges")),
        plain_word(text("Content-Range")),
        plain_word(text("Content-Length")),
        plain_word(text("bytes")),
        plain_word(text("close")),
        plain_word(text("keep-alive")),
        plain_word(text("206 Partial Content")),
        forall|i: int| 0 <= i < text("HTTP/1.1 ").len() ==> #[trigger] text("HTTP/1.1 ")[i] != 0x0d,
{
    reveal_strlit("HTTP/1.1 ");
    reveal_strlit("Connection");
    reveal_strlit("Content-Type");
    reveal_strlit("Accept-Ranges");
    reveal_strlit("Content-Range");
    reveal_strlit("Content-Length");
    reveal_strlit("bytes");
    reveal_strlit("close");
    reveal_strlit("keep-alive");
    reveal_strlit("206 Partial Content");
    lemma_text("HTTP/1.1 ");
    lemma_text("Connection");
    lemma_text("Content-Type");
    lemma_text("Accept-Ranges");
    lemma_text("Content-Range");
    lemma_text("Content-Length");
    lemma_text("bytes");
    lemma_text("close");
    lemma_text("keep-alive");
    lemma_text("206 Partial Content");
    lemma_plain_word(text("Connection"));
    lemma_plain_word(text("Content-Type"));
    lemma_plain_word(text("Accept-Ranges"));
    lemma_plain_word(text("Content-Range"));
    lemma_plain_word(text("Content-Length"));
    lemma_plain_word(text("bytes"));
    lemma_plain_word(text("close"));
    lemma_plain_word(text("keep-alive"));
    lemma_plain_word(text("206 Partial Content"));
}

/// The names of the fields of such a head are their own in lower case, and no other's.
proof fn lemma_names_apart()
    ensures
        same_ci(text("Connection"), text("connection")),
        same_ci(text("Content-Type"), text("content-type")),
        same_ci(text("Content-Range"), text("content-range")),
        same_ci(text("Content-Length"), text("content-length")),
        text("Connection").len() == 10 && text("connection").len() == 10,
        text("Content-Type").len() == 12 && text("content-type").len() == 12,
        text("Accept-Ranges").len() == 13 && text("content-range").len() == 13,
        text("Content-Range").len() == 13,
        text("Content-Length").len() == 14 && text("content-length").len() == 14,
        !same_ci(text("Accept-Ranges"), text("content-range")),
{
    reveal_strlit("Connection");
    reveal_strlit("Content-Type");
    reveal_strlit("Accept-Ranges");
    reveal_strlit("Content-Range");
    reveal_strlit("Content-Length");
    reveal_strlit("connection");
    reveal_strlit("content-type");
    reveal_strlit("content-range");
    reveal_strlit("content-length");
    lemma_text("Connection");
    lemma_text("Content-Type");
    lemma_text("Accept-Ranges");
    lemma_text("Content-Range");
    lemma_text("Content-Length");
    lemma_text("connection");
    lemma_text("content-type");
    lemma_text("content-range");
    lemma_text("content-length");
    assert(crate::bytes::lower(text("Accept-Ranges")[0]) != crate::bytes::lower(
        text("content-range")[0],
    ));
}

// ── Where a head ends ───────────────────────────────────────────────────

/// Lines with their line ends.
pub open spec fn lines_of(lines: Seq<Seq<u8>>) -> Seq<u8>
    decreases lines.len(),
{
    if lines.len() == 0 {
        Seq::empty()
    } else {
        lines[0] + seq![0x0du8, 0x0au8] + lines_of(lines.skip(1))
    }
}

proof fn lemma_head_after(pre: Seq<u8>, lines: Seq<Seq<u8>>, body: Seq<u8>)
    requires
        lines.len() > 0,
        forall|i: int| 0 <= i < lines.len() ==> one_line(#[trigger] lines[i]) && lines[i].len() > 0,
    ensures
        head_len(pre + lines_of(lines) + seq![0x0du8, 0x0au8] + body, pre.len() as int) == Some(
            (pre.len() + lines_of(lines).len() + 2) as int,
        ),
    decreases lines.len(),
{
    let eol = seq![0x0du8, 0x0au8];
    let s = pre + lines_of(lines) + eol + body;
    let l = lines[0];
    let more = lines_of(lines.skip(1)) + eol + body;
    assert(one_line(l) && l.len() > 0);
    lemma_line_in(pre, l, more);
    assert(s =~= pre + l + eol + more);
    lemma_head_goes_on(s, pre.len() as int);
    let e = (pre.len() + l.len()) as int;
    if lines.len() == 1 {
        assert(lines.skip(1).len() == 0);
        assert(s[e + 2] == more[0] && s[e + 3] == more[1]);
        assert(crlf_at(s, e + 2));
    } else {
        let rest = lines.skip(1);
        assert(forall|i: int| 0 <= i < rest.len() ==> rest[i] == lines[i + 1]);
        let next = pre + l + eol;
        lemma_head_after(next, rest, body);
        assert(s =~= next + lines_of(rest) + eol + body);
        let k = rest[0];
        assert(one_line(k) && k.len() > 0);
        lemma_line_in(next, k, lines_of(rest.skip(1)) + eol + body);
        assert(s =~= next + k + eol + (lines_of(rest.skip(1)) + eol + body));
        lemma_line_end(s, e + 2);
        assert(line_end(s, e + 2) > e + 2);
        assert(!crlf_at(s, e + 2));
    }
}

/// A head is its lines, and ends behind the first empty one; what follows is the body,
/// whatever it holds.
pub proof fn law_head_ends_at_its_empty_line(lines: Seq<Seq<u8>>, body: Seq<u8>)
    requires
        lines.len() > 0,
        forall|i: int| 0 <= i < lines.len() ==> one_line(#[trigger] lines[i]) && lines[i].len() > 0,
    ensures
        head_len(lines_of(lines) + seq![0x0du8, 0x0au8] + body, 0) == Some(
            (lines_of(lines).len() + 2) as int,
        ),
{
    lemma_head_after(Seq::empty(), lines, body);
    assert(Seq::<u8>::empty() + lines_of(lines) =~= lines_of(lines));
}

/// A client that waits says so with `Expect: 100-continue`, in any case of letters; another
/// expectation is none, and nothing said is none.
pub proof fn law_waiting_client_says_so(first: Seq<u8>, name: Seq<u8>, value: Seq<u8>)
    requires
        one_line(first),
        one_line(value),
        plain_word(name),
        unpadded(value),
    ensures
        ({
            let eol = seq![0x0du8, 0x0au8];
            waits_for_continue(first + eol + (field_line(name, value) + eol)) <==> same_ci(
                name,
                text("expect"),
            ) && same_ci(value, text("100-continue"))
        }),
{
    let eol = seq![0x0du8, 0x0au8];
    let asked = text("expect");
    lemma_field_line_read(first, name, value, eol, asked);
    law_empty_line_ends_the_fields(first, Seq::empty(), asked);
    assert(eol + Seq::<u8>::empty() =~= eol);
    let none = Seq::<Seq<u8>>::empty();
    assert(seq![value] + none =~= seq![value]);
    assert(none + none =~= none);
    if same_ci(name, asked) {
        assert(seq![value][0] == value);
    }
}

// ── Whole files and refusals ────────────────────────────────────────────

/// The fields of the head of a whole file, line by line.
pub open spec fn file_fields(content_type: Seq<u8>, keepalive: bool, size: u32) -> Seq<u8> {
    field_line(text("Connection"), connection_word(keepalive)) + (field_line(
        text("Content-Type"),
        content_type,
    ) + (field_line(text("Accept-Ranges"), text("bytes")) + (field_line(
        text("Content-Length"),
        decimal(size as nat),
    ) + seq![0x0du8, 0x0au8])))
}

proof fn lemma_file_back(d: Seq<u8>)
    ensures
        ({
            let eol = seq![0x0du8, 0x0au8];
            text("\r\nAccept-Ranges: bytes\r\nContent-Length: ") + d + (eol + eol) == eol + (
            field_line(text("Accept-Ranges"), text("bytes")) + (field_line(
                text("Content-Length"),
                d,
            ) + eol))
        }),
{
    reveal_strlit("\r\nAccept-Ranges: bytes\r\nContent-Length: ");
    reveal_strlit("Accept-Ranges");
    reveal_strlit("bytes");
    reveal_strlit("Content-Length");
    lemma_text("\r\nAccept-Ranges: bytes\r\nContent-Length: ");
    lemma_text("Accept-Ranges");
    lemma_text("bytes");
    lemma_text("Content-Length");
    let eol = seq![0x0du8, 0x0au8];
    let sep = seq![0x3au8, 0x20u8];
    let none = Seq::<u8>::empty();
    let both = eol + text("Accept-Ranges") + sep + text("bytes") + (eol + text("Content-Length")
        + sep);
    assert(text("\r\nAccept-Ranges: bytes\r\nContent-Length: ") =~= both);
    let r2 = field_line(text("Content-Length"), d) + eol;
    lemma_joined(none, text("Accept-Ranges"), text("bytes"), r2);
    let x = none + (eol + text("Accept-Ranges") + sep) + text("bytes");
    lemma_joined(x, text("Content-Length"), d, eol);
    assert(x + eol + r2 =~= x + (eol + r2));
    assert(none + eol =~= eol);
    assert(x =~= eol + text("Accept-Ranges") + sep + text("bytes"));
}

proof fn lemma_file_lines(status: Seq<u8>, content_type: Seq<u8>, keepalive: bool, size: u32)
    requires
        status_fields(status, content_type, keepalive).len() + 4 <= SEND_BUF_SIZE,
    ensures
        file_head(status, content_type, keepalive, size) == text("HTTP/1.1 ") + status + seq![
            0x0du8,
            0x0au8,
        ] + file_fields(content_type, keepalive, size),
{
    law_fitting_head_is_whole(status, content_type, keepalive);
    lemma_partial_literals();
    let eol = seq![0x0du8, 0x0au8];
    let d = decimal(size as nat);
    lemma_file_back(d);
    let back = field_line(text("Accept-Ranges"), text("bytes")) + (field_line(
        text("Content-Length"),
        d,
    ) + eol);
    let s0 = text("HTTP/1.1 ") + status;
    lemma_partial_front(s0, connection_word(keepalive), content_type, back);
    let open = status_fields(status, content_type, keepalive);
    let mid = text("\r\nAccept-Ranges: bytes\r\nContent-Length: ");
    assert(open + mid + d + (eol + eol) =~= open + (mid + d + (eol + eol)));
}

proof fn lemma_file_values(
    status: Seq<u8>,
    content_type: Seq<u8>,
    keepalive: bool,
    size: u32,
    asked: Seq<u8>,
)
    requires
        one_line(status),
        one_line(content_type),
        unpadded(content_type),
    ensures
        field_values(
            text("HTTP/1.1 ") + status + seq![0x0du8, 0x0au8] + file_fields(
                content_type,
                keepalive,
                size,
            ),
            asked,
        ) == given(text("Connection"), connection_word(keepalive), asked) + (given(
            text("Content-Type"),
            content_type,
            asked,
        ) + (given(text("Accept-Ranges"), text("bytes"), asked) + (given(
            text("Content-Length"),
            decimal(size as nat),
            asked,
        ) + Seq::<Seq<u8>>::empty()))),
{
    lemma_plain_words();
    lemma_number_line(size as nat);
    let eol = seq![0x0du8, 0x0au8];
    let first = text("HTTP/1.1 ") + status;
    lemma_plain_line(text("HTTP/1.1 "), status);
    let r4 = eol;
    let r3 = field_line(text("Content-Length"), decimal(size as nat)) + r4;
    let r2 = field_line(text("Accept-Ranges"), text("bytes")) + r3;
    let r1 = field_line(text("Content-Type"), content_type) + r2;
    lemma_field_line_read(first, text("Connection"), connection_word(keepalive), r1, asked);
    lemma_field_line_read(first, text("Content-Type"), content_type, r2, asked);
    lemma_field_line_read(first, text("Accept-Ranges"), text("bytes"), r3, asked);
    lemma_field_line_read(first, text("Content-Length"), decimal(size as nat), r4, asked);
    law_empty_line_ends_the_fields(first, Seq::empty(), asked);
    assert(eol + Seq::<u8>::empty() =~= eol);
}

/// The head of a whole file states its length, its type, that ranges of it can be asked for,
/// and whether the connection stays.
pub proof fn law_file_head_states_its_length(
    status: Seq<u8>,
    content_type: Seq<u8>,
    keepalive: bool,
    size: u32,
)
    requires
        one_line(status),
        one_line(content_type),
        unpadded(content_type),
        status_fields(status, content_type, keepalive).len() + 4 <= SEND_BUF_SIZE,
    ensures
        ({
            let head = file_head(status, content_type, keepalive, size);
            &&& field_values(head, text("content-length")) == seq![decimal(size as nat)]
            &&& field_values(head, text("content-type")) == seq![content_type]
            &&& field_values(head, text("accept-ranges")) == seq![text("bytes")]
            &&& field_values(head, text("connection")) == seq![
                if keepalive {
                    text("keep-alive")
                } else {
                    text("close")
                },
            ]
        }),
{
    let head = file_head(status, content_type, keepalive, size);
    lemma_file_lines(status, content_type, keepalive, size);
    lemma_names_apart();
    lemma_accept_ranges();
    assert(field_values(head, text("content-length")) == seq![decimal(size as nat)]) by {
        lemma_file_values(status, content_type, keepalive, size, text("content-length"));
    }
    assert(field_values(head, text("content-type")) == seq![content_type]) by {
        lemma_file_values(status, content_type, keepalive, size, text("content-type"));
    }
    assert(field_values(head, text("accept-ranges")) == seq![text("bytes")]) by {
        lemma_file_values(status, content_type, keepalive, size, text("accept-ranges"));
    }
    assert(field_values(head, text("connection")) == seq![connection_word(keepalive)]) by {
        lemma_file_values(status, content_type, keepalive, size, text("connection"));
    }
}

proof fn lemma_accept_ranges()
    ensures
        same_ci(text("Accept-Ranges"), text("accept-ranges")),
        text("accept-ranges").len() == 13,
{
    reveal_strlit("Accept-Ranges");
    reveal_strlit("accept-ranges");
    lemma_text("Accept-Ranges");
    lemma_text("accept-ranges");
}

/// A refusal is a whole response: a reader finds its text right behind its head, as far as
/// the end of the connection.
pub proof fn law_refusal_is_a_whole_response(code: Seq<u8>, body: Seq<u8>)
    requires
        one_line(code),
        status_fields(code, text("text/plain"), false).len() + 4 <= SEND_BUF_SIZE,
    ensures
        ({
            let r = error_response(code, body);
            &&& head_len(r, 0) is Some
            &&& r.skip(head_len(r, 0)->0) == body
            &&& r.take(9) == text("HTTP/1.1 ")
            &&& r.subrange(9, 9 + code.len() as int) == code
        }),
{
    reveal_strlit("text/plain");
    lemma_text("text/plain");
    lemma_plain_word(text("text/plain"));
    law_body_follows_its_head(code, text("text/plain"), false, None, body);
    let head = closing_head(code, text("text/plain"));
    let r = error_response(code, body);
    assert(r =~= head + body);
    reveal_strlit("HTTP/1.1 ");
    lemma_text("HTTP/1.1 ");
    assert(r.take(9) =~= text("HTTP/1.1 "));
    assert(r.subrange(9, 9 + code.len() as int) =~= code);
}

// ── The end of a chunked body ───────────────────────────────────────────

/// Behind the last chunk every line that is not empty is a trailer and is passed over; the
/// first empty one ends the body, and what follows it is left for the next request.
pub proof fn law_trailers_are_passed_over(m: BodyModel, line: Seq<u8>, rest: Seq<u8>, limit: u32, room: nat)
    requires
        m.state is Trailer,
        one_line(line),
    ensures
        line.len() > 0 ==> chunk_move(
            BodyModel { wire: line + seq![0x0du8, 0x0au8] + rest, ..m },
            limit,
            room,
        ) == (BodyModel { wire: rest, ..m }, None::<BodyStep>),
        chunk_move(BodyModel { wire: seq![0x0du8, 0x0au8] + rest, ..m }, limit, room) == (
            BodyModel { wire: rest, ..m },
            Some(BodyStep::Done),
        ),
{
    let eol = seq![0x0du8, 0x0au8];
    let a = eol + rest;
    assert(crlf_at(a, 0));
    assert(a.skip(2) =~= rest);
    let b = line + eol + rest;
    lemma_line_in(Seq::empty(), line, rest);
    assert(Seq::<u8>::empty() + line + eol + rest =~= b);
    if line.len() > 0 {
        lemma_line_end(b, 0);
        assert(!crlf_at(b, 0));
        assert(b.skip(line.len() as int + 2) =~= rest);
    }
}

/// Behind the data of a chunk stands a line end, and nothing else will do.
pub proof fn law_chunk_data_ends_with_its_line(m: BodyModel, a: u8, b: u8, rest: Seq<u8>, limit: u32, room: nat)
    requires
        m.state is LineEnd,
    ensures
        ({
            let (n, step) = chunk_move(BodyModel { wire: seq![a, b] + rest, ..m }, limit, room);
            if a == 0x0d && b == 0x0a {
                step is None && n.wire == rest && n.state is Size && n.body == m.body
            } else {
                step == Some(BodyStep::Bad)
            }
        }),
{
    let s = seq![a, b] + rest;
    assert(s[0] == a && s[1] == b);
    assert(s.skip(2) =~= rest);
}

// ── Hearing a request ───────────────────────────────────────────────────

/// The 24 bytes that a client of HTTP/2 begins with are taken for nothing else, and nothing
/// else is taken for them.
pub proof fn law_http2_begins_with_its_preface(buf: Seq<u8>)
    ensures
        heard(buf, false) is Preface <==> buf.len() >= 24 && buf.take(24) == seq![
            0x50u8, 0x52, 0x49, 0x20, 0x2a, 0x20, 0x48, 0x54, 0x54, 0x50, 0x2f, 0x32, 0x2e, 0x30,
            0x0d, 0x0a, 0x0d, 0x0a, 0x53, 0x4d, 0x0d, 0x0a, 0x0d, 0x0a,
        ],
{
    lemma_preface();
    let p = preface();
    if buf.len() >= 24 && buf.take(24) == p {
        assert(p.is_prefix_of(buf)) by {
            assert(buf.subrange(0, 24) =~= buf.take(24));
        }
    }
    if p.is_prefix_of(buf) {
        assert(buf.take(24) =~= buf.subrange(0, 24));
    }
}

proof fn lemma_preface()
    ensures
        preface() == seq![
            0x50u8, 0x52, 0x49, 0x20, 0x2a, 0x20, 0x48, 0x54, 0x54, 0x50, 0x2f, 0x32, 0x2e, 0x30,
            0x0d, 0x0a, 0x0d, 0x0a, 0x53, 0x4d, 0x0d, 0x0a, 0x0d, 0x0a,
        ],
{
    reveal_strlit("PRI * HTTP/2.0\r\n\r\nSM\r\n\r\n");
    lemma_text("PRI * HTTP/2.0\r\n\r\nSM\r\n\r\n");
    assert(preface() =~= seq![
        0x50u8, 0x52, 0x49, 0x20, 0x2a, 0x20, 0x48, 0x54, 0x54, 0x50, 0x2f, 0x32, 0x2e, 0x30, 0x0d,
        0x0a, 0x0d, 0x0a, 0x53, 0x4d, 0x0d, 0x0a, 0x0d, 0x0a,
    ]);
}

/// A request whose head is there is heard as that head, and its body is left alone. A method
/// that is none of those known is refused as soon as the request line is there.
pub proof fn law_whole_head_is_heard(
    token: Seq<u8>,
    target: Seq<u8>,
    version: Seq<u8>,
    fields: Seq<Seq<u8>>,
    body: Seq<u8>,
)
    requires
        is_word(token) && is_word(target) && is_word(version),
        target.len() <= 200,
        forall|i: int| 0 <= i < fields.len() ==> one_line(#[trigger] fields[i]) && fields[i].len() > 0,
        one_line(token + seq![0x20u8] + target + seq![0x20u8] + version),
        token[0] != 0x50 || (token.len() >= 2 && token[1] != 0x52 && token.len() + target.len()
            + version.len() >= 20),
    ensures
        ({
            let eol = seq![0x0du8, 0x0au8];
            let first = token + seq![0x20u8] + target + seq![0x20u8] + version;
            let head = first + eol + (lines_of(fields) + eol);
            &&& method_of(token) != 0 ==> heard(head + body, false) == Heard::Head(
                head.len() as int,
            )
            &&& method_of(token) == 0 ==> heard(first + eol + body, false) is Unimplemented
        }),
{
    let eol = seq![0x0du8, 0x0au8];
    let first = token + seq![0x20u8] + target + seq![0x20u8] + version;
    let head = first + eol + (lines_of(fields) + eol);
    let buf = head + body;
    lemma_preface();
    assert(first[0] == token[0]);
    let rest = lines_of(fields) + eol + body;
    law_request_line_reads_back(token, target, version, rest);
    assert(buf =~= first + eol + rest);
    assert(buf[0] == token[0]);
    lemma_line_in(Seq::empty(), first, rest);
    assert(Seq::<u8>::empty() + first + eol + rest =~= buf);
    let lines = seq![first] + fields;
    assert forall|i: int| 0 <= i < lines.len() implies one_line(#[trigger] lines[i])
        && lines[i].len() > 0 by {
        if i > 0 {
            assert(lines[i] == fields[i - 1]);
            assert(one_line(fields[i - 1]));
        }
    }
    law_head_ends_at_its_empty_line(lines, body);
    assert(lines.skip(1) =~= fields);
    assert(lines_of(lines) =~= first + eol + lines_of(fields));
    assert(lines_of(lines) + eol + body =~= buf);
    let other = first + eol + body;
    law_request_line_reads_back(token, target, version, body);
    lemma_line_in(Seq::empty(), first, body);
    assert(Seq::<u8>::empty() + first + eol + body =~= other);
    assert(other[0] == token[0]);
    if token.len() >= 2 {
        assert(first[1] == token[1]);
        assert(buf[1] == token[1] && other[1] == token[1]);
    }
    if preface().is_prefix_of(buf) {
        assert(buf[0] == preface()[0] && buf[1] == preface()[1]);
    }
    if preface().is_prefix_of(other) {
        assert(other[0] == preface()[0] && other[1] == preface()[1]);
    }
}

// ── What a request asks for ─────────────────────────────────────────────

/// Of a field that comes more than once the first counts, and a name is found in any case of
/// letters.
pub proof fn law_first_field_counts(
    first: Seq<u8>,
    name: Seq<u8>,
    value: Seq<u8>,
    rest: Seq<u8>,
    asked: Seq<u8>,
)
    requires
        one_line(first),
        one_line(value),
        plain_word(name),
        unpadded(value),
    ensures
        ({
            let eol = seq![0x0du8, 0x0au8];
            header_of(first + eol + (field_line(name, value) + rest), asked) == (if same_ci(
                name,
                asked,
            ) {
                Some(value)
            } else {
                header_of(first + eol + rest, asked)
            })
        }),
{
    let eol = seq![0x0du8, 0x0au8];
    lemma_field_line_read(first, name, value, rest, asked);
    let more = field_values(first + eol + rest, asked);
    assert(Seq::<Seq<u8>>::empty() + more =~= more);
    assert((seq![value] + more)[0] == value);
}

/// The host of a request is what its `Host` field says.
pub proof fn law_host_is_what_its_field_says(first: Seq<u8>, value: Seq<u8>, rest: Seq<u8>)
    requires
        one_line(first),
        one_line(value),
        unpadded(value),
    ensures
        host_of(
            first + seq![0x0du8, 0x0au8] + (field_line(seq![0x68u8, 0x6f, 0x73, 0x74], value) + rest),
        ) == value,
        host_of(first + seq![0x0du8, 0x0au8] + (seq![0x0du8, 0x0au8] + rest)) == Seq::<u8>::empty(),
{
    reveal_strlit("Host");
    lemma_text("Host");
    let name = seq![0x68u8, 0x6f, 0x73, 0x74];
    lemma_plain_word(name);
    assert(same_ci(name, text("Host")));
    law_first_field_counts(first, name, value, rest, text("Host"));
    law_empty_line_ends_the_fields(first, rest, text("Host"));
}

/// A range is asked for in the `Range` field of the request at hand, and only there.
pub proof fn law_range_is_asked_in_its_field(
    slot: ConnSlot,
    first: Seq<u8>,
    value: Seq<u8>,
    rest: Seq<u8>,
    size: u32,
)
    requires
        one_line(first),
        one_line(value),
        unpadded(value),
        slot.rx.head_end == 0,
    ensures
        slot.rx.buf@ == first + seq![0x0du8, 0x0au8] + (field_line(
            seq![0x72u8, 0x61, 0x6e, 0x67, 0x65],
            value,
        ) + rest) ==> asked_range(slot, size) == range_of(value, size),
        slot.rx.buf@ == first + seq![0x0du8, 0x0au8] + (seq![0x0du8, 0x0au8] + rest) ==> asked_range(
            slot,
            size,
        ) is Whole,
{
    reveal_strlit("Range");
    lemma_text("Range");
    let name = seq![0x72u8, 0x61, 0x6e, 0x67, 0x65];
    lemma_plain_word(name);
    assert(same_ci(name, text("Range")));
    law_first_field_counts(first, name, value, rest, text("Range"));
    law_empty_line_ends_the_fields(first, rest, text("Range"));
}

/// An application is handed the field lines of a request as they came: what stands behind the
/// request line, without the empty line at the end.
pub proof fn law_app_is_handed_the_fields(first: Seq<u8>, fields: Seq<Seq<u8>>)
    requires
        one_line(first),
        fields.len() > 0,
        fields[0].len() > 0,
    ensures
        block_of(first + seq![0x0du8, 0x0au8] + lines_of(fields) + seq![0x0du8, 0x0au8]) == lines_of(
            fields,
        ),
{
    let eol = seq![0x0du8, 0x0au8];
    let head = first + eol + lines_of(fields) + eol;
    let rest = lines_of(fields) + eol;
    lemma_line_in(Seq::empty(), first, rest);
    assert(Seq::<u8>::empty() + first + eol + rest =~= head);
    assert(lines_of(fields).len() > 0);
    assert(head.subrange(first.len() as int + 2, head.len() - 2) =~= lines_of(fields));
}

/// A file has the type its route names, else the one its name shows, else none in particular.
pub proof fn law_file_has_its_type(route_type: Seq<u8>, path: Seq<u8>)
    ensures
        route_type.len() > 0 ==> file_type(route_type, path) == route_type,
        route_type.len() == 0 && type_of_path(path) is Some ==> Some(file_type(route_type, path))
            == type_of_path(path),
        route_type.len() == 0 && type_of_path(path) is None ==> file_type(route_type, path) == text(
            "application/octet-stream",
        ),
{
}

// ── Forwarded requests ──────────────────────────────────────────────────

/// A backend is told the client's address in dotted decimal, behind what other proxies have
/// said, and keeps every other field.
pub proof fn law_backend_is_told_the_client(head: Seq<u8>, a: u8, b: u8, c: u8, d: u8, other: Seq<u8>)
    requires
        head_len(head, 0) == Some(head.len() as int),
        !same_ci(text("X-Forwarded-For"), other),
    ensures
        ({
            let ip = (0x100_0000 * a + 0x1_0000 * b + 0x100 * c + d) as u32;
            let dot = seq![0x2eu8];
            let told = forward_head(head, ip);
            &&& field_values(told, text("X-Forwarded-For")) == field_values(
                head,
                text("X-Forwarded-For"),
            ).push(
                decimal(a as nat) + dot + decimal(b as nat) + dot + decimal(c as nat) + dot + decimal(
                    d as nat,
                ),
            )
            &&& field_values(told, other) == field_values(head, other)
        }),
{
    let ip = (0x100_0000 * a + 0x1_0000 * b + 0x100 * c + d) as u32;
    let name = text("X-Forwarded-For");
    let v = ipv4_text(ip);
    law_address_is_dotted(a, b, c, d);
    lemma_address_ends(a, b, c, d);
    law_forwarded_head_adds_one_field(head, ip, name);
    law_forwarded_head_adds_one_field(head, ip, other);
    lemma_forwarded_line(v, name);
    lemma_forwarded_line(v, other);
    assert(same_ci(name, name));
    let have = field_values(head, name);
    assert(have + seq![v] =~= have.push(v));
    let kept = field_values(head, other);
    assert(kept + Seq::<Seq<u8>>::empty() =~= kept);
}

proof fn lemma_address_ends(a: u8, b: u8, c: u8, d: u8)
    ensures
        ({
            let dot = seq![0x2eu8];
            unpadded(
                decimal(a as nat) + dot + decimal(b as nat) + dot + decimal(c as nat) + dot + decimal(
                    d as nat,
                ),
            )
        }),
{
    let x = decimal(a as nat);
    let y = decimal(d as nat);
    lemma_decimal(a as nat);
    lemma_decimal(d as nat);
    lemma_digit_bytes(x);
    lemma_digit_bytes(y);
    let dot = seq![0x2eu8];
    let s = x + dot + decimal(b as nat) + dot + decimal(c as nat) + dot + y;
    assert(s[0] == x[0]);
    assert(s[s.len() - 1] == y[y.len() - 1]);
}

proof fn lemma_forwarded_line(v: Seq<u8>, asked: Seq<u8>)
    requires
        unpadded(v),
    ensures
        line_values(text("X-Forwarded-For: ") + v, asked) == given(
            text("X-Forwarded-For"),
            v,
            asked,
        ),
{
    reveal_strlit("X-Forwarded-For: ");
    reveal_strlit("X-Forwarded-For");
    lemma_text("X-Forwarded-For: ");
    lemma_text("X-Forwarded-For");
    let line = text("X-Forwarded-For: ") + v;
    let n: int = 15;
    assert(line[n] == 0x3a);
    assert forall|k: int| 0 <= k < n implies line[k] != 0x3a by {
        assert(line[k] == text("X-Forwarded-For: ")[k]);
    }
    lemma_index_from(line, 0x3a, 0);
    assert(index_from(line, 0x3a, 0) == n);
    assert(line.take(n) =~= text("X-Forwarded-For"));
    assert(line.skip(n + 1) =~= seq![0x20u8] + v + Seq::<u8>::empty());
    law_blanks_are_trimmed(seq![0x20u8], v, Seq::empty());
}

} // verus!
