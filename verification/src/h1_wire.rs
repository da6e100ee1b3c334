//! HTTP/1.1 message syntax: lines, header fields, body framing, chunk headers,
//! the request line, byte ranges and response heads.

use crate::bytes::{
    eq_ascii_ci, extend, find_byte, index_from, is_digit, is_text, lemma_index_from, lit, lower,
    number_of, parse_u64, same_ci, text, to_lower, to_vec,
};
use crate::method::{method_from_token, method_of};
use crate::routes::MAX_PATH;
use vstd::prelude::*;
use vstd::slice::slice_subrange;

verus! {

// ── Lines ───────────────────────────────────────────────────────────────

/// Whether a line end stands at `i`.
pub open spec fn crlf_at(s: Seq<u8>, i: int) -> bool {
    0 <= i && i + 1 < s.len() && s[i] == 0x0d && s[i + 1] == 0x0a
}

/// The first line end at or after `from`, or `s.len()`.
pub open spec fn line_end(s: Seq<u8>, from: int) -> int
    decreases s.len() - from,
{
    if from < 0 || from + 1 >= s.len() {
        s.len() as int
    } else if crlf_at(s, from) {
        from
    } else {
        line_end(s, from + 1)
    }
}

pub proof fn lemma_line_end(s: Seq<u8>, from: int)
    requires
        0 <= from <= s.len(),
    ensures
        from <= line_end(s, from) <= s.len(),
        line_end(s, from) < s.len() ==> crlf_at(s, line_end(s, from)),
        forall|k: int| from <= k < line_end(s, from) ==> !crlf_at(s, k),
    decreases s.len() - from,
{
    if from + 1 < s.len() && !crlf_at(s, from) {
        lemma_line_end(s, from + 1);
    }
}

/// A line that has its end keeps it when more bytes follow.
pub proof fn lemma_line_fed(s: Seq<u8>, more: Seq<u8>, from: int)
    requires
        0 <= from <= s.len(),
        line_end(s, from) < s.len(),
    ensures
        line_end(s + more, from) == line_end(s, from),
    decreases s.len() - from,
{
    if from + 1 < s.len() {
        assert(crlf_at(s + more, from) == crlf_at(s, from));
        if !crlf_at(s, from) {
            lemma_line_fed(s, more, from + 1);
        }
    }
}

/// Find the first line end at or after `from`.
pub fn find_crlf(s: &[u8], from: usize) -> (r: usize)
    requires
        from <= s@.len(),
    ensures
        r == line_end(s@, from as int),
        from <= r <= s@.len(),
        r < s@.len() ==> crlf_at(s@, r as int),
        forall|k: int| from <= k < r ==> !crlf_at(s@, k),
{
    proof {
        lemma_line_end(s@, from as int);
    }
    let n: usize = s.len();
    if n == 0 {
        return n;
    }
    let mut i: usize = from;
    while i < n - 1
        invariant
            n == s@.len(),
            n > 0,
            from <= i <= n,
            line_end(s@, i as int) == line_end(s@, from as int),
            forall|k: int| from <= k < line_end(s@, from as int) ==> !crlf_at(s@, k),
        decreases n - i,
    {
        if s[i] == 0x0d && s[i + 1] == 0x0a {
            return i;
        }
        i += 1;
    }
    n
}

/// Where the head ends: just behind its first blank line. `None` while it is
/// incomplete.
pub open spec fn head_len(s: Seq<u8>, from: int) -> Option<int>
    decreases s.len() - from,
{
    if from < 0 || from + 3 >= s.len() {
        None
    } else if crlf_at(s, from) && crlf_at(s, from + 2) {
        Some(from + 4)
    } else {
        head_len(s, from + 1)
    }
}

/// A head goes on behind a line that is not followed by an empty one, and ends behind one
/// that is.
pub proof fn lemma_head_goes_on(s: Seq<u8>, from: int)
    requires
        0 <= from <= s.len(),
        line_end(s, from) < s.len(),
    ensures
        ({
            let e = line_end(s, from);
            head_len(s, from) == if crlf_at(s, e + 2) {
                Some(e + 4)
            } else {
                head_len(s, e + 2)
            }
        }),
    decreases s.len() - from,
{
    lemma_line_end(s, from);
    let e = line_end(s, from);
    if e > from {
        lemma_head_goes_on(s, from + 1);
    } else {
        reveal_with_fuel(head_len, 3);
    }
}

/// Find the end of the head.
pub fn find_head_end(s: &[u8]) -> (r: Option<usize>)
    ensures
        match r {
            Some(n) => head_len(s@, 0) == Some(n as int) && 4 <= n <= s@.len() && crlf_at(
                s@,
                n - 4,
            ) && crlf_at(s@, n - 2),
            None => head_len(s@, 0) is None,
        },
{
    let n: usize = s.len();
    let mut i: usize = 0;
    while n >= 4 && i <= n - 4
        invariant
            n == s@.len(),
            n >= 4 ==> i <= n - 3,
            n < 4 ==> i == 0,
            head_len(s@, i as int) == head_len(s@, 0),
        decreases n - i,
    {
        if s[i] == 0x0d && s[i + 1] == 0x0a && s[i + 2] == 0x0d && s[i + 3] == 0x0a {
            return Some(i + 4);
        }
        i += 1;
    }
    None
}

// ── Header fields ───────────────────────────────────────────────────────

pub open spec fn is_blank(b: u8) -> bool {
    b == 0x20 || b == 0x09
}

/// `s` without its leading blanks.
pub open spec fn trim_start(s: Seq<u8>) -> Seq<u8>
    decreases s.len(),
{
    if s.len() > 0 && is_blank(s[0]) {
        trim_start(s.skip(1))
    } else {
        s
    }
}

/// `s` without its trailing blanks.
pub open spec fn trim_end(s: Seq<u8>) -> Seq<u8>
    decreases s.len(),
{
    if s.len() > 0 && is_blank(s.last()) {
        trim_end(s.drop_last())
    } else {
        s
    }
}

/// `s` without the blanks around it.
pub open spec fn trimmed(s: Seq<u8>) -> Seq<u8> {
    trim_end(trim_start(s))
}

/// Remove the blanks around `s`.
pub fn trim(s: &[u8]) -> (r: &[u8])
    ensures
        r@ == trimmed(s@),
        r@.len() <= s@.len(),
{
    let n: usize = s.len();
    let mut a: usize = 0;
    assert(s@.skip(0) =~= s@);
    while a < n && (s[a] == 0x20 || s[a] == 0x09)
        invariant
            a <= n,
            n == s@.len(),
            trim_start(s@.skip(a as int)) == trim_start(s@),
        decreases n - a,
    {
        assert(s@.skip(a as int).skip(1) =~= s@.skip(a + 1));
        a += 1;
    }
    assert(trim_start(s@) == s@.skip(a as int));
    let mut b: usize = n;
    assert(s@.subrange(a as int, n as int) =~= s@.skip(a as int));
    while a < b && (s[b - 1] == 0x20 || s[b - 1] == 0x09)
        invariant
            a <= b <= n,
            n == s@.len(),
            trim_end(s@.subrange(a as int, b as int)) == trimmed(s@),
        decreases b - a,
    {
        assert(s@.subrange(a as int, b as int).drop_last() =~= s@.subrange(a as int, b - 1));
        b -= 1;
    }
    slice_subrange(s, a, b)
}

/// Whether a field line carries the field `name`, in any case of letters.
pub open spec fn line_names(line: Seq<u8>, name: Seq<u8>) -> bool {
    let c = index_from(line, 0x3a, 0);
    c < line.len() && same_ci(line.take(c), name)
}

/// The value of a field line: what follows its colon, without the blanks around it.
pub open spec fn line_value(line: Seq<u8>) -> Seq<u8> {
    trimmed(line.skip(index_from(line, 0x3a, 0) + 1))
}

/// The values of the field `name` in the lines from `from` to the first empty one,
/// in order.
pub open spec fn field_values_from(head: Seq<u8>, from: int, name: Seq<u8>) -> Seq<Seq<u8>>
    decreases head.len() - from,
{
    let e = line_end(head, from);
    if from < 0 || from > head.len() || e + 2 > head.len() || e <= from {
        Seq::empty()
    } else {
        let line = head.subrange(from, e);
        let rest = field_values_from(head, e + 2, name);
        if line_names(line, name) {
            seq![line_value(line)] + rest
        } else {
            rest
        }
    }
}

/// The values of the field `name` in a head, in order. The first line of a head is
/// not a field.
pub open spec fn field_values(head: Seq<u8>, name: Seq<u8>) -> Seq<Seq<u8>> {
    field_values_from(head, line_end(head, 0) + 2, name)
}

/// The byte strings a vector of buffers holds.
pub open spec fn contents(v: Seq<Vec<u8>>) -> Seq<Seq<u8>> {
    Seq::new(v.len(), |i: int| v[i]@)
}

/// The value of a field line, if it carries the field `name`.
fn value_if_named<'a>(line: &'a [u8], name: &[u8]) -> (r: Option<&'a [u8]>)
    ensures
        match r {
            Some(v) => line_names(line@, name@) && v@ == line_value(line@),
            None => !line_names(line@, name@),
        },
{
    match find_byte(line, 0x3a) {
        None => None,
        Some(c) => {
            let head = slice_subrange(line, 0, c);
            assert(head@ =~= line@.take(c as int));
            if !eq_ascii_ci(head, name) {
                return None;
            }
            let tail = slice_subrange(line, c + 1, line.len());
            assert(tail@ =~= line@.skip(c + 1));
            Some(trim(tail))
        },
    }
}

/// Collect the values of the field `name`.
pub fn header_values(head: &[u8], name: &[u8]) -> (r: Vec<Vec<u8>>)
    ensures
        contents(r@) == field_values(head@, name@),
{
    let mut out: Vec<Vec<u8>> = Vec::new();
    let n: usize = head.len();
    let first: usize = find_crlf(head, 0);
    if first >= n {
        assert(contents(out@) =~= field_values(head@, name@));
        return out;
    }
    let mut from: usize = first + 2;
    let mut done: bool = false;
    assert(contents(out@) + field_values_from(head@, from as int, name@) =~= field_values(
        head@,
        name@,
    ));
    while !done
        invariant
            n == head@.len(),
            from <= n,
            !done ==> contents(out@) + field_values_from(head@, from as int, name@)
                == field_values(head@, name@),
            done ==> contents(out@) == field_values(head@, name@),
        decreases (n - from) + if done { 0int } else { 1int },
    {
        let e: usize = find_crlf(head, from);
        if e >= n || e == from {
            assert(contents(out@) + Seq::<Seq<u8>>::empty() =~= contents(out@));
            done = true;
        } else {
            let line = slice_subrange(head, from, e);
            let ghost before = contents(out@);
            let ghost rest = field_values_from(head@, e + 2, name@);
            match value_if_named(line, name) {
                Some(v) => {
                    out.push(to_vec(v));
                    assert(contents(out@) =~= before + seq![v@]);
                    assert(before + (seq![v@] + rest) =~= contents(out@) + rest);
                },
                None => {},
            }
            from = e + 2;
        }
    }
    out
}

/// The first value of the field `name`, if the head carries one.
pub open spec fn header_of(head: Seq<u8>, name: Seq<u8>) -> Option<Seq<u8>> {
    let vs = field_values(head, name);
    if vs.len() > 0 {
        Some(vs[0])
    } else {
        None
    }
}

/// Find the first value of the field `name`.
pub fn find_header(head: &[u8], name: &[u8]) -> (r: Option<Vec<u8>>)
    ensures
        match r {
            Some(v) => header_of(head@, name@) == Some(v@),
            None => header_of(head@, name@) is None,
        },
{
    let vs: Vec<Vec<u8>> = header_values(head, name);
    assert(contents(vs@).len() == vs@.len());
    if vs.len() > 0 {
        let v: Vec<u8> = to_vec(vs[0].as_slice());
        assert(contents(vs@)[0] == v@);
        Some(v)
    } else {
        None
    }
}

// ── Body framing ────────────────────────────────────────────────────────

/// How a head delimits the body behind it.
#[derive(Clone, Copy, PartialEq, Eq, Structural, Debug)]
pub enum BodyFraming {
    Unframed,
    Length(u64),
    Chunked,
    /// The framing fields contradict each other or do not parse.
    Invalid,
}

/// What the framing fields say. `Transfer-Encoding` has to be exactly `chunked` and
/// stand alone; several `Content-Length` values have to be the same number. Nothing
/// is guessed.
pub open spec fn framing_of(te: Seq<Seq<u8>>, cl: Seq<Seq<u8>>) -> BodyFraming {
    if te.len() > 0 {
        if cl.len() == 0 && te.len() == 1 && same_ci(te[0], text("chunked")) {
            BodyFraming::Chunked
        } else {
            BodyFraming::Invalid
        }
    } else if cl.len() == 0 {
        BodyFraming::Unframed
    } else if number_of(cl[0]) is Some && (forall|i: int|
        0 <= i < cl.len() ==> number_of(#[trigger] cl[i]) == number_of(cl[0])) {
        BodyFraming::Length(number_of(cl[0])->0)
    } else {
        BodyFraming::Invalid
    }
}

/// Decide how the body behind `head` is delimited.
pub fn body_framing(head: &[u8]) -> (r: BodyFraming)
    ensures
        r == framing_of(
            field_values(head@, text("transfer-encoding")),
            field_values(head@, text("content-length")),
        ),
{
    let te: Vec<Vec<u8>> = header_values(head, lit("transfer-encoding"));
    let cl: Vec<Vec<u8>> = header_values(head, lit("content-length"));
    let ghost tes = contents(te@);
    let ghost cls = contents(cl@);
    assert(tes.len() == te@.len() && cls.len() == cl@.len());
    if te.len() > 0 {
        assert(tes[0] == te@[0]@);
        if cl.len() == 0 && te.len() == 1 && eq_ascii_ci(te[0].as_slice(), lit("chunked")) {
            return BodyFraming::Chunked;
        }
        return BodyFraming::Invalid;
    }
    if cl.len() == 0 {
        return BodyFraming::Unframed;
    }
    assert(cls[0] == cl@[0]@);
    match parse_u64(cl[0].as_slice()) {
        None => BodyFraming::Invalid,
        Some(n) => {
            let mut i: usize = 0;
            while i < cl.len()
                invariant
                    i <= cl@.len(),
                    cls == contents(cl@),
                    number_of(cls[0]) == Some(n),
                    cl@.len() > 0,
                    forall|k: int| 0 <= k < i ==> number_of(#[trigger] cls[k]) == Some(n),
                    te@.len() == 0,
                    tes == contents(te@),
                    tes == field_values(head@, text("transfer-encoding")),
                    cls == field_values(head@, text("content-length")),
                decreases cl@.len() - i,
            {
                assert(cls[i as int] == cl@[i as int]@);
                match parse_u64(cl[i].as_slice()) {
                    Some(m) => {
                        if m != n {
                            return BodyFraming::Invalid;
                        }
                    },
                    None => {
                        return BodyFraming::Invalid;
                    },
                }
                i += 1;
            }
            BodyFraming::Length(n)
        },
    }
}

/// Whether the client waits for an interim response before it sends the body.
pub open spec fn waits_for_continue(head: Seq<u8>) -> bool {
    header_of(head, text("expect")) matches Some(v) && same_ci(v, text("100-continue"))
}

pub fn expects_continue(head: &[u8]) -> (r: bool)
    ensures
        r == waits_for_continue(head@),
{
    match find_header(head, lit("expect")) {
        Some(v) => eq_ascii_ci(v.as_slice(), lit("100-continue")),
        None => false,
    }
}

// ── Chunk headers ───────────────────────────────────────────────────────

/// Longest chunk-size line that is waited for.
pub const CHUNK_LINE_MAX: usize = 256;

pub open spec fn is_hex(b: u8) -> bool {
    is_digit(b) || 0x61 <= lower(b) <= 0x66
}

pub open spec fn hex_digit(b: u8) -> nat {
    if is_digit(b) {
        (b - 0x30) as nat
    } else {
        (lower(b) - 0x57) as nat
    }
}

/// The number a run of hexadecimal digits denotes.
pub open spec fn hex_value(s: Seq<u8>) -> nat
    decreases s.len(),
{
    if s.len() == 0 {
        0
    } else {
        hex_value(s.drop_last()) * 16 + hex_digit(s.last())
    }
}

/// The number a hexadecimal string of one to sixteen digits denotes.
pub open spec fn hex_number(s: Seq<u8>) -> Option<u64> {
    if 1 <= s.len() <= 16 && forall|i: int| 0 <= i < s.len() ==> is_hex(#[trigger] s[i]) {
        Some(hex_value(s) as u64)
    } else {
        None
    }
}

pub open spec fn pow16(n: nat) -> nat
    decreases n,
{
    if n == 0 {
        1
    } else {
        16 * pow16((n - 1) as nat)
    }
}

/// Read a hexadecimal number.
pub fn parse_hex(s: &[u8]) -> (r: Option<u64>)
    ensures
        r == hex_number(s@),
{
    let n: usize = s.len();
    if n == 0 || n > 16 {
        return None;
    }
    let mut v: u64 = 0;
    let mut i: usize = 0;
    assert(s@.take(0) =~= Seq::empty());
    proof {
        reveal_with_fuel(pow16, 17);
    }
    while i < n
        invariant
            i <= n <= 16,
            n == s@.len(),
            n >= 1,
            forall|k: int| 0 <= k < i ==> is_hex(#[trigger] s@[k]),
            v == hex_value(s@.take(i as int)),
            v < pow16(i as nat),
            pow16(15) == 0x1000_0000_0000_0000,
            forall|k: nat| k <= 15 ==> #[trigger] pow16(k) <= 0x1000_0000_0000_0000,
        decreases n - i,
    {
        let c: u8 = to_lower(s[i]);
        let d: u8;
        if c >= 0x30 && c <= 0x39 {
            d = c - 0x30;
        } else if c >= 0x61 && c <= 0x66 {
            d = c - 0x57;
        } else {
            assert(!is_hex(s@[i as int]));
            return None;
        }
        assert(s@.take(i + 1).drop_last() =~= s@.take(i as int));
        assert(s@.take(i + 1).last() == s@[i as int]);
        assert(pow16(i as nat) <= 0x1000_0000_0000_0000);
        v = v * 16 + d as u64;
        i += 1;
    }
    assert(s@.take(n as int) =~= s@);
    Some(v)
}

/// What stands at the front of a chunked body.
#[derive(Clone, Copy, PartialEq, Eq, Structural, Debug)]
pub enum ChunkHeader {
    /// The size line is incomplete.
    Need,
    Bad,
    Chunk { size: u64, consumed: usize },
}

/// The size part of a chunk-size line: what stands before any extension.
pub open spec fn chunk_size_text(line: Seq<u8>) -> Seq<u8> {
    trimmed(line.take(index_from(line, 0x3b, 0)))
}

/// The chunk header at the front of `s`. A size line is a hexadecimal number,
/// optionally followed by an extension, which is ignored.
pub open spec fn chunk_header_at(s: Seq<u8>) -> ChunkHeader {
    let e = line_end(s, 0);
    if e >= s.len() {
        if s.len() > CHUNK_LINE_MAX {
            ChunkHeader::Bad
        } else {
            ChunkHeader::Need
        }
    } else {
        match hex_number(chunk_size_text(s.take(e))) {
            Some(size) => ChunkHeader::Chunk { size, consumed: (e + 2) as usize },
            None => ChunkHeader::Bad,
        }
    }
}

pub fn parse_chunk_header(s: &[u8]) -> (r: ChunkHeader)
    ensures
        r == chunk_header_at(s@),
        r matches ChunkHeader::Chunk { size, consumed } ==> 2 <= consumed <= s@.len(),
{
    let e: usize = find_crlf(s, 0);
    if e >= s.len() {
        if s.len() > CHUNK_LINE_MAX {
            return ChunkHeader::Bad;
        }
        return ChunkHeader::Need;
    }
    let line = slice_subrange(s, 0, e);
    assert(line@ =~= s@.take(e as int));
    let cut: usize = match find_byte(line, 0x3b) {
        Some(c) => c,
        None => line.len(),
    };
    let part = slice_subrange(line, 0, cut);
    assert(part@ =~= line@.take(index_from(line@, 0x3b, 0)));
    match parse_hex(trim(part)) {
        Some(size) => ChunkHeader::Chunk { size, consumed: e + 2 },
        None => ChunkHeader::Bad,
    }
}

// ── The request line ────────────────────────────────────────────────────

/// A request line: the method, the request target and the protocol version.
#[verifier::ext_equal]
pub struct RequestLine {
    pub method: u8,
    pub target: Seq<u8>,
    pub version: Seq<u8>,
}

/// Split a request line at its two spaces. `None` when a part is missing or empty.
pub open spec fn request_line(line: Seq<u8>) -> Option<RequestLine> {
    let a = index_from(line, 0x20, 0);
    let b = index_from(line, 0x20, a + 1);
    if a == 0 || a >= line.len() || b <= a + 1 || b >= line.len() || b + 1 >= line.len() {
        None
    } else {
        Some(
            RequestLine {
                method: method_of(line.take(a)),
                target: line.subrange(a + 1, b),
                version: line.skip(b + 1),
            },
        )
    }
}

/// The request line of a head.
pub open spec fn head_request_line(head: Seq<u8>) -> Option<RequestLine> {
    request_line(head.take(line_end(head, 0)))
}

/// A word of a request line: not empty, and without the bytes that delimit words and
/// lines.
pub open spec fn is_word(w: Seq<u8>) -> bool {
    w.len() > 0 && forall|k: int| 0 <= k < w.len() ==> (#[trigger] w[k]) != 0x20 && w[k] != 0x0d
}

/// A request line reads back as the three words it was made of, whatever follows it.
pub proof fn law_request_line_reads_back(
    token: Seq<u8>,
    target: Seq<u8>,
    version: Seq<u8>,
    rest: Seq<u8>,
)
    requires
        is_word(token),
        is_word(target),
        is_word(version),
    ensures
        head_request_line(
            token + seq![0x20u8] + target + seq![0x20u8] + version + seq![0x0du8, 0x0au8] + rest,
        ) == Some(RequestLine { method: method_of(token), target, version }),
{
    let line = token + seq![0x20u8] + target + seq![0x20u8] + version;
    let head = line + seq![0x0du8, 0x0au8] + rest;
    let a = token.len() as int;
    let b = a + 1 + target.len();
    assert(forall|k: int| 0 <= k < a ==> line[k] == token[k]);
    assert(forall|k: int| a < k < b ==> line[k] == target[k - a - 1]);
    assert(forall|k: int| b < k < line.len() ==> line[k] == version[k - b - 1]);
    assert(line[a] == 0x20 && line[b] == 0x20);
    lemma_line_end(head, 0);
    assert forall|k: int| 0 <= k < line.len() implies !crlf_at(head, k) by {
        assert(head[k] == line[k]);
    }
    assert(crlf_at(head, line.len() as int));
    assert(line_end(head, 0) == line.len());
    assert(head.take(line.len() as int) =~= line);
    lemma_index_from(line, 0x20, 0);
    assert(index_from(line, 0x20, 0) == a);
    lemma_index_from(line, 0x20, a + 1);
    assert(index_from(line, 0x20, a + 1) == b);
    assert(line.take(a) =~= token);
    assert(line.subrange(a + 1, b) =~= target);
    assert(line.skip(b + 1) =~= version);
}

/// Split the request line of a head. `None` also when the target is longer than a
/// path may be.
pub fn parse_request_line(head: &[u8]) -> (r: Option<(u8, Vec<u8>)>)
    ensures
        match r {
            Some((verb, target)) => head_request_line(head@) matches Some(l) && verb == l.method
                && target@ == l.target && target@.len() <= MAX_PATH,
            None => head_request_line(head@) is None || (head_request_line(
                head@,
            )->0).target.len() > MAX_PATH,
        },
{
    let e: usize = find_crlf(head, 0);
    let line = slice_subrange(head, 0, e);
    assert(line@ =~= head@.take(e as int));
    let a: usize = match find_byte(line, 0x20) {
        Some(a) => a,
        None => {
            return None;
        },
    };
    if a == 0 {
        return None;
    }
    let b: usize = find_byte_from(line, 0x20, a + 1);
    if b <= a + 1 || b >= line.len() || b + 1 >= line.len() {
        return None;
    }
    let token = slice_subrange(line, 0, a);
    assert(token@ =~= line@.take(a as int));
    let target = slice_subrange(line, a + 1, b);
    if target.len() > MAX_PATH {
        return None;
    }
    Some((method_from_token(token), to_vec(target)))
}

/// Find `b` at or after `from`.
pub fn find_byte_from(s: &[u8], b: u8, from: usize) -> (r: usize)
    requires
        from <= s@.len(),
    ensures
        r == index_from(s@, b, from as int),
        from <= r <= s@.len(),
{
    proof {
        lemma_index_from(s@, b, from as int);
    }
    let mut i: usize = from;
    while i < s.len() && s[i] != b
        invariant
            from <= i <= s@.len(),
            index_from(s@, b, i as int) == index_from(s@, b, from as int),
        decreases s@.len() - i,
    {
        i += 1;
    }
    i
}

// ── Persistence ─────────────────────────────────────────────────────────

/// Whether a comma-separated list holds `token` from position `from` on, in any case
/// of letters.
pub open spec fn list_has(s: Seq<u8>, from: int, token: Seq<u8>) -> bool
    decreases s.len() - from,
{
    if from < 0 || from > s.len() {
        false
    } else {
        let c = index_from(s, 0x2c, from);
        same_ci(trimmed(s.subrange(from, c)), token) || (from <= c < s.len() && list_has(s, c + 1, token))
    }
}

fn list_contains(s: &[u8], token: &[u8]) -> (r: bool)
    ensures
        r == list_has(s@, 0, token@),
{
    let n: usize = s.len();
    let mut from: usize = 0;
    loop
        invariant
            n == s@.len(),
            from <= n,
            list_has(s@, from as int, token@) == list_has(s@, 0, token@),
        decreases n - from,
    {
        let c: usize = find_byte_from(s, 0x2c, from);
        if eq_ascii_ci(trim(slice_subrange(s, from, c)), token) {
            return true;
        }
        if c >= n {
            return false;
        }
        from = c + 1;
    }
}

/// Whether any of the listed values holds `token`.
pub open spec fn any_lists(vs: Seq<Seq<u8>>, token: Seq<u8>) -> bool {
    exists|i: int| 0 <= i < vs.len() && list_has(#[trigger] vs[i], 0, token)
}

fn header_lists(head: &[u8], name: &[u8], token: &[u8]) -> (r: bool)
    ensures
        r == any_lists(field_values(head@, name@), token@),
{
    let vs: Vec<Vec<u8>> = header_values(head, name);
    let mut i: usize = 0;
    while i < vs.len()
        invariant
            i <= vs@.len(),
            contents(vs@) == field_values(head@, name@),
            forall|k: int| 0 <= k < i ==> !list_has(#[trigger] contents(vs@)[k], 0, token@),
        decreases vs@.len() - i,
    {
        assert(contents(vs@)[i as int] == vs@[i as int]@);
        if list_contains(vs[i].as_slice(), token) {
            return true;
        }
        i += 1;
    }
    false
}

/// Whether a request leaves its connection open: never when it says `close`; on
/// HTTP/1.1 otherwise always; on HTTP/1.0 only when it says `keep-alive`.
pub open spec fn keeps_alive(head: Seq<u8>) -> bool {
    let conn = field_values(head, text("connection"));
    let version = match head_request_line(head) {
        Some(l) => l.version,
        None => Seq::empty(),
    };
    if any_lists(conn, text("close")) {
        false
    } else if version == text("HTTP/1.1") {
        true
    } else {
        version == text("HTTP/1.0") && any_lists(conn, text("keep-alive"))
    }
}

/// Decide whether a request leaves its connection open.
pub fn request_keeps_alive(head: &[u8]) -> (r: bool)
    ensures
        r == keeps_alive(head@),
{
    if header_lists(head, lit("connection"), lit("close")) {
        return false;
    }
    proof {
        lemma_versions();
    }
    let e: usize = find_crlf(head, 0);
    let line = slice_subrange(head, 0, e);
    assert(line@ =~= head@.take(e as int));
    let a: usize = match find_byte(line, 0x20) {
        Some(a) => a,
        None => {
            return false;
        },
    };
    if a == 0 {
        return false;
    }
    let b: usize = find_byte_from(line, 0x20, a + 1);
    if b <= a + 1 || b >= line.len() || b + 1 >= line.len() {
        return false;
    }
    let version = slice_subrange(line, b + 1, line.len());
    assert(version@ =~= line@.skip(b + 1));
    if is_text(version, "HTTP/1.1") {
        true
    } else {
        is_text(version, "HTTP/1.0") && header_lists(head, lit("connection"), lit("keep-alive"))
    }
}

/// A protocol version is not the empty string.
proof fn lemma_versions()
    ensures
        text("HTTP/1.1").len() == 8,
        text("HTTP/1.0").len() == 8,
{
    reveal_strlit("HTTP/1.1");
    reveal_strlit("HTTP/1.0");
    crate::bytes::lemma_text("HTTP/1.1");
    crate::bytes::lemma_text("HTTP/1.0");
}

// ── Byte ranges ─────────────────────────────────────────────────────────

/// What a `Range` field asks of a resource.
#[derive(Clone, Copy, PartialEq, Eq, Structural, Debug)]
pub enum RangeParse {
    /// Nothing this server acts on; the whole resource is sent.
    Whole,
    /// The bytes `start` to `end`, both inside the resource.
    Satisfiable { start: u32, end: u32 },
    Unsatisfiable,
}

/// What the range `first`-`last` asks of a resource of `total` bytes. An empty first
/// position counts the last from the end; an empty last one means the end.
pub open spec fn range_spec(first: Seq<u8>, last: Seq<u8>, total: u32) -> RangeParse {
    if first.len() == 0 {
        match number_of(last) {
            None => RangeParse::Whole,
            Some(n) => if n == 0 || total == 0 {
                RangeParse::Unsatisfiable
            } else {
                RangeParse::Satisfiable {
                    start: if n >= total {
                        0
                    } else {
                        (total - n) as u32
                    },
                    end: (total - 1) as u32,
                }
            },
        }
    } else {
        match number_of(first) {
            None => RangeParse::Whole,
            Some(a) => if last.len() == 0 {
                if a >= total {
                    RangeParse::Unsatisfiable
                } else {
                    RangeParse::Satisfiable { start: a as u32, end: (total - 1) as u32 }
                }
            } else {
                match number_of(last) {
                    None => RangeParse::Whole,
                    Some(b) => if b < a {
                        RangeParse::Whole
                    } else if a >= total {
                        RangeParse::Unsatisfiable
                    } else {
                        RangeParse::Satisfiable {
                            start: a as u32,
                            end: if b >= total {
                                (total - 1) as u32
                            } else {
                                b as u32
                            },
                        }
                    },
                }
            },
        }
    }
}

/// What a `Range` value asks of a resource of `total` bytes. Only a single byte range
/// is acted on.
pub open spec fn range_of(value: Seq<u8>, total: u32) -> RangeParse {
    if value.len() < 6 || value.take(6) != text("bytes=") {
        RangeParse::Whole
    } else {
        let r = value.skip(6);
        let d = index_from(r, 0x2d, 0);
        if d >= r.len() {
            RangeParse::Whole
        } else {
            range_spec(trimmed(r.take(d)), trimmed(r.skip(d + 1)), total)
        }
    }
}

/// A range that is honoured lies inside the resource and is not empty.
pub proof fn law_range_lies_inside(value: Seq<u8>, total: u32)
    ensures
        range_of(value, total) matches RangeParse::Satisfiable { start, end } ==> start <= end
            < total,
{
}

fn range_between(first: &[u8], last: &[u8], total: u32) -> (r: RangeParse)
    ensures
        r == range_spec(first@, last@, total),
{
    if first.len() == 0 {
        return match parse_u64(last) {
            None => RangeParse::Whole,
            Some(n) => if n == 0 || total == 0 {
                RangeParse::Unsatisfiable
            } else {
                RangeParse::Satisfiable {
                    start: if n >= total as u64 {
                        0
                    } else {
                        total - n as u32
                    },
                    end: total - 1,
                }
            },
        };
    }
    match parse_u64(first) {
        None => RangeParse::Whole,
        Some(a) => if last.len() == 0 {
            if a >= total as u64 {
                RangeParse::Unsatisfiable
            } else {
                RangeParse::Satisfiable { start: a as u32, end: total - 1 }
            }
        } else {
            match parse_u64(last) {
                None => RangeParse::Whole,
                Some(b) => if b < a {
                    RangeParse::Whole
                } else if a >= total as u64 {
                    RangeParse::Unsatisfiable
                } else {
                    RangeParse::Satisfiable {
                        start: a as u32,
                        end: if b >= total as u64 {
                            total - 1
                        } else {
                            b as u32
                        },
                    }
                },
            }
        },
    }
}

/// Read a `Range` value.
pub fn parse_range_header(value: &[u8], total: u32) -> (r: RangeParse)
    ensures
        r == range_of(value@, total),
        r matches RangeParse::Satisfiable { start, end } ==> start <= end < total,
{
    proof {
        law_range_lies_inside(value@, total);
    }
    if value.len() < 6 {
        return RangeParse::Whole;
    }
    let unit = slice_subrange(value, 0, 6);
    assert(unit@ =~= value@.take(6));
    if !is_text(unit, "bytes=") {
        return RangeParse::Whole;
    }
    let rest = slice_subrange(value, 6, value.len());
    assert(rest@ =~= value@.skip(6));
    match find_byte(rest, 0x2d) {
        None => RangeParse::Whole,
        Some(d) => {
            let first = slice_subrange(rest, 0, d);
            let last = slice_subrange(rest, d + 1, rest.len());
            assert(first@ =~= rest@.take(d as int));
            assert(last@ =~= rest@.skip(d + 1));
            range_between(trim(first), trim(last), total)
        },
    }
}

// ── Response heads ──────────────────────────────────────────────────────

/// The value of the `Connection` field.
pub open spec fn connection_word(keepalive: bool) -> Seq<u8> {
    if keepalive {
        text("keep-alive")
    } else {
        text("close")
    }
}

/// A status line and the fields every response carries, without the blank line that
/// ends the head.
pub open spec fn status_fields(status: Seq<u8>, content_type: Seq<u8>, keepalive: bool) -> Seq<u8> {
    text("HTTP/1.1 ") + status + text("\r\nConnection: ") + connection_word(keepalive) + text(
        "\r\nContent-Type: ",
    ) + content_type
}

/// Write a status line and the fields every response carries.
pub fn status_fields_vec(status: &[u8], content_type: &[u8], keepalive: bool) -> (r: Vec<u8>)
    ensures
        r@ == status_fields(status@, content_type@, keepalive),
{
    let mut v: Vec<u8> = to_vec(lit("HTTP/1.1 "));
    extend(&mut v, status);
    extend(&mut v, lit("\r\nConnection: "));
    if keepalive {
        extend(&mut v, lit("keep-alive"));
    } else {
        extend(&mut v, lit("close"));
    }
    extend(&mut v, lit("\r\nContent-Type: "));
    extend(&mut v, content_type);
    v
}

} // verus!
