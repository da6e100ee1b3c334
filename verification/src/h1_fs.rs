//! Files and directories: which file a request under a listing route names, the
//! listing of a directory, and what a file's length decides of the response.

use crate::bytes::{clip, extend, index_from, lemma_text, lit, same_ci, text, to_vec, u16_at};
use crate::cache::SEND_BUF_SIZE;
use crate::conn::{ConnSlot, Phase, Rendering};
use crate::fields::hex_val;
use crate::h1_wire::{
    find_byte_from, find_header, header_of, hex_digit, is_hex, parse_range_header, range_of, RangeParse,
};
use crate::method::{method_sends_response_body, sends_response_body};
use crate::response::{
    build_error, build_error_416, build_header, build_header_fs_full, build_header_fs_partial,
    build_header_with_len, closing_head, error_response, file_head, partial_head, range_error_response, sized_head,
    staged_head,
};
use crate::routes::{content_type_from_path, type_of_path, MAX_FS_PATH};
use vstd::prelude::*;
use vstd::slice::slice_subrange;

verus! {

// ── The file a path names ───────────────────────────────────────────────

/// Whether an escaped byte stands at `k`.
pub open spec fn escape_at(s: Seq<u8>, k: int) -> bool {
    s[k] == 0x25 && k + 3 <= s.len() && is_hex(s[k + 1]) && is_hex(s[k + 2])
}

/// The bytes from `k` on with their escapes resolved.
pub open spec fn unescaped(s: Seq<u8>, k: int) -> Seq<u8>
    decreases s.len() - k,
{
    if k < 0 || k >= s.len() {
        Seq::empty()
    } else if escape_at(s, k) {
        seq![(16 * hex_digit(s[k + 1]) + hex_digit(s[k + 2])) as u8] + unescaped(s, k + 3)
    } else {
        seq![s[k]] + unescaped(s, k + 1)
    }
}

/// Whether a byte may not occur in a path.
pub open spec fn bad_path_byte(b: u8) -> bool {
    b == 0 || b == 0x5c
}

/// Whether a segment of the path is `..`.
pub open spec fn climbs(s: Seq<u8>) -> bool {
    exists|k: int| climbs_at(s, k)
}

/// Whether the segment at `k` is `..`.
pub open spec fn climbs_at(s: Seq<u8>, k: int) -> bool {
    &&& 0 <= k
    &&& k + 1 < s.len()
    &&& s[k] == 0x2e
    &&& s[k + 1] == 0x2e
    &&& k == 0 || s[k - 1] == 0x2f
    &&& k + 2 == s.len() || s[k + 2] == 0x2f
}

/// What a request under a listing route comes to.
pub enum FilePath {
    TooLong,
    BadByte,
    Climbs,
    Open(Vec<u8>),
}

/// Whether `r` is what a request for `suffix` below the directory `dir` comes to.
pub open spec fn file_path(dir: Seq<u8>, suffix: Seq<u8>, r: FilePath) -> bool {
    let name = unescaped(suffix, 0);
    if dir.len() == 0 || dir.len() + suffix.len() > MAX_FS_PATH {
        r is TooLong
    } else if exists|i: int| 0 <= i < name.len() && bad_path_byte(#[trigger] name[i]) {
        r is BadByte
    } else if climbs(name) {
        r is Climbs
    } else {
        r matches FilePath::Open(p) && p@ == dir + name
    }
}

proof fn lemma_unescaped_len(s: Seq<u8>, k: int)
    requires
        0 <= k,
    ensures
        k <= s.len() ==> unescaped(s, k).len() <= s.len() - k,
        k > s.len() ==> unescaped(s, k).len() == 0,
    decreases s.len() - k,
{
    if k < s.len() {
        if escape_at(s, k) {
            lemma_unescaped_len(s, k + 3);
        } else {
            lemma_unescaped_len(s, k + 1);
        }
    }
}

/// Resolve the escapes of `s`.
fn unescape(s: &[u8]) -> (r: Vec<u8>)
    ensures
        r@ == unescaped(s@, 0),
{
    let n: usize = s.len();
    let mut out: Vec<u8> = Vec::new();
    let mut k: usize = 0;
    assert(out@ + unescaped(s@, 0) =~= unescaped(s@, 0));
    while k < n
        invariant
            k <= n,
            n == s@.len(),
            out@ + unescaped(s@, k as int) == unescaped(s@, 0),
        decreases n - k,
    {
        let ghost before = out@;
        let mut b: u8 = s[k];
        let mut step: usize = 1;
        if b == 0x25 && n - k >= 3 {
            match (hex_val(s[k + 1]), hex_val(s[k + 2])) {
                (Some(h), Some(l)) => {
                    b = h * 16 + l;
                    step = 3;
                },
                _ => {},
            }
        }
        out.push(b);
        assert(before + (seq![b] + unescaped(s@, k + step)) =~= out@ + unescaped(s@, k + step));
        k += step;
    }
    assert(out@ + Seq::<u8>::empty() =~= out@);
    out
}

fn has_climb(s: &[u8]) -> (r: bool)
    ensures
        r == climbs(s@),
{
    let n: usize = s.len();
    if n < 2 {
        return false;
    }
    let mut k: usize = 0;
    while k < n - 1
        invariant
            k <= n - 1,
            n == s@.len(),
            n >= 2,
            forall|j: int| 0 <= j < k ==> !climbs_at(s@, j),
        decreases n - k,
    {
        if s[k] == 0x2e && s[k + 1] == 0x2e && (k == 0 || s[k - 1] == 0x2f) && (k + 2 == n || s[k
            + 2] == 0x2f) {
            assert(climbs_at(s@, k as int));
            return true;
        }
        k += 1;
    }
    false
}

/// Decide which file a request below a directory names.
pub fn compose_file_path(dir: &[u8], suffix: &[u8]) -> (r: FilePath)
    ensures
        file_path(dir@, suffix@, r),
{
    if dir.len() == 0 || dir.len() > MAX_FS_PATH || suffix.len() > MAX_FS_PATH - dir.len() {
        return FilePath::TooLong;
    }
    let name: Vec<u8> = unescape(suffix);
    let mut i: usize = 0;
    while i < name.len()
        invariant
            i <= name@.len(),
            forall|j: int| 0 <= j < i ==> !bad_path_byte(#[trigger] name@[j]),
            name@ == unescaped(suffix@, 0),
            dir@.len() > 0,
            dir@.len() + suffix@.len() <= MAX_FS_PATH,
        decreases name@.len() - i,
    {
        if name[i] == 0 || name[i] == 0x5c {
            assert(bad_path_byte(name@[i as int]));
            return FilePath::BadByte;
        }
        i += 1;
    }
    if has_climb(name.as_slice()) {
        return FilePath::Climbs;
    }
    let mut p: Vec<u8> = to_vec(dir);
    extend(&mut p, name.as_slice());
    FilePath::Open(p)
}

/// A file that is opened lies below the directory: its path is the directory's, then a
/// path without a `..` segment and without bytes that a provider may read otherwise.
pub proof fn law_served_files_stay_below(dir: Seq<u8>, suffix: Seq<u8>, r: FilePath)
    requires
        file_path(dir, suffix, r),
        r is Open,
    ensures
        ({
            let p = r->Open_0@;
            &&& dir.is_prefix_of(p)
            &&& !climbs(p.skip(dir.len() as int))
            &&& forall|i: int| dir.len() <= i < p.len() ==> !bad_path_byte(#[trigger] p[i])
            &&& p.len() <= MAX_FS_PATH
        }),
{
    let p = r->Open_0@;
    let name = unescaped(suffix, 0);
    assert(p.skip(dir.len() as int) =~= name);
    assert(p.subrange(0, dir.len() as int) =~= dir);
    lemma_unescaped_len(suffix, 0);
    assert forall|i: int| dir.len() <= i < p.len() implies !bad_path_byte(#[trigger] p[i]) by {
        assert(p[i] == name[i - dir.len()]);
    }
}

/// A byte as an escape.
pub open spec fn escaped_byte(b: u8) -> Seq<u8> {
    seq![
        0x25u8,
        crate::reqbody::hex_char((b / 16) as nat),
        crate::reqbody::hex_char((b % 16) as nat),
    ]
}

/// Every byte of a name as an escape.
pub open spec fn escaped_name(name: Seq<u8>) -> Seq<u8>
    decreases name.len(),
{
    if name.len() == 0 {
        Seq::empty()
    } else {
        escaped_byte(name[0]) + escaped_name(name.skip(1))
    }
}

/// Escapes resolve to the name they were made from.
pub proof fn law_escaped_names_resolve(name: Seq<u8>)
    ensures
        unescaped(escaped_name(name), 0) == name,
{
    lemma_escaped_from(Seq::empty(), name);
    assert(Seq::<u8>::empty() + escaped_name(name) =~= escaped_name(name));
}

proof fn lemma_escaped_from(pre: Seq<u8>, name: Seq<u8>)
    ensures
        unescaped(pre + escaped_name(name), pre.len() as int) == name,
    decreases name.len(),
{
    let s = pre + escaped_name(name);
    if name.len() > 0 {
        let e = escaped_byte(name[0]);
        let rest = escaped_name(name.skip(1));
        let p = pre.len() as int;
        lemma_escaped_from(pre + e, name.skip(1));
        assert(pre + e + rest =~= s);
        assert(s[p] == 0x25 && s[p + 1] == e[1] && s[p + 2] == e[2]);
        assert(escape_at(s, p));
        assert(16 * hex_digit(e[1]) + hex_digit(e[2]) == name[0]);
        assert(unescaped(s, p) =~= seq![name[0]] + name.skip(1));
        assert(seq![name[0]] + name.skip(1) =~= name);
    } else {
        assert(unescaped(s, pre.len() as int) =~= name);
    }
}

/// Whether `c` is a digit of hexadecimal text for the value `v`, in either case.
pub open spec fn digit_for(c: u8, v: int) -> bool {
    ||| 0 <= v <= 9 && c == 0x30 + v
    ||| 10 <= v <= 15 && (c == 0x41 + v - 10 || c == 0x61 + v - 10)
}

/// Whether two digits of hexadecimal text stand behind the first byte.
pub open spec fn pair_follows(s: Seq<u8>) -> bool {
    s.len() >= 3 && (exists|h: int| digit_for(s[1], h)) && (exists|l: int| digit_for(s[2], l))
}

/// Whether a request may write a name like this: a byte is itself, or a percent sign and
/// two digits for its value. A percent sign is itself only where no two digits follow it.
pub open spec fn writes(s: Seq<u8>, name: Seq<u8>) -> bool
    decreases name.len(),
{
    if name.len() == 0 {
        s.len() == 0
    } else {
        ||| s.len() >= 1 && s[0] == name[0] && !(s[0] == 0x25 && pair_follows(s)) && writes(
            s.skip(1),
            name.skip(1),
        )
        ||| s.len() >= 3 && s[0] == 0x25 && digit_for(s[1], name[0] as int / 16) && digit_for(
            s[2],
            name[0] as int % 16,
        ) && writes(s.skip(3), name.skip(1))
    }
}

proof fn lemma_digit_for(c: u8)
    ensures
        is_hex(c) <==> exists|v: int| digit_for(c, v),
        forall|v: int| digit_for(c, v) ==> is_hex(c) && hex_digit(c) == v,
{
    if is_hex(c) {
        assert(digit_for(c, hex_digit(c) as int));
    }
}

proof fn lemma_unescaped_shift(pre: Seq<u8>, s: Seq<u8>, k: int)
    requires
        0 <= k,
    ensures
        unescaped(pre + s, pre.len() + k) == unescaped(s, k),
    decreases s.len() - k,
{
    if k < s.len() {
        assert((pre + s)[pre.len() + k] == s[k]);
        if k + 1 < s.len() {
            assert((pre + s)[pre.len() + k + 1] == s[k + 1]);
        }
        if k + 2 < s.len() {
            assert((pre + s)[pre.len() + k + 2] == s[k + 2]);
        }
        if escape_at(s, k) {
            lemma_unescaped_shift(pre, s, k + 3);
        } else {
            lemma_unescaped_shift(pre, s, k + 1);
        }
    }
}

/// A name resolves to itself however a request writes it: every byte plain or escaped, in
/// any mix and with digits of either case.
pub proof fn law_written_names_resolve(s: Seq<u8>, name: Seq<u8>)
    requires
        writes(s, name),
    ensures
        unescaped(s, 0) == name,
    decreases name.len(),
{
    if name.len() == 0 {
        assert(unescaped(s, 0) =~= name);
    } else {
        if s.len() >= 3 {
            lemma_digit_for(s[1]);
            lemma_digit_for(s[2]);
        }
        let b = name[0];
        assert(16 * (b / 16) + b % 16 == b);
        if escape_at(s, 0) {
            law_written_names_resolve(s.skip(3), name.skip(1));
            lemma_unescaped_shift(s.take(3), s.skip(3), 0);
            assert(s.take(3) + s.skip(3) =~= s);
        } else {
            law_written_names_resolve(s.skip(1), name.skip(1));
            lemma_unescaped_shift(s.take(1), s.skip(1), 0);
            assert(s.take(1) + s.skip(1) =~= s);
        }
        assert(seq![b] + name.skip(1) =~= name);
    }
}

/// A name without a percent sign is itself, letter for letter.
pub proof fn law_plain_names_resolve(name: Seq<u8>)
    requires
        forall|i: int| 0 <= i < name.len() ==> #[trigger] name[i] != 0x25,
    ensures
        unescaped(name, 0) == name,
{
    lemma_plain_writes(name);
    law_written_names_resolve(name, name);
}

proof fn lemma_plain_writes(name: Seq<u8>)
    requires
        forall|i: int| 0 <= i < name.len() ==> #[trigger] name[i] != 0x25,
    ensures
        writes(name, name),
    decreases name.len(),
{
    if name.len() > 0 {
        assert(forall|i: int| 0 <= i < name.skip(1).len() ==> name.skip(1)[i] == name[i + 1]);
        lemma_plain_writes(name.skip(1));
    }
}

/// A request opens the file it names: the directory's path, then the name, however it is
/// written. A name with a zero or a backslash in it, or with a segment of two dots, opens
/// none.
pub proof fn law_request_opens_what_it_names(dir: Seq<u8>, suffix: Seq<u8>, name: Seq<u8>, r: FilePath)
    requires
        file_path(dir, suffix, r),
        writes(suffix, name),
        0 < dir.len(),
        dir.len() + suffix.len() <= MAX_FS_PATH,
    ensures
        name.contains(0) || name.contains(0x5c) ==> r is BadByte,
        !name.contains(0) && !name.contains(0x5c) && two_dots(name) ==> r is Climbs,
        !name.contains(0) && !name.contains(0x5c) && !two_dots(name) ==> (r matches FilePath::Open(
            p,
        ) && p@ == dir + name),
{
    law_written_names_resolve(suffix, name);
    law_climbing_is_a_segment(name);
    if name.contains(0) {
        let i = choose|i: int| 0 <= i < name.len() && name[i] == 0;
        assert(bad_path_byte(name[i]));
    }
    if name.contains(0x5c) {
        let i = choose|i: int| 0 <= i < name.len() && name[i] == 0x5c;
        assert(bad_path_byte(name[i]));
    }
}

/// Whether one of the segments that slashes part a path into is two dots.
pub open spec fn two_dots(path: Seq<u8>) -> bool {
    exists|a: Seq<u8>, b: Seq<u8>| #[trigger] dots_between(path, a, b)
}

/// Whether a path is `a`, two dots and `b`, with nothing but slashes next to the dots.
pub open spec fn dots_between(path: Seq<u8>, a: Seq<u8>, b: Seq<u8>) -> bool {
    &&& path == a + seq![0x2eu8, 0x2eu8] + b
    &&& a.len() == 0 || a.last() == 0x2f
    &&& b.len() == 0 || b[0] == 0x2f
}

/// A path climbs exactly where one of its segments is two dots.
pub proof fn law_climbing_is_a_segment(path: Seq<u8>)
    ensures
        climbs(path) <==> two_dots(path),
{
    if climbs(path) {
        let k = choose|k: int| climbs_at(path, k);
        let a = path.take(k);
        let b = path.skip(k + 2);
        assert(path =~= a + seq![0x2eu8, 0x2eu8] + b);
        assert(dots_between(path, a, b));
    }
    if two_dots(path) {
        let (a, b) = choose|a: Seq<u8>, b: Seq<u8>| #[trigger] dots_between(path, a, b);
        let k = a.len() as int;
        assert(path[k] == 0x2e && path[k + 1] == 0x2e);
        if k > 0 {
            assert(path[k - 1] == a[k - 1]);
        }
        if b.len() > 0 {
            assert(path[k + 2] == b[0]);
        }
        assert(climbs_at(path, k));
    }
}

// ── Listings ────────────────────────────────────────────────────────────

/// Most bytes a listing takes.
pub const LIST_MAX: usize = 2048;

/// Whether a name ends in one of the extensions of a comma-separated filter, from
/// `from` on, in any case of letters.
pub open spec fn ext_listed(filter: Seq<u8>, from: int, name: Seq<u8>) -> bool
    decreases filter.len() - from,
{
    if from < 0 || from >= filter.len() {
        false
    } else {
        let e = index_from(filter, 0x2c, from);
        let ext = filter.subrange(from, e);
        (ext.len() > 0 && ext.len() <= name.len() && same_ci(
            name.skip(name.len() - ext.len()),
            ext,
        )) || (from <= e < filter.len() && ext_listed(filter, e + 1, name))
    }
}

/// Whether a listing keeps a name.
pub open spec fn kept(filter: Seq<u8>, name: Seq<u8>) -> bool {
    filter.len() == 0 || ext_listed(filter, 0, name)
}

fn is_kept(filter: &[u8], name: &[u8]) -> (r: bool)
    ensures
        r == kept(filter@, name@),
{
    let n: usize = filter.len();
    if n == 0 {
        return true;
    }
    let mut from: usize = 0;
    while from < n
        invariant
            from <= n,
            n == filter@.len(),
            n > 0,
            ext_listed(filter@, from as int, name@) == ext_listed(filter@, 0, name@),
        decreases n - from,
    {
        let e: usize = find_byte_from(filter, 0x2c, from);
        let ext = slice_subrange(filter, from, e);
        if ext.len() > 0 && ext.len() <= name.len() {
            let tail = slice_subrange(name, name.len() - ext.len(), name.len());
            assert(tail@ =~= name@.skip(name@.len() - ext@.len()));
            if crate::bytes::eq_ascii_ci(tail, ext) {
                return true;
            }
        }
        if e >= n {
            return false;
        }
        from = e + 1;
    }
    false
}

/// Parts with a comma between each two.
pub open spec fn comma_joined(parts: Seq<Seq<u8>>) -> Seq<u8>
    decreases parts.len(),
{
    if parts.len() == 0 {
        Seq::empty()
    } else if parts.len() == 1 {
        parts[0]
    } else {
        parts[0] + seq![0x2cu8] + comma_joined(parts.skip(1))
    }
}

/// Whether two bytes are the same but for the case of a letter.
pub open spec fn same_letter(a: u8, b: u8) -> bool {
    ||| a == b
    ||| 0x41 <= a <= 0x5a && b == a + 0x20
    ||| 0x41 <= b <= 0x5a && a == b + 0x20
}

/// Whether a name ends in these bytes, in any case of letters.
pub open spec fn ends_in(name: Seq<u8>, ext: Seq<u8>) -> bool {
    &&& ext.len() <= name.len()
    &&& forall|i: int|
        0 <= i < ext.len() ==> same_letter(#[trigger] ext[i], name[name.len() - ext.len() + i])
}

proof fn lemma_ends_in(name: Seq<u8>, ext: Seq<u8>)
    requires
        ext.len() <= name.len(),
    ensures
        same_ci(name.skip(name.len() - ext.len()), ext) <==> ends_in(name, ext),
{
    let tail = name.skip(name.len() - ext.len());
    assert(forall|i: int|
        0 <= i < ext.len() ==> tail[i] == #[trigger] name[name.len() - ext.len() + i]);
    if ends_in(name, ext) {
        assert forall|i: int| 0 <= i < tail.len() implies crate::bytes::lower(#[trigger] tail[i])
            == crate::bytes::lower(ext[i]) by {
            assert(same_letter(ext[i], name[name.len() - ext.len() + i]));
        }
    }
    if same_ci(tail, ext) {
        assert forall|i: int| 0 <= i < ext.len() implies same_letter(
            #[trigger] ext[i],
            name[name.len() - ext.len() + i],
        ) by {
            assert(crate::bytes::lower(tail[i]) == crate::bytes::lower(ext[i]));
        }
    }
}

proof fn lemma_index_at(s: Seq<u8>, b: u8, from: int, at: int)
    requires
        0 <= from <= at <= s.len(),
        forall|i: int| from <= i < at ==> #[trigger] s[i] != b,
        at == s.len() || s[at] == b,
    ensures
        index_from(s, b, from) == at,
    decreases at - from,
{
    if from < at {
        lemma_index_at(s, b, from + 1, at);
    }
}

proof fn lemma_listed_parts(pre: Seq<u8>, parts: Seq<Seq<u8>>, name: Seq<u8>)
    requires
        parts.len() > 0,
        forall|i: int| 0 <= i < parts.len() ==> !(#[trigger] parts[i]).contains(0x2c),
    ensures
        ext_listed(pre + comma_joined(parts), pre.len() as int, name) <==> exists|i: int|
            0 <= i < parts.len() && (#[trigger] parts[i]).len() > 0 && ends_in(name, parts[i]),
    decreases parts.len(),
{
    let filter = pre + comma_joined(parts);
    let from = pre.len() as int;
    let p = parts[0];
    let e = from + p.len();
    assert(!p.contains(0x2c));
    assert forall|i: int| from <= i < e implies #[trigger] filter[i] != 0x2c by {
        assert(filter[i] == p[i - from]);
        if p[i - from] == 0x2c {
            assert(p.contains(0x2c));
        }
    }
    if p.len() <= name.len() {
        lemma_ends_in(name, p);
    }
    if parts.len() == 1 {
        if from < filter.len() {
            lemma_index_at(filter, 0x2c, from, e);
            assert(filter.subrange(from, e) =~= p);
        }
        if ext_listed(filter, from, name) {
            assert(parts[0].len() > 0 && ends_in(name, parts[0]));
        }
    } else {
        let rest = parts.skip(1);
        let head = pre + p + seq![0x2cu8];
        assert(filter =~= head + comma_joined(rest));
        assert(filter[e] == 0x2c) by {
            assert(filter[e] == head[e]);
        }
        lemma_index_at(filter, 0x2c, from, e);
        assert(filter.subrange(from, e) =~= p);
        assert(forall|i: int| 0 <= i < rest.len() ==> rest[i] == parts[i + 1]);
        lemma_listed_parts(head, rest, name);
        assert(head.len() == e + 1);
        assert(ext_listed(filter, from, name) <==> (p.len() > 0 && ends_in(name, p)) || ext_listed(
            filter,
            e + 1,
            name,
        ));
        if exists|i: int| 0 <= i < rest.len() && (#[trigger] rest[i]).len() > 0 && ends_in(
            name,
            rest[i],
        ) {
            let i = choose|i: int|
                0 <= i < rest.len() && (#[trigger] rest[i]).len() > 0 && ends_in(name, rest[i]);
            assert(parts[i + 1].len() > 0 && ends_in(name, parts[i + 1]));
        }
        if exists|i: int| 0 <= i < parts.len() && (#[trigger] parts[i]).len() > 0 && ends_in(
            name,
            parts[i],
        ) {
            let i = choose|i: int|
                0 <= i < parts.len() && (#[trigger] parts[i]).len() > 0 && ends_in(name, parts[i]);
            if i > 0 {
                assert(rest[i - 1] == parts[i]);
            }
        }
    }
}

/// A filter keeps exactly the names that end in one of its parts, in any case of letters;
/// a part with nothing in it keeps none. No filter keeps every name.
pub proof fn law_filter_keeps_its_extensions(parts: Seq<Seq<u8>>, name: Seq<u8>)
    requires
        parts.len() > 0,
        forall|i: int| 0 <= i < parts.len() ==> !(#[trigger] parts[i]).contains(0x2c),
    ensures
        comma_joined(parts).len() > 0 ==> (kept(comma_joined(parts), name) <==> exists|i: int|
            0 <= i < parts.len() && (#[trigger] parts[i]).len() > 0 && ends_in(name, parts[i])),
        comma_joined(parts).len() == 0 ==> kept(comma_joined(parts), name),
{
    lemma_listed_parts(Seq::empty(), parts, name);
    assert(Seq::<u8>::empty() + comma_joined(parts) =~= comma_joined(parts));
}

/// A byte of a name as it stands in a listing.
pub open spec fn quoted(c: u8) -> Seq<u8> {
    if c == 0x22 || c == 0x5c {
        seq![0x5cu8, c]
    } else {
        seq![c]
    }
}

/// A name as it stands in a listing.
pub open spec fn quoted_name(name: Seq<u8>, k: int) -> Seq<u8>
    decreases name.len() - k,
{
    if k < 0 || k >= name.len() {
        Seq::empty()
    } else {
        quoted(name[k]) + quoted_name(name, k + 1)
    }
}

/// A listing with the bytes of a name from `k` on appended, as far as there is room.
pub open spec fn with_name(body: Seq<u8>, name: Seq<u8>, k: int) -> Seq<u8>
    decreases name.len() - k,
{
    if k < 0 || k >= name.len() || body.len() + 2 >= LIST_MAX {
        body
    } else {
        with_name(body + quoted(name[k]), name, k + 1)
    }
}

/// A listing with one more byte, if there is room.
pub open spec fn with_byte(body: Seq<u8>, b: u8) -> Seq<u8> {
    if body.len() < LIST_MAX {
        body.push(b)
    } else {
        body
    }
}

/// A listing with one more item.
pub open spec fn with_item(body: Seq<u8>, first: bool, name: Seq<u8>) -> Seq<u8> {
    let a = if first {
        body
    } else {
        with_byte(body, 0x2c)
    };
    with_byte(with_name(with_byte(a, 0x22), name, 0), 0x22)
}

/// A listing being made.
pub struct Listing {
    pub body: Vec<u8>,
    /// No item stands in it yet.
    pub first: bool,
}

/// The listing after the entries of one batch from `pos` on, of which `left` remain.
/// Directories are left out, and names the filter does not keep.
pub open spec fn with_batch(
    body: Seq<u8>,
    first: bool,
    buf: Seq<u8>,
    pos: int,
    left: nat,
    filter: Seq<u8>,
) -> (Seq<u8>, bool)
    decreases left,
{
    if left == 0 || pos < 0 || pos + 2 > buf.len() || pos + 2 + buf[pos] > buf.len() {
        (body, first)
    } else {
        let end = pos + 2 + buf[pos];
        let name = buf.subrange(pos + 2, end);
        if buf[pos + 1] == 1 || !kept(filter, name) {
            with_batch(body, first, buf, end, (left - 1) as nat, filter)
        } else {
            with_batch(
                with_item(body, first, name),
                false,
                buf,
                end,
                (left - 1) as nat,
                filter,
            )
        }
    }
}

impl Listing {
    pub open spec fn wf(self) -> bool {
        self.body@.len() <= LIST_MAX
    }

    pub fn new() -> (r: Listing)
        ensures
            r.wf(),
            r.body@ == text("{\"items\":["),
            r.first,
    {
        proof {
            reveal_strlit("{\"items\":[");
            lemma_text("{\"items\":[");
        }
        Listing { body: to_vec(lit("{\"items\":[")), first: true }
    }

    fn push(&mut self, b: u8)
        requires
            old(self).wf(),
        ensures
            final(self).wf(),
            final(self).first == old(self).first,
            final(self).body@ == with_byte(old(self).body@, b),
    {
        if self.body.len() < LIST_MAX {
            self.body.push(b);
        }
    }

    /// Append one item.
    pub fn add_item(&mut self, name: &[u8])
        requires
            old(self).wf(),
        ensures
            final(self).wf(),
            !final(self).first,
            final(self).body@ == with_item(old(self).body@, old(self).first, name@),
    {
        if !self.first {
            self.push(0x2c);
        }
        self.first = false;
        self.push(0x22);
        let ghost start = self.body@;
        let mut k: usize = 0;
        while k < name.len() && self.body.len() < LIST_MAX - 2
            invariant
                k <= name@.len(),
                self.wf(),
                !self.first,
                with_name(self.body@, name@, k as int) == with_name(start, name@, 0),
            decreases name@.len() - k,
        {
            let ghost before = self.body@;
            let c: u8 = name[k];
            if c == 0x22 || c == 0x5c {
                self.body.push(0x5c);
            }
            self.body.push(c);
            assert(self.body@ =~= before + quoted(c));
            k += 1;
        }
        self.push(0x22);
    }

    /// Append the entries of one batch. Returns false when it was the last.
    pub fn add_batch(&mut self, buf: &[u8], filter: &[u8]) -> (more: bool)
        requires
            old(self).wf(),
        ensures
            final(self).wf(),
            more == (buf@.len() >= 2 && u16_at(buf@, 0) > 0),
            if more {
                (final(self).body@, final(self).first) == with_batch(
                    old(self).body@,
                    old(self).first,
                    buf@,
                    2,
                    u16_at(buf@, 0) as nat,
                    filter@,
                )
            } else {
                *final(self) == *old(self)
            },
    {
        let n: usize = buf.len();
        if n < 2 {
            return false;
        }
        let count: usize = crate::bytes::get_u16(buf, 0) as usize;
        if count == 0 {
            return false;
        }
        let ghost whole = with_batch(self.body@, self.first, buf@, 2, count as nat, filter@);
        let mut pos: usize = 2;
        let mut left: usize = count;
        while left > 0 && n - pos >= 2 && n - pos - 2 >= buf[pos] as usize
            invariant
                2 <= pos <= n,
                n == buf@.len(),
                self.wf(),
                with_batch(self.body@, self.first, buf@, pos as int, left as nat, filter@)
                    == whole,
            decreases left,
        {
            let end: usize = pos + 2 + buf[pos] as usize;
            let name = slice_subrange(buf, pos + 2, end);
            if buf[pos + 1] != 1 && is_kept(filter, name) {
                self.add_item(name);
            }
            pos = end;
            left -= 1;
        }
        true
    }

    /// Close the listing.
    pub fn finish(self) -> (r: Vec<u8>)
        requires
            self.wf(),
        ensures
            r@ == clip(self.body@ + text("]}"), LIST_MAX as nat),
            r@.len() <= LIST_MAX,
    {
        let mut v = self.body;
        crate::bytes::put_bytes(&mut v, LIST_MAX, lit("]}"));
        v
    }
}

/// Where there is room, an item is its quoted name, behind a comma unless it is the
/// first: nothing of it is lost.
pub proof fn law_listed_item_is_whole(body: Seq<u8>, first: bool, name: Seq<u8>)
    requires
        body.len() + 2 * name.len() + 6 <= LIST_MAX,
    ensures
        with_item(body, first, name) == body + (if first {
            Seq::empty()
        } else {
            seq![0x2cu8]
        }) + seq![0x22u8] + quoted_name(name, 0) + seq![0x22u8],
{
    let sep = if first {
        Seq::<u8>::empty()
    } else {
        seq![0x2cu8]
    };
    let a = body + sep + seq![0x22u8];
    assert(with_byte(
        if first {
            body
        } else {
            with_byte(body, 0x2c)
        },
        0x22,
    ) =~= a);
    lemma_name_whole(a, name, 0);
    assert(with_item(body, first, name) =~= a + quoted_name(name, 0) + seq![0x22u8]);
}

proof fn lemma_name_whole(body: Seq<u8>, name: Seq<u8>, k: int)
    requires
        0 <= k <= name.len(),
        body.len() + 2 * (name.len() - k) + 4 <= LIST_MAX,
    ensures
        with_name(body, name, k) == body + quoted_name(name, k),
        quoted_name(name, k).len() <= 2 * (name.len() - k),
    decreases name.len() - k,
{
    if k < name.len() {
        lemma_name_whole(body + quoted(name[k]), name, k + 1);
        assert(body + quoted(name[k]) + quoted_name(name, k + 1) =~= body + (quoted(name[k])
            + quoted_name(name, k + 1)));
    } else {
        assert(body + quoted_name(name, k) =~= body);
    }
}

/// A quoted text with its backslashes taken out again.
pub open spec fn unquoted(s: Seq<u8>) -> Seq<u8>
    decreases s.len(),
{
    if s.len() == 0 {
        Seq::empty()
    } else if s[0] == 0x5c && s.len() >= 2 {
        seq![s[1]] + unquoted(s.skip(2))
    } else {
        seq![s[0]] + unquoted(s.skip(1))
    }
}

/// A quoted name reads back as itself, and no quotation mark in it ends the text around
/// it: each stands behind a backslash.
pub proof fn law_quoted_name_reads_back(name: Seq<u8>)
    ensures
        unquoted(quoted_name(name, 0)) == name,
        forall|i: int|
            0 <= i < quoted_name(name, 0).len() && #[trigger] quoted_name(name, 0)[i] == 0x22
                ==> i > 0 && quoted_name(name, 0)[i - 1] == 0x5c,
{
    lemma_quoted_from(name, 0);
    assert(name.skip(0) =~= name);
}

proof fn lemma_quoted_from(name: Seq<u8>, k: int)
    requires
        0 <= k <= name.len(),
    ensures
        unquoted(quoted_name(name, k)) == name.skip(k),
        forall|i: int|
            0 <= i < quoted_name(name, k).len() && #[trigger] quoted_name(name, k)[i] == 0x22
                ==> i > 0 && quoted_name(name, k)[i - 1] == 0x5c,
    decreases name.len() - k,
{
    let s = quoted_name(name, k);
    if k < name.len() {
        let rest = quoted_name(name, k + 1);
        lemma_quoted_from(name, k + 1);
        let q = quoted(name[k]);
        assert(s == q + rest);
        assert(s.skip(q.len() as int) =~= rest);
        assert(seq![name[k]] + name.skip(k + 1) =~= name.skip(k));
        assert forall|i: int| 0 <= i < s.len() && #[trigger] s[i] == 0x22 implies i > 0 && s[i - 1]
            == 0x5c by {
            if i >= q.len() {
                assert(s[i] == rest[i - q.len()]);
                assert(s[i - 1] == rest[i - q.len() - 1]);
            }
        }
    } else {
        assert(unquoted(s) =~= name.skip(k));
    }
}

/// An entry of a directory: whether it is a directory itself, and its name.
pub struct Entry {
    pub is_dir: bool,
    pub name: Seq<u8>,
}

/// Entries as a batch holds them: the length of the name, the kind, the name.
pub open spec fn entries_bytes(es: Seq<Entry>) -> Seq<u8>
    decreases es.len(),
{
    if es.len() == 0 {
        Seq::empty()
    } else {
        seq![
            es[0].name.len() as u8,
            if es[0].is_dir {
                1u8
            } else {
                0u8
            },
        ] + es[0].name + entries_bytes(es.skip(1))
    }
}

/// The items that entries come to: each file that the filter keeps, quoted, in its order,
/// with commas between.
pub open spec fn items_of(es: Seq<Entry>, first: bool, filter: Seq<u8>) -> Seq<u8>
    decreases es.len(),
{
    if es.len() == 0 {
        Seq::empty()
    } else if es[0].is_dir || !kept(filter, es[0].name) {
        items_of(es.skip(1), first, filter)
    } else {
        (if first {
            Seq::empty()
        } else {
            seq![0x2cu8]
        }) + seq![0x22u8] + quoted_name(es[0].name, 0) + seq![0x22u8] + items_of(
            es.skip(1),
            false,
            filter,
        )
    }
}

/// Room that is enough for entries: twice the bytes of each name, two quotation marks, a
/// comma and a little more.
pub open spec fn items_room(es: Seq<Entry>) -> int
    decreases es.len(),
{
    if es.len() == 0 {
        6
    } else {
        2 * es[0].name.len() + 3 + items_room(es.skip(1))
    }
}

proof fn lemma_items_room(es: Seq<Entry>)
    ensures
        items_room(es) >= 6,
    decreases es.len(),
{
    if es.len() > 0 {
        lemma_items_room(es.skip(1));
    }
}

/// A batch adds to a listing exactly the files that the filter keeps, in their order, where
/// there is room for them. Directories are left out.
pub proof fn law_listing_holds_the_kept_files(
    body: Seq<u8>,
    first: bool,
    pre: Seq<u8>,
    es: Seq<Entry>,
    filter: Seq<u8>,
)
    requires
        forall|i: int| 0 <= i < es.len() ==> (#[trigger] es[i]).name.len() <= 255,
        body.len() + items_room(es) <= LIST_MAX,
    ensures
        with_batch(
            body,
            first,
            pre + entries_bytes(es),
            pre.len() as int,
            es.len(),
            filter,
        ).0 == body + items_of(es, first, filter),
    decreases es.len(),
{
    let buf = pre + entries_bytes(es);
    let pos = pre.len() as int;
    if es.len() == 0 {
        assert(body + items_of(es, first, filter) =~= body);
    } else {
        let e = es[0];
        let rest = es.skip(1);
        lemma_items_room(rest);
        let front = seq![
            e.name.len() as u8,
            if e.is_dir {
                1u8
            } else {
                0u8
            },
        ] + e.name;
        assert(entries_bytes(es) == front + entries_bytes(rest));
        assert(buf =~= (pre + front) + entries_bytes(rest));
        assert(buf[pos] == front[0] && buf[pos + 1] == front[1]);
        let end = pos + 2 + e.name.len();
        assert(end <= buf.len());
        assert(buf.subrange(pos + 2, end) =~= e.name);
        assert(forall|i: int| 0 <= i < rest.len() ==> rest[i] == es[i + 1]);
        assert((pre + front).len() == end);
        if e.is_dir || !kept(filter, e.name) {
            law_listing_holds_the_kept_files(body, first, pre + front, rest, filter);
        } else {
            law_listed_item_is_whole(body, first, e.name);
            lemma_name_whole(Seq::empty(), e.name, 0);
            let item = (if first {
                Seq::empty()
            } else {
                seq![0x2cu8]
            }) + seq![0x22u8] + quoted_name(e.name, 0) + seq![0x22u8];
            let next = with_item(body, first, e.name);
            assert(next =~= body + item);
            law_listing_holds_the_kept_files(next, false, pre + front, rest, filter);
            assert(body + item + items_of(rest, false, filter) =~= body + (item + items_of(
                rest,
                false,
                filter,
            )));
        }
    }
}

/// Stage a finished listing. Only its head is sent where the method asks for no body.
pub fn stage_listing(slot: &mut ConnSlot, body: &[u8])
    requires
        old(slot).wf(),
        body@.len() <= LIST_MAX,
    ensures
        final(slot).wf(),
        *final(slot) == (ConnSlot { tx: final(slot).tx, phase: Phase::SendHeaders, ..*old(slot) }),
        final(slot).tx.sent == 0,
        ({
            let head = clip(
                sized_head(
                    text("200 OK"),
                    text("application/json"),
                    old(slot).keepalive,
                    body@.len() as u32,
                ),
                SEND_BUF_SIZE as nat,
            );
            final(slot).tx.buf@ == if sends_response_body(old(slot).req.method) {
                clip(head + body@, SEND_BUF_SIZE as nat)
            } else {
                head
            }
        }),
{
    build_header_with_len(slot, lit("200 OK"), lit("application/json"), body.len() as u32);
    if method_sends_response_body(slot.req.method) {
        crate::bytes::put_bytes(&mut slot.tx.buf, SEND_BUF_SIZE, body);
    }
    slot.phase = Phase::SendHeaders;
}

// ── Opening and measuring a file ────────────────────────────────────────

pub const FS_ENOSYS: i32 = -38;
pub const FS_EAGAIN: i32 = -11;

/// How many times a file's length is asked for before giving up.
pub const FS_STAT_PROBE_TIMEOUT_TICKS: u16 = 1500;

/// Whether a slot has answered with an error and drains it.
pub open spec fn refused(before: ConnSlot, after: ConnSlot, code: &str, body: &str) -> bool {
    staged_head(
        ConnSlot { phase: Phase::DrainSend, ..before },
        after,
        error_response(text(code), text(body)),
        false,
    )
}

/// Answer with an error.
pub fn refuse(slot: &mut ConnSlot, code: &'static str, body: &'static str)
    requires
        old(slot).wf(),
    ensures
        final(slot).wf(),
        refused(*old(slot), *final(slot), code, body),
{
    slot.phase = Phase::DrainSend;
    build_error(slot, lit(code), lit(body));
}

/// Act on the answer to an open: a file handle, or an error.
pub fn fs_opened(slot: &mut ConnSlot, fd: i32)
    requires
        old(slot).wf(),
    ensures
        final(slot).wf(),
        if fd < 0 {
            refused(*old(slot), *final(slot), "404 Not Found", "Not Found\n")
        } else {
            *final(slot) == (ConnSlot {
                render: Rendering { fd, sent: 0, total: 0, stat_ticks: 0, ..old(slot).render },
                phase: Phase::AwaitFsStat,
                ..*old(slot)
            })
        },
{
    if fd < 0 {
        refuse(slot, "404 Not Found", "Not Found\n");
        return;
    }
    slot.render.fd = fd;
    slot.render.sent = 0;
    slot.render.total = 0;
    slot.render.stat_ticks = 0;
    slot.phase = Phase::AwaitFsStat;
}

/// The content type of a file: the route's, else the one its name says, else bytes.
pub open spec fn file_type(route_type: Seq<u8>, path: Seq<u8>) -> Seq<u8> {
    if route_type.len() > 0 {
        route_type
    } else {
        match type_of_path(path) {
            Some(t) => t,
            None => text("application/octet-stream"),
        }
    }
}

pub fn fs_content_type(route_type: &[u8], path: &[u8]) -> (r: Vec<u8>)
    ensures
        r@ == file_type(route_type@, path@),
{
    if route_type.len() > 0 {
        return to_vec(route_type);
    }
    match content_type_from_path(path) {
        Some(t) => to_vec(t),
        None => to_vec(lit("application/octet-stream")),
    }
}

/// The head of the request being served, as far as it is known.
pub open spec fn current_head(slot: ConnSlot) -> Seq<u8> {
    if slot.rx.head_end > 0 {
        slot.rx.buf@.take(slot.rx.head_end as int)
    } else {
        slot.rx.buf@
    }
}

/// What the request asks of a file of `size` bytes. Only its own head is looked at, not
/// what may have arrived behind it.
pub open spec fn asked_range(slot: ConnSlot, size: u32) -> RangeParse {
    match header_of(current_head(slot), text("Range")) {
        Some(v) => range_of(v, size),
        None => RangeParse::Whole,
    }
}

fn request_range(slot: &ConnSlot, size: u32) -> (r: RangeParse)
    requires
        slot.wf(),
    ensures
        r == asked_range(*slot, size),
        r matches RangeParse::Satisfiable { start, end } ==> start <= end < size,
{
    let n: usize = if slot.rx.head_end > 0 {
        slot.rx.head_end
    } else {
        slot.rx.buf.len()
    };
    let head = slice_subrange(slot.rx.buf.as_slice(), 0, n);
    assert(head@ =~= current_head(*slot));
    match find_header(head, lit("Range")) {
        Some(v) => parse_range_header(v.as_slice(), size),
        None => RangeParse::Whole,
    }
}

/// What the answer to a length query leaves to do.
#[derive(Clone, Copy, PartialEq, Eq, Structural, Debug)]
pub enum StatStep {
    /// Ask again later.
    Again,
    /// Close this file; an error is staged.
    CloseFile(i32),
    /// Move the file to `start`, then go on with `fs_sought`.
    Seek { start: u32, end: u32, size: u32 },
    /// The head is staged.
    Ready,
}

/// Whether a slot has acted on the answer to a length query as it should.
pub open spec fn stat_acted(before: ConnSlot, after: ConnSlot, st: i32, size: u32, ct: Seq<u8>, r: StatStep) -> bool {
    let shut = ConnSlot { render: Rendering { fd: -1i32, ..before.render }, ..before };
    if st >= 0 {
        match asked_range(before, size) {
            RangeParse::Satisfiable { start, end } => {
                r == (StatStep::Seek { start, end, size }) && after == before
            },
            RangeParse::Unsatisfiable => {
                &&& r == StatStep::CloseFile(before.render.fd)
                &&& staged_head(
                    ConnSlot { phase: Phase::DrainSend, ..shut },
                    after,
                    range_error_response(size),
                    false,
                )
            },
            RangeParse::Whole => {
                &&& r is Ready
                &&& whole_file(before, after, ct, size)
            },
        }
    } else if st == FS_ENOSYS {
        &&& r is Ready
        &&& staged_head(
            ConnSlot {
                render: Rendering { total: u32::MAX, ..before.render },
                phase: Phase::SendHeaders,
                ..before
            },
            after,
            closing_head(text("200 OK"), ct),
            false,
        )
    } else if st == FS_EAGAIN {
        let ticks = if before.render.stat_ticks < u16::MAX {
            (before.render.stat_ticks + 1) as u16
        } else {
            u16::MAX
        };
        if ticks >= FS_STAT_PROBE_TIMEOUT_TICKS {
            &&& r == StatStep::CloseFile(before.render.fd)
            &&& refused(
                ConnSlot {
                    render: Rendering { fd: -1i32, stat_ticks: ticks, ..before.render },
                    ..before
                },
                after,
                "504 Gateway Timeout",
                "Upstream fetch did not respond\n",
            )
        } else {
            &&& r is Again
            &&& after == (ConnSlot {
                render: Rendering { stat_ticks: ticks, ..before.render },
                ..before
            })
        }
    } else {
        &&& r == StatStep::CloseFile(before.render.fd)
        &&& refused(shut, after, "502 Bad Gateway", "Upstream fetch failed\n")
    }
}

/// Whether a slot has staged the head of a whole file.
pub open spec fn whole_file(before: ConnSlot, after: ConnSlot, ct: Seq<u8>, size: u32) -> bool {
    staged_head(
        ConnSlot {
            render: Rendering { total: size, ..before.render },
            phase: Phase::SendHeaders,
            ..before
        },
        after,
        file_head(text("200 OK"), ct, before.keepalive, size),
        before.keepalive,
    )
}

/// Act on the answer to a length query: `st` its status and `size` the length. `ct` is
/// the file's content type.
pub fn step_fs_stat(slot: &mut ConnSlot, st: i32, size: u32, ct: &[u8]) -> (r: StatStep)
    requires
        old(slot).wf(),
    ensures
        final(slot).wf(),
        stat_acted(*old(slot), *final(slot), st, size, ct@, r),
        r matches StatStep::Seek { start, end, size } ==> start <= end < size,
{
    let fd: i32 = slot.render.fd;
    if st >= 0 {
        match request_range(slot, size) {
            RangeParse::Satisfiable { start, end } => StatStep::Seek { start, end, size },
            RangeParse::Unsatisfiable => {
                slot.render.fd = -1;
                slot.phase = Phase::DrainSend;
                build_error_416(slot, size);
                StatStep::CloseFile(fd)
            },
            RangeParse::Whole => {
                slot.render.total = size;
                slot.phase = Phase::SendHeaders;
                build_header_fs_full(slot, lit("200 OK"), ct, size);
                StatStep::Ready
            },
        }
    } else if st == FS_ENOSYS {
        slot.render.total = u32::MAX;
        slot.phase = Phase::SendHeaders;
        build_header(slot, lit("200 OK"), ct);
        StatStep::Ready
    } else if st == FS_EAGAIN {
        if slot.render.stat_ticks < 0xffff {
            slot.render.stat_ticks = slot.render.stat_ticks + 1;
        }
        if slot.render.stat_ticks >= FS_STAT_PROBE_TIMEOUT_TICKS {
            slot.render.fd = -1;
            refuse(slot, "504 Gateway Timeout", "Upstream fetch did not respond\n");
            return StatStep::CloseFile(fd);
        }
        StatStep::Again
    } else {
        slot.render.fd = -1;
        refuse(slot, "502 Bad Gateway", "Upstream fetch failed\n");
        StatStep::CloseFile(fd)
    }
}

/// Act on the answer to moving the file: send the range, or the whole file where the
/// provider cannot move it.
pub fn fs_sought(slot: &mut ConnSlot, moved: bool, start: u32, end: u32, size: u32, ct: &[u8])
    requires
        old(slot).wf(),
        start <= end < size,
    ensures
        final(slot).wf(),
        if moved {
            staged_head(
                ConnSlot {
                    render: Rendering { total: (end - start + 1) as u32, ..old(slot).render },
                    phase: Phase::SendHeaders,
                    ..*old(slot)
                },
                *final(slot),
                partial_head(ct@, old(slot).keepalive, start, end, size),
                old(slot).keepalive,
            )
        } else {
            whole_file(*old(slot), *final(slot), ct@, size)
        },
{
    slot.phase = Phase::SendHeaders;
    if moved {
        slot.render.total = end - start + 1;
        build_header_fs_partial(slot, ct, start, end, size);
    } else {
        slot.render.total = size;
        build_header_fs_full(slot, lit("200 OK"), ct, size);
    }
}

} // verus!
