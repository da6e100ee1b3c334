//! Response bodies: rendering them, chunk by chunk.
//!
//! A renderer takes the body and a cursor, writes at most a given number of bytes
//! and moves the cursor. It knows nothing of connections, so every protocol
//! generation renders the same body the same way.

use crate::bytes::{
    decimal, decimal_bytes, decimal_value, extend, is_digit, lemma_decimal_prefix,
};
use crate::cache::VarTable;
use vstd::prelude::*;

verus! {

// ── Static bodies ───────────────────────────────────────────────────────

/// The next chunk of an inline body from `pos` on, of at most `cap` bytes, and
/// whether more is left.
pub fn render_static_into(body: &[u8], pos: &mut usize, cap: usize) -> (r: (Vec<u8>, bool))
    ensures
        ({
            let left = if *old(pos) < body@.len() {
                body@.len() - *old(pos)
            } else {
                0
            };
            let n = if left < cap {
                left
            } else {
                cap as int
            };
            &&& r.0@ == if n > 0 {
                body@.subrange(*old(pos) as int, *old(pos) + n)
            } else {
                Seq::empty()
            }
            &&& *final(pos) == *old(pos) + n
            &&& r.1 == (*final(pos) < body@.len())
        }),
{
    let len: usize = body.len();
    if *pos >= len || cap == 0 {
        return (Vec::new(), *pos < len);
    }
    let left: usize = len - *pos;
    let n: usize = if left < cap {
        left
    } else {
        cap
    };
    let chunk = vstd::slice::slice_subrange(body, *pos, *pos + n);
    let out: Vec<u8> = crate::bytes::to_vec(chunk);
    *pos = *pos + n;
    (out, *pos < len)
}

// ── Templates ───────────────────────────────────────────────────────────

/// Whether a substitution opens at `pos`.
pub open spec fn opens(body: Seq<u8>, pos: int) -> bool {
    0 <= pos && pos + 1 < body.len() && body[pos] == 0x7b && body[pos + 1] == 0x7b
}

/// Where the name of a substitution ends: at the first `}}` from `p` on, or one
/// byte before the body's end when there is none.
pub open spec fn name_end(body: Seq<u8>, p: int) -> int
    decreases body.len() - p,
{
    if p + 1 >= body.len() || (body[p] == 0x7d && body[p + 1] == 0x7d) {
        p
    } else {
        name_end(body, p + 1)
    }
}

/// One step of the 32-bit FNV-1a hash.
pub open spec fn fnv_step(h: u32, c: u8) -> u32 {
    (h ^ (c as u32)).wrapping_mul(0x0100_0193)
}

/// The hash of the bytes `p..q`, spaces left out, continued from `h`.
pub open spec fn name_hash(body: Seq<u8>, p: int, q: int, h: u32) -> u32
    decreases q - p,
{
    if p >= q {
        h
    } else if body[p] == 0x20 {
        name_hash(body, p + 1, q, h)
    } else {
        name_hash(body, p + 1, q, fnv_step(h, body[p]))
    }
}

/// What the substitution opening at `pos` stands for; nothing when unknown.
pub open spec fn subst_value(body: Seq<u8>, vars: VarTable, pos: int) -> Seq<u8> {
    match vars.value_of(name_hash(body, pos + 2, name_end(body, pos + 2), 0x811c_9dc5)) {
        Some(v) => v,
        None => Seq::empty(),
    }
}

/// Where the body goes on behind the substitution opening at `pos`.
pub open spec fn subst_end(body: Seq<u8>, pos: int) -> int {
    let q = name_end(body, pos + 2);
    if q + 1 < body.len() {
        q + 2
    } else {
        q
    }
}

proof fn lemma_name_end(body: Seq<u8>, p: int)
    requires
        0 <= p,
    ensures
        p <= name_end(body, p),
        p <= body.len() ==> name_end(body, p) <= body.len(),
    decreases body.len() - p,
{
    if p + 1 < body.len() && !(body[p] == 0x7d && body[p + 1] == 0x7d) {
        lemma_name_end(body, p + 1);
    }
}

/// A substitution takes at least its two opening braces and ends inside the body.
pub proof fn lemma_subst_end(body: Seq<u8>, pos: int)
    requires
        opens(body, pos),
    ensures
        pos + 2 <= subst_end(body, pos) <= body.len(),
{
    lemma_name_end(body, pos + 2);
}

/// The whole body from `pos` on, with every substitution made.
pub open spec fn expanded(body: Seq<u8>, vars: VarTable, pos: int) -> Seq<u8>
    decreases body.len() - pos,
{
    if pos < 0 || pos >= body.len() {
        Seq::empty()
    } else if opens(body, pos) {
        proof {
            lemma_subst_end(body, pos);
        }
        subst_value(body, vars, pos) + expanded(body, vars, subst_end(body, pos))
    } else {
        seq![body[pos]] + expanded(body, vars, pos + 1)
    }
}

/// How far a chunk of at most `room` bytes from `pos` reaches: it stops at the end,
/// when full, or before a substitution whose value does not fit whole.
pub open spec fn chunk_end(body: Seq<u8>, vars: VarTable, pos: int, room: int) -> int
    decreases body.len() - pos,
{
    if pos < 0 || pos >= body.len() || room <= 0 {
        pos
    } else if opens(body, pos) {
        proof {
            lemma_subst_end(body, pos);
        }
        let v = subst_value(body, vars, pos);
        if v.len() > room {
            pos
        } else {
            chunk_end(body, vars, subst_end(body, pos), room - v.len())
        }
    } else {
        chunk_end(body, vars, pos + 1, room - 1)
    }
}

/// The bytes of the chunk that [`chunk_end`] delimits.
pub open spec fn chunk_text(body: Seq<u8>, vars: VarTable, pos: int, room: int) -> Seq<u8>
    decreases body.len() - pos,
{
    if pos < 0 || pos >= body.len() || room <= 0 {
        Seq::empty()
    } else if opens(body, pos) {
        proof {
            lemma_subst_end(body, pos);
        }
        let v = subst_value(body, vars, pos);
        if v.len() > room {
            Seq::empty()
        } else {
            v + chunk_text(body, vars, subst_end(body, pos), room - v.len())
        }
    } else {
        seq![body[pos]] + chunk_text(body, vars, pos + 1, room - 1)
    }
}

/// Rendering in chunks gives the whole body: a chunk followed by the expansion from
/// where it stopped is the expansion from where it began.
pub proof fn law_chunks_make_the_whole(body: Seq<u8>, vars: VarTable, pos: int, room: int)
    requires
        0 <= pos,
    ensures
        chunk_text(body, vars, pos, room) + expanded(body, vars, chunk_end(body, vars, pos, room))
            == expanded(body, vars, pos),
        pos <= chunk_end(body, vars, pos, room),
        pos <= body.len() ==> chunk_end(body, vars, pos, room) <= body.len(),
        room >= 0 ==> chunk_text(body, vars, pos, room).len() <= room,
    decreases body.len() - pos,
{
    if pos < body.len() && room > 0 {
        if opens(body, pos) {
            lemma_subst_end(body, pos);
            let v = subst_value(body, vars, pos);
            if v.len() <= room {
                let e = subst_end(body, pos);
                law_chunks_make_the_whole(body, vars, e, room - v.len());
                assert(v + chunk_text(body, vars, e, room - v.len()) + expanded(
                    body,
                    vars,
                    chunk_end(body, vars, e, room - v.len()),
                ) =~= v + (chunk_text(body, vars, e, room - v.len()) + expanded(
                    body,
                    vars,
                    chunk_end(body, vars, e, room - v.len()),
                )));
            } else {
                assert(Seq::<u8>::empty() + expanded(body, vars, pos) =~= expanded(
                    body,
                    vars,
                    pos,
                ));
            }
        } else {
            law_chunks_make_the_whole(body, vars, pos + 1, room - 1);
            assert(seq![body[pos]] + chunk_text(body, vars, pos + 1, room - 1) + expanded(
                body,
                vars,
                chunk_end(body, vars, pos + 1, room - 1),
            ) =~= seq![body[pos]] + (chunk_text(body, vars, pos + 1, room - 1) + expanded(
                body,
                vars,
                chunk_end(body, vars, pos + 1, room - 1),
            )));
        }
    } else {
        assert(Seq::<u8>::empty() + expanded(body, vars, pos) =~= expanded(body, vars, pos));
    }
}

/// A chunk with room for any one value moves on whenever there is body left.
pub proof fn law_chunks_progress(body: Seq<u8>, vars: VarTable, pos: int, room: int)
    requires
        0 <= pos < body.len(),
        room > 0,
        opens(body, pos) ==> subst_value(body, vars, pos).len() <= room,
    ensures
        chunk_end(body, vars, pos, room) > pos,
{
    if opens(body, pos) {
        lemma_subst_end(body, pos);
        law_chunks_make_the_whole(
            body,
            vars,
            subst_end(body, pos),
            room - subst_value(body, vars, pos).len(),
        );
    } else {
        law_chunks_make_the_whole(body, vars, pos + 1, room - 1);
    }
}

/// The 32-bit FNV-1a hash of a name: each byte is taken in by exclusive or, and the result
/// multiplied by the prime, from the offset basis on.
pub open spec fn fnv1a(name: Seq<u8>) -> u32
    decreases name.len(),
{
    if name.len() == 0 {
        2166136261
    } else {
        ((fnv1a(name.drop_last()) ^ (name.last() as u32)) as nat * 16777619 % 4294967296) as u32
    }
}

/// A substitution as a template writes it: a name in double braces, with any number of
/// spaces on either side of it.
pub open spec fn written_subst(before: nat, name: Seq<u8>, after: nat) -> Seq<u8> {
    seq![0x7bu8, 0x7bu8] + Seq::new(before, |i: int| 0x20u8) + name + Seq::new(
        after,
        |i: int| 0x20u8,
    ) + seq![0x7du8, 0x7du8]
}

proof fn lemma_name_end_shift(pre: Seq<u8>, s: Seq<u8>, p: int)
    requires
        0 <= p,
    ensures
        name_end(pre + s, pre.len() + p) == pre.len() + name_end(s, p),
    decreases s.len() - p,
{
    if p + 1 < s.len() {
        assert((pre + s)[pre.len() + p] == s[p]);
        assert((pre + s)[pre.len() + p + 1] == s[p + 1]);
        if !(s[p] == 0x7d && s[p + 1] == 0x7d) {
            lemma_name_end_shift(pre, s, p + 1);
        }
    }
}

proof fn lemma_name_hash_shift(pre: Seq<u8>, s: Seq<u8>, p: int, q: int, h: u32)
    requires
        0 <= p,
        q <= s.len(),
    ensures
        name_hash(pre + s, pre.len() + p, pre.len() + q, h) == name_hash(s, p, q, h),
    decreases q - p,
{
    if p < q {
        assert((pre + s)[pre.len() + p] == s[p]);
        lemma_name_hash_shift(pre, s, p + 1, q, h);
        lemma_name_hash_shift(pre, s, p + 1, q, fnv_step(h, s[p]));
    }
}

/// What stands before does not matter to what is rendered from a position on.
proof fn lemma_expanded_shift(pre: Seq<u8>, s: Seq<u8>, vars: VarTable, p: int)
    requires
        0 <= p,
    ensures
        expanded(pre + s, vars, pre.len() + p) == expanded(s, vars, p),
    decreases s.len() - p,
{
    let all = pre + s;
    let at = pre.len() + p;
    if p < s.len() {
        assert(all[at] == s[p]);
        if p + 1 < s.len() {
            assert(all[at + 1] == s[p + 1]);
        }
        if opens(s, p) {
            lemma_subst_end(s, p);
            lemma_subst_end(all, at);
            lemma_name_end_shift(pre, s, p + 2);
            lemma_name_end(s, p + 2);
            lemma_name_hash_shift(pre, s, p + 2, name_end(s, p + 2), 0x811c_9dc5);
            assert(pre.len() + (p + 2) == at + 2);
            lemma_expanded_shift(pre, s, vars, subst_end(s, p));
        } else {
            lemma_expanded_shift(pre, s, vars, p + 1);
        }
    }
}

proof fn lemma_name_ends_at(body: Seq<u8>, p: int, q: int)
    requires
        0 <= p <= q,
        q + 1 < body.len(),
        body[q] == 0x7d,
        body[q + 1] == 0x7d,
        forall|i: int| p <= i < q ==> #[trigger] body[i] != 0x7d,
    ensures
        name_end(body, p) == q,
    decreases q - p,
{
    if p < q {
        lemma_name_ends_at(body, p + 1, q);
    }
}

/// Spaces add nothing to the hash.
proof fn lemma_hash_skips_spaces(body: Seq<u8>, p: int, m: int, q: int, h: u32)
    requires
        0 <= p <= m <= q,
        forall|i: int| p <= i < m ==> #[trigger] body[i] == 0x20,
    ensures
        name_hash(body, p, q, h) == name_hash(body, m, q, h),
    decreases m - p,
{
    if p < m {
        lemma_hash_skips_spaces(body, p + 1, m, q, h);
    }
}

/// The bytes of a name make its hash.
proof fn lemma_hash_of_name(body: Seq<u8>, at: int, name: Seq<u8>, k: int, q: int)
    requires
        0 <= at,
        0 <= k <= name.len(),
        at + name.len() <= q <= body.len(),
        forall|i: int| 0 <= i < name.len() ==> body[at + i] == #[trigger] name[i],
        forall|i: int| 0 <= i < name.len() ==> #[trigger] name[i] != 0x20,
    ensures
        name_hash(body, at + k, q, fnv1a(name.take(k))) == name_hash(
            body,
            at + name.len(),
            q,
            fnv1a(name),
        ),
    decreases name.len() - k,
{
    if k < name.len() {
        let t = name.take(k + 1);
        assert(t.drop_last() =~= name.take(k));
        assert(t.last() == name[k]);
        assert(body[at + k] == name[k]);
        assert(fnv1a(t) == fnv_step(fnv1a(name.take(k)), name[k]));
        lemma_hash_of_name(body, at, name, k + 1, q);
    } else {
        assert(name.take(k) =~= name);
    }
}

/// A substitution is replaced by the value kept under the hash of its name, whatever
/// spaces stand around the name; one that names nothing known is replaced by nothing. What
/// follows it is rendered as it would be on its own.
pub proof fn law_substitution_gives_the_value(
    before: nat,
    name: Seq<u8>,
    after: nat,
    rest: Seq<u8>,
    vars: VarTable,
)
    requires
        forall|i: int| 0 <= i < name.len() ==> #[trigger] name[i] != 0x20 && name[i] != 0x7d,
    ensures
        expanded(written_subst(before, name, after) + rest, vars, 0) == (match vars.value_of(
            fnv1a(name),
        ) {
            Some(v) => v,
            None => Seq::empty(),
        }) + expanded(rest, vars, 0),
{
    let w = written_subst(before, name, after);
    let body = w + rest;
    let at = 2 + before as int;
    let q = at + name.len() + after;
    assert(w.len() == q + 2);
    assert(body[0] == 0x7b && body[1] == 0x7b);
    assert(forall|i: int| 2 <= i < at ==> #[trigger] body[i] == 0x20);
    assert(forall|i: int| 0 <= i < name.len() ==> body[at + i] == #[trigger] name[i]);
    assert(forall|i: int| at + name.len() <= i < q ==> #[trigger] body[i] == 0x20);
    assert(body[q] == 0x7d && body[q + 1] == 0x7d);
    assert forall|i: int| 2 <= i < q implies #[trigger] body[i] != 0x7d by {
        if at <= i < at + name.len() {
            assert(body[at + (i - at)] == name[i - at]);
        }
    }
    lemma_name_ends_at(body, 2, q);
    lemma_hash_skips_spaces(body, 2, at, q, 0x811c_9dc5);
    assert(name.take(0) =~= Seq::<u8>::empty());
    lemma_hash_of_name(body, at, name, 0, q);
    lemma_hash_skips_spaces(body, at + name.len(), q, q, fnv1a(name));
    assert(name_hash(body, 2, q, 0x811c_9dc5) == fnv1a(name));
    lemma_expanded_shift(w, rest, vars, 0);
}

/// Text without a brace is rendered as it stands, in front of anything.
pub proof fn law_plain_text_is_kept(plain: Seq<u8>, rest: Seq<u8>, vars: VarTable)
    requires
        forall|i: int| 0 <= i < plain.len() ==> #[trigger] plain[i] != 0x7b,
    ensures
        expanded(plain + rest, vars, 0) == plain + expanded(rest, vars, 0),
    decreases plain.len(),
{
    let body = plain + rest;
    if plain.len() == 0 {
        assert(body =~= rest);
        assert(plain + expanded(rest, vars, 0) =~= expanded(rest, vars, 0));
    } else {
        let tail = plain.skip(1);
        assert(forall|i: int| 0 <= i < tail.len() ==> tail[i] == plain[i + 1]);
        law_plain_text_is_kept(tail, rest, vars);
        assert(body =~= seq![plain[0]] + (tail + rest));
        lemma_expanded_shift(seq![plain[0]], tail + rest, vars, 0);
        assert(body[0] == plain[0]);
        assert(!opens(body, 0));
        assert(seq![plain[0]] + (tail + expanded(rest, vars, 0)) =~= plain + expanded(
            rest,
            vars,
            0,
        ));
    }
}

/// A brace that no other follows is rendered as it stands.
pub proof fn law_lone_brace_is_kept(rest: Seq<u8>, vars: VarTable)
    requires
        rest.len() == 0 || rest[0] != 0x7b,
    ensures
        expanded(seq![0x7bu8] + rest, vars, 0) == seq![0x7bu8] + expanded(rest, vars, 0),
{
    let body = seq![0x7bu8] + rest;
    if rest.len() > 0 {
        assert(body[1] == rest[0]);
    }
    assert(!opens(body, 0));
    lemma_expanded_shift(seq![0x7bu8], rest, vars, 0);
}

/// Read the substitution opening at `pos`: the hash of its name, and where the body
/// goes on.
fn scan_subst(body: &[u8], pos: usize) -> (r: (u32, usize))
    requires
        opens(body@, pos as int),
    ensures
        r.0 == name_hash(body@, pos + 2, name_end(body@, pos + 2), 0x811c_9dc5),
        r.1 == subst_end(body@, pos as int),
        pos + 2 <= r.1 <= body@.len(),
{
    proof {
        lemma_subst_end(body@, pos as int);
        lemma_name_end(body@, pos + 2);
    }
    let len: usize = body.len();
    let mut p: usize = pos + 2;
    let mut hash: u32 = 0x811c_9dc5;
    let ghost q = name_end(body@, pos + 2);
    while p < len && p + 1 < len && !(body[p] == 0x7d && body[p + 1] == 0x7d)
        invariant
            len == body@.len(),
            pos + 2 <= p <= q <= len,
            q == name_end(body@, p as int),
            name_hash(body@, p as int, q, hash) == name_hash(body@, pos + 2, q, 0x811c_9dc5),
        decreases len - p,
    {
        let c: u8 = body[p];
        proof {
            lemma_name_end(body@, p + 1);
        }
        if c != 0x20 {
            hash = (hash ^ (c as u32)).wrapping_mul(0x0100_0193);
        }
        p += 1;
    }
    assert(p == q);
    if p < len && p + 1 < len {
        (hash, p + 2)
    } else {
        (hash, p)
    }
}

/// Render the next chunk of a template into at most `cap` bytes, and say whether
/// more is left. A value is written whole or left for the next chunk.
pub fn render_template_route_into(
    body: &[u8],
    vars: &VarTable,
    cursor: &mut usize,
    cap: usize,
) -> (r: (Vec<u8>, bool))
    ensures
        r.0@ == chunk_text(body@, *vars, *old(cursor) as int, cap as int),
        *final(cursor) == chunk_end(body@, *vars, *old(cursor) as int, cap as int),
        r.1 == (*final(cursor) < body@.len()),
        r.0@.len() <= cap,
{
    let ghost start = *cursor as int;
    let ghost whole = chunk_text(body@, *vars, start, cap as int);
    let ghost stop = chunk_end(body@, *vars, start, cap as int);
    let len: usize = body.len();
    let mut out: Vec<u8> = Vec::new();
    let mut pos: usize = *cursor;
    proof {
        law_chunks_make_the_whole(body@, *vars, start, cap as int);
        assert(out@ + whole =~= whole);
    }
    while pos < len && out.len() < cap
        invariant_except_break
            out@ + chunk_text(body@, *vars, pos as int, cap - out@.len()) == whole,
            chunk_end(body@, *vars, pos as int, cap - out@.len()) == stop,
        invariant
            len == body@.len(),
            out@.len() <= cap,
            start < len ==> pos <= len,
            start >= len ==> pos == start,
        ensures
            out@ == whole,
            pos == stop,
        decreases len - pos,
    {
        if pos < len - 1 && body[pos] == 0x7b && body[pos + 1] == 0x7b {
            let (hash, next) = scan_subst(body, pos);
            let ghost before = out@;
            match vars.lookup_var(hash) {
                Some(v) => {
                    if v.len() > cap - out.len() {
                        assert(out@ + Seq::<u8>::empty() =~= out@);
                        break;
                    }
                    extend(&mut out, v);
                    assert(before + (v@ + chunk_text(
                        body@,
                        *vars,
                        next as int,
                        cap - out@.len(),
                    )) =~= out@ + chunk_text(body@, *vars, next as int, cap - out@.len()));
                },
                None => {
                    assert(Seq::<u8>::empty() + chunk_text(
                        body@,
                        *vars,
                        next as int,
                        cap - out@.len(),
                    ) =~= chunk_text(body@, *vars, next as int, cap - out@.len()));
                },
            }
            pos = next;
        } else {
            let ghost before = out@;
            out.push(body[pos]);
            assert(before + (seq![body@[pos as int]] + chunk_text(
                body@,
                *vars,
                pos + 1,
                cap - out@.len(),
            )) =~= out@ + chunk_text(body@, *vars, pos + 1, cap - out@.len()));
            pos += 1;
        }
        if !(pos < len && out.len() < cap) {
            assert(out@ + Seq::<u8>::empty() =~= out@);
        }
    }
    proof {
        law_chunks_make_the_whole(body@, *vars, start, cap as int);
    }
    *cursor = pos;
    (out, pos < len)
}

// ── Directory index ─────────────────────────────────────────────────────

/// The lines of a file index: the decimal numbers `from..count`, one per line.
pub open spec fn index_lines(from: int, count: int) -> Seq<u8>
    decreases count - from,
{
    if from >= count {
        Seq::empty()
    } else {
        decimal(from as nat).push(0x0a) + index_lines(from + 1, count)
    }
}

/// Writing the index up to `mid` and then from it gives the whole index.
pub proof fn law_index_chunks(from: int, mid: int, count: int)
    requires
        from <= mid <= count,
    ensures
        index_lines(from, mid) + index_lines(mid, count) == index_lines(from, count),
    decreases mid - from,
{
    if from < mid {
        law_index_chunks(from + 1, mid, count);
        let d = decimal(from as nat).push(0x0a);
        assert(d + index_lines(from + 1, mid) + index_lines(mid, count) =~= d + (index_lines(
            from + 1,
            mid,
        ) + index_lines(mid, count)));
    } else {
        assert(Seq::<u8>::empty() + index_lines(mid, count) =~= index_lines(mid, count));
    }
}

proof fn lemma_decimal_u16_len(n: nat)
    requires
        n <= 0xffff,
    ensures
        1 <= decimal(n).len() <= 5,
{
    reveal_with_fuel(decimal, 5);
}

/// How far an index of `count` files is written from `from` on, behind `len` bytes:
/// as long as `slack` bytes and one more remain below `cap`.
pub open spec fn index_stop(from: int, count: int, len: int, cap: int, slack: int) -> int
    decreases count - from,
{
    if from < count && len + slack < cap {
        index_stop(from + 1, count, len + decimal(from as nat).len() + 1, cap, slack)
    } else {
        from
    }
}

/// Render index lines from `*index` up to `count` while `slack` bytes and one more
/// remain below `cap`; a line never takes more than six.
pub fn render_index_into(index: &mut u16, count: u16, cap: usize, slack: usize) -> (r: (
    Vec<u8>,
    bool,
))
    requires
        6 <= slack <= 7,
    ensures
        *final(index) == index_stop(
            *old(index) as int,
            count as int,
            0,
            cap as int,
            slack as int,
        ),
        *old(index) <= *final(index),
        *old(index) <= count ==> *final(index) <= count,
        r.0@ == index_lines(*old(index) as int, *final(index) as int),
        r.1 == (*final(index) < count),
        r.0@.len() <= cap,
        // It stopped for the end or for want of room.
        *final(index) < count ==> r.0@.len() + slack >= cap,
        *old(index) < count && slack < cap ==> *final(index) > *old(index),
{
    let ghost first = *index as int;
    let mut out: Vec<u8> = Vec::new();
    let mut idx: u16 = *index;
    while idx < count && out.len() < cap && slack < cap - out.len()
        invariant
            first <= idx,
            first <= count ==> idx <= count,
            first == *old(index),
            index_stop(idx as int, count as int, out@.len() as int, cap as int, slack as int)
                == index_stop(first, count as int, 0, cap as int, slack as int),
            6 <= slack <= 7,
            out@ == index_lines(first, idx as int),
            out@.len() <= cap,
            first < count && slack < cap && idx == first ==> out@.len() == 0,
        decreases count - idx,
    {
        let d: Vec<u8> = decimal_bytes(idx as u64);
        proof {
            lemma_decimal_u16_len(idx as nat);
        }
        let ghost before = out@;
        extend(&mut out, d.as_slice());
        out.push(0x0a);
        proof {
            law_index_chunks(first, idx as int, idx + 1);
            assert(index_lines(idx as int, idx + 1) =~= decimal(idx as nat).push(0x0a)) by {
                reveal_with_fuel(index_lines, 2);
            }
            assert(out@ =~= before + decimal(idx as nat).push(0x0a));
        }
        idx += 1;
    }
    *index = idx;
    (out, idx < count)
}

// ── File index requests ─────────────────────────────────────────────────

/// What a path asks of the file index behind a route.
#[derive(Clone, Copy, PartialEq, Eq, Structural)]
pub enum FileIndex {
    /// Nothing follows: the index itself.
    Listing,
    /// The file of this number.
    File(i16),
    /// Not a file number.
    Bad,
}

/// Whether `s` is a run of digits denoting at most `0x7fff`.
pub open spec fn is_file_number(s: Seq<u8>) -> bool {
    &&& forall|i: int| 0 <= i < s.len() ==> is_digit(#[trigger] s[i])
    &&& decimal_value(s) <= 0x7fff
}

/// The part of a path behind its route, without its leading `/`.
pub open spec fn file_suffix(path: Seq<u8>, route_len: int) -> Seq<u8> {
    if route_len >= path.len() {
        Seq::empty()
    } else if path[route_len] == 0x2f {
        path.skip(route_len + 1)
    } else {
        path.skip(route_len)
    }
}

/// Read a file number. `None` when the bytes are not one.
pub fn file_number(s: &[u8]) -> (r: Option<i16>)
    ensures
        match r {
            Some(v) => is_file_number(s@) && v == decimal_value(s@),
            None => !is_file_number(s@),
        },
{
    let mut v: u32 = 0;
    let mut i: usize = 0;
    assert(s@.take(0) =~= Seq::empty());
    while i < s.len()
        invariant
            i <= s@.len(),
            forall|k: int| 0 <= k < i ==> is_digit(#[trigger] s@[k]),
            v == decimal_value(s@.take(i as int)),
            v <= 0x7fff,
        decreases s@.len() - i,
    {
        let c: u8 = s[i];
        if c < 0x30 || c > 0x39 {
            assert(!is_digit(s@[i as int]));
            return None;
        }
        v = v * 10 + (c - 0x30) as u32;
        i += 1;
        assert(s@.take(i as int).drop_last() =~= s@.take(i - 1));
        assert(s@.take(i as int).last() == c);
        if v > 0x7fff {
            proof {
                if forall|k: int| 0 <= k < s@.len() ==> is_digit(#[trigger] s@[k]) {
                    lemma_decimal_prefix(s@, i as int);
                }
            }
            return None;
        }
    }
    assert(s@.take(s@.len() as int) =~= s@);
    Some(v as i16)
}

/// What `path` asks behind a route of `route_len` bytes.
pub fn parse_file_index(path: &[u8], route_len: usize) -> (r: FileIndex)
    ensures
        ({
            let s = file_suffix(path@, route_len as int);
            match r {
                FileIndex::Listing => s.len() == 0,
                FileIndex::File(v) => s.len() > 0 && is_file_number(s) && v == decimal_value(s),
                FileIndex::Bad => s.len() > 0 && !is_file_number(s),
            }
        }),
{
    if route_len >= path.len() {
        return FileIndex::Listing;
    }
    let at: usize = if path[route_len] == 0x2f {
        route_len + 1
    } else {
        route_len
    };
    let s = vstd::slice::slice_subrange(path, at, path.len());
    assert(s@ =~= file_suffix(path@, route_len as int));
    if s.len() == 0 {
        return FileIndex::Listing;
    }
    match file_number(s) {
        Some(v) => FileIndex::File(v),
        None => FileIndex::Bad,
    }
}

/// A number behind a route, with or without a slash between, is the file of that number; the
/// route alone, or with its slash, is the list of the files.
pub proof fn law_number_behind_a_route_is_its_file(route: Seq<u8>, n: nat)
    requires
        n <= 0x7fff,
    ensures
        ({
            let d = decimal(n);
            let k = route.len() as int;
            &&& file_suffix(route + seq![0x2fu8] + d, k) == d
            &&& file_suffix(route + d, k) == d
            &&& is_file_number(d) && decimal_value(d) == n
            &&& file_suffix(route, k).len() == 0
            &&& file_suffix(route + seq![0x2fu8], k).len() == 0
        }),
{
    let d = decimal(n);
    let k = route.len() as int;
    crate::bytes::lemma_decimal(n);
    let a = route + seq![0x2fu8] + d;
    assert(a[k] == 0x2f);
    assert(a.skip(k + 1) =~= d);
    let b = route + d;
    assert(b[k] == d[0]);
    assert(crate::bytes::is_digit(d[0]));
    assert(b.skip(k) =~= d);
    assert((route + seq![0x2fu8])[k] == 0x2f);
}

} // verus!
