//! Byte-string vocabulary shared by every module: literals, comparison,
//! little-endian integers, decimal text and bounded appending.

use vstd::prelude::*;
use vstd::string::StringSliceAdditionalSpecFns;

verus! {

/// The bytes of a string literal.
pub open spec fn text(s: &str) -> Seq<u8> {
    s.spec_bytes()
}

/// The bytes of an ASCII literal are its characters.
pub proof fn lemma_text(s: &str)
    requires
        vstd::string::is_ascii(s),
    ensures
        text(s) == Seq::new(s@.len(), |i: int| s@[i] as u8),
{
    vstd::string::is_ascii_spec_bytes(s);
}

/// A string literal as a byte slice.
pub fn lit(s: &'static str) -> (r: &'static [u8])
    ensures
        r@ == text(s),
{
    s.as_bytes()
}

/// Whether two byte strings are the same.
pub fn bytes_eq(a: &[u8], b: &[u8]) -> (r: bool)
    ensures
        r == (a@ == b@),
{
    if a.len() != b.len() {
        return false;
    }
    let mut i: usize = 0;
    while i < a.len()
        invariant
            i <= a.len(),
            a.len() == b.len(),
            forall|k: int| 0 <= k < i ==> a@[k] == b@[k],
        decreases a.len() - i,
    {
        if a[i] != b[i] {
            return false;
        }
        i += 1;
    }
    assert(a@ =~= b@);
    true
}

/// Whether a byte string is the given literal.
pub fn is_text(a: &[u8], s: &'static str) -> (r: bool)
    ensures
        r == (a@ == text(s)),
{
    bytes_eq(a, lit(s))
}

// ── ASCII case ──────────────────────────────────────────────────────────

pub open spec fn is_upper(b: u8) -> bool {
    0x41 <= b <= 0x5a
}

pub open spec fn is_digit(b: u8) -> bool {
    0x30 <= b <= 0x39
}

/// An ASCII letter in lower case; every other byte unchanged.
pub open spec fn lower(b: u8) -> u8 {
    if is_upper(b) {
        (b + 0x20) as u8
    } else {
        b
    }
}

pub fn to_lower(b: u8) -> (r: u8)
    ensures
        r == lower(b),
{
    if 0x41 <= b && b <= 0x5a {
        b + 0x20
    } else {
        b
    }
}

/// Equality of byte strings up to ASCII case.
pub open spec fn same_ci(a: Seq<u8>, b: Seq<u8>) -> bool {
    &&& a.len() == b.len()
    &&& forall|i: int| 0 <= i < a.len() ==> lower(#[trigger] a[i]) == lower(b[i])
}

pub fn eq_ascii_ci(a: &[u8], b: &[u8]) -> (r: bool)
    ensures
        r == same_ci(a@, b@),
{
    if a.len() != b.len() {
        return false;
    }
    let mut i: usize = 0;
    while i < a.len()
        invariant
            i <= a.len(),
            a.len() == b.len(),
            forall|k: int| 0 <= k < i ==> lower(#[trigger] a@[k]) == lower(b@[k]),
        decreases a.len() - i,
    {
        if to_lower(a[i]) != to_lower(b[i]) {
            assert(lower(a@[i as int]) != lower(b@[i as int]));
            return false;
        }
        i += 1;
    }
    true
}

// ── Searching ───────────────────────────────────────────────────────────

/// The first position of `b` in `s` at or after `from`, or `s.len()`.
pub open spec fn index_from(s: Seq<u8>, b: u8, from: int) -> int
    decreases s.len() - from,
{
    if from < 0 || from >= s.len() {
        s.len() as int
    } else if s[from] == b {
        from
    } else {
        index_from(s, b, from + 1)
    }
}

/// What `index_from` finds: the byte itself, with no earlier one.
pub proof fn lemma_index_from(s: Seq<u8>, b: u8, from: int)
    requires
        0 <= from <= s.len(),
    ensures
        from <= index_from(s, b, from) <= s.len(),
        index_from(s, b, from) < s.len() ==> s[index_from(s, b, from)] == b,
        forall|k: int| from <= k < index_from(s, b, from) ==> s[k] != b,
    decreases s.len() - from,
{
    if from < s.len() && s[from] != b {
        lemma_index_from(s, b, from + 1);
    }
}

/// Find the first `b`. `None` when there is none.
pub fn find_byte(s: &[u8], b: u8) -> (r: Option<usize>)
    ensures
        match r {
            Some(i) => i < s.len() && i == index_from(s@, b, 0) && s@[i as int] == b && (forall|
                k: int,
            |
                0 <= k < i ==> s@[k] != b),
            None => index_from(s@, b, 0) == s.len() && (forall|k: int|
                0 <= k < s.len() ==> s@[k] != b),
        },
{
    proof {
        lemma_index_from(s@, b, 0);
    }
    let mut i: usize = 0;
    while i < s.len()
        invariant
            i <= s.len(),
            forall|k: int| 0 <= k < i ==> s@[k] != b,
            index_from(s@, b, i as int) == index_from(s@, b, 0),
        decreases s.len() - i,
    {
        if s[i] == b {
            return Some(i);
        }
        i += 1;
    }
    None
}

// ── Little-endian integers ──────────────────────────────────────────────

pub open spec fn le16(v: u16) -> Seq<u8> {
    seq![(v % 256) as u8, (v / 256) as u8]
}

pub open spec fn le32(v: u32) -> Seq<u8> {
    seq![
        (v % 256) as u8,
        (v / 0x100 % 256) as u8,
        (v / 0x1_0000 % 256) as u8,
        (v / 0x100_0000) as u8,
    ]
}

pub open spec fn le64(v: u64) -> Seq<u8> {
    le32((v % 0x1_0000_0000) as u32) + le32((v / 0x1_0000_0000) as u32)
}

/// The value of a 16-bit little-endian field at `at`.
pub open spec fn u16_at(s: Seq<u8>, at: int) -> u16 {
    (s[at] + 256 * s[at + 1]) as u16
}

/// The value of a 32-bit little-endian field at `at`.
pub open spec fn u32_at(s: Seq<u8>, at: int) -> u32 {
    (s[at] + 0x100 * s[at + 1] + 0x1_0000 * s[at + 2] + 0x100_0000 * s[at + 3]) as u32
}

/// The value of a 64-bit little-endian field at `at`.
pub open spec fn u64_at(s: Seq<u8>, at: int) -> u64 {
    (u32_at(s, at) + 0x1_0000_0000 * u32_at(s, at + 4)) as u64
}

pub fn get_u16(s: &[u8], at: usize) -> (r: u16)
    requires
        at + 2 <= s.len(),
    ensures
        r == u16_at(s@, at as int),
{
    s[at] as u16 + 256 * (s[at + 1] as u16)
}

pub fn get_u32(s: &[u8], at: usize) -> (r: u32)
    requires
        at + 4 <= s.len(),
    ensures
        r == u32_at(s@, at as int),
{
    s[at] as u32 + 0x100 * (s[at + 1] as u32) + 0x1_0000 * (s[at + 2] as u32) + 0x100_0000 * (s[at
        + 3] as u32)
}

pub fn get_u64(s: &[u8], at: usize) -> (r: u64)
    requires
        at + 8 <= s.len(),
    ensures
        r == u64_at(s@, at as int),
{
    get_u32(s, at) as u64 + 0x1_0000_0000 * (get_u32(s, at + 4) as u64)
}

// ── Writing into a buffer ───────────────────────────────────────────────

/// `s` with `t` laid over it from `at`.
pub open spec fn splice(s: Seq<u8>, at: int, t: Seq<u8>) -> Seq<u8> {
    Seq::new(s.len(), |i: int| if at <= i < at + t.len() { t[i - at] } else { s[i] })
}

/// Lay `src` over `out` from `at`.
pub fn copy_into(out: &mut [u8], at: usize, src: &[u8])
    requires
        at + src.len() <= old(out)@.len(),
    ensures
        final(out)@ == splice(old(out)@, at as int, src@),
{
    let total: usize = out.len();
    let n: usize = src.len();
    let mut i: usize = 0;
    while i < n
        invariant
            i <= n,
            n == src.len(),
            at + n <= total,
            total == out@.len(),
            out@.len() == old(out)@.len(),
            forall|k: int|
                0 <= k < out@.len() ==> out@[k] == if at <= k < at + i {
                    src@[k - at]
                } else {
                    old(out)@[k]
                },
        decreases n - i,
    {
        out[at + i] = src[i];
        i += 1;
    }
    assert(out@ =~= splice(old(out)@, at as int, src@));
}

/// Append `src` to `v`.
pub fn extend(v: &mut Vec<u8>, src: &[u8])
    ensures
        final(v)@ == old(v)@ + src@,
{
    let mut i: usize = 0;
    while i < src.len()
        invariant
            i <= src.len(),
            v@ == old(v)@ + src@.take(i as int),
        decreases src.len() - i,
    {
        v.push(src[i]);
        i += 1;
        assert(src@.take(i as int) =~= src@.take(i - 1).push(src@[i - 1]));
    }
    assert(src@.take(src@.len() as int) =~= src@);
}

/// A copy of `src` as an owned buffer.
pub fn to_vec(src: &[u8]) -> (r: Vec<u8>)
    ensures
        r@ == src@,
{
    let mut v: Vec<u8> = Vec::new();
    extend(&mut v, src);
    assert(v@ =~= src@);
    v
}

// ── Bounded text ────────────────────────────────────────────────────────

/// The first `cap` bytes of `s`, or all of it.
pub open spec fn clip(s: Seq<u8>, cap: nat) -> Seq<u8> {
    if s.len() <= cap {
        s
    } else {
        s.take(cap as int)
    }
}

/// Append `src`, writing nothing once `cap` bytes are held.
pub fn put_bytes(dst: &mut Vec<u8>, cap: usize, src: &[u8])
    requires
        old(dst)@.len() <= cap,
    ensures
        final(dst)@ == clip(old(dst)@ + src@, cap as nat),
{
    let mut k: usize = 0;
    while k < src.len() && dst.len() < cap
        invariant
            k <= src.len(),
            dst@.len() <= cap,
            dst@ == old(dst)@ + src@.take(k as int),
        decreases src.len() - k,
    {
        dst.push(src[k]);
        k += 1;
        assert(src@.take(k as int) =~= src@.take(k - 1).push(src@[k - 1]));
    }
    assert(dst@ =~= clip(old(dst)@ + src@, cap as nat));
}

/// The decimal digits of `n`, most significant first.
pub open spec fn decimal(n: nat) -> Seq<u8>
    decreases n,
{
    if n < 10 {
        seq![(0x30 + n) as u8]
    } else {
        decimal(n / 10).push((0x30 + n % 10) as u8)
    }
}

/// The number a run of decimal digits denotes.
pub open spec fn decimal_value(s: Seq<u8>) -> nat
    decreases s.len(),
{
    if s.len() == 0 {
        0
    } else {
        decimal_value(s.drop_last()) * 10 + (s.last() - 0x30) as nat
    }
}

/// Reading the decimal text of a number gives the number back.
pub proof fn lemma_decimal(n: nat)
    ensures
        decimal_value(decimal(n)) == n,
        decimal(n).len() >= 1,
        forall|i: int| 0 <= i < decimal(n).len() ==> is_digit(#[trigger] decimal(n)[i]),
    decreases n,
{
    if n < 10 {
        assert(decimal(n).drop_last() =~= Seq::<u8>::empty());
        reveal_with_fuel(decimal_value, 2);
    } else {
        lemma_decimal(n / 10);
        assert(decimal(n).drop_last() =~= decimal(n / 10));
    }
}

/// Leading digits denote no more than all of them.
pub proof fn lemma_decimal_prefix(s: Seq<u8>, i: int)
    requires
        0 <= i <= s.len(),
        forall|k: int| 0 <= k < s.len() ==> is_digit(#[trigger] s[k]),
    ensures
        decimal_value(s.take(i)) <= decimal_value(s),
    decreases s.len() - i,
{
    if i == s.len() {
        assert(s.take(i) =~= s);
    } else {
        lemma_decimal_prefix(s, i + 1);
        let t = s.take(i + 1);
        assert(t.drop_last() =~= s.take(i));
        assert(t.last() == s[i]);
    }
}

/// The number a decimal string of one to twenty digits denotes, if it fits 64 bits.
pub open spec fn number_of(s: Seq<u8>) -> Option<u64> {
    if 1 <= s.len() <= 20 && (forall|i: int| 0 <= i < s.len() ==> is_digit(#[trigger] s[i]))
        && decimal_value(s) <= u64::MAX {
        Some(decimal_value(s) as u64)
    } else {
        None
    }
}

/// Read a decimal number.
pub fn parse_u64(s: &[u8]) -> (r: Option<u64>)
    ensures
        r == number_of(s@),
{
    if s.len() == 0 || s.len() > 20 {
        return None;
    }
    let mut v: u64 = 0;
    let mut i: usize = 0;
    assert(s@.take(0) =~= Seq::empty());
    while i < s.len()
        invariant
            i <= s@.len(),
            1 <= s@.len() <= 20,
            forall|k: int| 0 <= k < i ==> is_digit(#[trigger] s@[k]),
            v == decimal_value(s@.take(i as int)),
        decreases s@.len() - i,
    {
        let c: u8 = s[i];
        if c < 0x30 || c > 0x39 {
            assert(!is_digit(s@[i as int]));
            return None;
        }
        let d: u64 = (c - 0x30) as u64;
        proof {
            assert(s@.take(i + 1).drop_last() =~= s@.take(i as int));
            assert(s@.take(i + 1).last() == c);
            if forall|k: int| 0 <= k < s@.len() ==> is_digit(#[trigger] s@[k]) {
                lemma_decimal_prefix(s@, i + 1);
            }
        }
        if v > (u64::MAX - d) / 10 {
            return None;
        }
        v = v * 10 + d;
        i += 1;
    }
    assert(s@.take(s@.len() as int) =~= s@);
    Some(v)
}

/// The decimal text of `v`.
pub fn decimal_bytes(v: u64) -> (r: Vec<u8>)
    ensures
        r@ == decimal(v as nat),
    decreases v,
{
    if v < 10 {
        let mut r: Vec<u8> = Vec::new();
        r.push(0x30 + v as u8);
        assert(r@ =~= decimal(v as nat));
        r
    } else {
        let mut r: Vec<u8> = decimal_bytes(v / 10);
        r.push(0x30 + (v % 10) as u8);
        r
    }
}

/// Append the decimal text of `v`, writing nothing once `cap` bytes are held.
pub fn put_u32_decimal(dst: &mut Vec<u8>, cap: usize, v: u32)
    requires
        old(dst)@.len() <= cap,
    ensures
        final(dst)@ == clip(old(dst)@ + decimal(v as nat), cap as nat),
{
    let d: Vec<u8> = decimal_bytes(v as u64);
    put_bytes(dst, cap, d.as_slice());
}

/// The dotted-quad text of an address packed big-endian.
pub open spec fn ipv4_text(ip: u32) -> Seq<u8> {
    decimal((ip / 0x100_0000) as nat) + text(".") + decimal((ip / 0x1_0000 % 256) as nat) + text(
        ".",
    ) + decimal((ip / 0x100 % 256) as nat) + text(".") + decimal((ip % 256) as nat)
}

/// Append a dotted-quad address, writing nothing once `cap` bytes are held.
pub fn put_ipv4_decimal(dst: &mut Vec<u8>, cap: usize, ip: u32)
    requires
        old(dst)@.len() <= cap,
    ensures
        final(dst)@ == clip(old(dst)@ + ipv4_text(ip), cap as nat),
{
    let mut t: Vec<u8> = decimal_bytes((ip / 0x100_0000) as u64);
    extend(&mut t, lit("."));
    extend(&mut t, decimal_bytes((ip / 0x1_0000 % 256) as u64).as_slice());
    extend(&mut t, lit("."));
    extend(&mut t, decimal_bytes((ip / 0x100 % 256) as u64).as_slice());
    extend(&mut t, lit("."));
    extend(&mut t, decimal_bytes((ip % 256) as u64).as_slice());
    put_bytes(dst, cap, t.as_slice());
}

// ── Laws ────────────────────────────────────────────────────────────────

/// One digit is its value; a digit behind a number is ten times the number and the digit.
pub proof fn law_digits_make_numbers(s: Seq<u8>, d: int)
    requires
        0 <= d <= 9,
    ensures
        number_of(seq![(0x30 + d) as u8]) == Some(d as u64),
        1 <= s.len() < 20 && number_of(s) is Some && 10 * number_of(s)->0 + d <= u64::MAX
            ==> number_of(s.push((0x30 + d) as u8)) == Some((10 * number_of(s)->0 + d) as u64),
{
    let one = seq![(0x30 + d) as u8];
    assert(one.drop_last() =~= Seq::<u8>::empty());
    reveal_with_fuel(decimal_value, 2);
    let t = s.push((0x30 + d) as u8);
    assert(t.drop_last() =~= s);
    assert(forall|i: int| 0 <= i < s.len() ==> t[i] == s[i]);
}

/// Bytes that are not digits, or none at all, are no number.
pub proof fn law_only_digits_are_numbers(s: Seq<u8>)
    ensures
        s.len() == 0 ==> number_of(s) is None,
        (exists|i: int| 0 <= i < s.len() && !(0x30 <= #[trigger] s[i] <= 0x39)) ==> number_of(s)
            is None,
{
}

/// The text of a number reads back as the number.
pub proof fn law_decimal_reads_back(n: u64)
    ensures
        number_of(decimal(n as nat)) == Some(n),
{
    lemma_decimal(n as nat);
    assert(decimal(n as nat).len() <= 20) by {
        reveal_with_fuel(ten_to, 21);
        lemma_decimal_width(n as nat, 20);
    }
}

pub open spec fn ten_to(k: nat) -> nat
    decreases k,
{
    if k == 0 {
        1
    } else {
        10 * ten_to((k - 1) as nat)
    }
}

proof fn lemma_decimal_width(n: nat, k: nat)
    requires
        1 <= k <= 20,
        n < ten_to(k),
    ensures
        decimal(n).len() <= k,
    decreases k,
{
    if n >= 10 {
        if k == 1 {
            assert(ten_to(0) == 1);
        }
        lemma_decimal_width(n / 10, (k - 1) as nat);
    }
}

/// An address is written as its four bytes, the most significant first, with dots between.
pub proof fn law_address_is_dotted(a: u8, b: u8, c: u8, d: u8)
    ensures
        ipv4_text((0x100_0000 * a + 0x1_0000 * b + 0x100 * c + d) as u32) == decimal(a as nat) + seq![
            0x2eu8,
        ] + decimal(b as nat) + seq![0x2eu8] + decimal(c as nat) + seq![0x2eu8] + decimal(d as nat),
{
    lemma_dot();
    lemma_address_bytes(a, b, c, d);
}

proof fn lemma_dot()
    ensures
        text(".") == seq![0x2eu8],
{
    reveal_strlit(".");
    lemma_text(".");
    assert(text(".") =~= seq![0x2eu8]);
}

proof fn lemma_address_bytes(a: u8, b: u8, c: u8, d: u8)
    ensures
        ({
            let ip = (0x100_0000 * a + 0x1_0000 * b + 0x100 * c + d) as u32;
            ip / 0x100_0000 == a && ip / 0x1_0000 % 256 == b && ip / 0x100 % 256 == c && ip % 256
                == d
        }),
{
    let ip = (0x100_0000 * a + 0x1_0000 * b + 0x100 * c + d) as u32;
    assert(ip / 0x100 == 0x1_0000 * a + 0x100 * b + c);
    assert(ip / 0x1_0000 == 0x100 * a + b);
    assert(ip / 0x100_0000 == a);
}

/// Two byte strings are the same but for case exactly where each pair of bytes is equal or
/// one is a capital letter and the other its small one.
pub proof fn law_case_is_all_that_differs(a: Seq<u8>, b: Seq<u8>)
    ensures
        same_ci(a, b) <==> a.len() == b.len() && (forall|i: int|
            0 <= i < a.len() ==> #[trigger] a[i] == b[i] || (0x41 <= a[i] <= 0x5a && b[i] == a[i]
                + 0x20) || (0x41 <= b[i] <= 0x5a && a[i] == b[i] + 0x20)),
{
    if same_ci(a, b) {
        assert forall|i: int| 0 <= i < a.len() implies #[trigger] a[i] == b[i] || (0x41 <= a[i]
            <= 0x5a && b[i] == a[i] + 0x20) || (0x41 <= b[i] <= 0x5a && a[i] == b[i] + 0x20) by {
            assert(lower(a[i]) == lower(b[i]));
        }
    }
}

/// A field of two bytes reads back, and its least significant byte stands first.
pub proof fn law_two_bytes_read_back(pre: Seq<u8>, v: u16, rest: Seq<u8>)
    ensures
        u16_at(pre + le16(v) + rest, pre.len() as int) == v,
        le16(v)[0] == v % 256,
{
    let p = pre.len() as int;
    let s = pre + le16(v) + rest;
    assert(s[p] == le16(v)[0] && s[p + 1] == le16(v)[1]);
}

/// A field of four bytes reads back, and its least significant byte stands first.
pub proof fn law_four_bytes_read_back(pre: Seq<u8>, v: u32, rest: Seq<u8>)
    ensures
        u32_at(pre + le32(v) + rest, pre.len() as int) == v,
        le32(v)[0] == v % 256,
{
    let p = pre.len() as int;
    let x = le32(v);
    let s = pre + x + rest;
    assert(s[p] == x[0] && s[p + 1] == x[1] && s[p + 2] == x[2] && s[p + 3] == x[3]);
}

/// A field of eight bytes reads back, and its least significant byte stands first.
pub proof fn law_eight_bytes_read_back(pre: Seq<u8>, v: u64, rest: Seq<u8>)
    ensures
        u64_at(pre + le64(v) + rest, pre.len() as int) == v,
        le64(v)[0] == v % 256,
{
    let lo = (v % 0x1_0000_0000) as u32;
    let hi = (v / 0x1_0000_0000) as u32;
    let s = pre + le64(v) + rest;
    law_four_bytes_read_back(pre, lo, le32(hi) + rest);
    law_four_bytes_read_back(pre + le32(lo), hi, rest);
    assert(s =~= pre + le32(lo) + (le32(hi) + rest));
    assert(s =~= (pre + le32(lo)) + le32(hi) + rest);
    assert(le64(v)[0] == le32(lo)[0]);
    assert(lo % 256 == v % 256);
}

} // verus!
