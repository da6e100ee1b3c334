//! Prefix-coded integers of field compression (RFC 7541 §5.1, RFC 9204 §4.1.1).
//!
//! A value that fits the low `bits` bits of the first byte stands there. A larger
//! one fills them with ones and continues in seven-bit groups, least significant
//! first, the high bit of each byte saying that another follows.

use vstd::arithmetic::div_mod::{lemma_add_mod_noop, lemma_small_mod};
use vstd::prelude::*;

verus! {

/// The largest number of `bits` bits, for a prefix of one to eight.
pub open spec fn prefix_mask(bits: u32) -> int {
    if bits == 1 {
        1
    } else if bits == 2 {
        3
    } else if bits == 3 {
        7
    } else if bits == 4 {
        15
    } else if bits == 5 {
        31
    } else if bits == 6 {
        63
    } else if bits == 7 {
        127
    } else {
        255
    }
}

fn mask_of(bits: u32) -> (r: u64)
    ensures
        r == prefix_mask(bits),
{
    if bits == 1 {
        1
    } else if bits == 2 {
        3
    } else if bits == 3 {
        7
    } else if bits == 4 {
        15
    } else if bits == 5 {
        31
    } else if bits == 6 {
        63
    } else if bits == 7 {
        127
    } else {
        255
    }
}

/// `128^k`.
pub open spec fn pow128(k: nat) -> int
    decreases k,
{
    if k == 0 {
        1
    } else {
        128 * pow128((k - 1) as nat)
    }
}

/// The continuation groups from `pos` on, the first of weight `128^k`, added to `acc`.
///
/// `None` while groups are missing, past nine groups, or past 64 bits.
pub open spec fn int_tail(buf: Seq<u8>, pos: int, k: nat, acc: int) -> Option<(u64, nat)>
    decreases 9 - k,
{
    if pos < 0 || pos >= buf.len() || k > 8 {
        None
    } else {
        let a = acc + (buf[pos] as int % 128) * pow128(k);
        if a > u64::MAX {
            None
        } else if buf[pos] < 128 {
            Some((a as u64, (pos + 1) as nat))
        } else {
            int_tail(buf, pos + 1, k + 1, a)
        }
    }
}

/// The integer at the front of `buf` under a prefix of `bits` bits, and the bytes
/// it takes.
pub open spec fn prefix_int_at(buf: Seq<u8>, bits: u32) -> Option<(u64, nat)> {
    if buf.len() == 0 {
        None
    } else {
        let m = prefix_mask(bits);
        let v = buf[0] as int % (m + 1);
        if v < m {
            Some((v as u64, 1))
        } else {
            int_tail(buf, 1, 0, m)
        }
    }
}

/// A decoded integer takes between one byte and what the buffer holds.
pub proof fn lemma_prefix_int_bounds(buf: Seq<u8>, bits: u32)
    ensures
        prefix_int_at(buf, bits) matches Some((_, n)) ==> 1 <= n <= buf.len(),
{
    lemma_int_tail_bounds(buf, 1, 0, prefix_mask(bits));
}

proof fn lemma_int_tail_bounds(buf: Seq<u8>, pos: int, k: nat, acc: int)
    requires
        pos >= 0,
    ensures
        int_tail(buf, pos, k, acc) matches Some((_, n)) ==> pos < n <= buf.len(),
    decreases 9 - k,
{
    if pos < buf.len() && k <= 8 {
        lemma_int_tail_bounds(buf, pos + 1, k + 1, acc + (buf[pos] as int % 128) * pow128(k));
    }
}

/// Decode the integer at the front of `buf` under a prefix of `prefix_bits` bits.
pub fn decode_prefix_int(buf: &[u8], prefix_bits: u32) -> (r: Option<(u64, usize)>)
    requires
        1 <= prefix_bits <= 8,
    ensures
        match r {
            Some((v, n)) => prefix_int_at(buf@, prefix_bits) == Some((v, n as nat)) && 1 <= n
                <= buf.len(),
            None => prefix_int_at(buf@, prefix_bits) is None,
        },
{
    if buf.len() == 0 {
        return None;
    }
    let m: u64 = mask_of(prefix_bits);
    let v: u64 = buf[0] as u64 % (m + 1);
    if v < m {
        return Some((v, 1));
    }
    assert(v == m);
    let mut value: u64 = m;
    let mut pos: usize = 1;
    let mut weight: u64 = 1;
    let mut k: u32 = 0;
    loop
        invariant
            1 <= pos <= buf.len(),
            k <= 9,
            k <= 8 ==> weight == pow128(k as nat),
            k <= 8 ==> weight <= 0x100_0000_0000_0000,
            int_tail(buf@, pos as int, k as nat, value as int) == prefix_int_at(
                buf@,
                prefix_bits,
            ),
        decreases 9 - k,
    {
        if pos >= buf.len() || k > 8 {
            return None;
        }
        let b: u8 = buf[pos];
        let g: u64 = (b % 128) as u64;
        proof {
            lemma_pow128_small(k as nat);
            assert(0 <= g * weight <= 127 * 0x100_0000_0000_0000) by (nonlinear_arith)
                requires
                    0 <= g <= 127,
                    0 <= weight <= 0x100_0000_0000_0000,
            ;
        }
        let part: u64 = g * weight;
        if value > u64::MAX - part {
            return None;
        }
        value = value + part;
        pos += 1;
        if b < 128 {
            return Some((value, pos));
        }
        k += 1;
        if k <= 8 {
            proof {
                lemma_pow128_small(k as nat);
            }
            weight = weight * 128;
        }
    }
}

proof fn lemma_pow128_small(k: nat)
    requires
        k <= 8,
    ensures
        1 <= pow128(k) <= 0x100_0000_0000_0000,
        k < 8 ==> pow128(k) <= 0x2_0000_0000_0000,
{
    reveal_with_fuel(pow128, 9);
}

// ── Encoding ────────────────────────────────────────────────────────────

/// The continuation groups of `r`.
pub open spec fn tail_bytes(r: nat) -> Seq<u8>
    decreases r,
{
    if r < 128 {
        seq![r as u8]
    } else {
        seq![(128 + r % 128) as u8] + tail_bytes(r / 128)
    }
}

/// `v` under a prefix of `bits` bits, the bits above it being `flags`.
pub open spec fn int_bytes(v: u64, bits: u32, flags: u8) -> Seq<u8> {
    let m = prefix_mask(bits);
    if v < m {
        seq![(flags + v) as u8]
    } else {
        seq![(flags + m) as u8] + tail_bytes((v - m) as nat)
    }
}

/// An encoded integer decodes to itself, whatever follows it.
pub proof fn law_prefix_int_reads_back(v: u64, bits: u32, flags: u8, rest: Seq<u8>)
    requires
        1 <= bits <= 8,
        flags as int % (prefix_mask(bits) + 1) == 0,
        flags + prefix_mask(bits) <= 255,
        v <= i64::MAX,
    ensures
        prefix_int_at(int_bytes(v, bits, flags) + rest, bits) == Some(
            (v, int_bytes(v, bits, flags).len()),
        ),
        int_bytes(v, bits, flags).len() >= 1,
        flags <= int_bytes(v, bits, flags)[0] <= flags + prefix_mask(bits),
{
    let m = prefix_mask(bits);
    let e = int_bytes(v, bits, flags);
    let buf = e + rest;
    assert(e.len() >= 1);
    assert(buf[0] == e[0]);
    if v < m {
        lemma_low_bits(flags as int, v as int, bits);
        assert(buf[0] as int % (m + 1) == v);
        assert(prefix_int_at(buf, bits) == Some((v, 1nat)));
    } else {
        lemma_low_bits(flags as int, m, bits);
        assert(buf[0] as int % (m + 1) == m);
        let r = (v - m) as nat;
        assert(pow128(9) == 0x8000_0000_0000_0000 && pow128(0) == 1) by {
            reveal_with_fuel(pow128, 10);
        }
        assert(buf.skip(1) =~= tail_bytes(r) + rest);
        assert(r * pow128(0) == r);
        lemma_tail_roundtrip(buf, 1, 0, m, r, rest);
        assert(prefix_int_at(buf, bits) == int_tail(buf, 1, 0, m));
        assert(e.len() == 1 + tail_bytes(r).len());
    }
}

proof fn lemma_low_bits(flags: int, x: int, bits: u32)
    requires
        1 <= bits <= 8,
        0 <= flags,
        flags % (prefix_mask(bits) + 1) == 0,
        0 <= x <= prefix_mask(bits),
    ensures
        (flags + x) % (prefix_mask(bits) + 1) == x,
{
    let d = prefix_mask(bits) + 1;
    lemma_small_mod(x as nat, d as nat);
    lemma_add_mod_noop(flags, x, d);
}

proof fn lemma_tail_roundtrip(buf: Seq<u8>, pos: int, k: nat, acc: int, r: nat, rest: Seq<u8>)
    requires
        0 <= pos <= buf.len(),
        buf.skip(pos) == tail_bytes(r) + rest,
        k <= 8,
        r < pow128((9 - k) as nat),
        acc >= 0,
        acc + r * pow128(k) <= u64::MAX,
    ensures
        int_tail(buf, pos, k, acc) == Some(
            ((acc + r * pow128(k)) as u64, (pos + tail_bytes(r).len()) as nat),
        ),
    decreases r,
{
    let p = pow128(k);
    lemma_pow128_small(k);
    assert(tail_bytes(r).len() >= 1);
    assert(buf.skip(pos).len() >= 1);
    assert(buf.skip(pos)[0] == buf[pos]);
    if r < 128 {
        assert(r * p == (r % 128) * p);
    } else {
        let q = r / 128;
        let g = r % 128;
        assert(buf[pos] as int % 128 == g);
        assert(r * p == g * p + q * (128 * p)) by (nonlinear_arith)
            requires
                r == 128 * q + g,
        ;
        assert(q * (128 * p) >= 0) by (nonlinear_arith)
            requires
                q >= 0,
                p >= 0,
        ;
        assert(buf.skip(pos + 1) =~= buf.skip(pos).skip(1));
        assert(buf.skip(pos).skip(1) =~= tail_bytes(q) + rest);
        assert(pow128((9 - k) as nat) == 128 * pow128((8 - k) as nat));
        if k == 8 {
            assert(pow128(1) == 128) by {
                reveal_with_fuel(pow128, 2);
            }
        }
        assert(q < pow128((8 - k) as nat));
        assert(pow128(k + 1) == 128 * p);
        lemma_tail_roundtrip(buf, pos + 1, k + 1, acc + g * p, q, rest);
    }
}

/// `v` under a prefix of `bits` bits.
pub fn int_vec(v: u64, bits: u32, flags: u8) -> (r: Vec<u8>)
    requires
        1 <= bits <= 8,
        flags + prefix_mask(bits) <= 255,
    ensures
        r@ == int_bytes(v, bits, flags),
{
    let m: u64 = mask_of(bits);
    let mut out: Vec<u8> = Vec::new();
    if v < m {
        out.push((flags as u64 + v) as u8);
        assert(out@ =~= int_bytes(v, bits, flags));
        return out;
    }
    out.push((flags as u64 + m) as u8);
    let mut r: u64 = v - m;
    while r >= 128
        invariant
            out@ + tail_bytes(r as nat) == int_bytes(v, bits, flags),
        decreases r,
    {
        let ghost before = out@;
        let b: u8 = (128 + r % 128) as u8;
        out.push(b);
        assert(before + (seq![b] + tail_bytes((r / 128) as nat)) =~= before.push(b) + tail_bytes(
            (r / 128) as nat,
        ));
        r = r / 128;
    }
    let ghost before = out@;
    out.push(r as u8);
    assert(out@ =~= before + tail_bytes(r as nat));
    out
}

/// A number whose bits are not all ones stands in the first byte; otherwise the bytes that
/// follow add seven bits each, the least significant first, up to one below 128.
pub proof fn law_prefix_int_goes_by_its_bytes(buf: Seq<u8>, bits: u32)
    requires
        1 <= bits <= 8,
        buf.len() >= 3,
    ensures
        ({
            let m = if bits == 1 {
                1int
            } else if bits == 2 {
                3
            } else if bits == 3 {
                7
            } else if bits == 4 {
                15
            } else if bits == 5 {
                31
            } else if bits == 6 {
                63
            } else if bits == 7 {
                127
            } else {
                255
            };
            let low = buf[0] as int % (m + 1);
            &&& low < m ==> prefix_int_at(buf, bits) == Some((low as u64, 1nat))
            &&& low == m && buf[1] < 128 ==> prefix_int_at(buf, bits) == Some(
                ((m + buf[1]) as u64, 2nat),
            )
            &&& low == m && buf[1] >= 128 && buf[2] < 128 ==> prefix_int_at(buf, bits) == Some(
                ((m + (buf[1] - 128) + 128 * buf[2]) as u64, 3nat),
            )
        }),
{
    reveal_with_fuel(int_tail, 3);
    reveal_with_fuel(pow128, 3);
    assert(pow128(0) == 1 && pow128(1) == 128);
}

} // verus!
