//! Writing the static Huffman code of HTTP field strings, and what reading it gives back.
//!
//! The codes stand here octet by octet, as the standard lists them; reading goes by the
//! order of the codes. That the two agree is proved.

use crate::huffman::{
    all_ones, bit_of, huff_decoded, huff_symbol, pow2_7, HUFF_COUNT, HUFF_EOS, HUFF_FIRST,
    HUFF_MAX_BITS, HUFF_START, HUFF_SYMBOLS,
};
use vstd::prelude::*;

verus! {

/// The code of each octet, in the order of the octets (RFC 7541 Appendix B).
pub const HUFF_CODE_OF: [u32; 256] = [
    0x1ff8, 0x7fffd8, 0xfffffe2, 0xfffffe3, 0xfffffe4, 0xfffffe5, 0xfffffe6, 0xfffffe7,
    0xfffffe8, 0xffffea, 0x3ffffffc, 0xfffffe9, 0xfffffea, 0x3ffffffd, 0xfffffeb, 0xfffffec,
    0xfffffed, 0xfffffee, 0xfffffef, 0xffffff0, 0xffffff1, 0xffffff2, 0x3ffffffe, 0xffffff3,
    0xffffff4, 0xffffff5, 0xffffff6, 0xffffff7, 0xffffff8, 0xffffff9, 0xffffffa, 0xffffffb,
    0x14, 0x3f8, 0x3f9, 0xffa, 0x1ff9, 0x15, 0xf8, 0x7fa, 0x3fa, 0x3fb, 0xf9, 0x7fb, 0xfa, 0x16,
    0x17, 0x18, 0x0, 0x1, 0x2, 0x19, 0x1a, 0x1b, 0x1c, 0x1d, 0x1e, 0x1f, 0x5c, 0xfb, 0x7ffc,
    0x20, 0xffb, 0x3fc, 0x1ffa, 0x21, 0x5d, 0x5e, 0x5f, 0x60, 0x61, 0x62, 0x63, 0x64, 0x65,
    0x66, 0x67, 0x68, 0x69, 0x6a, 0x6b, 0x6c, 0x6d, 0x6e, 0x6f, 0x70, 0x71, 0x72, 0xfc, 0x73,
    0xfd, 0x1ffb, 0x7fff0, 0x1ffc, 0x3ffc, 0x22, 0x7ffd, 0x3, 0x23, 0x4, 0x24, 0x5, 0x25, 0x26,
    0x27, 0x6, 0x74, 0x75, 0x28, 0x29, 0x2a, 0x7, 0x2b, 0x76, 0x2c, 0x8, 0x9, 0x2d, 0x77, 0x78,
    0x79, 0x7a, 0x7b, 0x7ffe, 0x7fc, 0x3ffd, 0x1ffd, 0xffffffc, 0xfffe6, 0x3fffd2, 0xfffe7,
    0xfffe8, 0x3fffd3, 0x3fffd4, 0x3fffd5, 0x7fffd9, 0x3fffd6, 0x7fffda, 0x7fffdb, 0x7fffdc,
    0x7fffdd, 0x7fffde, 0xffffeb, 0x7fffdf, 0xffffec, 0xffffed, 0x3fffd7, 0x7fffe0, 0xffffee,
    0x7fffe1, 0x7fffe2, 0x7fffe3, 0x7fffe4, 0x1fffdc, 0x3fffd8, 0x7fffe5, 0x3fffd9, 0x7fffe6,
    0x7fffe7, 0xffffef, 0x3fffda, 0x1fffdd, 0xfffe9, 0x3fffdb, 0x3fffdc, 0x7fffe8, 0x7fffe9,
    0x1fffde, 0x7fffea, 0x3fffdd, 0x3fffde, 0xfffff0, 0x1fffdf, 0x3fffdf, 0x7fffeb, 0x7fffec,
    0x1fffe0, 0x1fffe1, 0x3fffe0, 0x1fffe2, 0x7fffed, 0x3fffe1, 0x7fffee, 0x7fffef, 0xfffea,
    0x3fffe2, 0x3fffe3, 0x3fffe4, 0x7ffff0, 0x3fffe5, 0x3fffe6, 0x7ffff1, 0x3ffffe0, 0x3ffffe1,
    0xfffeb, 0x7fff1, 0x3fffe7, 0x7ffff2, 0x3fffe8, 0x1ffffec, 0x3ffffe2, 0x3ffffe3, 0x3ffffe4,
    0x7ffffde, 0x7ffffdf, 0x3ffffe5, 0xfffff1, 0x1ffffed, 0x7fff2, 0x1fffe3, 0x3ffffe6,
    0x7ffffe0, 0x7ffffe1, 0x3ffffe7, 0x7ffffe2, 0xfffff2, 0x1fffe4, 0x1fffe5, 0x3ffffe8,
    0x3ffffe9, 0xffffffd, 0x7ffffe3, 0x7ffffe4, 0x7ffffe5, 0xfffec, 0xfffff3, 0xfffed, 0x1fffe6,
    0x3fffe9, 0x1fffe7, 0x1fffe8, 0x7ffff3, 0x3fffea, 0x3fffeb, 0x1ffffee, 0x1ffffef, 0xfffff4,
    0xfffff5, 0x3ffffea, 0x7ffff4, 0x3ffffeb, 0x7ffffe6, 0x3ffffec, 0x3ffffed, 0x7ffffe7,
    0x7ffffe8, 0x7ffffe9, 0x7ffffea, 0x7ffffeb, 0xffffffe, 0x7ffffec, 0x7ffffed, 0x7ffffee,
    0x7ffffef, 0x7fffff0, 0x3ffffee,
];

/// How many bits the code of each octet has.
pub const HUFF_BITS_OF: [u32; 256] = [
    13, 23, 28, 28, 28, 28, 28, 28, 28, 24, 30, 28, 28, 30, 28, 28, 28, 28, 28, 28, 28, 28, 30,
    28, 28, 28, 28, 28, 28, 28, 28, 28, 6, 10, 10, 12, 13, 6, 8, 11, 10, 10, 8, 11, 8, 6, 6, 6,
    5, 5, 5, 6, 6, 6, 6, 6, 6, 6, 7, 8, 15, 6, 12, 10, 13, 6, 7, 7, 7, 7, 7, 7, 7, 7, 7, 7, 7,
    7, 7, 7, 7, 7, 7, 7, 7, 7, 7, 7, 8, 7, 8, 13, 19, 13, 14, 6, 15, 5, 6, 5, 6, 5, 6, 6, 6, 5,
    7, 7, 6, 6, 6, 5, 6, 7, 6, 5, 5, 6, 7, 7, 7, 7, 7, 15, 11, 14, 13, 28, 20, 22, 20, 20, 22,
    22, 22, 23, 22, 23, 23, 23, 23, 23, 24, 23, 24, 24, 22, 23, 24, 23, 23, 23, 23, 21, 22, 23,
    22, 23, 23, 24, 22, 21, 20, 22, 22, 23, 23, 21, 23, 22, 22, 24, 21, 22, 23, 23, 21, 21, 22,
    21, 23, 22, 23, 23, 20, 22, 22, 22, 23, 22, 22, 23, 26, 26, 20, 19, 22, 23, 22, 25, 26, 26,
    26, 27, 27, 26, 24, 25, 19, 21, 26, 27, 27, 26, 27, 24, 21, 21, 26, 26, 28, 27, 27, 27, 20,
    24, 20, 21, 22, 21, 21, 23, 22, 22, 25, 25, 24, 24, 26, 23, 26, 27, 26, 26, 27, 27, 27, 27,
    27, 28, 27, 27, 27, 27, 27, 26,
];

/// `x` without its low `k` bits.
pub open spec fn shifted(x: int, k: nat) -> int
    decreases k,
{
    if k == 0 {
        x
    } else {
        shifted(x, (k - 1) as nat) / 2
    }
}

/// The code of an octet as bits, the most significant first.
pub open spec fn code_bits(c: u8) -> Seq<int> {
    let n = HUFF_BITS_OF@[c as int];
    Seq::new(n as nat, |j: int| shifted(HUFF_CODE_OF@[c as int] as int, (n - 1 - j) as nat) % 2)
}

/// The codes of a string's octets, one behind the other.
pub open spec fn huff_bits(s: Seq<u8>) -> Seq<int>
    decreases s.len(),
{
    if s.len() == 0 {
        Seq::empty()
    } else {
        code_bits(s[0]) + huff_bits(s.skip(1))
    }
}

/// Bit `k`, or a one behind the last.
pub open spec fn padded(bits: Seq<int>, k: int) -> int {
    if 0 <= k < bits.len() {
        bits[k]
    } else {
        1
    }
}

/// Bits as octets, the most significant first, the last octet filled up with ones.
#[verifier::opaque]
pub open spec fn packed(bits: Seq<int>) -> Seq<u8> {
    Seq::new(
        ((bits.len() + 7) / 8) as nat,
        |k: int|
            (128 * padded(bits, 8 * k) + 64 * padded(bits, 8 * k + 1) + 32 * padded(bits, 8 * k + 2)
                + 16 * padded(bits, 8 * k + 3) + 8 * padded(bits, 8 * k + 4) + 4 * padded(
                bits,
                8 * k + 5,
            ) + 2 * padded(bits, 8 * k + 6) + padded(bits, 8 * k + 7)) as u8,
    )
}

/// A string in the static code.
pub open spec fn huff_encoded(s: Seq<u8>) -> Seq<u8> {
    packed(huff_bits(s))
}

// ── The two tables agree ────────────────────────────────────────────────

spec fn code_agrees(c: int) -> bool {
    let n = HUFF_BITS_OF@[c] as int;
    let code = HUFF_CODE_OF@[c] as int;
    &&& 5 <= n <= HUFF_MAX_BITS
    &&& HUFF_FIRST@[n] <= code < HUFF_FIRST@[n] + HUFF_COUNT@[n]
    &&& huff_symbol(code, n) == Some(c as u16)
}

proof fn lemma_codes_0(c: int)
    requires
        0 <= c < 16,
    ensures
        code_agrees(c),
{
    assert(c == 0 || c == 1 || c == 2 || c == 3 || c == 4 || c == 5 || c == 6 || c == 7 || c == 8 || c == 9 || c == 10 || c == 11 || c == 12 || c == 13 || c == 14 || c == 15);
}

proof fn lemma_codes_16(c: int)
    requires
        16 <= c < 32,
    ensures
        code_agrees(c),
{
    assert(c == 16 || c == 17 || c == 18 || c == 19 || c == 20 || c == 21 || c == 22 || c == 23 || c == 24 || c == 25 || c == 26 || c == 27 || c == 28 || c == 29 || c == 30 || c == 31);
}

proof fn lemma_codes_32(c: int)
    requires
        32 <= c < 48,
    ensures
        code_agrees(c),
{
    assert(c == 32 || c == 33 || c == 34 || c == 35 || c == 36 || c == 37 || c == 38 || c == 39 || c == 40 || c == 41 || c == 42 || c == 43 || c == 44 || c == 45 || c == 46 || c == 47);
}

proof fn lemma_codes_48(c: int)
    requires
        48 <= c < 64,
    ensures
        code_agrees(c),
{
    assert(c == 48 || c == 49 || c == 50 || c == 51 || c == 52 || c == 53 || c == 54 || c == 55 || c == 56 || c == 57 || c == 58 || c == 59 || c == 60 || c == 61 || c == 62 || c == 63);
}

proof fn lemma_codes_64(c: int)
    requires
        64 <= c < 80,
    ensures
        code_agrees(c),
{
    assert(c == 64 || c == 65 || c == 66 || c == 67 || c == 68 || c == 69 || c == 70 || c == 71 || c == 72 || c == 73 || c == 74 || c == 75 || c == 76 || c == 77 || c == 78 || c == 79);
}

proof fn lemma_codes_80(c: int)
    requires
        80 <= c < 96,
    ensures
        code_agrees(c),
{
    assert(c == 80 || c == 81 || c == 82 || c == 83 || c == 84 || c == 85 || c == 86 || c == 87 || c == 88 || c == 89 || c == 90 || c == 91 || c == 92 || c == 93 || c == 94 || c == 95);
}

proof fn lemma_codes_96(c: int)
    requires
        96 <= c < 112,
    ensures
        code_agrees(c),
{
    assert(c == 96 || c == 97 || c == 98 || c == 99 || c == 100 || c == 101 || c == 102 || c == 103 || c == 104 || c == 105 || c == 106 || c == 107 || c == 108 || c == 109 || c == 110 || c == 111);
}

proof fn lemma_codes_112(c: int)
    requires
        112 <= c < 128,
    ensures
        code_agrees(c),
{
    assert(c == 112 || c == 113 || c == 114 || c == 115 || c == 116 || c == 117 || c == 118 || c == 119 || c == 120 || c == 121 || c == 122 || c == 123 || c == 124 || c == 125 || c == 126 || c == 127);
}

proof fn lemma_codes_128(c: int)
    requires
        128 <= c < 144,
    ensures
        code_agrees(c),
{
    assert(c == 128 || c == 129 || c == 130 || c == 131 || c == 132 || c == 133 || c == 134 || c == 135 || c == 136 || c == 137 || c == 138 || c == 139 || c == 140 || c == 141 || c == 142 || c == 143);
}

proof fn lemma_codes_144(c: int)
    requires
        144 <= c < 160,
    ensures
        code_agrees(c),
{
    assert(c == 144 || c == 145 || c == 146 || c == 147 || c == 148 || c == 149 || c == 150 || c == 151 || c == 152 || c == 153 || c == 154 || c == 155 || c == 156 || c == 157 || c == 158 || c == 159);
}

proof fn lemma_codes_160(c: int)
    requires
        160 <= c < 176,
    ensures
        code_agrees(c),
{
    assert(c == 160 || c == 161 || c == 162 || c == 163 || c == 164 || c == 165 || c == 166 || c == 167 || c == 168 || c == 169 || c == 170 || c == 171 || c == 172 || c == 173 || c == 174 || c == 175);
}

proof fn lemma_codes_176(c: int)
    requires
        176 <= c < 192,
    ensures
        code_agrees(c),
{
    assert(c == 176 || c == 177 || c == 178 || c == 179 || c == 180 || c == 181 || c == 182 || c == 183 || c == 184 || c == 185 || c == 186 || c == 187 || c == 188 || c == 189 || c == 190 || c == 191);
}

proof fn lemma_codes_192(c: int)
    requires
        192 <= c < 208,
    ensures
        code_agrees(c),
{
    assert(c == 192 || c == 193 || c == 194 || c == 195 || c == 196 || c == 197 || c == 198 || c == 199 || c == 200 || c == 201 || c == 202 || c == 203 || c == 204 || c == 205 || c == 206 || c == 207);
}

proof fn lemma_codes_208(c: int)
    requires
        208 <= c < 224,
    ensures
        code_agrees(c),
{
    assert(c == 208 || c == 209 || c == 210 || c == 211 || c == 212 || c == 213 || c == 214 || c == 215 || c == 216 || c == 217 || c == 218 || c == 219 || c == 220 || c == 221 || c == 222 || c == 223);
}

proof fn lemma_codes_224(c: int)
    requires
        224 <= c < 240,
    ensures
        code_agrees(c),
{
    assert(c == 224 || c == 225 || c == 226 || c == 227 || c == 228 || c == 229 || c == 230 || c == 231 || c == 232 || c == 233 || c == 234 || c == 235 || c == 236 || c == 237 || c == 238 || c == 239);
}

proof fn lemma_codes_240(c: int)
    requires
        240 <= c < 256,
    ensures
        code_agrees(c),
{
    assert(c == 240 || c == 241 || c == 242 || c == 243 || c == 244 || c == 245 || c == 246 || c == 247 || c == 248 || c == 249 || c == 250 || c == 251 || c == 252 || c == 253 || c == 254 || c == 255);
}

proof fn lemma_codes_agree(c: int)
    requires
        0 <= c < 256,
    ensures
        code_agrees(c),
{
    if c < 16 {
        lemma_codes_0(c);
    } else if c < 32 {
        lemma_codes_16(c);
    } else if c < 48 {
        lemma_codes_32(c);
    } else if c < 64 {
        lemma_codes_48(c);
    } else if c < 80 {
        lemma_codes_64(c);
    } else if c < 96 {
        lemma_codes_80(c);
    } else if c < 112 {
        lemma_codes_96(c);
    } else if c < 128 {
        lemma_codes_112(c);
    } else if c < 144 {
        lemma_codes_128(c);
    } else if c < 160 {
        lemma_codes_144(c);
    } else if c < 176 {
        lemma_codes_160(c);
    } else if c < 192 {
        lemma_codes_176(c);
    } else if c < 208 {
        lemma_codes_192(c);
    } else if c < 224 {
        lemma_codes_208(c);
    } else if c < 240 {
        lemma_codes_224(c);
    } else {
        lemma_codes_240(c);
    }
}

/// One past the last code of `n` bits, codes of fewer bits counted with all they begin.
spec fn past(n: nat) -> int
    decreases n,
{
    if n == 0 {
        0
    } else {
        2 * past((n - 1) as nat) + HUFF_COUNT@[n as int]
    }
}

proof fn lemma_past(n: nat)
    requires
        1 <= n <= HUFF_MAX_BITS,
    ensures
        HUFF_COUNT@[n as int] > 0 ==> HUFF_FIRST@[n as int] == 2 * past((n - 1) as nat),
        past(n) - 1 <= all_ones(n),
{
    assert(past(0) == 0);
    assert(past(1) == 0);
    assert(past(2) == 0);
    assert(past(3) == 0);
    assert(past(4) == 0);
    assert(past(5) == 10);
    assert(past(6) == 46);
    assert(past(7) == 124);
    assert(past(8) == 254);
    assert(past(9) == 508);
    assert(past(10) == 1021);
    assert(past(11) == 2045);
    assert(past(12) == 4092);
    assert(past(13) == 8190);
    assert(past(14) == 16382);
    assert(past(15) == 32767);
    assert(past(16) == 65534);
    assert(past(17) == 131068);
    assert(past(18) == 262136);
    assert(past(19) == 524275);
    assert(past(20) == 1048558);
    assert(past(21) == 2097129);
    assert(past(22) == 4194284);
    assert(past(23) == 8388597);
    assert(past(24) == 16777206);
    assert(past(25) == 33554416);
    assert(past(26) == 67108847);
    assert(past(27) == 134217713);
    assert(past(28) == 268435455);
    assert(past(29) == 536870910);
    assert(past(30) == 1073741824);
    reveal_with_fuel(all_ones, 31);
    assert(n == 1 || n == 2 || n == 3 || n == 4 || n == 5 || n == 6 || n == 7 || n == 8 || n == 9
        || n == 10 || n == 11 || n == 12 || n == 13 || n == 14 || n == 15 || n == 16 || n == 17
        || n == 18 || n == 19 || n == 20 || n == 21 || n == 22 || n == 23 || n == 24 || n == 25
        || n == 26 || n == 27 || n == 28 || n == 29 || n == 30);
}

/// No code begins another: the front of a code is none.
proof fn lemma_front_is_no_code(x: int, n: nat, k: nat)
    requires
        n + k <= HUFF_MAX_BITS,
        k > 0,
        n > 0,
        HUFF_COUNT@[(n + k) as int] > 0,
        HUFF_FIRST@[(n + k) as int] <= x,
    ensures
        shifted(x, k) >= past(n),
        huff_symbol(shifted(x, k), n as int) is None,
    decreases k,
{
    lemma_past(n);
    if k == 1 {
        lemma_past(n + 1);
        assert(shifted(x, 1) == shifted(x, 0) / 2);
    } else {
        lemma_front_is_no_code(x, n + 1, (k - 1) as nat);
        assert(past(n + 1) == 2 * past(n) + HUFF_COUNT@[(n + 1) as int]);
    }
    if HUFF_COUNT@[n as int] > 0 {
        assert(past(n) == 2 * past((n - 1) as nat) + HUFF_COUNT@[n as int]);
    }
}

/// Nothing is left of a code once all its bits are off.
proof fn lemma_shifted_out(x: int, n: nat, k: nat)
    requires
        0 <= x <= all_ones(n),
        k <= n,
    ensures
        0 <= shifted(x, k) <= all_ones((n - k) as nat),
    decreases k,
{
    if k > 0 {
        lemma_shifted_out(x, n, (k - 1) as nat);
    }
}

// ── Reading back ────────────────────────────────────────────────────────

proof fn lemma_packed_len(bits: Seq<int>)
    ensures
        0 <= 8 * packed(bits).len() - bits.len() <= 7,
{
    reveal(packed);
}

proof fn lemma_packed_bit(bits: Seq<int>, k: int)
    requires
        forall|i: int| 0 <= i < bits.len() ==> 0 <= #[trigger] bits[i] <= 1,
        0 <= k < 8 * packed(bits).len(),
    ensures
        bit_of(packed(bits), k) == padded(bits, k),
{
    reveal(packed);
    let q = k / 8;
    let j = k % 8;
    let b0 = padded(bits, 8 * q);
    let b1 = padded(bits, 8 * q + 1);
    let b2 = padded(bits, 8 * q + 2);
    let b3 = padded(bits, 8 * q + 3);
    let b4 = padded(bits, 8 * q + 4);
    let b5 = padded(bits, 8 * q + 5);
    let b6 = padded(bits, 8 * q + 6);
    let b7 = padded(bits, 8 * q + 7);
    let x = 128 * b0 + 64 * b1 + 32 * b2 + 16 * b3 + 8 * b4 + 4 * b5 + 2 * b6 + b7;
    assert(0 <= x < 256);
    assert(packed(bits)[q] == x);
    assert(k == 8 * q + j);
    assert(x / 128 == b0);
    assert(x / 64 == 2 * b0 + b1);
    assert(x / 32 == 4 * b0 + 2 * b1 + b2);
    assert(x / 16 == 8 * b0 + 4 * b1 + 2 * b2 + b3);
    assert(x / 8 == 16 * b0 + 8 * b1 + 4 * b2 + 2 * b3 + b4);
    assert(x / 4 == 32 * b0 + 16 * b1 + 8 * b2 + 4 * b3 + 2 * b4 + b5);
    assert(x / 2 == 64 * b0 + 32 * b1 + 16 * b2 + 8 * b3 + 4 * b4 + 2 * b5 + b6);
    assert(j == 0 || j == 1 || j == 2 || j == 3 || j == 4 || j == 5 || j == 6 || j == 7);
}

/// Reading goes on through the bits of an octet's code and gives the octet.
proof fn lemma_code_read(s: Seq<u8>, bit: int, c: u8, n: nat)
    requires
        0 <= bit,
        n < HUFF_BITS_OF@[c as int],
        bit + HUFF_BITS_OF@[c as int] - n <= 8 * s.len(),
        forall|j: int|
            n <= j < HUFF_BITS_OF@[c as int] ==> bit_of(s, bit + j - n) == #[trigger] code_bits(
                c,
            )[j],
    ensures
        huff_decoded(
            s,
            bit,
            shifted(
                HUFF_CODE_OF@[c as int] as int,
                (HUFF_BITS_OF@[c as int] - n) as nat,
            ),
            n,
        ) == match huff_decoded(s, bit + HUFF_BITS_OF@[c as int] - n, 0, 0) {
            Some(rest) => Some(seq![c] + rest),
            None => None,
        },
    decreases HUFF_BITS_OF@[c as int] - n,
{
    lemma_codes_agree(c as int);
    let len = HUFF_BITS_OF@[c as int] as nat;
    let code = HUFF_CODE_OF@[c as int] as int;
    let k = (len - n) as nat;
    let x = shifted(code, k);
    let y = shifted(code, (k - 1) as nat);
    assert(x == y / 2);
    assert(code_bits(c)[n as int] == y % 2);
    assert(bit_of(s, bit) == y % 2);
    assert(2 * x + bit_of(s, bit) == y);
    if n + 1 < len {
        lemma_front_is_no_code(code, n + 1, (k - 1) as nat);
        assert forall|j: int|
            n + 1 <= j < HUFF_BITS_OF@[c as int] implies bit_of(s, (bit + 1) + j - (n + 1))
            == #[trigger] code_bits(c)[j] by {
            assert((bit + 1) + j - (n + 1) == bit + j - n);
        }
        lemma_code_read(s, bit + 1, c, n + 1);
    } else {
        assert(y == code);
    }
}

/// The padding reads as nothing.
proof fn lemma_padding_read(s: Seq<u8>, bit: int, n: nat)
    requires
        0 <= bit <= 8 * s.len(),
        8 * s.len() - bit + n <= 7,
        forall|k: int| bit <= k < 8 * s.len() ==> #[trigger] bit_of(s, k) == 1,
    ensures
        huff_decoded(s, bit, all_ones(n), n) == Some(Seq::<u8>::empty()),
    decreases 8 * s.len() - bit,
{
    if bit < 8 * s.len() {
        let m = n + 1;
        assert(bit_of(s, bit) == 1);
        assert(2 * all_ones(n) + 1 == all_ones(m));
        reveal_with_fuel(all_ones, 8);
        assert(m == 1 || m == 2 || m == 3 || m == 4 || m == 5 || m == 6 || m == 7);
        assert(huff_symbol(all_ones(m), m as int) is None);
        lemma_padding_read(s, bit + 1, m);
    }
}

proof fn lemma_bits_read(s: Seq<u8>, bit: int, t: Seq<u8>)
    requires
        0 <= bit,
        0 <= 8 * s.len() - bit - huff_bits(t).len() <= 7,
        forall|k: int|
            0 <= k < huff_bits(t).len() ==> bit_of(s, bit + k) == #[trigger] huff_bits(t)[k],
        forall|k: int| bit + huff_bits(t).len() <= k < 8 * s.len() ==> #[trigger] bit_of(s, k) == 1,
    ensures
        huff_decoded(s, bit, 0, 0) == Some(t),
    decreases t.len(),
{
    if t.len() == 0 {
        assert(all_ones(0) == 0);
        lemma_padding_read(s, bit, 0);
        assert(t =~= Seq::<u8>::empty());
    } else {
        let c = t[0];
        let rest = t.skip(1);
        let bits = huff_bits(t);
        lemma_codes_agree(c as int);
        let len = HUFF_BITS_OF@[c as int] as nat;
        let code = HUFF_CODE_OF@[c as int] as int;
        assert(bits == code_bits(c) + huff_bits(rest));
        assert forall|j: int| 0 <= j < len implies bit_of(s, bit + j - 0) == #[trigger] code_bits(
            c,
        )[j] by {
            assert(bits[j] == code_bits(c)[j]);
        }
        assert forall|k: int| 0 <= k < huff_bits(rest).len() implies bit_of(s, bit + len + k)
            == #[trigger] huff_bits(rest)[k] by {
            assert(bits[len + k] == huff_bits(rest)[k]);
            assert(bit + (len + k) == bit + len + k);
        }
        lemma_bits_read(s, bit + len, rest);
        lemma_past(len);
        lemma_shifted_out(code, len, len);
        assert(all_ones(0) == 0);
        assert(shifted(code, len) == 0);
        lemma_code_read(s, bit, c, 0);
        assert(seq![c] + rest =~= t);
    }
}

proof fn lemma_bits_are_bits(s: Seq<u8>)
    ensures
        forall|i: int| 0 <= i < huff_bits(s).len() ==> 0 <= #[trigger] huff_bits(s)[i] <= 1,
    decreases s.len(),
{
    if s.len() > 0 {
        lemma_bits_are_bits(s.skip(1));
        let n = code_bits(s[0]).len();
        assert forall|i: int| 0 <= i < huff_bits(s).len() implies 0 <= #[trigger] huff_bits(s)[i]
            <= 1 by {
            if i < n {
                assert(huff_bits(s)[i] == code_bits(s[0])[i]);
            } else {
                assert(huff_bits(s)[i] == huff_bits(s.skip(1))[i - n]);
            }
        }
    }
}

/// A string written in the static code reads back as itself, octet for octet.
pub proof fn law_huffman_reads_back(s: Seq<u8>)
    ensures
        huff_decoded(huff_encoded(s), 0, 0, 0) == Some(s),
{
    let bits = huff_bits(s);
    let e = huff_encoded(s);
    lemma_bits_are_bits(s);
    lemma_packed_len(bits);
    assert forall|k: int| 0 <= k < bits.len() implies bit_of(e, 0 + k) == #[trigger] bits[k] by {
        lemma_packed_bit(bits, k);
    }
    assert forall|k: int| 0 + bits.len() <= k < 8 * e.len() implies #[trigger] bit_of(e, k) == 1 by {
        lemma_packed_bit(bits, k);
    }
    lemma_bits_read(e, 0, s);
}

// ── What is accepted ────────────────────────────────────────────────────

spec fn symbol_coded(c: int, n: int) -> bool {
    huff_symbol(c, n) matches Some(sym) ==> (sym < HUFF_EOS ==> HUFF_CODE_OF@[sym as int] == c
        && HUFF_BITS_OF@[sym as int] == n)
}

proof fn lemma_symbols_of_5(c: int)
    requires
        huff_symbol(c, 5) is Some,
    ensures
        symbol_coded(c, 5),
{
    assert(c == 0x0 || c == 0x1 || c == 0x2 || c == 0x3 || c == 0x4 || c == 0x5 || c == 0x6 || c == 0x7 || c == 0x8 || c == 0x9);
}

proof fn lemma_symbols_of_6(c: int)
    requires
        huff_symbol(c, 6) is Some,
    ensures
        symbol_coded(c, 6),
{
    assert(c == 0x14 || c == 0x15 || c == 0x16 || c == 0x17 || c == 0x18 || c == 0x19 || c == 0x1a || c == 0x1b || c == 0x1c || c == 0x1d || c == 0x1e || c == 0x1f || c == 0x20 || c == 0x21 || c == 0x22 || c == 0x23 || c == 0x24 || c == 0x25 || c == 0x26 || c == 0x27 || c == 0x28 || c == 0x29 || c == 0x2a || c == 0x2b || c == 0x2c || c == 0x2d);
}

proof fn lemma_symbols_of_7(c: int)
    requires
        huff_symbol(c, 7) is Some,
    ensures
        symbol_coded(c, 7),
{
    assert(c == 0x5c || c == 0x5d || c == 0x5e || c == 0x5f || c == 0x60 || c == 0x61 || c == 0x62 || c == 0x63 || c == 0x64 || c == 0x65 || c == 0x66 || c == 0x67 || c == 0x68 || c == 0x69 || c == 0x6a || c == 0x6b || c == 0x6c || c == 0x6d || c == 0x6e || c == 0x6f || c == 0x70 || c == 0x71 || c == 0x72 || c == 0x73 || c == 0x74 || c == 0x75 || c == 0x76 || c == 0x77 || c == 0x78 || c == 0x79 || c == 0x7a || c == 0x7b);
}

proof fn lemma_symbols_of_8(c: int)
    requires
        huff_symbol(c, 8) is Some,
    ensures
        symbol_coded(c, 8),
{
    assert(c == 0xf8 || c == 0xf9 || c == 0xfa || c == 0xfb || c == 0xfc || c == 0xfd);
}

proof fn lemma_symbols_of_10(c: int)
    requires
        huff_symbol(c, 10) is Some,
    ensures
        symbol_coded(c, 10),
{
    assert(c == 0x3f8 || c == 0x3f9 || c == 0x3fa || c == 0x3fb || c == 0x3fc);
}

proof fn lemma_symbols_of_11(c: int)
    requires
        huff_symbol(c, 11) is Some,
    ensures
        symbol_coded(c, 11),
{
    assert(c == 0x7fa || c == 0x7fb || c == 0x7fc);
}

proof fn lemma_symbols_of_12(c: int)
    requires
        huff_symbol(c, 12) is Some,
    ensures
        symbol_coded(c, 12),
{
    assert(c == 0xffa || c == 0xffb);
}

proof fn lemma_symbols_of_13(c: int)
    requires
        huff_symbol(c, 13) is Some,
    ensures
        symbol_coded(c, 13),
{
    assert(c == 0x1ff8 || c == 0x1ff9 || c == 0x1ffa || c == 0x1ffb || c == 0x1ffc || c == 0x1ffd);
}

proof fn lemma_symbols_of_14(c: int)
    requires
        huff_symbol(c, 14) is Some,
    ensures
        symbol_coded(c, 14),
{
    assert(c == 0x3ffc || c == 0x3ffd);
}

proof fn lemma_symbols_of_15(c: int)
    requires
        huff_symbol(c, 15) is Some,
    ensures
        symbol_coded(c, 15),
{
    assert(c == 0x7ffc || c == 0x7ffd || c == 0x7ffe);
}

proof fn lemma_symbols_of_19(c: int)
    requires
        huff_symbol(c, 19) is Some,
    ensures
        symbol_coded(c, 19),
{
    assert(c == 0x7fff0 || c == 0x7fff1 || c == 0x7fff2);
}

proof fn lemma_symbols_of_20(c: int)
    requires
        huff_symbol(c, 20) is Some,
    ensures
        symbol_coded(c, 20),
{
    assert(c == 0xfffe6 || c == 0xfffe7 || c == 0xfffe8 || c == 0xfffe9 || c == 0xfffea || c == 0xfffeb || c == 0xfffec || c == 0xfffed);
}

proof fn lemma_symbols_of_21(c: int)
    requires
        huff_symbol(c, 21) is Some,
    ensures
        symbol_coded(c, 21),
{
    assert(c == 0x1fffdc || c == 0x1fffdd || c == 0x1fffde || c == 0x1fffdf || c == 0x1fffe0 || c == 0x1fffe1 || c == 0x1fffe2 || c == 0x1fffe3 || c == 0x1fffe4 || c == 0x1fffe5 || c == 0x1fffe6 || c == 0x1fffe7 || c == 0x1fffe8);
}

proof fn lemma_symbols_of_22(c: int)
    requires
        huff_symbol(c, 22) is Some,
    ensures
        symbol_coded(c, 22),
{
    assert(c == 0x3fffd2 || c == 0x3fffd3 || c == 0x3fffd4 || c == 0x3fffd5 || c == 0x3fffd6 || c == 0x3fffd7 || c == 0x3fffd8 || c == 0x3fffd9 || c == 0x3fffda || c == 0x3fffdb || c == 0x3fffdc || c == 0x3fffdd || c == 0x3fffde || c == 0x3fffdf || c == 0x3fffe0 || c == 0x3fffe1 || c == 0x3fffe2 || c == 0x3fffe3 || c == 0x3fffe4 || c == 0x3fffe5 || c == 0x3fffe6 || c == 0x3fffe7 || c == 0x3fffe8 || c == 0x3fffe9 || c == 0x3fffea || c == 0x3fffeb);
}

proof fn lemma_symbols_of_23(c: int)
    requires
        huff_symbol(c, 23) is Some,
    ensures
        symbol_coded(c, 23),
{
    assert(c == 0x7fffd8 || c == 0x7fffd9 || c == 0x7fffda || c == 0x7fffdb || c == 0x7fffdc || c == 0x7fffdd || c == 0x7fffde || c == 0x7fffdf || c == 0x7fffe0 || c == 0x7fffe1 || c == 0x7fffe2 || c == 0x7fffe3 || c == 0x7fffe4 || c == 0x7fffe5 || c == 0x7fffe6 || c == 0x7fffe7 || c == 0x7fffe8 || c == 0x7fffe9 || c == 0x7fffea || c == 0x7fffeb || c == 0x7fffec || c == 0x7fffed || c == 0x7fffee || c == 0x7fffef || c == 0x7ffff0 || c == 0x7ffff1 || c == 0x7ffff2 || c == 0x7ffff3 || c == 0x7ffff4);
}

proof fn lemma_symbols_of_24(c: int)
    requires
        huff_symbol(c, 24) is Some,
    ensures
        symbol_coded(c, 24),
{
    assert(c == 0xffffea || c == 0xffffeb || c == 0xffffec || c == 0xffffed || c == 0xffffee || c == 0xffffef || c == 0xfffff0 || c == 0xfffff1 || c == 0xfffff2 || c == 0xfffff3 || c == 0xfffff4 || c == 0xfffff5);
}

proof fn lemma_symbols_of_25(c: int)
    requires
        huff_symbol(c, 25) is Some,
    ensures
        symbol_coded(c, 25),
{
    assert(c == 0x1ffffec || c == 0x1ffffed || c == 0x1ffffee || c == 0x1ffffef);
}

proof fn lemma_symbols_of_26(c: int)
    requires
        huff_symbol(c, 26) is Some,
    ensures
        symbol_coded(c, 26),
{
    assert(c == 0x3ffffe0 || c == 0x3ffffe1 || c == 0x3ffffe2 || c == 0x3ffffe3 || c == 0x3ffffe4 || c == 0x3ffffe5 || c == 0x3ffffe6 || c == 0x3ffffe7 || c == 0x3ffffe8 || c == 0x3ffffe9 || c == 0x3ffffea || c == 0x3ffffeb || c == 0x3ffffec || c == 0x3ffffed || c == 0x3ffffee);
}

proof fn lemma_symbols_of_27(c: int)
    requires
        huff_symbol(c, 27) is Some,
    ensures
        symbol_coded(c, 27),
{
    assert(c == 0x7ffffde || c == 0x7ffffdf || c == 0x7ffffe0 || c == 0x7ffffe1 || c == 0x7ffffe2 || c == 0x7ffffe3 || c == 0x7ffffe4 || c == 0x7ffffe5 || c == 0x7ffffe6 || c == 0x7ffffe7 || c == 0x7ffffe8 || c == 0x7ffffe9 || c == 0x7ffffea || c == 0x7ffffeb || c == 0x7ffffec || c == 0x7ffffed || c == 0x7ffffee || c == 0x7ffffef || c == 0x7fffff0);
}

proof fn lemma_symbols_of_28(c: int)
    requires
        huff_symbol(c, 28) is Some,
    ensures
        symbol_coded(c, 28),
{
    assert(c == 0xfffffe2 || c == 0xfffffe3 || c == 0xfffffe4 || c == 0xfffffe5 || c == 0xfffffe6 || c == 0xfffffe7 || c == 0xfffffe8 || c == 0xfffffe9 || c == 0xfffffea || c == 0xfffffeb || c == 0xfffffec || c == 0xfffffed || c == 0xfffffee || c == 0xfffffef || c == 0xffffff0 || c == 0xffffff1 || c == 0xffffff2 || c == 0xffffff3 || c == 0xffffff4 || c == 0xffffff5 || c == 0xffffff6 || c == 0xffffff7 || c == 0xffffff8 || c == 0xffffff9 || c == 0xffffffa || c == 0xffffffb || c == 0xffffffc || c == 0xffffffd || c == 0xffffffe);
}

proof fn lemma_symbols_of_30(c: int)
    requires
        huff_symbol(c, 30) is Some,
    ensures
        symbol_coded(c, 30),
{
    assert(c == 0x3ffffffc || c == 0x3ffffffd || c == 0x3ffffffe || c == 0x3fffffff);
}

proof fn lemma_symbol_coded(c: int, n: int)
    requires
        huff_symbol(c, n) is Some,
    ensures
        symbol_coded(c, n),
{
    assert(0 <= n <= 30);
    if n == 5 {
        lemma_symbols_of_5(c);
    } else if n == 6 {
        lemma_symbols_of_6(c);
    } else if n == 7 {
        lemma_symbols_of_7(c);
    } else if n == 8 {
        lemma_symbols_of_8(c);
    } else if n == 10 {
        lemma_symbols_of_10(c);
    } else if n == 11 {
        lemma_symbols_of_11(c);
    } else if n == 12 {
        lemma_symbols_of_12(c);
    } else if n == 13 {
        lemma_symbols_of_13(c);
    } else if n == 14 {
        lemma_symbols_of_14(c);
    } else if n == 15 {
        lemma_symbols_of_15(c);
    } else if n == 19 {
        lemma_symbols_of_19(c);
    } else if n == 20 {
        lemma_symbols_of_20(c);
    } else if n == 21 {
        lemma_symbols_of_21(c);
    } else if n == 22 {
        lemma_symbols_of_22(c);
    } else if n == 23 {
        lemma_symbols_of_23(c);
    } else if n == 24 {
        lemma_symbols_of_24(c);
    } else if n == 25 {
        lemma_symbols_of_25(c);
    } else if n == 26 {
        lemma_symbols_of_26(c);
    } else if n == 27 {
        lemma_symbols_of_27(c);
    } else if n == 28 {
        lemma_symbols_of_28(c);
    } else if n == 30 {
        lemma_symbols_of_30(c);
    } else {
        assert(n == 0 || n == 1 || n == 2 || n == 3 || n == 4 || n == 9 || n == 16 || n == 17 || n
            == 18 || n == 29);
    }
}

/// The number that the `n` bits from `at` on make.
spec fn number(s: Seq<u8>, at: int, n: nat) -> int
    decreases n,
{
    if n == 0 {
        0
    } else {
        2 * number(s, at, (n - 1) as nat) + bit_of(s, at + n - 1)
    }
}

proof fn lemma_number_shifted(s: Seq<u8>, at: int, n: nat, k: nat)
    requires
        k <= n,
        forall|i: int| 0 <= #[trigger] bit_of(s, i) <= 1,
    ensures
        shifted(number(s, at, n), k) == number(s, at, (n - k) as nat),
    decreases k,
{
    if k > 0 {
        lemma_number_shifted(s, at, n, (k - 1) as nat);
        let m = (n - k + 1) as nat;
        assert(number(s, at, m) == 2 * number(s, at, (m - 1) as nat) + bit_of(s, at + m - 1));
    }
}

proof fn lemma_all_ones_bits(s: Seq<u8>, at: int, n: nat)
    requires
        number(s, at, n) == all_ones(n),
        forall|i: int| 0 <= #[trigger] bit_of(s, i) <= 1,
    ensures
        forall|k: int| at <= k < at + n ==> #[trigger] bit_of(s, k) == 1,
    decreases n,
{
    if n > 0 {
        let m = (n - 1) as nat;
        assert(bit_of(s, at + n - 1) == 1 && number(s, at, m) == all_ones(m));
        lemma_all_ones_bits(s, at, m);
    }
}

proof fn lemma_decoded_bits(s: Seq<u8>, bit: int, code: int, n: nat, t: Seq<u8>)
    requires
        n <= bit <= 8 * s.len(),
        code == number(s, bit - n, n),
        huff_decoded(s, bit, code, n) == Some(t),
        forall|i: int| 0 <= #[trigger] bit_of(s, i) <= 1,
    ensures
        0 <= 8 * s.len() - (bit - n) - huff_bits(t).len() <= 7,
        forall|k: int|
            0 <= k < huff_bits(t).len() ==> bit_of(s, bit - n + k) == #[trigger] huff_bits(t)[k],
        forall|k: int|
            bit - n + huff_bits(t).len() <= k < 8 * s.len() ==> #[trigger] bit_of(s, k) == 1,
    decreases 8 * s.len() - bit,
{
    let at = bit - n;
    if bit >= 8 * s.len() {
        lemma_all_ones_bits(s, at, n);
        assert(t.len() == 0);
    } else {
        let m = n + 1;
        let c = 2 * code + bit_of(s, bit);
        assert(number(s, at, m) == c);
        match huff_symbol(c, m as int) {
            Some(sym) => {
                lemma_symbol_coded(c, m as int);
                let o = sym as u8;
                let rest = huff_decoded(s, bit + 1, 0, 0)->0;
                assert(t == seq![o] + rest);
                assert(t.skip(1) =~= rest);
                assert(number(s, bit + 1, 0) == 0);
                lemma_decoded_bits(s, bit + 1, 0, 0, rest);
                let bits = huff_bits(t);
                assert(bits == code_bits(o) + huff_bits(rest));
                assert(code_bits(o).len() == m);
                assert forall|k: int| 0 <= k < bits.len() implies bit_of(s, at + k)
                    == #[trigger] bits[k] by {
                    if k < m {
                        lemma_number_shifted(s, at, m, (m - 1 - k) as nat);
                        let j = (k + 1) as nat;
                        assert(bits[k] == number(s, at, j) % 2);
                        assert(number(s, at, j) == 2 * number(s, at, (j - 1) as nat) + bit_of(
                            s,
                            at + k,
                        ));
                    } else {
                        assert(bits[k] == huff_bits(rest)[k - m]);
                        assert(bit + 1 - 0 + (k - m) == at + k);
                    }
                }
            },
            None => {
                assert((bit + 1) - m == at);
                lemma_decoded_bits(s, bit + 1, c, m, t);
            },
        }
    }
}

proof fn lemma_bit_range(s: Seq<u8>)
    ensures
        forall|i: int| 0 <= #[trigger] bit_of(s, i) <= 1,
{
}

proof fn lemma_byte_of_bits(s: Seq<u8>, q: int)
    requires
        0 <= q < s.len(),
    ensures
        s[q] == 128 * bit_of(s, 8 * q) + 64 * bit_of(s, 8 * q + 1) + 32 * bit_of(s, 8 * q + 2) + 16
            * bit_of(s, 8 * q + 3) + 8 * bit_of(s, 8 * q + 4) + 4 * bit_of(s, 8 * q + 5) + 2
            * bit_of(s, 8 * q + 6) + bit_of(s, 8 * q + 7),
{
    let x = s[q] as int;
    assert((8 * q) / 8 == q && (8 * q) % 8 == 0);
    assert((8 * q + 1) / 8 == q && (8 * q + 1) % 8 == 1);
    assert((8 * q + 2) / 8 == q && (8 * q + 2) % 8 == 2);
    assert((8 * q + 3) / 8 == q && (8 * q + 3) % 8 == 3);
    assert((8 * q + 4) / 8 == q && (8 * q + 4) % 8 == 4);
    assert((8 * q + 5) / 8 == q && (8 * q + 5) % 8 == 5);
    assert((8 * q + 6) / 8 == q && (8 * q + 6) % 8 == 6);
    assert((8 * q + 7) / 8 == q && (8 * q + 7) % 8 == 7);
    assert(x / 2 == 2 * (x / 4) + x / 2 % 2);
    assert(x / 4 == 2 * (x / 8) + x / 4 % 2);
    assert(x / 8 == 2 * (x / 16) + x / 8 % 2);
    assert(x / 16 == 2 * (x / 32) + x / 16 % 2);
    assert(x / 32 == 2 * (x / 64) + x / 32 % 2);
    assert(x / 64 == 2 * (x / 128) + x / 64 % 2);
    assert(x / 128 % 2 == x / 128);
}

/// Nothing else is accepted: what decodes to a string is the one way to write it, the
/// padding being ones and shorter than an octet.
pub proof fn law_huffman_has_one_form(e: Seq<u8>, s: Seq<u8>)
    requires
        huff_decoded(e, 0, 0, 0) == Some(s),
    ensures
        e == huff_encoded(s),
{
    let bits = huff_bits(s);
    lemma_bit_range(e);
    assert(number(e, 0, 0) == 0);
    lemma_decoded_bits(e, 0, 0, 0, s);
    lemma_packed_len(bits);
    assert(e.len() == packed(bits).len());
    assert forall|q: int| 0 <= q < e.len() implies e[q] == packed(bits)[q] by {
        lemma_byte_of_bits(e, q);
        assert forall|k: int| 0 <= k < 8 * e.len() implies bit_of(e, k) == #[trigger] padded(
            bits,
            k,
        ) by {
            if k < bits.len() {
                assert(bit_of(e, 0 - 0 + k) == bits[k]);
            } else {
                assert(bit_of(e, k) == 1);
            }
        }
        reveal(packed);
    }
    assert(e =~= packed(bits));
}

} // verus!
