//! The static Huffman code of HTTP field strings (RFC 7541 §5.2, Appendix B).
//!
//! The code is canonical: within one length codes are consecutive, and the
//! symbols are taken in the order of [`HUFF_SYMBOLS`]. So a code is known by the
//! first code of its length, how many there are, and where their symbols begin.

use vstd::prelude::*;

verus! {

/// The end-of-string symbol. It never appears in a well-formed string.
pub const HUFF_EOS: u16 = 256;

/// Longest code, in bits.
pub const HUFF_MAX_BITS: usize = 30;

/// Symbols in the order of their codes.
pub const HUFF_SYMBOLS: [u16; 257] = [
    48, 49, 50, 97, 99, 101, 105, 111, 115, 116, 32, 37, 45, 46, 47, 51, 52, 53, 54, 55, 56,
    57, 61, 65, 95, 98, 100, 102, 103, 104, 108, 109, 110, 112, 114, 117, 58, 66, 67, 68, 69,
    70, 71, 72, 73, 74, 75, 76, 77, 78, 79, 80, 81, 82, 83, 84, 85, 86, 87, 89, 106, 107, 113,
    118, 119, 120, 121, 122, 38, 42, 44, 59, 88, 90, 33, 34, 40, 41, 63, 39, 43, 124, 35, 62,
    0, 36, 64, 91, 93, 126, 94, 125, 60, 96, 123, 92, 195, 208, 128, 130, 131, 162, 184, 194,
    224, 226, 153, 161, 167, 172, 176, 177, 179, 209, 216, 217, 227, 229, 230, 129, 132, 133,
    134, 136, 146, 154, 156, 160, 163, 164, 169, 170, 173, 178, 181, 185, 186, 187, 189, 190,
    196, 198, 228, 232, 233, 1, 135, 137, 138, 139, 140, 141, 143, 147, 149, 150, 151, 152,
    155, 157, 158, 165, 166, 168, 174, 175, 180, 182, 183, 188, 191, 197, 231, 239, 9, 142,
    144, 145, 148, 159, 171, 206, 215, 225, 236, 237, 199, 207, 234, 235, 192, 193, 200, 201,
    202, 205, 210, 213, 218, 219, 238, 240, 242, 243, 255, 203, 204, 211, 212, 214, 221, 222,
    223, 241, 244, 245, 246, 247, 248, 250, 251, 252, 253, 254, 2, 3, 4, 5, 6, 7, 8, 11, 12,
    14, 15, 16, 17, 18, 19, 20, 21, 23, 24, 25, 26, 27, 28, 29, 30, 31, 127, 220, 249, 10, 13,
    22, 256,
];

/// The first code of each length.
pub const HUFF_FIRST: [u32; 31] = [
    0x0, 0x0, 0x0, 0x0, 0x0, 0x0, 0x14, 0x5c, 0xf8, 0x0, 0x3f8, 0x7fa, 0xffa, 0x1ff8, 0x3ffc,
    0x7ffc, 0x0, 0x0, 0x0, 0x7fff0, 0xfffe6, 0x1fffdc, 0x3fffd2, 0x7fffd8, 0xffffea, 0x1ffffec,
    0x3ffffe0, 0x7ffffde, 0xfffffe2, 0x0, 0x3ffffffc,
];

/// How many codes have each length.
pub const HUFF_COUNT: [u32; 31] = [
    0, 0, 0, 0, 0, 10, 26, 32, 6, 0, 5, 3, 2, 6, 2, 3, 0, 0, 0, 3, 8, 13, 26, 29, 12, 4, 15,
    19, 29, 0, 4,
];

/// Where the symbols of each length begin in [`HUFF_SYMBOLS`].
pub const HUFF_START: [u32; 31] = [
    0, 0, 0, 0, 0, 0, 10, 36, 68, 74, 74, 79, 82, 84, 90, 92, 95, 95, 95, 95, 98, 106, 119,
    145, 174, 186, 190, 205, 224, 253, 253,
];

/// The symbol whose code is the `len`-bit number `code`, if one is.
pub open spec fn huff_symbol(code: int, len: int) -> Option<u16> {
    if 0 <= len <= HUFF_MAX_BITS && HUFF_FIRST@[len] <= code < HUFF_FIRST@[len] + HUFF_COUNT@[len] {
        Some(HUFF_SYMBOLS@[HUFF_START@[len] + code - HUFF_FIRST@[len]])
    } else {
        None
    }
}

/// Bit `k` of a byte string, the most significant bit of each byte first.
pub open spec fn bit_of(s: Seq<u8>, k: int) -> int {
    s[k / 8] as int / pow2_7(k % 8) % 2
}

/// `2^(7-k)`, the weight of bit `k` in its byte.
pub open spec fn pow2_7(k: int) -> int {
    if k == 0 {
        128
    } else if k == 1 {
        64
    } else if k == 2 {
        32
    } else if k == 3 {
        16
    } else if k == 4 {
        8
    } else if k == 5 {
        4
    } else if k == 6 {
        2
    } else {
        1
    }
}

/// The largest number of `len` bits: a run of ones.
pub open spec fn all_ones(len: nat) -> int
    decreases len,
{
    if len == 0 {
        0
    } else {
        2 * all_ones((len - 1) as nat) + 1
    }
}

/// What the bits of `s` from `bit` on decode to, with the `len`-bit number `code`
/// already read towards the next symbol.
///
/// The string ends in fewer than eight padding bits, all ones. A longer or other
/// padding, the end-of-string symbol or a run of bits that is no code is refused.
pub open spec fn huff_decoded(s: Seq<u8>, bit: int, code: int, len: nat) -> Option<Seq<u8>>
    decreases 8 * s.len() - bit,
{
    if bit < 0 || bit >= 8 * s.len() {
        if len <= 7 && code == all_ones(len) {
            Some(Seq::empty())
        } else {
            None
        }
    } else {
        let c = 2 * code + bit_of(s, bit);
        let n = len + 1;
        if n > HUFF_MAX_BITS {
            None
        } else {
            match huff_symbol(c, n as int) {
                Some(sym) => if sym >= HUFF_EOS {
                    None
                } else {
                    match huff_decoded(s, bit + 1, 0, 0) {
                        Some(rest) => Some(seq![sym as u8] + rest),
                        None => None,
                    }
                },
                None => huff_decoded(s, bit + 1, c, n),
            }
        }
    }
}

proof fn lemma_symbols_fit(len: int)
    requires
        0 <= len <= HUFF_MAX_BITS,
    ensures
        HUFF_START@[len] + HUFF_COUNT@[len] <= 257,
        HUFF_FIRST@[len] < 0x4000_0000,
        HUFF_COUNT@[len] <= 32,
{
    assert(len == 0 || len == 1 || len == 2 || len == 3 || len == 4 || len == 5 || len == 6 || len
        == 7 || len == 8 || len == 9 || len == 10 || len == 11 || len == 12 || len == 13 || len
        == 14 || len == 15 || len == 16 || len == 17 || len == 18 || len == 19 || len == 20 || len
        == 21 || len == 22 || len == 23 || len == 24 || len == 25 || len == 26 || len == 27 || len
        == 28 || len == 29 || len == 30);
}

fn symbol(code: u32, len: usize) -> (r: Option<u16>)
    requires
        len <= HUFF_MAX_BITS,
    ensures
        r == huff_symbol(code as int, len as int),
{
    proof {
        lemma_symbols_fit(len as int);
    }
    let first: u32 = HUFF_FIRST[len];
    let count: u32 = HUFF_COUNT[len];
    if code < first || code - first >= count {
        return None;
    }
    let at: usize = (HUFF_START[len] + (code - first)) as usize;
    Some(HUFF_SYMBOLS[at])
}

/// Decode a Huffman-coded string of at most `max` bytes.
///
/// Refused when the string is malformed or decodes to more than `max` bytes.
pub fn huff_decode(s: &[u8], max: usize) -> (r: Option<Vec<u8>>)
    ensures
        match r {
            Some(v) => huff_decoded(s@, 0, 0, 0) == Some(v@) && v@.len() <= max,
            None => match huff_decoded(s@, 0, 0, 0) {
                Some(t) => t.len() > max,
                None => true,
            },
        },
{
    let mut out: Vec<u8> = Vec::new();
    let mut byte: usize = 0;
    let mut j: usize = 0;
    let mut code: u32 = 0;
    let mut ones: u32 = 0;
    let mut len: usize = 0;
    let ghost whole = huff_decoded(s@, 0, 0, 0);
    assert(whole matches Some(t) ==> t =~= out@ + t);
    while byte < s.len()
        invariant
            byte <= s.len(),
            j < 8,
            byte == s.len() ==> j == 0,
            len <= HUFF_MAX_BITS,
            code as int <= all_ones(len as nat),
            ones as int == all_ones(len as nat),
            ones <= 0x3fff_ffff,
            len == HUFF_MAX_BITS || ones <= 0x1fff_ffff,
            out@.len() <= max,
            whole == huff_decoded(s@, 0, 0, 0),
            match huff_decoded(s@, 8 * byte + j, code as int, len as nat) {
                Some(t) => whole == Some(out@ + t),
                None => whole is None,
            },
        decreases s.len() - byte, 8 - j,
    {
        let ghost pos = 8 * byte + j;
        if len == HUFF_MAX_BITS {
            return None;
        }
        assert((8 * byte + j) / 8 == byte && (8 * byte + j) % 8 == j);
        let b: u32 = read_bit_at(s, byte, j);
        let c: u32 = 2 * code + b;
        assert(c as int == 2 * code + bit_of(s@, pos));
        let o: u32 = 2 * ones + 1;
        len += 1;
        assert(o as int == all_ones(len as nat));
        proof {
            lemma_all_ones(len as nat);
        }
        match symbol(c, len) {
            Some(sym) => {
                if sym >= HUFF_EOS {
                    return None;
                }
                if out.len() >= max {
                    proof {
                        if let Some(t) = huff_decoded(s@, pos + 1, 0, 0) {
                            assert((out@ + (seq![sym as u8] + t)).len() > max);
                        }
                    }
                    return None;
                }
                proof {
                    if let Some(t) = huff_decoded(s@, pos + 1, 0, 0) {
                        assert(out@ + (seq![sym as u8] + t) =~= out@.push(sym as u8) + t);
                    }
                }
                out.push(sym as u8);
                code = 0;
                ones = 0;
                len = 0;
            },
            None => {
                code = c;
                ones = o;
            },
        }
        if j == 7 {
            j = 0;
            byte += 1;
        } else {
            j += 1;
        }
        assert(8 * byte + j == pos + 1);
    }
    if len <= 7 && code == ones {
        assert(out@ + Seq::<u8>::empty() =~= out@);
        Some(out)
    } else {
        None
    }
}

proof fn lemma_all_ones(len: nat)
    requires
        len <= HUFF_MAX_BITS,
    ensures
        0 <= all_ones(len) <= 0x3fff_ffff,
        len < HUFF_MAX_BITS ==> all_ones(len) <= 0x1fff_ffff,
{
    reveal_with_fuel(all_ones, 31);
}

fn read_bit_at(s: &[u8], byte: usize, j: usize) -> (r: u32)
    requires
        byte < s.len(),
        j < 8,
    ensures
        r == bit_of(s@, 8 * byte + j),
        r <= 1,
{
    assert((8 * byte + j) / 8 == byte && (8 * byte + j) % 8 == j);
    let b: u8 = s[byte];
    let w: u8 = if j == 0 {
        128
    } else if j == 1 {
        64
    } else if j == 2 {
        32
    } else if j == 3 {
        16
    } else if j == 4 {
        8
    } else if j == 5 {
        4
    } else if j == 6 {
        2
    } else {
        1
    };
    (b / w % 2) as u32
}

} // verus!
