//! QUIC variable-length integers (RFC 9000 §16).
//!
//! The two high bits of the first byte give the width (1, 2, 4 or 8 bytes); the
//! remaining bits are the value, most significant first.

use crate::bytes::copy_into;
use vstd::prelude::*;

verus! {

/// The largest value a varint can carry.
pub const VARINT_MAX: u64 = 0x3fff_ffff_ffff_ffff;

/// How many bytes the shortest encoding of `v` takes.
pub open spec fn varint_len(v: u64) -> nat {
    if v < 0x40 {
        1
    } else if v < 0x4000 {
        2
    } else if v < 0x4000_0000 {
        4
    } else {
        8
    }
}

/// The shortest encoding of `v`, for `v <= VARINT_MAX`.
pub open spec fn varint_bytes(v: u64) -> Seq<u8> {
    if v < 0x40 {
        seq![v as u8]
    } else if v < 0x4000 {
        seq![(0x40 + v / 0x100) as u8, (v % 0x100) as u8]
    } else if v < 0x4000_0000 {
        seq![
            (0x80 + v / 0x100_0000) as u8,
            (v / 0x1_0000 % 0x100) as u8,
            (v / 0x100 % 0x100) as u8,
            (v % 0x100) as u8,
        ]
    } else {
        seq![
            (0xc0 + v / 0x100_0000_0000_0000) as u8,
            (v / 0x1_0000_0000_0000 % 0x100) as u8,
            (v / 0x100_0000_0000 % 0x100) as u8,
            (v / 0x1_0000_0000 % 0x100) as u8,
            (v / 0x100_0000 % 0x100) as u8,
            (v / 0x1_0000 % 0x100) as u8,
            (v / 0x100 % 0x100) as u8,
            (v % 0x100) as u8,
        ]
    }
}

/// The width announced by the first byte of a varint.
pub open spec fn varint_width(first: u8) -> nat {
    if first < 0x40 {
        1
    } else if first < 0x80 {
        2
    } else if first < 0xc0 {
        4
    } else {
        8
    }
}

/// The varint at the front of `buf` and its width. `None` while bytes are missing.
#[verifier::opaque]
pub open spec fn varint_at(buf: Seq<u8>) -> Option<(u64, nat)> {
    if buf.len() == 0 || buf.len() < varint_width(buf[0]) {
        None
    } else {
        let n = varint_width(buf[0]);
        let v = if n == 1 {
            buf[0] as int
        } else if n == 2 {
            (buf[0] - 0x40) * 0x100 + buf[1]
        } else if n == 4 {
            (buf[0] - 0x80) * 0x100_0000 + buf[1] * 0x1_0000 + buf[2] * 0x100 + buf[3]
        } else {
            (buf[0] - 0xc0) * 0x100_0000_0000_0000 + buf[1] * 0x1_0000_0000_0000 + buf[2]
                * 0x100_0000_0000 + buf[3] * 0x1_0000_0000 + buf[4] * 0x100_0000 + buf[5] * 0x1_0000
                + buf[6] * 0x100 + buf[7]
        };
        Some((v as u64, n))
    }
}

/// A decoded varint takes one to eight bytes of its buffer and is in range.
pub proof fn lemma_varint_bounds(buf: Seq<u8>)
    ensures
        varint_at(buf) matches Some((v, n)) ==> 1 <= n <= 8 && n <= buf.len() && v <= VARINT_MAX,
        buf.len() >= 8 ==> varint_at(buf) is Some,
        buf.len() == 0 ==> varint_at(buf) is None,
{
    reveal(varint_at);
}

/// A varint at the front of a longer buffer decodes to the value that was encoded.
pub proof fn law_varint_reads_back(v: u64, rest: Seq<u8>)
    requires
        v <= VARINT_MAX,
    ensures
        varint_at(varint_bytes(v) + rest) == Some((v, varint_len(v))),
        varint_bytes(v).len() == varint_len(v),
{
    reveal(varint_at);
    let b = varint_bytes(v) + rest;
    assert(b[0] == varint_bytes(v)[0]);
    if v < 0x40 {
    } else if v < 0x4000 {
        assert(b[1] == varint_bytes(v)[1]);
    } else if v < 0x4000_0000 {
        assert(b[1] == varint_bytes(v)[1] && b[2] == varint_bytes(v)[2] && b[3] == varint_bytes(
            v,
        )[3]);
        lemma_digits4(v);
    } else {
        assert(b[1] == varint_bytes(v)[1] && b[2] == varint_bytes(v)[2] && b[3] == varint_bytes(
            v,
        )[3] && b[4] == varint_bytes(v)[4] && b[5] == varint_bytes(v)[5] && b[6] == varint_bytes(
            v,
        )[6] && b[7] == varint_bytes(v)[7]);
        lemma_digits8(v);
    }
}

proof fn lemma_digits4(v: u64)
    ensures
        v / 0x100_0000 * 0x100_0000 + v / 0x1_0000 % 0x100 * 0x1_0000 + v / 0x100 % 0x100 * 0x100
            + v % 0x100 == v,
{
    assert(v / 0x1_0000 == v / 0x100_0000 * 0x100 + v / 0x1_0000 % 0x100);
    assert(v / 0x100 == v / 0x1_0000 * 0x100 + v / 0x100 % 0x100);
}

proof fn lemma_digits8(v: u64)
    ensures
        v / 0x100_0000_0000_0000 * 0x100_0000_0000_0000 + v / 0x1_0000_0000_0000 % 0x100
            * 0x1_0000_0000_0000 + v / 0x100_0000_0000 % 0x100 * 0x100_0000_0000 + v
            / 0x1_0000_0000 % 0x100 * 0x1_0000_0000 + v / 0x100_0000 % 0x100 * 0x100_0000 + v
            / 0x1_0000 % 0x100 * 0x1_0000 + v / 0x100 % 0x100 * 0x100 + v % 0x100 == v,
{
    assert(v / 0x1_0000_0000_0000 == v / 0x100_0000_0000_0000 * 0x100 + v / 0x1_0000_0000_0000
        % 0x100);
    assert(v / 0x100_0000_0000 == v / 0x1_0000_0000_0000 * 0x100 + v / 0x100_0000_0000 % 0x100);
    assert(v / 0x1_0000_0000 == v / 0x100_0000_0000 * 0x100 + v / 0x1_0000_0000 % 0x100);
    assert(v / 0x100_0000 == v / 0x1_0000_0000 * 0x100 + v / 0x100_0000 % 0x100);
    assert(v / 0x1_0000 == v / 0x100_0000 * 0x100 + v / 0x1_0000 % 0x100);
    assert(v / 0x100 == v / 0x1_0000 * 0x100 + v / 0x100 % 0x100);
}

/// Whether more bytes arrive does not change a varint that is already whole.
pub proof fn lemma_varint_prefix(buf: Seq<u8>, more: Seq<u8>)
    requires
        varint_at(buf) is Some,
    ensures
        varint_at(buf + more) == varint_at(buf),
{
    reveal(varint_at);
    assert(forall|i: int| 0 <= i < buf.len() ==> (buf + more)[i] == buf[i]);
}

/// Decode the varint at the front of `buf`.
pub fn varint_decode(buf: &[u8]) -> (r: Option<(u64, usize)>)
    ensures
        match r {
            Some((v, n)) => varint_at(buf@) == Some((v, n as nat)) && 1 <= n <= 8 && n <= buf.len()
                && v <= VARINT_MAX,
            None => varint_at(buf@) is None,
        },
{
    proof {
        reveal(varint_at);
    }
    if buf.len() == 0 {
        return None;
    }
    let b0: u64 = buf[0] as u64;
    if b0 < 0x40 {
        return Some((b0, 1));
    }
    if b0 < 0x80 {
        if buf.len() < 2 {
            return None;
        }
        return Some(((b0 - 0x40) * 0x100 + buf[1] as u64, 2));
    }
    if b0 < 0xc0 {
        if buf.len() < 4 {
            return None;
        }
        return Some(
            (
                (b0 - 0x80) * 0x100_0000 + (buf[1] as u64) * 0x1_0000 + (buf[2] as u64) * 0x100
                    + buf[3] as u64,
                4,
            ),
        );
    }
    if buf.len() < 8 {
        return None;
    }
    Some(
        (
            (b0 - 0xc0) * 0x100_0000_0000_0000 + (buf[1] as u64) * 0x1_0000_0000_0000 + (
            buf[2] as u64) * 0x100_0000_0000 + (buf[3] as u64) * 0x1_0000_0000 + (buf[4] as u64)
                * 0x100_0000 + (buf[5] as u64) * 0x1_0000 + (buf[6] as u64) * 0x100
                + buf[7] as u64,
            8,
        ),
    )
}

/// The shortest encoding of `v`.
pub fn varint_vec(v: u64) -> (r: Vec<u8>)
    requires
        v <= VARINT_MAX,
    ensures
        r@ == varint_bytes(v),
        r@.len() == varint_len(v),
{
    if v < 0x40 {
        vec![v as u8]
    } else if v < 0x4000 {
        vec![(0x40 + v / 0x100) as u8, (v % 0x100) as u8]
    } else if v < 0x4000_0000 {
        vec![
            (0x80 + v / 0x100_0000) as u8,
            (v / 0x1_0000 % 0x100) as u8,
            (v / 0x100 % 0x100) as u8,
            (v % 0x100) as u8,
        ]
    } else {
        vec![
            (0xc0 + v / 0x100_0000_0000_0000) as u8,
            (v / 0x1_0000_0000_0000 % 0x100) as u8,
            (v / 0x100_0000_0000 % 0x100) as u8,
            (v / 0x1_0000_0000 % 0x100) as u8,
            (v / 0x100_0000 % 0x100) as u8,
            (v / 0x1_0000 % 0x100) as u8,
            (v / 0x100 % 0x100) as u8,
            (v % 0x100) as u8,
        ]
    }
}

/// Encode `value` at the front of `out`.
///
/// Returns the bytes written, or 0 (writing nothing) when the value is beyond
/// what a varint carries or `out` is too small.
pub fn encode_varint(value: u64, out: &mut [u8]) -> (n: usize)
    ensures
        if value <= VARINT_MAX && varint_len(value) <= old(out)@.len() {
            &&& n == varint_len(value)
            &&& final(out)@ == crate::bytes::splice(old(out)@, 0, varint_bytes(value))
        } else {
            &&& n == 0
            &&& final(out)@ == old(out)@
        },
{
    if value > VARINT_MAX {
        return 0;
    }
    let v: Vec<u8> = varint_vec(value);
    if v.len() > out.len() {
        return 0;
    }
    copy_into(out, 0, v.as_slice());
    v.len()
}

/// The first two bits of a varint say how many bytes it has; the other bits of those bytes
/// are its value, the most significant first.
pub proof fn law_varint_goes_by_its_first_bits(buf: Seq<u8>)
    requires
        buf.len() >= 8,
    ensures
        buf[0] < 64 ==> varint_at(buf) == Some((buf[0] as u64, 1nat)),
        64 <= buf[0] < 128 ==> varint_at(buf) == Some(
            ((256 * (buf[0] % 64) + buf[1]) as u64, 2nat),
        ),
        128 <= buf[0] < 192 ==> varint_at(buf) == Some(
            (
                (256 * (256 * (256 * (buf[0] % 64) + buf[1]) + buf[2]) + buf[3]) as u64,
                4nat,
            ),
        ),
        192 <= buf[0] ==> varint_at(buf) == Some(
            (
                (256 * (256 * (256 * (256 * (256 * (256 * (256 * (buf[0] % 64) + buf[1]) + buf[2])
                    + buf[3]) + buf[4]) + buf[5]) + buf[6]) + buf[7]) as u64,
                8nat,
            ),
        ),
{
    reveal(varint_at);
}

/// A varint is whole exactly when as many bytes as its first announces are there.
pub proof fn law_varint_waits_for_its_bytes(buf: Seq<u8>)
    ensures
        varint_at(buf) is None <==> buf.len() == 0 || (64 <= buf[0] < 128 && buf.len() < 2) || (128
            <= buf[0] < 192 && buf.len() < 4) || (192 <= buf[0] && buf.len() < 8),
{
    reveal(varint_at);
}

} // verus!
