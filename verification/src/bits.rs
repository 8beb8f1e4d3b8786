//! Bit-field helpers for the DNS header: single bits and small bit groups
//! inside a byte, and big-endian 16-bit reads and writes.

use vstd::prelude::*;

verus! {

/// The bit at offset `o` (0 = least significant) of `b`.
pub open spec fn spec_get_bit(b: u8, o: u8) -> bool {
    (b >> o) & 1 == 1
}

/// The `l`-bit group starting at offset `o` of `b`.
pub open spec fn spec_get_bits(b: u8, o: u8, l: u8) -> u8 {
    (b >> o) & (((1u8 << l) - 1) as u8)
}

/// `b` with the bit at offset `o` set.
pub open spec fn spec_set_bit(b: u8, o: u8) -> u8 {
    b | (1u8 << o)
}

/// `b` with the `l`-bit group starting at offset `o` replaced by `v`.
pub open spec fn spec_set_bits(b: u8, o: u8, l: u8, v: u8) -> u8 {
    (b & !((((1u8 << l) - 1) as u8) << o)) | ((v << o) as u8)
}

pub fn get_bit(b: u8, o: u8) -> (r: bool)
    requires
        o < 8,
    ensures
        r == spec_get_bit(b, o),
{
    (b >> o) & 1 == 1
}

pub fn get_bits(b: u8, o: u8, l: u8) -> (r: u8)
    requires
        o < 8,
        l < 8,
    ensures
        r == spec_get_bits(b, o, l),
{
    proof {
        assert(l < 8 ==> (1u8 << l) >= 1) by (bit_vector);
    }
    (b >> o) & ((1u8 << l) - 1)
}

pub fn set_bit(b: &mut u8, o: u8)
    requires
        o < 8,
    ensures
        *final(b) == spec_set_bit(*old(b), o),
{
    *b = *b | (1u8 << o);
}

pub fn set_bits(b: &mut u8, o: u8, l: u8, v: u8)
    requires
        o < 8,
        l < 8,
    ensures
        *final(b) == spec_set_bits(*old(b), o, l, v),
{
    proof {
        assert(l < 8 ==> (1u8 << l) >= 1) by (bit_vector);
    }
    *b = (*b & !(((1u8 << l) - 1) << o)) | (v << o);
}

/// The big-endian 16-bit value held by two bytes.
pub open spec fn spec_u16be(hi: u8, lo: u8) -> u16 {
    (((hi as u16) << 8) | (lo as u16)) as u16
}

/// Read a big-endian `u16` from a two-byte slice.
pub fn u16be(bytes: &[u8]) -> (r: u16)
    requires
        bytes@.len() == 2,
    ensures
        r == spec_u16be(bytes[0], bytes[1]),
{
    ((bytes[0] as u16) << 8) | (bytes[1] as u16)
}

/// Read a big-endian `u16` from two bytes given directly.
pub fn u16be2(hi: u8, lo: u8) -> (r: u16)
    ensures
        r == spec_u16be(hi, lo),
{
    ((hi as u16) << 8) | (lo as u16)
}

/// The two big-endian bytes of a 16-bit value.
pub open spec fn spec_be16(v: u16) -> Seq<u8> {
    seq![(v >> 8) as u8, v as u8]
}

/// Split a `u16` into its big-endian bytes.
pub fn be16(v: u16) -> (r: (u8, u8))
    ensures
        r.0 == spec_be16(v)[0],
        r.1 == spec_be16(v)[1],
        spec_u16be(r.0, r.1) == v,
{
    let hi = (v >> 8) as u8;
    let lo = v as u8;
    proof {
        assert(spec_u16be((v >> 8) as u8, v as u8) == v) by (bit_vector);
    }
    (hi, lo)
}

/// The four big-endian bytes of a 32-bit value.
pub open spec fn spec_be32(v: u32) -> Seq<u8> {
    seq![(v >> 24) as u8, (v >> 16) as u8, (v >> 8) as u8, v as u8]
}

/// Split a `u32` into its big-endian bytes.
pub fn be32(v: u32) -> (r: [u8; 4])
    ensures
        r@ == spec_be32(v),
{
    let r = [(v >> 24) as u8, (v >> 16) as u8, (v >> 8) as u8, v as u8];
    proof {
        assert(r@ =~= spec_be32(v));
    }
    r
}

/// Compare two byte slices for equality.
pub fn bytes_eq(a: &[u8], b: &[u8]) -> (r: bool)
    ensures
        r == (a@ == b@),
{
    if a.len() != b.len() {
        return false;
    }
    let mut i: usize = 0;
    while i < a.len()
        invariant
            i <= a@.len(),
            a@.len() == b@.len(),
            forall|j: int| 0 <= j < i ==> a@[j] == b@[j],
        decreases a@.len() - i,
    {
        if a[i] != b[i] {
            return false;
        }
        i += 1;
    }
    proof {
        assert(a@ =~= b@);
    }
    true
}

/// Copy a byte slice into a fresh vector.
pub fn bytes_to_vec(a: &[u8]) -> (r: Vec<u8>)
    ensures
        r@ == a@,
{
    let mut r: Vec<u8> = Vec::new();
    let mut i: usize = 0;
    while i < a.len()
        invariant
            i <= a@.len(),
            r@ == a@.subrange(0, i as int),
        decreases a@.len() - i,
    {
        r.push(a[i]);
        proof {
            assert(r@ =~= a@.subrange(0, i + 1));
        }
        i += 1;
    }
    proof {
        assert(r@ =~= a@);
    }
    r
}

/// Append a byte slice to the end of a vector.
pub fn append_bytes(dst: &mut Vec<u8>, src: &[u8])
    ensures
        final (dst)@ == old(dst)@ + src@,
{
    let mut i: usize = 0;
    while i < src.len()
        invariant
            i <= src@.len(),
            dst@ == old(dst)@ + src@.subrange(0, i as int),
        decreases src@.len() - i,
    {
        dst.push(src[i]);
        proof {
            assert(dst@ =~= old(dst)@ + src@.subrange(0, i + 1));
        }
        i += 1;
    }
    proof {
        assert(dst@ =~= old(dst)@ + src@);
    }
}

/// A UTF-8 continuation byte.
pub open spec fn is_cont(b: u8) -> bool {
    0x80 <= b <= 0xbf
}

/// The byte string is well-formed UTF-8: the encoding grammar, with
/// overlong forms, surrogates and values past U+10FFFF excluded.
pub open spec fn is_utf8(s: Seq<u8>) -> bool
    decreases s.len(),
{
    if s.len() == 0 {
        true
    } else {
        let b0 = s[0];
        if b0 < 0x80 {
            is_utf8(s.skip(1))
        } else if 0xc2 <= b0 <= 0xdf {
            s.len() >= 2 && is_cont(s[1]) && is_utf8(s.skip(2))
        } else if b0 == 0xe0 {
            s.len() >= 3 && 0xa0 <= s[1] <= 0xbf && is_cont(s[2]) && is_utf8(s.skip(3))
        } else if 0xe1 <= b0 <= 0xec || 0xee <= b0 <= 0xef {
            s.len() >= 3 && is_cont(s[1]) && is_cont(s[2]) && is_utf8(s.skip(3))
        } else if b0 == 0xed {
            s.len() >= 3 && 0x80 <= s[1] <= 0x9f && is_cont(s[2]) && is_utf8(s.skip(3))
        } else if b0 == 0xf0 {
            s.len() >= 4 && 0x90 <= s[1] <= 0xbf && is_cont(s[2]) && is_cont(s[3]) && is_utf8(
                s.skip(4),
            )
        } else if 0xf1 <= b0 <= 0xf3 {
            s.len() >= 4 && is_cont(s[1]) && is_cont(s[2]) && is_cont(s[3]) && is_utf8(s.skip(4))
        } else if b0 == 0xf4 {
            s.len() >= 4 && 0x80 <= s[1] <= 0x8f && is_cont(s[2]) && is_cont(s[3]) && is_utf8(
                s.skip(4),
            )
        } else {
            false
        }
    }
}

fn cont_check(b: u8) -> (r: bool)
    ensures
        r == is_cont(b),
{
    0x80 <= b && b <= 0xbf
}

/// Decide whether a byte string is well-formed UTF-8.
pub fn utf8_check(s: &[u8]) -> (r: bool)
    ensures
        r == is_utf8(s@),
{
    let n = s.len();
    let mut i: usize = 0;
    proof {
        assert(s@.skip(0) =~= s@);
    }
    while i < n
        invariant
            n == s@.len(),
            i <= n,
            is_utf8(s@) == is_utf8(s@.skip(i as int)),
        decreases n - i,
    {
        let ghost t = s@.skip(i as int);
        proof {
            assert(t[0] == s@[i as int]);
            assert(forall|j: int| 0 <= j < t.len() ==> t[j] == s@[i + j]);
        }
        let b0 = s[i];
        let w: usize = if b0 < 0x80 {
            1
        } else if 0xc2 <= b0 && b0 <= 0xdf {
            if n - i < 2 || !cont_check(s[i + 1]) {
                return false;
            }
            2
        } else if b0 == 0xe0 {
            if n - i < 3 || !(0xa0 <= s[i + 1] && s[i + 1] <= 0xbf) || !cont_check(s[i + 2]) {
                return false;
            }
            3
        } else if (0xe1 <= b0 && b0 <= 0xec) || (0xee <= b0 && b0 <= 0xef) {
            if n - i < 3 || !cont_check(s[i + 1]) || !cont_check(s[i + 2]) {
                return false;
            }
            3
        } else if b0 == 0xed {
            if n - i < 3 || !(0x80 <= s[i + 1] && s[i + 1] <= 0x9f) || !cont_check(s[i + 2]) {
                return false;
            }
            3
        } else if b0 == 0xf0 {
            if n - i < 4 || !(0x90 <= s[i + 1] && s[i + 1] <= 0xbf) || !cont_check(s[i + 2])
                || !cont_check(s[i + 3]) {
                return false;
            }
            4
        } else if 0xf1 <= b0 && b0 <= 0xf3 {
            if n - i < 4 || !cont_check(s[i + 1]) || !cont_check(s[i + 2]) || !cont_check(
                s[i + 3],
            ) {
                return false;
            }
            4
        } else if b0 == 0xf4 {
            if n - i < 4 || !(0x80 <= s[i + 1] && s[i + 1] <= 0x8f) || !cont_check(s[i + 2])
                || !cont_check(s[i + 3]) {
                return false;
            }
            4
        } else {
            return false;
        };
        proof {
            assert(t.skip(w as int) =~= s@.skip(i + w));
        }
        i += w;
    }
    proof {
        assert(s@.skip(i as int) =~= Seq::<u8>::empty());
    }
    true
}

/// Reading back the bytes written by `spec_be16` gives the value again.
pub proof fn lemma_be16_round_trip(v: u16)
    ensures
        spec_u16be(spec_be16(v)[0], spec_be16(v)[1]) == v,
{
    assert(spec_u16be((v >> 8) as u8, v as u8) == v) by (bit_vector);
}

} // verus!
