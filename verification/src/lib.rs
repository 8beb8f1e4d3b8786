//! A transparent-proxy toolkit: a fake-DNS address pool that mints synthetic
//! IPv4 addresses for domain names, a minimal DNS codec, a SOCKS5 /
//! HTTP-CONNECT codec, and an obfuscated AEAD-framed tunnel protocol.

pub mod bits;
pub mod crypto;
pub mod dns;
pub mod fakedns;
pub mod header;
pub mod pool;
pub mod psk;
pub mod socks5;
pub mod tunnel;

use vstd::prelude::*;

verus! {

/// The bytes of the nonce that are mixed into a record's length field.
pub open spec fn mix(nonce: Seq<u8>) -> u16
    recommends
        nonce.len() > 0,
{
    (((nonce[4int % nonce.len() as int] as u16) << 8) | (nonce[2int % nonce.len() as int] as u16))
}

/// Hide a record length from casual inspection by XOR-ing it with two bytes
/// drawn from the record's nonce. This is not authentication: anyone who
/// knows the layout can invert the XOR; record integrity rests on the AEAD
/// tag alone.
pub fn obfuscate(a: u16, b: &[u8]) -> (r: u16)
    requires
        b@.len() > 0,
    ensures
        r == a ^ mix(b@),
{
    let hi = b[4 % b.len()];
    let lo = b[2 % b.len()];
    a ^ (((hi as u16) << 8) | (lo as u16))
}

/// Applying the same mask twice restores the original value, so a receiver
/// recovers the true length with the same operation the sender used.
pub proof fn lemma_obfuscate_involutive(x: u16, n: Seq<u8>)
    requires
        n.len() > 0,
    ensures
        (x ^ mix(n)) ^ mix(n) == x,
{
    let m = mix(n);
    assert((x ^ m) ^ m == x) by (bit_vector);
}

} // verus!
