//! The trusted boundary to the AEAD cipher and the random sources. Every
//! function here either wraps one call into an outside crate behind a
//! contract, or is verified code over those wrappers.

use vstd::prelude::*;

use chacha20poly1305::aead::Aead;
use chacha20poly1305::KeyInit;

verus! {

/// The cipher's key length in bytes.
pub const KEY_LEN: usize = 32;

/// The cipher's nonce length in bytes.
pub const NONCE_LEN: usize = 12;

/// The cipher's authentication-tag length in bytes.
pub const TAG_LEN: usize = 16;

/// The least number of random padding bytes appended to a handshake.
pub const PAD_MIN: usize = 0x200;

/// The exclusive bound on the number of padding bytes.
pub const PAD_MAX: usize = 0x300;

/// What ChaCha20-Poly1305 encryption returns for a key, nonce and
/// plaintext; a function of the three alone.
pub uninterp spec fn enc_of(key: Seq<u8>, nonce: Seq<u8>, pt: Seq<u8>) -> Seq<u8>;

/// What ChaCha20-Poly1305 decryption returns for a key, nonce and
/// ciphertext: the plaintext when the tag verifies, nothing otherwise.
pub uninterp spec fn dec_of(key: Seq<u8>, nonce: Seq<u8>, ct: Seq<u8>) -> Option<Seq<u8>>;

/// Relies on `chacha20poly1305::ChaCha20Poly1305` through `Aead::encrypt`:
/// encryption is deterministic in key, nonce and plaintext; the ciphertext
/// is the plaintext plus the 16-byte tag; and decryption with the same key
/// and nonce gives the plaintext back.
#[verifier::external_body]
pub(crate) fn aead_encrypt(key: &[u8], nonce: &[u8], pt: &[u8]) -> (ct: Vec<u8>)
    requires
        key@.len() == KEY_LEN,
        nonce@.len() == NONCE_LEN,
        pt@.len() < 0x1_0000_0000,
    ensures
        ct@ == enc_of(key@, nonce@, pt@),
        ct@.len() == pt@.len() + TAG_LEN,
        dec_of(key@, nonce@, ct@) == Some(pt@),
{
    let cipher = chacha20poly1305::ChaCha20Poly1305::new_from_slice(key).unwrap();
    let n: [u8; 12] = nonce.try_into().unwrap();
    cipher.encrypt(&chacha20poly1305::Nonce::from(n), pt).unwrap()
}

/// Relies on `chacha20poly1305::ChaCha20Poly1305` through `Aead::decrypt`:
/// decryption is deterministic, returns the plaintext exactly when the tag
/// verifies, and strips the 16-byte tag.
#[verifier::external_body]
pub(crate) fn aead_decrypt(key: &[u8], nonce: &[u8], ct: &[u8]) -> (r: Option<Vec<u8>>)
    requires
        key@.len() == KEY_LEN,
        nonce@.len() == NONCE_LEN,
    ensures
        match r {
            Some(pt) => dec_of(key@, nonce@, ct@) == Some(pt@) && ct@.len() == pt@.len() + TAG_LEN,
            None => dec_of(key@, nonce@, ct@) is None,
        },
{
    let cipher = chacha20poly1305::ChaCha20Poly1305::new_from_slice(key).unwrap();
    let n: [u8; 12] = nonce.try_into().unwrap();
    cipher.decrypt(&chacha20poly1305::Nonce::from(n), ct).ok()
}

/// Relies on `rand::random`: a value drawn from the thread-local
/// generator; nothing is promised of it.
pub assume_specification<T>[ rand::random::<T> ]() -> (r: T)
    where
        rand::distr::StandardUniform: rand::distr::Distribution<T>,
;

/// Relies on `rand::random_range`: a padding length drawn uniformly from
/// the configured interval.
#[verifier::external_body]
pub(crate) fn rand_pad_len() -> (n: usize)
    ensures
        PAD_MIN <= n < PAD_MAX,
{
    rand::random_range(PAD_MIN..PAD_MAX)
}

/// A fresh random nonce of the cipher's nonce length.
pub fn gen_nonce() -> (r: Vec<u8>)
    ensures
        r@.len() == NONCE_LEN,
{
    let a: [u8; 12] = rand::random();
    vstd::slice::slice_to_vec(a.as_slice())
}

/// A fresh random key of the cipher's key length.
pub fn gen_key() -> (r: Vec<u8>)
    ensures
        r@.len() == KEY_LEN,
{
    let a: [u8; 32] = rand::random();
    vstd::slice::slice_to_vec(a.as_slice())
}

/// Handshake padding: one random byte value repeated a random number of
/// times between the configured bounds.
pub fn gen_padding() -> (r: Vec<u8>)
    ensures
        PAD_MIN <= r@.len() < PAD_MAX,
{
    let n = rand_pad_len();
    let b: u8 = rand::random();
    let mut v: Vec<u8> = Vec::new();
    let mut i: usize = 0;
    while i < n
        invariant
            i <= n,
            v@.len() == i,
        decreases n - i,
    {
        v.push(b);
        i += 1;
    }
    v
}

} // verus!
