//! The obfuscated AEAD tunnel: the camouflaged handshake envelope (a fake
//! HTTP-looking header ending in `\r\n\r\n`, a nonce, and an AEAD-sealed
//! payload with random padding) and the post-handshake record framing
//! (nonce, obfuscated length, ciphertext). The length obfuscation hides
//! record sizes from casual inspection only; record integrity rests on the
//! AEAD tag.

use crate::bits::{append_bytes, be16, bytes_to_vec, spec_be16, spec_u16be, u16be2};
use crate::crypto::{
    aead_decrypt, aead_encrypt, dec_of, enc_of, gen_nonce, gen_padding, KEY_LEN, NONCE_LEN,
    PAD_MAX, PAD_MIN, TAG_LEN,
};
use crate::{mix, obfuscate};
use vstd::prelude::*;

verus! {

/// The handshake protocol version.
pub const VER: u8 = 0;

/// The accepted status in a handshake reply.
pub const REP_OK: u8 = 0;

/// The longest plaintext one record can carry: the two length bytes must
/// hold the ciphertext length, tag included.
pub const MAX_PLAIN: usize = 0xffef;

/// The end-of-header sentinel `\r\n\r\n` starts at `i`.
pub open spec fn eoh_at(b: Seq<u8>, i: int) -> bool {
    &&& 0 <= i
    &&& i + 4 <= b.len()
    &&& b[i] == 13u8
    &&& b[i + 1] == 10u8
    &&& b[i + 2] == 13u8
    &&& b[i + 3] == 10u8
}

/// `i` is the first position of the sentinel in `b`.
pub open spec fn is_first_eoh(b: Seq<u8>, i: int) -> bool {
    eoh_at(b, i) && forall|j: int| 0 <= j < i ==> !eoh_at(b, j)
}

/// The first position of the sentinel, if the sentinel occurs at all.
pub open spec fn first_eoh(b: Seq<u8>) -> Option<int> {
    if exists|i: int| is_first_eoh(b, i) {
        Some(choose|i: int| is_first_eoh(b, i))
    } else {
        None
    }
}

/// A first occurrence is unique, so knowing one pins `first_eoh` down.
pub proof fn lemma_first_eoh(b: Seq<u8>, i: int)
    requires
        is_first_eoh(b, i),
    ensures
        first_eoh(b) == Some(i),
{
    let j = choose|j: int| is_first_eoh(b, j);
    if j < i {
        assert(eoh_at(b, j));
        assert(false);
    }
    if i < j {
        assert(eoh_at(b, i));
        assert(false);
    }
}

/// A header fit for the handshake: it ends with the sentinel and contains
/// it nowhere earlier, so the receiver's search lands exactly on its end.
pub open spec fn is_clean_header(h: Seq<u8>) -> bool {
    &&& h.len() >= 4
    &&& eoh_at(h, h.len() - 4)
    &&& forall|j: int| 0 <= j < h.len() - 4 ==> !eoh_at(h, j)
}

/// What a handshake buffer decodes to: find the first sentinel, take the
/// next twelve bytes as the nonce, and decrypt everything after them.
pub open spec fn msg_decode(key: Seq<u8>, b: Seq<u8>) -> Option<Seq<u8>> {
    match first_eoh(b) {
        None => None,
        Some(e) => {
            let no = e + 4;
            if b.len() < no + NONCE_LEN {
                None
            } else {
                dec_of(
                    key,
                    b.subrange(no, no + NONCE_LEN as int),
                    b.subrange(no + NONCE_LEN as int, b.len() as int),
                )
            }
        },
    }
}

/// A handshake buffer is rejected when the sentinel is missing, when
/// fewer than a nonce's worth of bytes follow it, or when the ciphertext
/// fails verification.
pub proof fn lemma_handshake_detection(key: Seq<u8>, b: Seq<u8>)
    ensures
        (forall|j: int| !eoh_at(b, j)) ==> msg_decode(key, b) is None,
        (forall|i: int| is_first_eoh(b, i) ==> b.len() < i + 16) ==> msg_decode(key, b) is None,
        (forall|i: int|
            is_first_eoh(b, i) && b.len() >= i + 16 ==> dec_of(
                key,
                b.subrange(i + 4, i + 16),
                b.subrange(i + 16, b.len() as int),
            ) is None) ==> msg_decode(key, b) is None,
{
    if first_eoh(b) is Some {
        let e = first_eoh(b)->Some_0;
        assert(is_first_eoh(b, e));
        assert(eoh_at(b, e));
    }
}

/// The client's request payload: version, host length, host bytes, port.
pub open spec fn req_bytes(host: Seq<u8>, port: u16) -> Seq<u8> {
    seq![0u8, host.len() as u8] + host + spec_be16(port)
}

/// Parse a request payload; the host must be valid UTF-8, and bytes
/// after the port are ignored, which is what lets random padding ride
/// along.
pub open spec fn parse_req(b: Seq<u8>) -> Option<(Seq<u8>, u16)> {
    if b.len() < 2 {
        None
    } else if b[0] != 0u8 {
        None
    } else {
        let n = b[1] as int;
        if b.len() < 2 + n + 2 {
            None
        } else if !crate::bits::is_utf8(b.subrange(2, 2 + n)) {
            None
        } else {
            Some((b.subrange(2, 2 + n), spec_u16be(b[2 + n], b[3 + n])))
        }
    }
}

/// The server's reply payload: a single status byte.
pub open spec fn resp_bytes(status: u8) -> Seq<u8> {
    seq![status]
}

/// Parse a reply payload; bytes after the status are padding.
pub open spec fn parse_resp(b: Seq<u8>) -> Option<u8> {
    if b.len() < 1 {
        None
    } else {
        Some(b[0])
    }
}

/// A request payload survives its own encoding, whatever padding follows.
pub proof fn lemma_req_round_trip(host: Seq<u8>, port: u16, pad: Seq<u8>)
    requires
        host.len() <= 255,
        crate::bits::is_utf8(host),
    ensures
        parse_req(req_bytes(host, port) + pad) == Some((host, port)),
{
    let b = req_bytes(host, port) + pad;
    assert(b[0] == 0u8);
    let hl = host.len() as u8;
    assert(hl as int == host.len());
    assert(b[1] == hl);
    assert(b.subrange(2, 2 + host.len() as int) =~= host);
    assert(b[2 + host.len() as int] == spec_be16(port)[0]);
    assert(b[3 + host.len() as int] == spec_be16(port)[1]);
    crate::bits::lemma_be16_round_trip(port);
}

/// A reply payload survives its own encoding, whatever padding follows.
pub proof fn lemma_resp_round_trip(status: u8, pad: Seq<u8>)
    ensures
        parse_resp(resp_bytes(status) + pad) == Some(status),
{
    let b = resp_bytes(status) + pad;
    assert(b[0] == status);
}

/// Seal a payload into a handshake message: the header, a fresh nonce,
/// and the AEAD ciphertext of the payload with random padding appended.
/// With a clean header the peer decodes it back to the payload and the
/// padding.
pub fn write_msg(key: &[u8], header: &[u8], payload: &[u8]) -> (r: Vec<u8>)
    requires
        key@.len() == KEY_LEN,
        payload@.len() + PAD_MAX <= 0xffff_ffffusize,
    ensures
        exists|nonce: Seq<u8>, pad: Seq<u8>|
            #![auto]
            {
                &&& nonce.len() == NONCE_LEN
                &&& PAD_MIN <= pad.len() < PAD_MAX
                &&& r@ == header@ + nonce + enc_of(key@, nonce, payload@ + pad)
                &&& r@.len() == header@.len() + NONCE_LEN + payload@.len() + pad.len() + TAG_LEN
                &&& (is_clean_header(header@) ==> msg_decode(key@, r@) == Some(payload@ + pad))
            },
{
    let nonce = gen_nonce();
    let pad = gen_padding();
    let mut pt: Vec<u8> = bytes_to_vec(payload);
    append_bytes(&mut pt, pad.as_slice());
    let ct = aead_encrypt(key, nonce.as_slice(), pt.as_slice());
    let mut out: Vec<u8> = bytes_to_vec(header);
    append_bytes(&mut out, nonce.as_slice());
    append_bytes(&mut out, ct.as_slice());
    proof {
        let h = header@.len() as int;
        assert(out@ =~= header@ + nonce@ + enc_of(key@, nonce@, payload@ + pad@));
        if is_clean_header(header@) {
            assert forall|j: int| 0 <= j < h - 4 implies !eoh_at(out@, j) by {
                assert(!eoh_at(header@, j));
            }
            assert(eoh_at(out@, h - 4));
            assert(is_first_eoh(out@, h - 4));
            lemma_first_eoh(out@, h - 4);
            assert(out@.subrange(h, h + NONCE_LEN as int) =~= nonce@);
            assert(out@.subrange(h + NONCE_LEN as int, out@.len() as int) =~= ct@);
            assert(msg_decode(key@, out@) == Some(payload@ + pad@));
        }
    }
    out
}

/// Open a handshake message: find the sentinel, read the nonce, decrypt
/// the rest. The result is the payload with its padding still attached.
pub fn read_msg(key: &[u8], buf: &[u8]) -> (r: Option<Vec<u8>>)
    requires
        key@.len() == KEY_LEN,
    ensures
        match r {
            Some(pt) => msg_decode(key@, buf@) == Some(pt@),
            None => msg_decode(key@, buf@) is None,
        },
{
    let n = buf.len();
    let mut i: usize = 0;
    let mut found: bool = false;
    while !found && 4 <= n && i <= n - 4
        invariant
            n == buf@.len(),
            i <= n,
            forall|j: int| 0 <= j < i ==> !eoh_at(buf@, j),
            found ==> i + 4 <= n && eoh_at(buf@, i as int),
        decreases n - i + (if found {
            0int
        } else {
            1int
        }),
    {
        if buf[i] == 13 && buf[i + 1] == 10 && buf[i + 2] == 13 && buf[i + 3] == 10 {
            found = true;
        } else {
            i += 1;
        }
    }
    if !found {
        proof {
            assert forall|j: int| !eoh_at(buf@, j) by {
                if eoh_at(buf@, j) {
                    assert(0 <= j && j + 4 <= n);
                }
            }
            if first_eoh(buf@) is Some {
                let e = first_eoh(buf@)->Some_0;
                assert(is_first_eoh(buf@, e));
                assert(eoh_at(buf@, e));
            }
        }
        return None;
    }
    proof {
        assert(is_first_eoh(buf@, i as int));
        lemma_first_eoh(buf@, i as int);
    }
    let no = i + 4;
    if n - no < 12 {
        return None;
    }
    let nonce = crate::bits::bytes_to_vec(vstd::slice::slice_subrange(buf, no, no + 12));
    let ct = crate::bits::bytes_to_vec(vstd::slice::slice_subrange(buf, no + 12, n));
    proof {
        assert(nonce@ =~= buf@.subrange(no as int, no + 12));
        assert(ct@ =~= buf@.subrange(no + 12, n as int));
    }
    aead_decrypt(key, nonce.as_slice(), ct.as_slice())
}

/// What a request handshake buffer means under a key.
pub open spec fn req_msg_decode(key: Seq<u8>, b: Seq<u8>) -> Option<(Seq<u8>, u16)> {
    match msg_decode(key, b) {
        None => None,
        Some(pt) => parse_req(pt),
    }
}

/// What a reply handshake buffer means under a key.
pub open spec fn resp_msg_decode(key: Seq<u8>, b: Seq<u8>) -> Option<u8> {
    match msg_decode(key, b) {
        None => None,
        Some(pt) => parse_resp(pt),
    }
}

/// The client's opening message: the request for `host:port`, sealed. A
/// peer holding the same key decodes it back to exactly `host` and
/// `port`: the encode side of the round trip.
pub fn write_req_msg(key: &[u8], header: &[u8], host: &[u8], port: u16) -> (r: Vec<u8>)
    requires
        key@.len() == KEY_LEN,
        host@.len() <= 255,
        crate::bits::is_utf8(host@),
    ensures
        is_clean_header(header@) ==> req_msg_decode(key@, r@) == Some((host@, port)),
{
    let mut payload: Vec<u8> = Vec::new();
    payload.push(VER);
    payload.push(host.len() as u8);
    append_bytes(&mut payload, host);
    let (hi, lo) = be16(port);
    payload.push(hi);
    payload.push(lo);
    proof {
        assert(payload@ =~= req_bytes(host@, port));
    }
    let r = write_msg(key, header, payload.as_slice());
    proof {
        if is_clean_header(header@) {
            let (nonce, pad) = choose|nonce: Seq<u8>, pad: Seq<u8>|
                #![auto]
                {
                    &&& nonce.len() == NONCE_LEN
                    &&& PAD_MIN <= pad.len() < PAD_MAX
                    &&& r@ == header@ + nonce + enc_of(key@, nonce, payload@ + pad)
                    &&& r@.len() == header@.len() + NONCE_LEN + payload@.len() + pad.len()
                        + TAG_LEN
                    &&& (is_clean_header(header@) ==> msg_decode(key@, r@) == Some(
                        payload@ + pad,
                    ))
                };
            lemma_req_round_trip(host@, port, pad);
        }
    }
    r
}

/// The server's reply message: the status byte, sealed; the peer decodes
/// it back to exactly that status.
pub fn write_resp_msg(key: &[u8], header: &[u8], status: u8) -> (r: Vec<u8>)
    requires
        key@.len() == KEY_LEN,
    ensures
        is_clean_header(header@) ==> resp_msg_decode(key@, r@) == Some(status),
{
    let mut payload: Vec<u8> = Vec::new();
    payload.push(status);
    proof {
        assert(payload@ =~= resp_bytes(status));
    }
    let r = write_msg(key, header, payload.as_slice());
    proof {
        if is_clean_header(header@) {
            let (nonce, pad) = choose|nonce: Seq<u8>, pad: Seq<u8>|
                #![auto]
                {
                    &&& nonce.len() == NONCE_LEN
                    &&& PAD_MIN <= pad.len() < PAD_MAX
                    &&& r@ == header@ + nonce + enc_of(key@, nonce, payload@ + pad)
                    &&& r@.len() == header@.len() + NONCE_LEN + payload@.len() + pad.len()
                        + TAG_LEN
                    &&& (is_clean_header(header@) ==> msg_decode(key@, r@) == Some(
                        payload@ + pad,
                    ))
                };
            lemma_resp_round_trip(status, pad);
        }
    }
    r
}

/// The server's side of the handshake decode: the host and port asked
/// for, or nothing if the buffer is not a valid request under the key.
pub fn read_req_msg(key: &[u8], buf: &[u8]) -> (r: Option<(Vec<u8>, u16)>)
    requires
        key@.len() == KEY_LEN,
    ensures
        match r {
            Some(p) => req_msg_decode(key@, buf@) == Some((p.0@, p.1)),
            None => req_msg_decode(key@, buf@) is None,
        },
{
    let pt = match read_msg(key, buf) {
        Some(pt) => pt,
        None => {
            return None;
        },
    };
    if pt.len() < 2 {
        return None;
    }
    if pt[0] != VER {
        return None;
    }
    let hlen = pt[1] as usize;
    if pt.len() - 2 < hlen || pt.len() - 2 - hlen < 2 {
        return None;
    }
    let host = bytes_to_vec(vstd::slice::slice_subrange(pt.as_slice(), 2, 2 + hlen));
    proof {
        assert(host@ =~= pt@.subrange(2, 2 + hlen as int));
    }
    if !crate::bits::utf8_check(host.as_slice()) {
        return None;
    }
    let port = u16be2(pt[2 + hlen], pt[3 + hlen]);
    Some((host, port))
}

/// The client's side of the handshake decode: the status byte, or nothing
/// if the buffer is not a valid reply under the key.
pub fn read_resp_msg(key: &[u8], buf: &[u8]) -> (r: Option<u8>)
    requires
        key@.len() == KEY_LEN,
    ensures
        match r {
            Some(s) => resp_msg_decode(key@, buf@) == Some(s),
            None => resp_msg_decode(key@, buf@) is None,
        },
{
    let pt = match read_msg(key, buf) {
        Some(pt) => pt,
        None => {
            return None;
        },
    };
    if pt.len() < 1 {
        return None;
    }
    Some(pt[0])
}

/// One record on the wire for a given nonce: the nonce, the obfuscated
/// ciphertext length, and the ciphertext itself.
pub open spec fn record_bytes(key: Seq<u8>, nonce: Seq<u8>, pt: Seq<u8>) -> Seq<u8> {
    nonce + spec_be16((((pt.len() + TAG_LEN) as u16) ^ mix(nonce)) as u16) + enc_of(key, nonce, pt)
}

/// What a received record decodes to: recover the true length from the
/// obfuscated field, reject a zero length or a length mismatch, then
/// decrypt.
pub open spec fn open_record(key: Seq<u8>, rec: Seq<u8>) -> Option<Seq<u8>> {
    if rec.len() < 14 {
        None
    } else {
        let nonce = rec.subrange(0, NONCE_LEN as int);
        let olen = spec_u16be(rec[12], rec[13]);
        let len = (olen ^ mix(nonce)) as u16;
        if len == 0 || rec.len() != 14 + len {
            None
        } else {
            dec_of(key, nonce, rec.subrange(14, rec.len() as int))
        }
    }
}

/// Seal one plaintext chunk into a record under a fresh nonce. The record
/// opens back to exactly the plaintext: with `dec1`, the frame round
/// trip. Nothing is sealed for an empty chunk (the relay reads that as a
/// closed peer) or one too long for the two length bytes.
pub fn enc1(key: &[u8], plain: &[u8]) -> (r: Option<Vec<u8>>)
    requires
        key@.len() == KEY_LEN,
    ensures
        r is Some <==> 0 < plain@.len() <= MAX_PLAIN,
        match r {
            Some(rec) => {
                &&& open_record(key@, rec@) == Some(plain@)
                &&& rec@.len() == 14 + plain@.len() + TAG_LEN
                &&& exists|nonce: Seq<u8>|
                    #![auto]
                    nonce.len() == NONCE_LEN && rec@ == record_bytes(key@, nonce, plain@)
            },
            None => true,
        },
{
    if plain.len() == 0 || plain.len() > MAX_PLAIN {
        return None;
    }
    let nonce = gen_nonce();
    let ct = aead_encrypt(key, nonce.as_slice(), plain);
    let olen = obfuscate(ct.len() as u16, nonce.as_slice());
    let (hi, lo) = be16(olen);
    let mut out = bytes_to_vec(nonce.as_slice());
    out.push(hi);
    out.push(lo);
    append_bytes(&mut out, ct.as_slice());
    proof {
        assert(out@ =~= record_bytes(key@, nonce@, plain@));
        assert(out@.subrange(0, NONCE_LEN as int) =~= nonce@);
        assert(out@.subrange(14, out@.len() as int) =~= ct@);
        let clen = ct@.len() as u16;
        crate::lemma_obfuscate_involutive(clen, nonce@);
        assert(spec_u16be(spec_be16(olen)[0], spec_be16(olen)[1]) == olen) by {
            crate::bits::lemma_be16_round_trip(olen);
        }
        assert(open_record(key@, out@) == Some(plain@));
    }
    Some(out)
}

/// Open one record given its three wire pieces. The answer matches what
/// `open_record` says of the reassembled record: with `enc1`, the frame
/// round trip.
pub fn dec1(key: &[u8], nonce: &[u8], obf_len: u16, ct: &[u8]) -> (r: Option<Vec<u8>>)
    requires
        key@.len() == KEY_LEN,
        nonce@.len() == NONCE_LEN,
    ensures
        ({
            let rec = nonce@ + spec_be16(obf_len) + ct@;
            match r {
                Some(pt) => open_record(key@, rec) == Some(pt@),
                None => open_record(key@, rec) is None,
            }
        }),
{
    let ghost rec = nonce@ + spec_be16(obf_len) + ct@;
    proof {
        assert(rec.subrange(0, NONCE_LEN as int) =~= nonce@);
        assert(rec.subrange(14, rec.len() as int) =~= ct@);
        assert(rec[12] == spec_be16(obf_len)[0]);
        assert(rec[13] == spec_be16(obf_len)[1]);
        crate::bits::lemma_be16_round_trip(obf_len);
    }
    let len = obfuscate(obf_len, nonce);
    if len == 0 {
        return None;
    }
    if ct.len() != len as usize {
        return None;
    }
    aead_decrypt(key, nonce, ct)
}

/// Recover the true record length from the obfuscated field; a zero
/// length is the protocol's way of saying the record is malformed.
pub fn dec_record_len(nonce: &[u8], obf_len: u16) -> (r: Option<u16>)
    requires
        nonce@.len() == NONCE_LEN,
    ensures
        ({
            let t = (obf_len ^ mix(nonce@)) as u16;
            r == if t == 0 {
                None
            } else {
                Some(t)
            }
        }),
{
    let t = obfuscate(obf_len, nonce);
    if t == 0 {
        None
    } else {
        Some(t)
    }
}

} // verus!
