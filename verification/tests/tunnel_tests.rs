use tatermint::bits::u16be;
use tatermint::crypto::{gen_key, gen_nonce};
use tatermint::obfuscate;
use tatermint::tunnel::{
    dec1, dec_record_len, enc1, read_msg, read_req_msg, read_resp_msg, write_msg, write_req_msg,
    write_resp_msg,
};

fn eoh() -> Vec<u8> {
    vec![13, 10, 13, 10]
}

#[test]
fn test_payload() {
    let key = gen_key();
    println!("key len: {}", key.len());
    assert_eq!(key.len(), 32);
    let nonce = gen_nonce();
    println!("nonce len: {}", nonce.len());
    assert_eq!(nonce.len(), 12);
    let header = eoh();
    let msg = write_req_msg(&key, &header, b"example.com", 443);
    let (host, port) = read_req_msg(&key, &msg).unwrap();
    assert_eq!(host, b"example.com".to_vec());
    assert_eq!(port, 443);
}

#[test]
fn tunnel_handshake_round_trip() {
    let key = gen_key();
    let header = eoh();
    let msg = write_req_msg(&key, &header, b"example.com", 443);
    // header + nonce + (payload + tag + at least the minimum padding)
    assert!(msg.len() >= 4 + 12 + 15 + 16 + 0x200);
    assert!(msg.len() < 4 + 12 + 15 + 16 + 0x300);
    let (host, port) = read_req_msg(&key, &msg).unwrap();
    assert_eq!(host, b"example.com".to_vec());
    assert_eq!(port, 443);
    let resp = write_resp_msg(&key, &header, 0);
    assert_eq!(read_resp_msg(&key, &resp), Some(0));
}

#[test]
fn test_enc() {
    let key = gen_key();
    let payload = b"you're (not) welcome.";
    let rec = enc1(&key, payload).unwrap();
    assert_eq!(rec.len(), 14 + payload.len() + 16);
    // the ciphertext region is not the plaintext handed back unchanged
    assert_ne!(&rec[14..14 + payload.len()], &payload[..]);
    let nonce = rec[0..12].to_vec();
    let obf = u16be(&rec[12..14]);
    let len = dec_record_len(&nonce, obf).unwrap();
    assert_eq!(len as usize, payload.len() + 16);
    let ct = rec[14..].to_vec();
    let pt = dec1(&key, &nonce, obf, &ct).unwrap();
    assert_eq!(pt, payload.to_vec());
}

#[test]
fn tunnel_relay_record() {
    let key = gen_key();
    let rec = enc1(&key, b"hello").unwrap();
    let nonce = rec[0..12].to_vec();
    let obf = u16be(&rec[12..14]);
    let ct = rec[14..].to_vec();
    assert_eq!(dec1(&key, &nonce, obf, &ct).unwrap(), b"hello".to_vec());
}

#[test]
fn record_edge_cases() {
    let key = gen_key();
    // an empty chunk seals nothing: the relay reads it as a closed peer
    assert!(enc1(&key, b"").is_none());
    // one byte over the largest chunk the length field can carry
    let big = vec![0u8; 0xffef + 1];
    assert!(enc1(&key, &big).is_none());
    // the largest chunk still works
    let max = vec![7u8; 0xffef];
    let rec = enc1(&key, &max).unwrap();
    let nonce = rec[0..12].to_vec();
    let obf = u16be(&rec[12..14]);
    let ct = rec[14..].to_vec();
    assert_eq!(dec1(&key, &nonce, obf, &ct).unwrap(), max);
    // a tampered record fails to open
    let mut bad = ct.clone();
    bad[0] ^= 0x40;
    assert!(dec1(&key, &nonce, obf, &bad).is_none());
    // a truncated ciphertext does not match the announced length
    assert!(dec1(&key, &nonce, obf, &ct[..ct.len() - 1]).is_none());
}

#[test]
fn obfuscate_involution() {
    let nonce = gen_nonce();
    for x in [0u16, 1, 443, 0x1234, 0xffff] {
        assert_eq!(obfuscate(obfuscate(x, &nonce), &nonce), x);
    }
    let short = vec![7u8];
    assert_eq!(obfuscate(obfuscate(0xbeef, &short), &short), 0xbeef);
}

#[test]
fn handshake_rejects_bad_buffers() {
    let key = gen_key();
    // no sentinel at all
    assert!(read_msg(&key, b"GET / HTTP/1.1").is_none());
    // a sentinel with no room for the nonce behind it
    assert!(read_msg(&key, b"\r\n\r\nshort").is_none());
    // a corrupted ciphertext fails verification
    let mut msg = write_req_msg(&key, &eoh(), b"example.com", 443);
    let last = msg.len() - 1;
    msg[last] ^= 1;
    assert!(read_req_msg(&key, &msg).is_none());
    // the wrong key fails verification
    let other = gen_key();
    let msg2 = write_req_msg(&key, &eoh(), b"example.com", 443);
    assert!(read_req_msg(&other, &msg2).is_none());
}

#[test]
fn handshake_rejects_bad_version() {
    let key = gen_key();
    // a payload that does not open with the protocol version
    let msg = write_msg(&key, &eoh(), &[9u8, 0, 0, 0]);
    assert!(read_req_msg(&key, &msg).is_none());
}

#[test]
fn handshake_rejects_bad_host() {
    let key = gen_key();
    // a host field that is not valid UTF-8 is refused
    let msg = write_msg(&key, &eoh(), &[0u8, 1, 0xff, 0, 80]);
    assert!(read_req_msg(&key, &msg).is_none());
    // a multi-byte UTF-8 host survives the round trip
    let host = "b\u{fc}cher.example".as_bytes();
    let msg2 = write_req_msg(&key, &eoh(), host, 80);
    let (h, p) = read_req_msg(&key, &msg2).unwrap();
    assert_eq!(h, host.to_vec());
    assert_eq!(p, 80);
}

#[test]
fn handshake_camouflage_header() {
    let key = gen_key();
    let header = b"HTTP/1.1 200 OK\r\nServer: nginx\r\n\r\n".to_vec();
    let msg = write_resp_msg(&key, &header, 0);
    // the message opens with the camouflage header, byte for byte
    assert_eq!(&msg[..header.len()], &header[..]);
    assert_eq!(read_resp_msg(&key, &msg), Some(0));
}
