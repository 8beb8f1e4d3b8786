use tatermint::header::{build_fake_header, is_clean_header_check};
use tatermint::psk::{gen_psk, init_cipher, trim_ascii};

#[test]
fn psk_round_trip() {
    let line = gen_psk();
    assert_eq!(line.len(), 43);
    // a PSK file may carry whitespace around the key line
    let mut padded = b"  \n".to_vec();
    padded.extend_from_slice(&line);
    padded.extend_from_slice(b"\r\n");
    let key = init_cipher(&padded).unwrap();
    assert_eq!(key.len(), 32);
}

#[test]
fn psk_rejects_bad_input() {
    // not base64 at all
    assert!(init_cipher(b"!!!not base64!!!").is_none());
    // valid base64, but of ten bytes rather than a key
    assert!(init_cipher(&vec![b'A'; 14]).is_none());
    // nothing at all
    assert!(init_cipher(b"").is_none());
    // padded base64 is not the canonical unpadded form
    assert!(init_cipher(b"AA==").is_none());
}

#[test]
fn trim_behavior() {
    assert_eq!(trim_ascii(b"  x  "), b"x".to_vec());
    assert_eq!(trim_ascii(b"\t\r\n"), Vec::<u8>::new());
    assert_eq!(trim_ascii(b"abc"), b"abc".to_vec());
    assert_eq!(trim_ascii(b"\r\na b\t"), b"a b".to_vec());
    assert_eq!(trim_ascii(b""), Vec::<u8>::new());
}

#[test]
fn fake_header_build() {
    let h = build_fake_header(b"GET / HTTP/1.1\nHost: example.com\n");
    assert_eq!(h, b"GET / HTTP/1.1\r\nHost: example.com\r\n\r\n".to_vec());
    assert!(is_clean_header_check(&h));
    // blank lines are dropped and stray carriage returns trimmed
    let h2 = build_fake_header(b"A\r\n\r\nB\r\n");
    assert_eq!(h2, b"A\r\nB\r\n\r\n".to_vec());
    // a file with no usable line falls back to the minimal header
    let h3 = build_fake_header(b"");
    assert_eq!(h3, b"\r\n\r\n".to_vec());
    assert!(is_clean_header_check(&h3));
}

#[test]
fn clean_header_check() {
    assert!(is_clean_header_check(b"\r\n\r\n"));
    assert!(is_clean_header_check(b"X: y\r\n\r\n"));
    assert!(!is_clean_header_check(b"no sentinel"));
    assert!(!is_clean_header_check(b"\r\n\r\nX"));
    assert!(!is_clean_header_check(b"\r\n\r\n\r\n\r\n"));
    assert!(!is_clean_header_check(b"\r\n"));
}
