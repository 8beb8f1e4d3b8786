use tatermint::bits::{be16, be32, bytes_eq, get_bit, get_bits, set_bit, set_bits, u16be, utf8_check};
use tatermint::dns::{class2str, opcode2str, rcode2str, type2str, Msg, ParseError};

#[test]
fn code_names() {
    assert_eq!(rcode2str(0), "NoError");
    assert_eq!(rcode2str(1), "FormErr");
    assert_eq!(rcode2str(2), "ServFail");
    assert_eq!(rcode2str(3), "NXDomain");
    assert_eq!(rcode2str(4), "NotImp");
    assert_eq!(rcode2str(5), "Refused");
    assert_eq!(rcode2str(9), "NotImplemented");
    assert_eq!(opcode2str(0), "Query");
    assert_eq!(opcode2str(2), "NotImplemented");
    assert_eq!(class2str(1), "IN");
    assert_eq!(class2str(0), "NotImplemented");
    assert_eq!(class2str(255), "NotImplemented");
    assert_eq!(type2str(1), "A");
    assert_eq!(type2str(28), "NotImplemented");
}

#[test]
fn dns_header_fields() {
    let q = vec![0xab, 0xcd, 0x01, 0x20, 0, 2, 0, 3, 0, 4, 0, 5];
    let m = Msg::try_from(q, 12).unwrap();
    assert_eq!(m.id(), 0xabcd);
    assert_eq!(m.qd_count(), 2);
    assert_eq!(m.an_count(), 3);
    assert_eq!(m.ns_count(), 4);
    assert_eq!(m.ar_count(), 5);
    assert!(m.rd());
    assert!(!m.tc());
    assert!(!m.z());
    assert_eq!(m.opcode(), 0);
    assert_eq!(m.rcode(), 0);
    let z = vec![0, 0, 0, 0x40, 0, 0, 0, 0, 0, 0, 0, 0];
    assert!(Msg::try_from(z, 12).unwrap().z());
}

#[test]
fn dns_parse_errors() {
    // too short to hold a header
    assert!(matches!(
        Msg::try_from(vec![0u8; 8], 8),
        Err(ParseError::Invalid)
    ));
    // a length past the end of the buffer
    assert!(matches!(
        Msg::try_from(vec![0u8; 12], 20),
        Err(ParseError::Invalid)
    ));
    // the truncation bit set
    let t = vec![0, 0, 0x02, 0, 0, 1, 0, 0, 0, 0, 0, 0];
    assert!(matches!(Msg::try_from(t, 12), Err(ParseError::Truncated)));
}

#[test]
fn dns_decline() {
    // a resolver that declines: response bit set, recursion mirrored,
    // nothing else changed, answer counts left at zero
    let q = vec![0x12, 0x34, 0x01, 0x00, 0, 1, 0, 0, 0, 0, 0, 0];
    let mut m = Msg::try_from(q.clone(), 12).unwrap();
    let l = m.respond_decline();
    assert_eq!(l, 12);
    let out = m.into_bytes();
    assert_eq!(out[2], 0x81);
    assert_eq!(out[3], 0x80);
    assert_eq!(&out[4..12], &q[4..12]);
    // without recursion desired, nothing is advertised back
    let q2 = vec![0x12, 0x34, 0x00, 0x00, 0, 1, 0, 0, 0, 0, 0, 0];
    let mut m2 = Msg::try_from(q2, 12).unwrap();
    let _ = m2.respond_decline();
    let out2 = m2.into_bytes();
    assert_eq!(out2[2], 0x80);
    assert_eq!(out2[3], 0x00);
}

#[test]
fn utf8_validity() {
    // well-formed strings of every encoded width
    assert!(utf8_check(b""));
    assert!(utf8_check(b"example.com"));
    assert!(utf8_check("b\u{fc}cher \u{20ac} \u{1f600}".as_bytes()));
    assert!(utf8_check(&[0xed, 0x9f, 0xbf]));
    assert!(utf8_check(&[0xf4, 0x8f, 0xbf, 0xbf]));
    // a lone continuation or lead byte
    assert!(!utf8_check(&[0xff]));
    assert!(!utf8_check(&[0x80]));
    assert!(!utf8_check(&[0xc2]));
    // overlong forms
    assert!(!utf8_check(&[0xc0, 0x80]));
    assert!(!utf8_check(&[0xe0, 0x80, 0x80]));
    assert!(!utf8_check(&[0xf0, 0x80, 0x80, 0x80]));
    // surrogates and values past the last code point
    assert!(!utf8_check(&[0xed, 0xa0, 0x80]));
    assert!(!utf8_check(&[0xf4, 0x90, 0x80, 0x80]));
    // truncated in the middle of a character
    assert!(!utf8_check(&[0xe2, 0x82]));
    // matches the standard library's own judgement on samples
    for s in [
        &b"ascii only"[..],
        &[0xc3, 0xa9, 0x2e][..],
        &[0xe2, 0x82, 0xac][..],
        &[0xc3, 0x28][..],
        &[0xe2, 0x28, 0xa1][..],
        &[0xf0, 0x9f, 0x98, 0x80][..],
    ] {
        assert_eq!(utf8_check(s), std::str::from_utf8(s).is_ok());
    }
}

#[test]
fn bit_helpers() {
    assert!(get_bit(0x80, 7));
    assert!(!get_bit(0x80, 6));
    assert_eq!(get_bits(0b0101_1000, 3, 4), 0b1011);
    let mut b: u8 = 0;
    set_bit(&mut b, 7);
    assert_eq!(b, 0x80);
    set_bits(&mut b, 0, 4, 0x4);
    assert_eq!(b, 0x84);
    set_bits(&mut b, 0, 4, 0x1);
    assert_eq!(b, 0x81);
    assert_eq!(u16be(&[0x12, 0x34]), 0x1234);
    assert_eq!(be16(0x1234), (0x12, 0x34));
    assert_eq!(be32(0x6440_0001), [0x64, 0x40, 0x00, 0x01]);
    assert!(bytes_eq(b"abc", b"abc"));
    assert!(!bytes_eq(b"abc", b"abd"));
    assert!(!bytes_eq(b"abc", b"ab"));
}
