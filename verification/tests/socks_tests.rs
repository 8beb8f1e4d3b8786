use tatermint::socks5::{
    auth_reply, check_hello, check_request, client_hello, connect_handshake, connect_reply,
    connect_request, dst_wire_len, eq_ignore_ascii_case, expect, read_dst, reply, write_domain,
    write_dst, Addr, Dst, HelloKind, RequestCheck,
};

#[test]
fn s3_socks5_connect() {
    // client hello 05 01 00; the server sees version five with one method
    match check_hello(0x05, 0x01) {
        HelloKind::Socks5 { nmethods } => assert_eq!(nmethods, 1),
        _ => panic!("expected a SOCKS5 hello"),
    }
    // the server replies 05 00
    assert_eq!(auth_reply(), vec![5, 0]);
    // request head 05 01 00
    assert!(matches!(check_request(5, 1, 0), RequestCheck::Proceed));
    // destination 03 0b "example.com" 01 bb
    let mut wire = vec![0x03, 0x0b];
    wire.extend_from_slice(b"example.com");
    wire.extend_from_slice(&[0x01, 0xbb]);
    let (dst, used) = read_dst(&wire).unwrap();
    assert_eq!(used, 15);
    match &dst.addr {
        Addr::Domain(h) => assert_eq!(h, &b"example.com".to_vec()),
        _ => panic!("expected a domain destination"),
    }
    assert_eq!(dst.port, 443);
    // the server replies 05 00 00 01 00 00 00 00 00 00
    assert_eq!(reply(0), vec![5, 0, 0, 1, 0, 0, 0, 0, 0, 0]);
}

#[test]
fn s4_http_connect() {
    // the protocol sniff has already consumed the leading "CO"
    assert!(matches!(check_hello(b'C', b'O'), HelloKind::HttpConnect));
    assert!(matches!(check_hello(b'c', b'o'), HelloKind::HttpConnect));
    let req = b"NNECT example.com:443 HTTP/1.1\r\nHost: x\r\n\r\n";
    let dst = connect_handshake(req).unwrap();
    match &dst.addr {
        Addr::Domain(h) => assert_eq!(h, &b"example.com".to_vec()),
        _ => panic!("expected a domain destination"),
    }
    assert_eq!(dst.port, 443);
    assert_eq!(connect_reply(), b"HTTP/1.1 200 :)\r\n\r\n".to_vec());
}

#[test]
fn http_connect_rejections() {
    // the request must end in the blank line
    assert!(connect_handshake(b"NNECT example.com:443 HTTP/1.1\r\n").is_none());
    // the method must be CONNECT
    assert!(connect_handshake(b"NFOO example.com:443 HTTP/1.1\r\n\r\n").is_none());
    // the request line must have exactly three words
    assert!(connect_handshake(b"NNECT example.com:443\r\n\r\n").is_none());
    assert!(connect_handshake(b"NNECT  example.com:443 HTTP/1.1\r\n\r\n").is_none());
    // the destination must be host:port
    assert!(connect_handshake(b"NNECT example HTTP/1.1\r\n\r\n").is_none());
    assert!(connect_handshake(b"NNECT a:b:c HTTP/1.1\r\n\r\n").is_none());
    // the port must be a decimal number that fits
    assert!(connect_handshake(b"NNECT example.com:70000 HTTP/1.1\r\n\r\n").is_none());
    assert!(connect_handshake(b"NNECT example.com:4a3 HTTP/1.1\r\n\r\n").is_none());
    assert!(connect_handshake(b"NNECT example.com: HTTP/1.1\r\n\r\n").is_none());
}

#[test]
fn dst_round_trips() {
    let d = Dst { addr: Addr::Domain(b"example.com".to_vec()), port: 443 };
    let wire = write_dst(&d).unwrap();
    let (back, used) = read_dst(&wire).unwrap();
    assert_eq!(used, wire.len());
    match &back.addr {
        Addr::Domain(h) => assert_eq!(h, &b"example.com".to_vec()),
        _ => panic!("expected a domain destination"),
    }
    assert_eq!(back.port, 443);

    let d4 = Dst { addr: Addr::V4(0x7f00_0001), port: 8080 };
    let wire4 = write_dst(&d4).unwrap();
    assert_eq!(wire4, vec![1, 127, 0, 0, 1, 0x1f, 0x90]);
    let (back4, used4) = read_dst(&wire4).unwrap();
    assert_eq!(used4, 7);
    assert!(matches!(back4.addr, Addr::V4(0x7f00_0001)));
    assert_eq!(back4.port, 8080);

    let v6: u128 = 0x2001_0db8_0000_0000_0000_0000_0000_0042;
    let d6 = Dst { addr: Addr::V6(v6), port: 443 };
    let wire6 = write_dst(&d6).unwrap();
    assert_eq!(wire6.len(), 19);
    assert_eq!(&wire6[1..5], &[0x20, 0x01, 0x0d, 0xb8]);
    let (back6, used6) = read_dst(&wire6).unwrap();
    assert_eq!(used6, 19);
    match back6.addr {
        Addr::V6(x) => assert_eq!(x, v6),
        _ => panic!("expected a v6 destination"),
    }
}

#[test]
fn domain_must_be_utf8() {
    // a domain that is not valid UTF-8 is refused
    assert!(read_dst(&[3, 1, 0xff, 0, 80]).is_none());
    assert!(read_dst(&[3, 2, 0xc0, 0x80, 0, 80]).is_none());
    // multi-byte UTF-8 is fine
    let mut wire = vec![3u8, 7];
    wire.extend_from_slice("b\u{fc}cher".as_bytes());
    wire.extend_from_slice(&[1, 0xbb]);
    let (dst, used) = read_dst(&wire).unwrap();
    assert_eq!(used, wire.len());
    match &dst.addr {
        Addr::Domain(h) => assert_eq!(h, &"b\u{fc}cher".as_bytes().to_vec()),
        _ => panic!("expected a domain destination"),
    }
    // the CONNECT request is text: reject bytes that are not UTF-8
    assert!(connect_handshake(b"NNECT exa\xffmple.com:443 HTTP/1.1\r\n\r\n").is_none());
}

#[test]
fn dst_edges() {
    // a domain name longer than its length byte is refused
    assert!(write_domain(&[b'a'; 256]).is_none());
    let long = write_domain(&[b'a'; 255]).unwrap();
    assert_eq!(long.len(), 257);
    // an unknown address tag is refused
    assert!(read_dst(&[9, 1, 2, 3]).is_none());
    // short buffers are refused
    assert!(read_dst(&[]).is_none());
    assert!(read_dst(&[1, 127, 0, 0, 1]).is_none());
    // how many bytes each tagged form occupies
    assert_eq!(dst_wire_len(1, 0), Some(7));
    assert_eq!(dst_wire_len(4, 0), Some(19));
    assert_eq!(dst_wire_len(3, 11), Some(15));
    assert_eq!(dst_wire_len(9, 0), None);
}

#[test]
fn expectations() {
    assert_eq!(expect(5, 5), Some(()));
    assert_eq!(expect(4, 5), None);
    assert!(eq_ignore_ascii_case(b"CO", b"co"));
    assert!(eq_ignore_ascii_case(b"NnEcT", b"nNeCt"));
    assert!(!eq_ignore_ascii_case(b"CO", b"CA"));
    assert!(!eq_ignore_ascii_case(b"CO", b"C"));
    assert!(matches!(check_request(5, 2, 0), RequestCheck::Unsupported));
    assert!(matches!(check_request(4, 1, 0), RequestCheck::Invalid));
    assert!(matches!(check_request(5, 1, 1), RequestCheck::Invalid));
    assert!(matches!(check_hello(0x04, 0x01), HelloKind::Invalid));
    assert_eq!(client_hello(), vec![5, 1, 0]);
    let d = Dst { addr: Addr::Domain(b"example.com".to_vec()), port: 443 };
    let mut want = vec![5, 1, 0, 3, 11];
    want.extend_from_slice(b"example.com");
    want.extend_from_slice(&[1, 0xbb]);
    assert_eq!(connect_request(&d).unwrap(), want);
}
