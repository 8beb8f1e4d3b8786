//! The SOCKS5 and HTTP-CONNECT codec: destination addresses in their
//! ATYP-tagged wire form, the fixed handshake records of a no-auth SOCKS5
//! exchange, and the request-line parser for the inline HTTP CONNECT
//! variant. Everything here is pure computation over bytes; the sockets
//! that carry them stay outside.

use crate::bits::{append_bytes, be16, bytes_to_vec, spec_be16, spec_be32, spec_u16be, u16be2};
use vstd::prelude::*;

verus! {

pub const SOCKS5_VER: u8 = 5;

pub const SOCKS5_RSV: u8 = 0;

pub const SOCKS5_NO_AUTH_REQUIRED: u8 = 0;

pub const SOCKS5_CMD_CONNECT: u8 = 1;

pub const SOCKS5_ATYP_V4: u8 = 1;

pub const SOCKS5_ATYP_DOMAINNAME: u8 = 3;

pub const SOCKS5_ATYP_V6: u8 = 4;

pub const SOCKS5_REP_SUCCEED: u8 = 0;

pub const SOCKS5_REP_CMD_NOT_SUPPORTED: u8 = 7;

/// A destination address: a domain name as bytes, or a literal address.
pub enum Addr {
    Domain(Vec<u8>),
    V4(u32),
    V6(u128),
}

/// The canonical destination passed between the proxy surfaces: an
/// address and a port.
pub struct Dst {
    pub addr: Addr,
    pub port: u16,
}

/// The ghost shape of an address.
pub enum AddrSpec {
    Domain(Seq<u8>),
    V4(u32),
    V6(u128),
}

/// The ghost view of an address.
pub open spec fn addr_view(a: Addr) -> AddrSpec {
    match a {
        Addr::Domain(d) => AddrSpec::Domain(d@),
        Addr::V4(x) => AddrSpec::V4(x),
        Addr::V6(x) => AddrSpec::V6(x),
    }
}

/// The sixteen big-endian bytes of a 128-bit value.
pub open spec fn spec_be128(v: u128) -> Seq<u8> {
    Seq::new(16, |i: int| (v >> (8 * (15 - i))) as u8)
}

/// The 128-bit value spelled by a byte sequence in big-endian order.
pub open spec fn spec_u128be(s: Seq<u8>) -> u128
    decreases s.len(),
{
    if s.len() == 0 {
        0
    } else {
        ((spec_u128be(s.drop_last()) << 8) | (s.last() as u128)) as u128
    }
}

/// The 32-bit value spelled by four bytes in big-endian order.
pub open spec fn spec_u32be(b0: u8, b1: u8, b2: u8, b3: u8) -> u32 {
    (((b0 as u32) << 24) | ((b1 as u32) << 16) | ((b2 as u32) << 8) | (b3 as u32)) as u32
}

/// The ATYP-tagged wire form of an address.
pub open spec fn spec_addr_bytes(a: AddrSpec) -> Seq<u8> {
    match a {
        AddrSpec::Domain(d) => seq![3u8, d.len() as u8] + d,
        AddrSpec::V4(v) => seq![1u8] + spec_be32(v),
        AddrSpec::V6(v) => seq![4u8] + spec_be128(v),
    }
}

/// The wire form of a whole destination: the tagged address, then the
/// port in big-endian.
pub open spec fn spec_dst_bytes(a: AddrSpec, port: u16) -> Seq<u8> {
    spec_addr_bytes(a) + spec_be16(port)
}

/// Encode a domain name in its tagged form; a name longer than 255 bytes
/// does not fit the length byte and is refused.
pub fn write_domain(d: &[u8]) -> (r: Option<Vec<u8>>)
    ensures
        r is Some <==> d@.len() <= 255,
        match r {
            Some(v) => v@ == spec_addr_bytes(AddrSpec::Domain(d@)),
            None => true,
        },
{
    if d.len() > 255 {
        return None;
    }
    let mut v: Vec<u8> = Vec::new();
    v.push(SOCKS5_ATYP_DOMAINNAME);
    v.push(d.len() as u8);
    append_bytes(&mut v, d);
    proof {
        assert(v@ =~= spec_addr_bytes(AddrSpec::Domain(d@)));
    }
    Some(v)
}

/// Encode a destination for the wire; refused only when a domain name is
/// too long for its length byte.
pub fn write_dst(dst: &Dst) -> (r: Option<Vec<u8>>)
    ensures
        r is Some <==> match dst.addr {
            Addr::Domain(d) => d@.len() <= 255,
            _ => true,
        },
        match r {
            Some(v) => v@ == spec_dst_bytes(addr_view(dst.addr), dst.port),
            None => true,
        },
{
    let mut v: Vec<u8> = match &dst.addr {
        Addr::Domain(d) => {
            match write_domain(d.as_slice()) {
                Some(v) => v,
                None => {
                    return None;
                },
            }
        },
        Addr::V4(x) => {
            let mut v: Vec<u8> = Vec::new();
            v.push(SOCKS5_ATYP_V4);
            let b = crate::bits::be32(*x);
            append_bytes(&mut v, b.as_slice());
            proof {
                assert(v@ =~= spec_addr_bytes(AddrSpec::V4(*x)));
            }
            v
        },
        Addr::V6(x) => {
            let mut v: Vec<u8> = Vec::new();
            v.push(SOCKS5_ATYP_V6);
            let y = *x;
            let mut i: usize = 0;
            while i < 16
                invariant
                    i <= 16,
                    v@.len() == 1 + i,
                    v@[0] == 4u8,
                    forall|j: int| 0 <= j < i ==> v@[j + 1] == spec_be128(y)[j],
                decreases 16 - i,
            {
                let sh: u32 = 8 * (15 - (i as u32));
                v.push((y >> sh) as u8);
                i += 1;
            }
            proof {
                assert(v@ =~= spec_addr_bytes(AddrSpec::V6(y)));
            }
            v
        },
    };
    let (hi, lo) = be16(dst.port);
    v.push(hi);
    v.push(lo);
    proof {
        assert(v@ =~= spec_dst_bytes(addr_view(dst.addr), dst.port));
    }
    Some(v)
}

/// What a buffer starting with an ATYP-tagged destination parses to, and
/// how many bytes it took; nothing when the tag is unknown, the buffer
/// too short, or a domain name is not valid UTF-8.
pub open spec fn spec_read_dst(b: Seq<u8>) -> Option<(AddrSpec, u16, int)> {
    if b.len() < 1 {
        None
    } else if b[0] == 3 {
        if b.len() < 2 {
            None
        } else {
            let n = b[1] as int;
            if b.len() < 2 + n + 2 {
                None
            } else if !crate::bits::is_utf8(b.subrange(2, 2 + n)) {
                None
            } else {
                Some(
                    (
                        AddrSpec::Domain(b.subrange(2, 2 + n)),
                        spec_u16be(b[2 + n], b[3 + n]),
                        2 + n + 2,
                    ),
                )
            }
        }
    } else if b[0] == 1 {
        if b.len() < 7 {
            None
        } else {
            Some((AddrSpec::V4(spec_u32be(b[1], b[2], b[3], b[4])), spec_u16be(b[5], b[6]), 7))
        }
    } else if b[0] == 4 {
        if b.len() < 19 {
            None
        } else {
            Some((AddrSpec::V6(spec_u128be(b.subrange(1, 17))), spec_u16be(b[17], b[18]), 19))
        }
    } else {
        None
    }
}

/// Parse an ATYP-tagged destination from the front of a buffer; the
/// second half of the answer is how many bytes it occupied.
pub fn read_dst(buf: &[u8]) -> (r: Option<(Dst, usize)>)
    ensures
        match r {
            Some(p) => spec_read_dst(buf@) == Some((addr_view(p.0.addr), p.0.port, p.1 as int)),
            None => spec_read_dst(buf@) is None,
        },
{
    if buf.len() < 1 {
        return None;
    }
    let atyp = buf[0];
    if atyp == SOCKS5_ATYP_DOMAINNAME {
        if buf.len() < 2 {
            return None;
        }
        let n = buf[1] as usize;
        if buf.len() - 2 < n || buf.len() - 2 - n < 2 {
            return None;
        }
        let host = bytes_to_vec(vstd::slice::slice_subrange(buf, 2, 2 + n));
        proof {
            assert(host@ =~= buf@.subrange(2, 2 + n as int));
        }
        if !crate::bits::utf8_check(host.as_slice()) {
            return None;
        }
        let port = u16be2(buf[2 + n], buf[3 + n]);
        Some((Dst { addr: Addr::Domain(host), port }, 2 + n + 2))
    } else if atyp == SOCKS5_ATYP_V4 {
        if buf.len() < 7 {
            return None;
        }
        let v = ((buf[1] as u32) << 24) | ((buf[2] as u32) << 16) | ((buf[3] as u32) << 8) | (
        buf[4] as u32);
        let port = u16be2(buf[5], buf[6]);
        Some((Dst { addr: Addr::V4(v), port }, 7))
    } else if atyp == SOCKS5_ATYP_V6 {
        if buf.len() < 19 {
            return None;
        }
        let mut acc: u128 = 0;
        let mut i: usize = 0;
        while i < 16
            invariant
                i <= 16,
                buf@.len() >= 19,
                acc == spec_u128be(buf@.subrange(1, 1 + i as int)),
            decreases 16 - i,
        {
            acc = (acc << 8) | (buf[1 + i] as u128);
            proof {
                assert(buf@.subrange(1, 1 + (i + 1)).drop_last() =~= buf@.subrange(
                    1,
                    1 + i as int,
                ));
                assert(buf@.subrange(1, 1 + (i + 1)).last() == buf@[1 + i]);
            }
            i += 1;
        }
        let port = u16be2(buf[17], buf[18]);
        proof {
            assert(buf@.subrange(1, 17) =~= buf@.subrange(1int, 1int + 16int));
        }
        Some((Dst { addr: Addr::V6(acc), port }, 19))
    } else {
        None
    }
}

/// The bytes each ATYP-tagged destination occupies on the wire, given the
/// tag and the byte after it (which for a domain is the name length);
/// nothing for an unknown tag.
pub fn dst_wire_len(atyp: u8, second: u8) -> (r: Option<usize>)
    ensures
        r == if atyp == 1 {
            Some(7usize)
        } else if atyp == 4 {
            Some(19usize)
        } else if atyp == 3 {
            Some((4 + second) as usize)
        } else {
            None::<usize>
        },
{
    if atyp == SOCKS5_ATYP_V4 {
        Some(7)
    } else if atyp == SOCKS5_ATYP_V6 {
        Some(19)
    } else if atyp == SOCKS5_ATYP_DOMAINNAME {
        Some(4 + second as usize)
    } else {
        None
    }
}

/// A byte folded to lower case, ASCII letters only.
pub open spec fn spec_lower(c: u8) -> u8 {
    if 65 <= c <= 90 {
        (c + 32) as u8
    } else {
        c
    }
}

/// Two byte strings are equal up to ASCII case.
pub open spec fn spec_eq_icase(a: Seq<u8>, b: Seq<u8>) -> bool {
    a.len() == b.len() && forall|i: int| 0 <= i < a.len() ==> spec_lower(a[i]) == spec_lower(b[i])
}

/// Compare two byte strings ignoring ASCII case.
pub fn eq_ignore_ascii_case(a: &[u8], b: &[u8]) -> (r: bool)
    ensures
        r == spec_eq_icase(a@, b@),
{
    if a.len() != b.len() {
        return false;
    }
    let mut i: usize = 0;
    while i < a.len()
        invariant
            i <= a@.len(),
            a@.len() == b@.len(),
            forall|j: int| 0 <= j < i ==> spec_lower(a@[j]) == spec_lower(b@[j]),
        decreases a@.len() - i,
    {
        let mut x = a[i];
        let mut y = b[i];
        if x >= 65 && x <= 90 {
            x = x + 32;
        }
        if y >= 65 && y <= 90 {
            y = y + 32;
        }
        if x != y {
            return false;
        }
        i += 1;
    }
    true
}

/// Check one value against what the protocol expects at that spot.
pub fn expect(v: u8, exp: u8) -> (r: Option<()>)
    ensures
        r is Some <==> v == exp,
{
    if v != exp {
        None
    } else {
        Some(())
    }
}

/// What the first two client bytes announce.
pub enum HelloKind {
    /// The bytes spell "CO" in any case: an inline HTTP CONNECT request.
    HttpConnect,
    /// A SOCKS5 hello with its method count.
    Socks5 { nmethods: u8 },
    /// Neither protocol.
    Invalid,
}

/// Classify the first two bytes a client sends: an HTTP CONNECT method
/// sniff first, then the SOCKS5 version check.
pub fn check_hello(b0: u8, b1: u8) -> (r: HelloKind)
    ensures
        match r {
            HelloKind::HttpConnect => spec_eq_icase(seq![b0, b1], seq![67u8, 79u8]),
            HelloKind::Socks5 { nmethods } => !spec_eq_icase(seq![b0, b1], seq![67u8, 79u8]) && b0
                == 5 && nmethods == b1,
            HelloKind::Invalid => !spec_eq_icase(seq![b0, b1], seq![67u8, 79u8]) && b0 != 5,
        },
{
    let pair: [u8; 2] = [b0, b1];
    let co: [u8; 2] = [67, 79];
    proof {
        assert(pair@ =~= seq![b0, b1]);
        assert(co@ =~= seq![67u8, 79u8]);
    }
    if eq_ignore_ascii_case(pair.as_slice(), co.as_slice()) {
        HelloKind::HttpConnect
    } else if b0 == SOCKS5_VER {
        HelloKind::Socks5 { nmethods: b1 }
    } else {
        HelloKind::Invalid
    }
}

/// The server's choice of method: SOCKS5, no authentication.
pub fn auth_reply() -> (r: Vec<u8>)
    ensures
        r@ == seq![5u8, 0u8],
{
    let mut v: Vec<u8> = Vec::new();
    v.push(SOCKS5_VER);
    v.push(SOCKS5_NO_AUTH_REQUIRED);
    proof {
        assert(v@ =~= seq![5u8, 0u8]);
    }
    v
}

/// What the three fixed bytes of a client request mean.
pub enum RequestCheck {
    /// A well-formed CONNECT request.
    Proceed,
    /// Well-formed but some other command: answer "command not
    /// supported".
    Unsupported,
    /// A version or reserved-byte mismatch: drop the connection.
    Invalid,
}

/// Check the fixed part of the client's request: version and reserved
/// byte first, then the command.
pub fn check_request(ver: u8, cmd: u8, rsv: u8) -> (r: RequestCheck)
    ensures
        match r {
            RequestCheck::Proceed => ver == 5 && rsv == 0 && cmd == 1,
            RequestCheck::Unsupported => ver == 5 && rsv == 0 && cmd != 1,
            RequestCheck::Invalid => ver != 5 || rsv != 0,
        },
{
    if ver != SOCKS5_VER || rsv != SOCKS5_RSV {
        RequestCheck::Invalid
    } else if cmd != SOCKS5_CMD_CONNECT {
        RequestCheck::Unsupported
    } else {
        RequestCheck::Proceed
    }
}

/// The server's reply to a request: the given reply code and a stub
/// IPv4 bind address of all zeroes that clients must not rely on.
pub fn reply(rep: u8) -> (r: Vec<u8>)
    ensures
        r@ == seq![5u8, rep, 0u8, 1u8, 0u8, 0u8, 0u8, 0u8, 0u8, 0u8],
{
    let mut v: Vec<u8> = Vec::new();
    v.push(SOCKS5_VER);
    v.push(rep);
    v.push(SOCKS5_RSV);
    v.push(SOCKS5_ATYP_V4);
    v.push(0);
    v.push(0);
    v.push(0);
    v.push(0);
    v.push(0);
    v.push(0);
    proof {
        assert(v@ =~= seq![5u8, rep, 0u8, 1u8, 0u8, 0u8, 0u8, 0u8, 0u8, 0u8]);
    }
    v
}

/// The client's opening bytes: version five, one method, no
/// authentication.
pub fn client_hello() -> (r: Vec<u8>)
    ensures
        r@ == seq![5u8, 1u8, 0u8],
{
    let mut v: Vec<u8> = Vec::new();
    v.push(SOCKS5_VER);
    v.push(1);
    v.push(SOCKS5_NO_AUTH_REQUIRED);
    proof {
        assert(v@ =~= seq![5u8, 1u8, 0u8]);
    }
    v
}

/// The client's whole CONNECT request: the fixed head, then the tagged
/// destination. Refused only for an overlong domain name.
pub fn connect_request(dst: &Dst) -> (r: Option<Vec<u8>>)
    ensures
        r is Some <==> match dst.addr {
            Addr::Domain(d) => d@.len() <= 255,
            _ => true,
        },
        match r {
            Some(v) => v@ == seq![5u8, 1u8, 0u8] + spec_dst_bytes(addr_view(dst.addr), dst.port),
            None => true,
        },
{
    let tail = match write_dst(dst) {
        Some(t) => t,
        None => {
            return None;
        },
    };
    let mut v: Vec<u8> = Vec::new();
    v.push(SOCKS5_VER);
    v.push(SOCKS5_CMD_CONNECT);
    v.push(SOCKS5_RSV);
    append_bytes(&mut v, tail.as_slice());
    proof {
        assert(v@ =~= seq![5u8, 1u8, 0u8] + spec_dst_bytes(addr_view(dst.addr), dst.port));
    }
    Some(v)
}

/// The positive reply to an inline HTTP CONNECT request: status 200 and
/// an empty header block.
pub fn connect_reply() -> (r: Vec<u8>)
    ensures
        r@ == seq![
            72u8, 84u8, 84u8, 80u8, 47u8, 49u8, 46u8, 49u8, 32u8, 50u8, 48u8, 48u8, 32u8, 58u8,
            41u8, 13u8, 10u8, 13u8, 10u8,
        ],
{
    let bytes: [u8; 19] = [
        72, 84, 84, 80, 47, 49, 46, 49, 32, 50, 48, 48, 32, 58, 41, 13, 10, 13, 10,
    ];
    let r = crate::bits::bytes_to_vec(bytes.as_slice());
    proof {
        assert(bytes@ =~= seq![
            72u8, 84u8, 84u8, 80u8, 47u8, 49u8, 46u8, 49u8, 32u8, 50u8, 48u8, 48u8, 32u8, 58u8,
            41u8, 13u8, 10u8, 13u8, 10u8,
        ]);
    }
    r
}

/// A byte string split at every separator; n separators give n+1 pieces,
/// empty pieces included.
pub open spec fn spec_split(s: Seq<u8>, sep: u8) -> Seq<Seq<u8>>
    decreases s.len(),
{
    if s.len() == 0 {
        seq![Seq::<u8>::empty()]
    } else if s[0] == sep {
        seq![Seq::<u8>::empty()] + spec_split(s.drop_first(), sep)
    } else {
        let rest = spec_split(s.drop_first(), sep);
        seq![seq![s[0]] + rest[0]] + rest.skip(1)
    }
}

/// A split always has at least one piece.
pub proof fn lemma_split_len(s: Seq<u8>, sep: u8)
    ensures
        spec_split(s, sep).len() >= 1,
    decreases s.len(),
{
    if s.len() > 0 {
        lemma_split_len(s.drop_first(), sep);
    }
}

/// Split a byte string at every separator.
pub fn split_bytes(s: &[u8], sep: u8) -> (r: Vec<Vec<u8>>)
    ensures
        crate::dns::labels_view(r@) == spec_split(s@, sep),
{
    let mut out: Vec<Vec<u8>> = Vec::new();
    let mut cur: Vec<u8> = Vec::new();
    let mut i: usize = 0;
    proof {
        lemma_split_len(s@, sep);
        assert(s@.skip(0) =~= s@);
        assert(crate::dns::labels_view(out@) =~~= Seq::<Seq<u8>>::empty());
        assert(cur@ + spec_split(s@, sep)[0] =~= spec_split(s@, sep)[0]);
        assert(crate::dns::labels_view(out@) + seq![cur@ + spec_split(s@, sep)[0]] + spec_split(
            s@,
            sep,
        ).skip(1) =~~= seq![spec_split(s@, sep)[0]] + spec_split(s@, sep).skip(1));
        assert(seq![spec_split(s@, sep)[0]] + spec_split(s@, sep).skip(1) =~~= spec_split(s@, sep));
    }
    while i < s.len()
        invariant
            i <= s@.len(),
            spec_split(s@, sep) == crate::dns::labels_view(out@) + seq![
                cur@ + spec_split(s@.skip(i as int), sep)[0],
            ] + spec_split(s@.skip(i as int), sep).skip(1),
        decreases s@.len() - i,
    {
        let ghost tail = spec_split(s@.skip(i + 1), sep);
        proof {
            lemma_split_len(s@.skip(i + 1), sep);
            lemma_split_len(s@.skip(i as int), sep);
            assert(s@.skip(i as int).drop_first() =~= s@.skip(i + 1));
            assert(s@.skip(i as int)[0] == s@[i as int]);
        }
        if s[i] == sep {
            let ghost out0 = out@;
            let ghost cur0 = cur@;
            out.push(cur);
            cur = Vec::new();
            proof {
                assert(spec_split(s@.skip(i as int), sep) =~~= seq![Seq::<u8>::empty()] + tail);
                assert(crate::dns::labels_view(out@) =~~= crate::dns::labels_view(out0) + seq![
                    cur0,
                ]);
                assert(cur0 + Seq::<u8>::empty() =~= cur0);
                assert(tail =~~= seq![tail[0]] + tail.skip(1));
                assert(crate::dns::labels_view(out0) + seq![cur0 + Seq::<u8>::empty()] + (seq![
                    Seq::<u8>::empty(),
                ] + tail).skip(1) =~~= crate::dns::labels_view(out@) + seq![cur@ + tail[0]]
                    + tail.skip(1));
            }
        } else {
            let ghost cur0 = cur@;
            cur.push(s[i]);
            proof {
                assert(spec_split(s@.skip(i as int), sep) =~~= seq![seq![s@[i as int]] + tail[0]]
                    + tail.skip(1));
                assert(cur0 + (seq![s@[i as int]] + tail[0]) =~= cur@ + tail[0]);
                assert(crate::dns::labels_view(out@) + seq![cur0 + (seq![s@[i as int]] + tail[0])]
                    + (seq![seq![s@[i as int]] + tail[0]] + tail.skip(1)).skip(1) =~~= crate
                    ::dns::labels_view(out@) + seq![cur@ + tail[0]] + tail.skip(1));
            }
        }
        i += 1;
    }
    proof {
        assert(s@.skip(i as int) =~= Seq::<u8>::empty());
        assert(spec_split(s@.skip(i as int), sep) =~~= seq![Seq::<u8>::empty()]);
        assert(cur@ + Seq::<u8>::empty() =~= cur@);
    }
    let ghost out0 = out@;
    let ghost cur0 = cur@;
    out.push(cur);
    proof {
        assert(crate::dns::labels_view(out@) =~~= crate::dns::labels_view(out0) + seq![cur0]);
        assert(spec_split(s@, sep) =~~= crate::dns::labels_view(out@));
    }
    out
}

/// An ASCII decimal digit.
pub open spec fn is_digit(c: u8) -> bool {
    48 <= c <= 57
}

/// The value a digit string spells in decimal.
pub open spec fn dec_val(s: Seq<u8>) -> int
    decreases s.len(),
{
    if s.len() == 0 {
        0
    } else {
        dec_val(s.drop_last()) * 10 + (s.last() - 48)
    }
}

proof fn lemma_dec_val_nonneg(s: Seq<u8>)
    requires
        forall|j: int| 0 <= j < s.len() ==> is_digit(#[trigger] s[j]),
    ensures
        dec_val(s) >= 0,
    decreases s.len(),
{
    if s.len() > 0 {
        assert(forall|j: int|
            0 <= j < s.drop_last().len() ==> is_digit(#[trigger] s.drop_last()[j]));
        lemma_dec_val_nonneg(s.drop_last());
    }
}

/// Longer digit strings spell no smaller values: a prefix bounds the
/// whole from below.
proof fn lemma_dec_val_prefix(s: Seq<u8>, i: int)
    requires
        0 <= i <= s.len(),
        forall|j: int| 0 <= j < s.len() ==> is_digit(#[trigger] s[j]),
    ensures
        dec_val(s.take(i)) <= dec_val(s),
    decreases s.len() - i,
{
    if i == s.len() {
        assert(s.take(i) =~= s);
    } else {
        let t = s.take(i + 1);
        assert(t.drop_last() =~= s.take(i));
        assert(t.last() == s[i]);
        assert(forall|j: int| 0 <= j < s.take(i).len() ==> is_digit(#[trigger] s.take(i)[j]));
        lemma_dec_val_nonneg(s.take(i));
        assert(dec_val(s.take(i)) <= dec_val(s.take(i + 1)));
        lemma_dec_val_prefix(s, i + 1);
    }
}

/// What a port string parses to: a nonempty, all-digit string whose
/// value fits sixteen bits; anything else is refused.
pub open spec fn spec_parse_port(s: Seq<u8>) -> Option<u16> {
    if s.len() == 0 || (exists|i: int| 0 <= i < s.len() && !is_digit(s[i])) {
        None
    } else if dec_val(s) > 65535 {
        None
    } else {
        Some(dec_val(s) as u16)
    }
}

/// Parse a decimal port number.
pub fn parse_port(s: &[u8]) -> (r: Option<u16>)
    ensures
        r == spec_parse_port(s@),
{
    if s.len() == 0 {
        return None;
    }
    let mut acc: u32 = 0;
    let mut i: usize = 0;
    while i < s.len()
        invariant
            i <= s@.len(),
            acc <= 65535,
            forall|j: int| 0 <= j < i ==> is_digit(#[trigger] s@[j]),
            acc == dec_val(s@.take(i as int)),
        decreases s@.len() - i,
    {
        let c = s[i];
        if c < 48 || c > 57 {
            return None;
        }
        let d = (c - 48) as u32;
        proof {
            let t = s@.take(i + 1);
            assert(t.drop_last() =~= s@.take(i as int));
            assert(t.last() == s@[i as int]);
        }
        acc = acc * 10 + d;
        i += 1;
        if acc > 65535 {
            proof {
                if forall|j: int| 0 <= j < s@.len() ==> is_digit(#[trigger] s@[j]) {
                    lemma_dec_val_prefix(s@, i as int);
                }
            }
            return None;
        }
    }
    proof {
        assert(s@.take(i as int) =~= s@);
    }
    Some(acc as u16)
}

/// A carriage-return line-feed pair starts at `i`.
pub open spec fn crlf_at(b: Seq<u8>, i: int) -> bool {
    &&& 0 <= i
    &&& i + 2 <= b.len()
    &&& b[i] == 13u8
    &&& b[i + 1] == 10u8
}

/// `i` is the first line break in `b`.
pub open spec fn is_first_crlf(b: Seq<u8>, i: int) -> bool {
    crlf_at(b, i) && forall|j: int| 0 <= j < i ==> !crlf_at(b, j)
}

/// The first line break of a buffer known to contain one.
pub open spec fn first_crlf(b: Seq<u8>) -> int {
    choose|i: int| is_first_crlf(b, i)
}

/// Knowing a first line break pins `first_crlf` down.
proof fn lemma_first_crlf(b: Seq<u8>, i: int)
    requires
        is_first_crlf(b, i),
    ensures
        first_crlf(b) == i,
{
    assert(exists|k: int| is_first_crlf(b, k));
    let j = first_crlf(b);
    assert(is_first_crlf(b, j));
    if j < i {
        assert(crlf_at(b, j));
        assert(false);
    }
    if i < j {
        assert(crlf_at(b, i));
        assert(false);
    }
}

/// What an inline HTTP CONNECT request means, given everything after the
/// leading "CO" that the protocol sniff consumed: the buffer must end
/// with the blank line and be valid UTF-8 text; its first line must read
/// `NNECT host:port HTTP-version` in exactly three space-separated words;
/// the port must be decimal. Headers are ignored.
pub open spec fn spec_connect(b: Seq<u8>) -> Option<(Seq<u8>, u16)> {
    if b.len() < 4 {
        None
    } else if !(b[b.len() - 4] == 13 && b[b.len() - 3] == 10 && b[b.len() - 2] == 13 && b[b.len()
        - 1] == 10) {
        None
    } else if !crate::bits::is_utf8(b) {
        None
    } else {
        let line = b.take(first_crlf(b));
        let parts = spec_split(line, 32);
        if parts.len() != 3 {
            None
        } else if !spec_eq_icase(parts[0], seq![78u8, 78u8, 69u8, 67u8, 84u8]) {
            None
        } else {
            let hp = spec_split(parts[1], 58);
            if hp.len() != 2 {
                None
            } else {
                match spec_parse_port(hp[1]) {
                    None => None,
                    Some(p) => Some((hp[0], p)),
                }
            }
        }
    }
}

/// Handle an inline HTTP CONNECT request, already past the leading "CO":
/// pick the destination out of the request line.
pub fn connect_handshake(buf: &[u8]) -> (r: Option<Dst>)
    ensures
        match r {
            Some(d) => d.addr matches Addr::Domain(h) && spec_connect(buf@) == Some((h@, d.port)),
            None => spec_connect(buf@) is None,
        },
{
    let n = buf.len();
    if n < 4 {
        return None;
    }
    if !(buf[n - 4] == 13 && buf[n - 3] == 10 && buf[n - 2] == 13 && buf[n - 1] == 10) {
        return None;
    }
    // the request is handled as text: reject anything that is not UTF-8
    if !crate::bits::utf8_check(buf) {
        return None;
    }
    let mut i: usize = 0;
    while !(buf[i] == 13 && buf[i + 1] == 10)
        invariant
            n == buf@.len(),
            n >= 4,
            crlf_at(buf@, n - 4),
            0 <= i <= n - 4,
            forall|j: int| 0 <= j < i ==> !crlf_at(buf@, j),
        decreases n - i,
    {
        proof {
            if i == n - 4 {
                assert(false);
            }
        }
        i += 1;
    }
    proof {
        assert(is_first_crlf(buf@, i as int));
        lemma_first_crlf(buf@, i as int);
    }
    let line = bytes_to_vec(vstd::slice::slice_subrange(buf, 0, i));
    proof {
        assert(line@ =~= buf@.take(i as int));
    }
    let parts = split_bytes(line.as_slice(), 32);
    if parts.len() != 3 {
        return None;
    }
    let nnect: [u8; 5] = [78, 78, 69, 67, 84];
    proof {
        assert(nnect@ =~= seq![78u8, 78u8, 69u8, 67u8, 84u8]);
        assert(parts@[0]@ == spec_split(line@, 32)[0]);
    }
    if !eq_ignore_ascii_case(parts[0].as_slice(), nnect.as_slice()) {
        return None;
    }
    proof {
        assert(parts@[1]@ == spec_split(line@, 32)[1]);
    }
    let hp = split_bytes(parts[1].as_slice(), 58);
    if hp.len() != 2 {
        return None;
    }
    proof {
        assert(hp@[1]@ == spec_split(parts@[1]@, 58)[1]);
        assert(hp@[0]@ == spec_split(parts@[1]@, 58)[0]);
    }
    let port = match parse_port(hp[1].as_slice()) {
        Some(p) => p,
        None => {
            return None;
        },
    };
    let host = bytes_to_vec(hp[0].as_slice());
    Some(Dst { addr: Addr::Domain(host), port })
}

} // verus!
