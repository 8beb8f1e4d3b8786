//! A minimal DNS codec: parse a query for one `A`/`IN` question and build
//! the response in place in the same buffer, answering with a single A
//! record that points at the question name through a compression pointer.

use crate::bits::{
    spec_be16, spec_be32, spec_get_bit, spec_get_bits, spec_set_bit, spec_set_bits, spec_u16be,
};
use vstd::prelude::*;

verus! {

pub const DNS_HEADER_LEN: usize = 12;

pub const OPCODE_QUERY: u8 = 0;

pub const RCODE_NOERROR: u8 = 0;

pub const RCODE_FORMERR: u8 = 1;

pub const RCODE_NOTIMP: u8 = 4;

pub const CLASS_IN: u16 = 1;

pub const TYPE_A: u16 = 1;

/// The text for a code looked up in a table that starts at `base`; codes
/// outside the table read as "NotImplemented".
pub open spec fn spec_code_str(table: Seq<&'static str>, base: u16, c: u16) -> Seq<char> {
    if base <= c && c - base < table.len() {
        table[c - base]@
    } else {
        "NotImplemented"@
    }
}

/// Look a code up in a table of names that starts at code `base`.
pub fn code2str(table: &[&'static str], base: u16, c: u16) -> (r: &'static str)
    ensures
        r@ == spec_code_str(table@, base, c),
{
    if c >= base && ((c - base) as usize) < table.len() {
        table[(c - base) as usize]
    } else {
        "NotImplemented"
    }
}

/// The name of an opcode.
pub fn opcode2str(c: u8) -> (r: &'static str)
    ensures
        r@ == spec_code_str(seq!["Query"], OPCODE_QUERY as u16, c as u16),
{
    let table: [&'static str; 1] = ["Query"];
    code2str(table.as_slice(), OPCODE_QUERY as u16, c as u16)
}

/// The name of a response code.
pub fn rcode2str(c: u8) -> (r: &'static str)
    ensures
        r@ == spec_code_str(
            seq!["NoError", "FormErr", "ServFail", "NXDomain", "NotImp", "Refused"],
            RCODE_NOERROR as u16,
            c as u16,
        ),
{
    let table: [&'static str; 6] = [
        "NoError",
        "FormErr",
        "ServFail",
        "NXDomain",
        "NotImp",
        "Refused",
    ];
    code2str(table.as_slice(), RCODE_NOERROR as u16, c as u16)
}

/// The name of a query class.
pub fn class2str(c: u16) -> (r: &'static str)
    ensures
        r@ == spec_code_str(seq!["IN"], CLASS_IN, c),
{
    let table: [&'static str; 1] = ["IN"];
    code2str(table.as_slice(), CLASS_IN, c)
}

/// The name of a record type.
pub fn type2str(c: u16) -> (r: &'static str)
    ensures
        r@ == spec_code_str(seq!["A"], TYPE_A, c),
{
    let table: [&'static str; 1] = ["A"];
    code2str(table.as_slice(), TYPE_A, c)
}

/// Why a datagram was not even worth a header: too short to hold one, or
/// marked truncated.
#[derive(Debug)]
pub enum ParseError {
    Invalid,
    Truncated,
}

/// The message id.
pub open spec fn spec_id(b: Seq<u8>) -> u16 {
    spec_u16be(b[0], b[1])
}

/// The question count.
pub open spec fn spec_qd(b: Seq<u8>) -> u16 {
    spec_u16be(b[4], b[5])
}

/// The answer count.
pub open spec fn spec_an(b: Seq<u8>) -> u16 {
    spec_u16be(b[6], b[7])
}

/// The response bit.
pub open spec fn spec_qr(b: Seq<u8>) -> bool {
    spec_get_bit(b[2], 7)
}

/// The truncation bit.
pub open spec fn spec_tc(b: Seq<u8>) -> bool {
    spec_get_bit(b[2], 1)
}

/// The recursion-desired bit.
pub open spec fn spec_rd(b: Seq<u8>) -> bool {
    spec_get_bit(b[2], 0)
}

/// The recursion-available bit.
pub open spec fn spec_ra(b: Seq<u8>) -> bool {
    spec_get_bit(b[3], 7)
}

/// The reserved bit.
pub open spec fn spec_z(b: Seq<u8>) -> bool {
    spec_get_bit(b[3], 6)
}

/// The opcode field.
pub open spec fn spec_opcode(b: Seq<u8>) -> u8 {
    spec_get_bits(b[2], 3, 4)
}

/// The response-code field.
pub open spec fn spec_rcode(b: Seq<u8>) -> u8 {
    spec_get_bits(b[3], 0, 4)
}

/// The label sequence of the question name starting at offset `o`: each
/// label is length-prefixed, a zero length ends the name. `None` when a
/// length would run past the end of the message.
pub open spec fn spec_labels(m: Seq<u8>, o: int) -> Option<(Seq<Seq<u8>>, int)>
    decreases m.len() - o,
{
    if o + 1 > m.len() || o < 0 {
        None
    } else {
        let l = m[o] as int;
        if l == 0 {
            Some((Seq::empty(), o + 1))
        } else if o + 1 + l > m.len() {
            None
        } else {
            match spec_labels(m, o + 1 + l) {
                None => None,
                Some((rest, end)) => Some((seq![m.subrange(o + 1, o + 1 + l)] + rest, end)),
            }
        }
    }
}

/// The views of a parsed label list.
pub open spec fn labels_view(v: Seq<Vec<u8>>) -> Seq<Seq<u8>> {
    v.map_values(|x: Vec<u8>| x@)
}

/// The question type read right after the name that ends at `e`.
pub open spec fn spec_qtype(m: Seq<u8>, e: int) -> u16 {
    spec_u16be(m[e], m[e + 1])
}

/// The question class read after the type.
pub open spec fn spec_qclass(m: Seq<u8>, e: int) -> u16 {
    spec_u16be(m[e + 2], m[e + 3])
}

/// What parsing the single question found.
pub enum QueryOutcome {
    /// The opcode is not a standard query.
    BadOpcode,
    /// The message carries no question.
    NoQuestion,
    /// A label length runs past the end of the message: drop the datagram.
    Overrun,
    /// A question, but not for an A record in the IN class; `end` is the
    /// offset just past the question.
    NotAIn { end: usize },
    /// An `A`/`IN` question with the parsed labels; `end` is the offset
    /// just past the question.
    Question { name: Vec<Vec<u8>>, end: usize },
}

/// One DNS message held in an owned buffer; `len` bytes of it are the
/// datagram, the rest is room for the response to grow into.
pub struct Msg {
    buf: Vec<u8>,
    len: usize,
}

impl Msg {
    /// The whole buffer.
    pub closed spec fn bytes(&self) -> Seq<u8> {
        self.buf@
    }

    /// The datagram length.
    pub closed spec fn spec_len(&self) -> int {
        self.len as int
    }

    /// The datagram itself.
    pub open spec fn msg_region(&self) -> Seq<u8> {
        self.bytes().subrange(0, self.spec_len())
    }

    pub open spec fn wf(&self) -> bool {
        12 <= self.spec_len() <= self.bytes().len()
    }

    /// Accept a datagram of `len` bytes sitting in `buf`: it must at least
    /// hold a header and must not be marked truncated.
    pub fn try_from(buf: Vec<u8>, len: usize) -> (r: Result<Msg, ParseError>)
        ensures
            match r {
                Ok(m) => m.wf() && m.bytes() == buf@ && m.spec_len() == len && !spec_tc(buf@),
                Err(e) => match e {
                    ParseError::Invalid => len < 12 || len > buf@.len(),
                    ParseError::Truncated => 12 <= len <= buf@.len() && spec_tc(buf@),
                },
            },
            r is Ok <==> (12 <= len <= buf@.len() && !spec_tc(buf@)),
    {
        if len < DNS_HEADER_LEN || len > buf.len() {
            return Err(ParseError::Invalid);
        }
        let m = Msg { buf, len };
        if m.tc() {
            return Err(ParseError::Truncated);
        }
        Ok(m)
    }

    /// How much room the buffer has in all, question and growth space.
    pub fn buf_len(&self) -> (r: usize)
        ensures
            r == self.bytes().len(),
    {
        self.buf.len()
    }

    /// Give the buffer back, response and all.
    pub fn into_bytes(self) -> (r: Vec<u8>)
        ensures
            r@ == self.bytes(),
    {
        self.buf
    }

    pub fn id(&self) -> (r: u16)
        requires
            self.wf(),
        ensures
            r == spec_id(self.bytes()),
    {
        crate::bits::u16be2(self.buf[0], self.buf[1])
    }

    pub fn qd_count(&self) -> (r: u16)
        requires
            self.wf(),
        ensures
            r == spec_qd(self.bytes()),
    {
        crate::bits::u16be2(self.buf[4], self.buf[5])
    }

    pub fn an_count(&self) -> (r: u16)
        requires
            self.wf(),
        ensures
            r == spec_an(self.bytes()),
    {
        crate::bits::u16be2(self.buf[6], self.buf[7])
    }

    pub fn ns_count(&self) -> (r: u16)
        requires
            self.wf(),
        ensures
            r == spec_u16be(self.bytes()[8], self.bytes()[9]),
    {
        crate::bits::u16be2(self.buf[8], self.buf[9])
    }

    pub fn ar_count(&self) -> (r: u16)
        requires
            self.wf(),
        ensures
            r == spec_u16be(self.bytes()[10], self.bytes()[11]),
    {
        crate::bits::u16be2(self.buf[10], self.buf[11])
    }

    /// The flag bit at byte `o_byte`, bit `o_bit` of the header.
    pub fn get_flag(&self, o_byte: u8, o_bit: u8) -> (r: bool)
        requires
            self.wf(),
            o_byte < 12,
            o_bit < 8,
        ensures
            r == spec_get_bit(self.bytes()[o_byte as int], o_bit),
    {
        crate::bits::get_bit(self.buf[o_byte as usize], o_bit)
    }

    pub fn tc(&self) -> (r: bool)
        requires
            self.wf(),
        ensures
            r == spec_tc(self.bytes()),
    {
        self.get_flag(2, 1)
    }

    pub fn rd(&self) -> (r: bool)
        requires
            self.wf(),
        ensures
            r == spec_rd(self.bytes()),
    {
        self.get_flag(2, 0)
    }

    pub fn z(&self) -> (r: bool)
        requires
            self.wf(),
        ensures
            r == spec_z(self.bytes()),
    {
        self.get_flag(3, 6)
    }

    pub fn opcode(&self) -> (r: u8)
        requires
            self.wf(),
        ensures
            r == spec_opcode(self.bytes()),
    {
        crate::bits::get_bits(self.buf[2], 3, 4)
    }

    pub fn rcode(&self) -> (r: u8)
        requires
            self.wf(),
        ensures
            r == spec_rcode(self.bytes()),
    {
        crate::bits::get_bits(self.buf[3], 0, 4)
    }

    /// Mark the message as a response.
    pub fn set_response(&mut self)
        requires
            old(self).wf(),
        ensures
            final (self).wf(),
            final (self).spec_len() == old(self).spec_len(),
            final (self).bytes() == old(self).bytes().update(
                2,
                spec_set_bit(old(self).bytes()[2], 7),
            ),
    {
        let mut b = self.buf[2];
        crate::bits::set_bit(&mut b, 7);
        self.buf[2] = b;
    }

    /// Advertise recursion as available.
    pub fn set_ra(&mut self)
        requires
            old(self).wf(),
        ensures
            final (self).wf(),
            final (self).spec_len() == old(self).spec_len(),
            final (self).bytes() == old(self).bytes().update(
                3,
                spec_set_bit(old(self).bytes()[3], 7),
            ),
    {
        let mut b = self.buf[3];
        crate::bits::set_bit(&mut b, 7);
        self.buf[3] = b;
    }

    /// Set the response code.
    pub fn set_rcode(&mut self, c: u8)
        requires
            old(self).wf(),
            c < 16,
        ensures
            final (self).wf(),
            final (self).spec_len() == old(self).spec_len(),
            final (self).bytes() == old(self).bytes().update(
                3,
                spec_set_bits(old(self).bytes()[3], 0, 4, c),
            ),
    {
        let mut b = self.buf[3];
        crate::bits::set_bits(&mut b, 0, 4, c);
        self.buf[3] = b;
    }
}

/// The header after the response fields are filled in: response bit set,
/// recursion mirrored, the given response code, and the four section
/// counts.
pub open spec fn spec_header_resp(
    b: Seq<u8>,
    rcode: u8,
    qd: u16,
    an: u16,
    ns: u16,
    ar: u16,
) -> Seq<u8> {
    let b2 = spec_set_bit(b[2], 7);
    let b3a = if spec_rd(b) {
        spec_set_bit(b[3], 7)
    } else {
        b[3]
    };
    let b3 = spec_set_bits(b3a, 0, 4, rcode);
    b.update(2, b2).update(3, b3).update(4, spec_be16(qd)[0]).update(5, spec_be16(qd)[1]).update(
        6,
        spec_be16(an)[0],
    ).update(7, spec_be16(an)[1]).update(8, spec_be16(ns)[0]).update(9, spec_be16(ns)[1]).update(
        10,
        spec_be16(ar)[0],
    ).update(11, spec_be16(ar)[1])
}

impl Msg {
    /// Fill in the whole response header: response bit, mirrored
    /// recursion, response code, and section counts.
    pub fn set_response_header(&mut self, rcode: u8, qd: u16, an: u16, ns: u16, ar: u16)
        requires
            old(self).wf(),
            rcode < 16,
        ensures
            final (self).wf(),
            final (self).spec_len() == old(self).spec_len(),
            final (self).bytes() == spec_header_resp(old(self).bytes(), rcode, qd, an, ns, ar),
    {
        self.set_response();
        if self.rd() {
            self.set_ra();
        }
        self.set_rcode(rcode);
        let (qh, ql) = crate::bits::be16(qd);
        let (ah, al) = crate::bits::be16(an);
        let (nh, nl) = crate::bits::be16(ns);
        let (rh, rl) = crate::bits::be16(ar);
        self.buf[4] = qh;
        self.buf[5] = ql;
        self.buf[6] = ah;
        self.buf[7] = al;
        self.buf[8] = nh;
        self.buf[9] = nl;
        self.buf[10] = rh;
        self.buf[11] = rl;
        proof {
            assert(spec_rd(old(self).bytes()) == spec_get_bit(
                old(self).bytes().update(2, spec_set_bit(old(self).bytes()[2], 7))[2],
                0,
            )) by {
                let x = old(self).bytes()[2];
                assert(spec_get_bit(x, 0) == spec_get_bit(spec_set_bit(x, 7), 0)) by (bit_vector);
            }
            assert(self.bytes() =~= spec_header_resp(old(self).bytes(), rcode, qd, an, ns, ar));
        }
    }

    /// Parse the single question: header checks first, then the label
    /// walk, then the question type and class.
    pub fn parse_question(&self) -> (q: QueryOutcome)
        requires
            self.wf(),
        ensures
            ({
                let m = self.msg_region();
                match q {
                    QueryOutcome::BadOpcode => spec_opcode(m) != 0,
                    QueryOutcome::NoQuestion => spec_opcode(m) == 0 && spec_qd(m) == 0,
                    QueryOutcome::Overrun => {
                        &&& spec_opcode(m) == 0
                        &&& spec_qd(m) >= 1
                        &&& (spec_labels(m, 12) is None || spec_labels(m, 12)->Some_0.1 + 4
                            > m.len())
                    },
                    QueryOutcome::NotAIn { end } => {
                        let pr = spec_labels(m, 12)->Some_0;
                        &&& spec_opcode(m) == 0
                        &&& spec_qd(m) >= 1
                        &&& spec_labels(m, 12) is Some
                        &&& pr.1 + 4 <= m.len()
                        &&& end == pr.1 + 4
                        &&& !(spec_qtype(m, pr.1) == TYPE_A && spec_qclass(m, pr.1) == CLASS_IN)
                    },
                    QueryOutcome::Question { name, end } => {
                        let pr = spec_labels(m, 12)->Some_0;
                        &&& spec_opcode(m) == 0
                        &&& spec_qd(m) >= 1
                        &&& spec_labels(m, 12) is Some
                        &&& pr.1 + 4 <= m.len()
                        &&& end == pr.1 + 4
                        &&& labels_view(name@) == pr.0
                        &&& spec_qtype(m, pr.1) == TYPE_A
                        &&& spec_qclass(m, pr.1) == CLASS_IN
                        &&& 17 <= end <= m.len()
                    },
                }
            }),
    {
        let ghost m = self.msg_region();
        proof {
            assert(m[2] == self.bytes()[2]);
            assert(m[4] == self.bytes()[4]);
            assert(m[5] == self.bytes()[5]);
        }
        if self.opcode() != OPCODE_QUERY {
            return QueryOutcome::BadOpcode;
        }
        if self.qd_count() < 1 {
            return QueryOutcome::NoQuestion;
        }
        let mut name: Vec<Vec<u8>> = Vec::new();
        let mut offset: usize = DNS_HEADER_LEN;
        loop
            invariant_except_break
                self.wf(),
                m == self.msg_region(),
                spec_opcode(m) == 0,
                spec_qd(m) >= 1,
                12 <= offset <= self.spec_len(),
                spec_labels(m, 12) == match spec_labels(m, offset as int) {
                    Some(pr) => Some((labels_view(name@) + pr.0, pr.1)),
                    None => None::<(Seq<Seq<u8>>, int)>,
                },
            ensures
                self.wf(),
                m == self.msg_region(),
                spec_opcode(m) == 0,
                spec_qd(m) >= 1,
                13 <= offset <= self.spec_len(),
                spec_labels(m, 12) == Some((labels_view(name@), offset as int)),
            decreases self.spec_len() - offset,
        {
            if offset >= self.len {
                proof {
                    assert(spec_labels(m, offset as int) is None);
                }
                return QueryOutcome::Overrun;
            }
            let label_len = self.buf[offset] as usize;
            proof {
                assert(m[offset as int] == self.bytes()[offset as int]);
            }
            if label_len == 0 {
                proof {
                    assert(spec_labels(m, offset as int) == Some(
                        (Seq::<Seq<u8>>::empty(), offset + 1),
                    ));
                    assert(labels_view(name@) + Seq::<Seq<u8>>::empty() =~= labels_view(name@));
                }
                offset = offset + 1;
                break ;
            }
            if label_len > self.len - offset - 1 {
                proof {
                    assert(spec_labels(m, offset as int) is None);
                }
                return QueryOutcome::Overrun;
            }
            let mut label: Vec<u8> = Vec::new();
            let mut k: usize = 0;
            while k < label_len
                invariant
                    self.wf(),
                    m == self.msg_region(),
                    offset + 1 + label_len <= self.spec_len(),
                    k <= label_len,
                    label@ == m.subrange(offset + 1, offset + 1 + k),
                decreases label_len - k,
            {
                label.push(self.buf[offset + 1 + k]);
                proof {
                    assert(self.bytes()[offset + 1 + k] == m[offset + 1 + k]);
                    assert(label@ =~= m.subrange(offset + 1, offset + 1 + k + 1));
                }
                k += 1;
            }
            proof {
                let o = offset as int;
                let l = label_len as int;
                assert(spec_labels(m, o) == match spec_labels(m, o + 1 + l) {
                    None => None::<(Seq<Seq<u8>>, int)>,
                    Some(pr) => Some((seq![m.subrange(o + 1, o + 1 + l)] + pr.0, pr.1)),
                });
                if spec_labels(m, o + 1 + l) is Some {
                    let pr = spec_labels(m, o + 1 + l)->Some_0;
                    assert(labels_view(name@.push(label)) =~= labels_view(name@) + seq![label@]);
                    assert(labels_view(name@) + (seq![m.subrange(o + 1, o + 1 + l)] + pr.0) =~= (
                    labels_view(name@) + seq![m.subrange(o + 1, o + 1 + l)]) + pr.0);
                }
            }
            name.push(label);
            offset = offset + 1 + label_len;
        }
        // the label walk ended on the zero length: the name is complete
        if self.len - offset < 4 {
            return QueryOutcome::Overrun;
        }
        let qtype = crate::bits::u16be2(self.buf[offset], self.buf[offset + 1]);
        let qclass = crate::bits::u16be2(self.buf[offset + 2], self.buf[offset + 3]);
        proof {
            assert(m[offset as int] == self.bytes()[offset as int]);
            assert(m[offset + 1] == self.bytes()[offset + 1]);
            assert(m[offset + 2] == self.bytes()[offset + 2]);
            assert(m[offset + 3] == self.bytes()[offset + 3]);
        }
        if qtype != TYPE_A || qclass != CLASS_IN {
            return QueryOutcome::NotAIn { end: offset + 4 };
        }
        QueryOutcome::Question { name, end: offset + 4 }
    }
}

/// A complete A answer record as it goes on the wire: a compression
/// pointer to the question name at offset 12, type A, class IN, the time
/// to live, and the four address octets.
pub open spec fn spec_a_record(addr: u32, ttl: u32) -> Seq<u8> {
    seq![0xc0u8, 0x0cu8, 0u8, 1u8, 0u8, 1u8] + spec_be32(ttl) + seq![0u8, 4u8] + spec_be32(addr)
}

/// The buffer after an answer was built: the response header with one
/// answer and no error, and the A record laid down just after the
/// question.
pub open spec fn spec_answer(b: Seq<u8>, end: int, addr: u32, ttl: u32) -> Seq<u8> {
    let h = spec_header_resp(b, 0, 1, 1, 0, 0);
    Seq::new(
        b.len(),
        |i: int|
            if end <= i < end + 16 {
                spec_a_record(addr, ttl)[i - end]
            } else {
                h[i]
            },
    )
}

impl Msg {
    /// Build a rejection or decline in place: mark the message as a
    /// response and set the response code, leaving everything else as the
    /// query sent it. Returns the response length.
    pub fn respond_code(&mut self, rcode: u8) -> (r: usize)
        requires
            old(self).wf(),
            rcode < 16,
        ensures
            final (self).wf(),
            final (self).spec_len() == old(self).spec_len(),
            r == old(self).spec_len(),
            final (self).bytes() == old(self).bytes().update(
                2,
                spec_set_bit(old(self).bytes()[2], 7),
            ).update(3, spec_set_bits(old(self).bytes()[3], 0, 4, rcode)),
    {
        self.set_response();
        self.set_rcode(rcode);
        self.len
    }

    /// Decline to answer: mark the response bit, mirror recursion, change
    /// nothing else. Returns the response length.
    pub fn respond_decline(&mut self) -> (r: usize)
        requires
            old(self).wf(),
        ensures
            final (self).wf(),
            final (self).spec_len() == old(self).spec_len(),
            r == old(self).spec_len(),
            final (self).bytes() == spec_decline(old(self).bytes()),
    {
        self.set_response();
        proof {
            let x = old(self).bytes()[2];
            assert(spec_get_bit(spec_set_bit(x, 7), 0) == spec_get_bit(x, 0)) by (bit_vector);
        }
        if self.rd() {
            self.set_ra();
        }
        self.len
    }

    /// Build the positive answer in place: response header with one
    /// answer, then the A record appended just after the question.
    /// Returns the response length.
    pub fn respond_answer(&mut self, end: usize, addr: u32, ttl: u32) -> (r: usize)
        requires
            old(self).wf(),
            12 <= end,
            end + 16 <= old(self).bytes().len(),
        ensures
            final (self).wf(),
            final (self).spec_len() == old(self).spec_len(),
            r == end + 16,
            final (self).bytes() == spec_answer(old(self).bytes(), end as int, addr, ttl),
    {
        let room = self.buf.len();
        proof {
            assert(end + 16 <= room);
        }
        self.set_response_header(RCODE_NOERROR, 1, 1, 0, 0);
        self.buf[end] = 0xc0;
        self.buf[end + 1] = 0x0c;
        self.buf[end + 2] = 0;
        self.buf[end + 3] = 1;
        self.buf[end + 4] = 0;
        self.buf[end + 5] = 1;
        let t = crate::bits::be32(ttl);
        self.buf[end + 6] = t[0];
        self.buf[end + 7] = t[1];
        self.buf[end + 8] = t[2];
        self.buf[end + 9] = t[3];
        self.buf[end + 10] = 0;
        self.buf[end + 11] = 4;
        let a = crate::bits::be32(addr);
        self.buf[end + 12] = a[0];
        self.buf[end + 13] = a[1];
        self.buf[end + 14] = a[2];
        self.buf[end + 15] = a[3];
        proof {
            assert(self.bytes() =~= spec_answer(old(self).bytes(), end as int, addr, ttl));
        }
        end + 16
    }
}

/// A rejection response: the query with the response bit set and the
/// response code replaced.
pub open spec fn spec_reject(b: Seq<u8>, rcode: u8) -> Seq<u8> {
    b.update(2, spec_set_bit(b[2], 7)).update(3, spec_set_bits(b[3], 0, 4, rcode))
}

/// A decline response: the query with the response bit set and recursion
/// mirrored, nothing else changed.
pub open spec fn spec_decline(b: Seq<u8>) -> Seq<u8> {
    let b2 = b.update(2, spec_set_bit(b[2], 7));
    if spec_rd(b) {
        b2.update(3, spec_set_bit(b[3], 7))
    } else {
        b2
    }
}

/// A well-formed `A`/`IN` query answered with an address gets a response
/// that keeps the query's id and question, says "response, one answer, no
/// error", and carries one A record made of the compression pointer
/// `0xc00c`, type A, class IN, the time to live, a four-byte data length,
/// and the address octets.
pub proof fn lemma_dns_response_correct(b: Seq<u8>, end: int, addr: u32, ttl: u32)
    requires
        b.len() >= 12,
        12 <= end,
        end + 16 <= b.len(),
    ensures
        ({
            let r = spec_answer(b, end, addr, ttl);
            &&& r.len() == b.len()
            &&& spec_id(r) == spec_id(b)
            &&& spec_qr(r)
            &&& spec_qd(r) == 1
            &&& spec_an(r) == 1
            &&& spec_rcode(r) == 0
            &&& r.subrange(12, end) == b.subrange(12, end)
            &&& r[end] == 0xc0
            &&& r[end + 1] == 0x0c
            &&& r[end + 2] == 0 && r[end + 3] == 1
            &&& r[end + 4] == 0 && r[end + 5] == 1
            &&& r.subrange(end + 6, end + 10) == spec_be32(ttl)
            &&& r[end + 10] == 0 && r[end + 11] == 4
            &&& r.subrange(end + 12, end + 16) == spec_be32(addr)
        }),
{
    let r = spec_answer(b, end, addr, ttl);
    let x = b[2];
    assert(spec_get_bit(spec_set_bit(x, 7), 7)) by (bit_vector);
    let y = b[3];
    let ya = spec_set_bit(y, 7);
    assert(spec_get_bits(spec_set_bits(y, 0, 4, 0), 0, 4) == 0) by (bit_vector);
    assert(spec_get_bits(spec_set_bits(ya, 0, 4, 0), 0, 4) == 0) by (bit_vector);
    assert(spec_u16be(0u8, 1u8) == 1) by (bit_vector);
    assert(spec_u16be((1u16 >> 8) as u8, 1u16 as u8) == 1) by (bit_vector);
    assert(r.subrange(12, end) =~= b.subrange(12, end));
    assert(r.subrange(end + 6, end + 10) =~= spec_be32(ttl));
    assert(r.subrange(end + 12, end + 16) =~= spec_be32(addr));
}

/// A rejection keeps the query's id, sets the response bit, and carries
/// exactly the response code it was built with.
pub proof fn lemma_dns_rejection(b: Seq<u8>, rcode: u8)
    requires
        b.len() >= 12,
        rcode < 16,
    ensures
        ({
            let r = spec_reject(b, rcode);
            &&& r.len() == b.len()
            &&& spec_id(r) == spec_id(b)
            &&& spec_qr(r)
            &&& spec_rcode(r) == rcode
        }),
{
    let x = b[2];
    assert(spec_get_bit(spec_set_bit(x, 7), 7)) by (bit_vector);
    let y = b[3];
    assert(rcode < 16 ==> spec_get_bits(spec_set_bits(y, 0, 4, rcode), 0, 4) == rcode)
        by (bit_vector);
}

} // verus!
