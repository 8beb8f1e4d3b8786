//! The fake-DNS resolution pipeline: parse one datagram with the DNS
//! codec, consult the address pool for the question name, and build the
//! response in place. The UDP socket work stays outside; this module is
//! the whole per-datagram computation.

use crate::dns::{
    spec_answer, spec_decline, spec_labels, spec_opcode, spec_qclass, spec_qd, spec_qtype,
    spec_reject, spec_tc, Msg, QueryOutcome, RCODE_FORMERR, RCODE_NOTIMP,
};
use crate::pool::{get_post, FakePool};
use vstd::prelude::*;

verus! {

/// The labels of a name joined with `.` separators; no trailing dot.
pub open spec fn spec_join(ls: Seq<Seq<u8>>) -> Seq<u8>
    decreases ls.len(),
{
    if ls.len() == 0 {
        Seq::empty()
    } else if ls.len() == 1 {
        ls[0]
    } else {
        spec_join(ls.drop_last()) + seq![46u8] + ls.last()
    }
}

/// Join parsed labels into one dotted name.
pub fn labels_join(labels: &Vec<Vec<u8>>) -> (r: Vec<u8>)
    ensures
        r@ == spec_join(crate::dns::labels_view(labels@)),
{
    let ghost lv = crate::dns::labels_view(labels@);
    let mut r: Vec<u8> = Vec::new();
    let mut i: usize = 0;
    while i < labels.len()
        invariant
            i <= labels@.len(),
            lv == crate::dns::labels_view(labels@),
            lv.len() == labels@.len(),
            forall|j: int| 0 <= j < labels@.len() ==> lv[j] == (#[trigger] labels@[j])@,
            r@ == spec_join(lv.take(i as int)),
        decreases labels@.len() - i,
    {
        if i > 0 {
            r.push(46);
        }
        let ghost mid = r@;
        let lab = &labels[i];
        let mut k: usize = 0;
        while k < lab.len()
            invariant
                k <= lab@.len(),
                r@ == mid + lab@.subrange(0, k as int),
            decreases lab@.len() - k,
        {
            r.push(lab[k]);
            proof {
                assert(r@ =~= mid + lab@.subrange(0, k + 1));
            }
            k += 1;
        }
        proof {
            assert(lab@.subrange(0, lab@.len() as int) =~= lab@);
            assert(lv.take(i + 1).drop_last() =~= lv.take(i as int));
            assert(lv.take(i + 1).last() == lv[i as int]);
            if i == 0 {
                assert(r@ =~= spec_join(lv.take(1)));
            } else {
                assert(r@ =~= spec_join(lv.take(i as int)) + seq![46u8] + lv[i as int]);
            }
        }
        i += 1;
    }
    proof {
        assert(lv.take(lv.len() as int) =~= lv);
    }
    r
}

/// What one datagram did to the pool and what goes back on the wire:
/// short or truncated datagrams and overruns are dropped without a reply;
/// a bad opcode or a question that is not `A`/`IN` is answered `NotImp`; a
/// missing question is answered `FormErr`; a dotted name that is not
/// valid UTF-8 is declined; a good question is answered with the pool's
/// address for the dotted name and a time to live of one second. Only the
/// good question touches the pool.
pub open spec fn fake_resolve_post(
    pre: FakePool,
    b: Seq<u8>,
    len: int,
    now: u64,
    post: FakePool,
    r: Option<(Seq<u8>, int)>,
) -> bool {
    let m = b.subrange(0, len);
    if !(12 <= len <= b.len()) || spec_tc(b) {
        post == pre && r is None
    } else if spec_opcode(m) != 0 {
        post == pre && r == Some((spec_reject(b, RCODE_NOTIMP), len))
    } else if spec_qd(m) == 0 {
        post == pre && r == Some((spec_reject(b, RCODE_FORMERR), len))
    } else if spec_labels(m, 12) is None || spec_labels(m, 12)->Some_0.1 + 4 > len {
        post == pre && r is None
    } else {
        let pr = spec_labels(m, 12)->Some_0;
        let end = pr.1 + 4;
        if !(spec_qtype(m, pr.1) == 1 && spec_qclass(m, pr.1) == 1) {
            post == pre && r == Some((spec_reject(b, RCODE_NOTIMP), len))
        } else if !crate::bits::is_utf8(spec_join(pr.0)) {
            post == pre && r == Some((spec_decline(b), len))
        } else if end + 16 > b.len() {
            post == pre && r is None
        } else {
            exists|a: u32|
                #![auto]
                get_post(pre, spec_join(pr.0), now, post, a) && r == Some(
                    (spec_answer(b, end, a, 1), end + 16),
                )
        }
    }
}

/// Resolve one datagram against the pool: parse it, answer the single
/// `A`/`IN` question from the pool, and hand back the response bytes with
/// their length. `None` means the datagram is dropped.
pub fn fake_resolve(pool: &mut FakePool, buf: Vec<u8>, len: usize, now: u64) -> (r: Option<
    (Vec<u8>, usize),
>)
    requires
        old(pool).wf(),
    ensures
        final (pool).wf(),
        fake_resolve_post(
            *old(pool),
            buf@,
            len as int,
            now,
            *final (pool),
            match r {
                Some(p) => Some((p.0@, p.1 as int)),
                None => None,
            },
        ),
{
    let ghost b = buf@;
    let mut msg = match Msg::try_from(buf, len) {
        Ok(m) => m,
        Err(_) => {
            return None;
        },
    };
    let q = msg.parse_question();
    match q {
        QueryOutcome::BadOpcode => {
            let l = msg.respond_code(RCODE_NOTIMP);
            Some((msg.into_bytes(), l))
        },
        QueryOutcome::NoQuestion => {
            let l = msg.respond_code(RCODE_FORMERR);
            Some((msg.into_bytes(), l))
        },
        QueryOutcome::Overrun => None,
        QueryOutcome::NotAIn { end: _ } => {
            let l = msg.respond_code(RCODE_NOTIMP);
            Some((msg.into_bytes(), l))
        },
        QueryOutcome::Question { name, end } => {
            let joined = labels_join(&name);
            // the resolver adapter works on names as text
            if !crate::bits::utf8_check(joined.as_slice()) {
                let l = msg.respond_decline();
                return Some((msg.into_bytes(), l));
            }
            if msg.buf_len() - end < 16 {
                return None;
            }
            let a = pool.get(joined.as_slice(), now);
            let l = msg.respond_answer(end, a, 1);
            Some((msg.into_bytes(), l))
        },
    }
}

} // verus!
