//! The camouflage header for the tunnel handshake: an operator-supplied
//! text, trimmed line by line, re-joined with `\r\n` and terminated with
//! an extra `\r\n`, so that on the wire the handshake opens like a plain
//! HTTP exchange until the blank line. The header handed out is always
//! clean: its first `\r\n\r\n` is its end, which is what the peer's
//! sentinel search relies on.

use crate::psk::spec_trim;
use crate::socks5::spec_split;
use crate::tunnel::{eoh_at, is_clean_header};
use vstd::prelude::*;

verus! {

/// The trimmed, nonempty lines each followed by `\r\n`.
pub open spec fn header_lines(ls: Seq<Seq<u8>>) -> Seq<u8>
    decreases ls.len(),
{
    if ls.len() == 0 {
        Seq::empty()
    } else {
        header_lines(ls.drop_last()) + (if spec_trim(ls.last()).len() == 0 {
            Seq::<u8>::empty()
        } else {
            spec_trim(ls.last()) + seq![13u8, 10u8]
        })
    }
}

/// The header an operator's file builds: its lines trimmed and re-joined
/// with `\r\n`, then one extra `\r\n`.
pub open spec fn header_of(content: Seq<u8>) -> Seq<u8> {
    header_lines(spec_split(content, 10)) + seq![13u8, 10u8]
}

/// Decide at run time whether a header is clean: at least the bare
/// `\r\n\r\n`, ending in the sentinel and containing it nowhere earlier.
pub fn is_clean_header_check(h: &[u8]) -> (r: bool)
    ensures
        r == is_clean_header(h@),
{
    let n = h.len();
    if n < 4 {
        return false;
    }
    if !(h[n - 4] == 13 && h[n - 3] == 10 && h[n - 2] == 13 && h[n - 1] == 10) {
        return false;
    }
    let mut j: usize = 0;
    while j < n - 4
        invariant
            n == h@.len(),
            n >= 4,
            j <= n - 4,
            forall|i: int| 0 <= i < j ==> !eoh_at(h@, i),
        decreases n - j,
    {
        if h[j] == 13 && h[j + 1] == 10 && h[j + 2] == 13 && h[j + 3] == 10 {
            proof {
                assert(eoh_at(h@, j as int));
            }
            return false;
        }
        j += 1;
    }
    true
}

/// Build the handshake header from a header file's contents. The result
/// is the joined form of the file whenever that form is clean; a file
/// whose joined form is not (one with a blank line between two used
/// lines, say) falls back to the minimal header `\r\n\r\n`.
pub fn build_fake_header(content: &[u8]) -> (r: Vec<u8>)
    ensures
        is_clean_header(r@),
        r@ == header_of(content@) || !is_clean_header(header_of(content@)),
{
    let lines = crate::socks5::split_bytes(content, 10);
    let ghost lv = crate::dns::labels_view(lines@);
    let mut out: Vec<u8> = Vec::new();
    let mut i: usize = 0;
    while i < lines.len()
        invariant
            i <= lines@.len(),
            lv == crate::dns::labels_view(lines@),
            lv.len() == lines@.len(),
            forall|j: int| 0 <= j < lines@.len() ==> lv[j] == (#[trigger] lines@[j])@,
            out@ == header_lines(lv.take(i as int)),
        decreases lines@.len() - i,
    {
        let t = crate::psk::trim_ascii(lines[i].as_slice());
        proof {
            assert(lv.take(i + 1).drop_last() =~= lv.take(i as int));
            assert(lv.take(i + 1).last() == lv[i as int]);
        }
        if t.len() > 0 {
            crate::bits::append_bytes(&mut out, t.as_slice());
            out.push(13);
            out.push(10);
            proof {
                assert(out@ =~= header_lines(lv.take(i as int)) + (spec_trim(lv[i as int]) + seq![
                    13u8,
                    10u8,
                ]));
            }
        } else {
            proof {
                assert(out@ =~= header_lines(lv.take(i as int)) + Seq::<u8>::empty());
            }
        }
        i += 1;
    }
    out.push(13);
    out.push(10);
    proof {
        assert(lv.take(lv.len() as int) =~= lv);
        assert(out@ =~= header_of(content@));
    }
    if is_clean_header_check(out.as_slice()) {
        out
    } else {
        let mut fallback: Vec<u8> = Vec::new();
        fallback.push(13);
        fallback.push(10);
        fallback.push(13);
        fallback.push(10);
        proof {
            assert(eoh_at(fallback@, 0));
        }
        fallback
    }
}

} // verus!
