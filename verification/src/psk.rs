//! Pre-shared-key handling: mint a key and render it in unpadded base64,
//! and read a PSK file's contents back into key bytes. Reading and
//! writing the file itself stays outside; this is the encoding logic.

use base64::Engine;
use vstd::prelude::*;

verus! {

/// What base64 with the standard alphabet and no padding encodes a byte
/// string to; a function of the bytes alone.
pub uninterp spec fn b64_of(bytes: Seq<u8>) -> Seq<u8>;

/// A byte of the standard base64 alphabet: letters, digits, `+` and `/`.
pub open spec fn is_b64_byte(c: u8) -> bool {
    (65 <= c <= 90) || (97 <= c <= 122) || (48 <= c <= 57) || c == 43 || c == 47
}

/// Relies on base64's `STANDARD_NO_PAD` engine: encoding is
/// deterministic, emits four bytes for every three of input, rounded up,
/// and every output byte is in the standard alphabet — no padding and no
/// whitespace.
#[verifier::external_body]
pub(crate) fn b64_encode(b: &[u8]) -> (r: Vec<u8>)
    ensures
        r@ == b64_of(b@),
        r@.len() == (b@.len() * 4 + 2) / 3,
        forall|i: int| 0 <= i < r@.len() ==> is_b64_byte(#[trigger] r@[i]),
{
    base64::engine::general_purpose::STANDARD_NO_PAD.encode(b).into_bytes()
}

/// Relies on base64's `STANDARD_NO_PAD` engine: decoding accepts exactly
/// the canonical unpadded encodings (stray padding or trailing bits are
/// errors) and inverts the encoding, whose outputs it therefore pins to
/// a single origin.
#[verifier::external_body]
pub(crate) fn b64_decode(s: &[u8]) -> (r: Option<Vec<u8>>)
    ensures
        match r {
            Some(v) => b64_of(v@) == s@ && (forall|w: Seq<u8>| b64_of(w) == s@ ==> w == v@),
            None => forall|w: Seq<u8>| b64_of(w) != s@,
        },
{
    base64::engine::general_purpose::STANDARD_NO_PAD.decode(s).ok()
}

/// ASCII whitespace, as a PSK file may carry it around its one line.
pub open spec fn is_ws(c: u8) -> bool {
    c == 32 || c == 9 || c == 10 || c == 12 || c == 13
}

/// A byte string with its leading whitespace stripped.
pub open spec fn trim_front(s: Seq<u8>) -> Seq<u8>
    decreases s.len(),
{
    if s.len() > 0 && is_ws(s[0]) {
        trim_front(s.drop_first())
    } else {
        s
    }
}

/// A byte string with its trailing whitespace stripped.
pub open spec fn trim_back(s: Seq<u8>) -> Seq<u8>
    decreases s.len(),
{
    if s.len() > 0 && is_ws(s.last()) {
        trim_back(s.drop_last())
    } else {
        s
    }
}

/// A byte string with whitespace stripped from both ends.
pub open spec fn spec_trim(s: Seq<u8>) -> Seq<u8> {
    trim_back(trim_front(s))
}

fn is_ws_exec(c: u8) -> (r: bool)
    ensures
        r == is_ws(c),
{
    c == 32 || c == 9 || c == 10 || c == 12 || c == 13
}

/// Strip leading and trailing ASCII whitespace.
pub fn trim_ascii(s: &[u8]) -> (r: Vec<u8>)
    ensures
        r@ == spec_trim(s@),
{
    let n = s.len();
    let mut a: usize = 0;
    proof {
        assert(s@.skip(0) =~= s@);
    }
    while a < n && is_ws_exec(s[a])
        invariant
            n == s@.len(),
            a <= n,
            trim_front(s@) == trim_front(s@.skip(a as int)),
        decreases n - a,
    {
        proof {
            assert(s@.skip(a as int).drop_first() =~= s@.skip(a + 1));
        }
        a += 1;
    }
    proof {
        if a == n {
            assert(s@.skip(a as int) =~= Seq::<u8>::empty());
        }
        assert(trim_front(s@) == s@.subrange(a as int, n as int)) by {
            assert(s@.skip(a as int) =~= s@.subrange(a as int, n as int));
        }
    }
    let mut b: usize = n;
    while b > a && is_ws_exec(s[b - 1])
        invariant
            n == s@.len(),
            a <= b <= n,
            trim_back(s@.subrange(a as int, n as int)) == trim_back(
                s@.subrange(a as int, b as int),
            ),
        decreases b,
    {
        proof {
            let t = s@.subrange(a as int, b as int);
            assert(t.last() == s@[b - 1]);
            assert(t.drop_last() =~= s@.subrange(a as int, b - 1));
        }
        b -= 1;
    }
    let r = crate::bits::bytes_to_vec(vstd::slice::slice_subrange(s, a, b));
    proof {
        assert(r@ =~= s@.subrange(a as int, b as int));
        let t = s@.subrange(a as int, b as int);
        if b == a {
            assert(t =~= Seq::<u8>::empty());
        } else {
            assert(t.last() == s@[b - 1]);
        }
    }
    r
}

/// A byte string with no whitespace anywhere is its own trimmed form.
pub proof fn lemma_trim_no_ws(s: Seq<u8>)
    requires
        forall|i: int| 0 <= i < s.len() ==> !is_ws(#[trigger] s[i]),
    ensures
        spec_trim(s) == s,
{
    if s.len() > 0 {
        assert(!is_ws(s[0]));
        assert(!is_ws(s[s.len() - 1]));
    }
}

/// Mint a fresh pre-shared key: 32 random bytes rendered as 43 bytes of
/// unpadded base64, ready to be written to the PSK file.
pub fn gen_psk() -> (r: Vec<u8>)
    ensures
        r@.len() == 43,
        forall|i: int| 0 <= i < r@.len() ==> is_b64_byte(#[trigger] r@[i]),
        exists|k: Seq<u8>| #![auto] k.len() == crate::crypto::KEY_LEN && r@ == b64_of(k),
{
    let key = crate::crypto::gen_key();
    b64_encode(key.as_slice())
}

/// A generated PSK line always decodes back to a key: base64 output
/// carries no whitespace, so trimming leaves the line intact, and the key
/// it encodes witnesses that `init_cipher` cannot refuse it.
pub proof fn lemma_psk_round_trip(line: Seq<u8>, k: Seq<u8>)
    requires
        line == b64_of(k),
        k.len() == crate::crypto::KEY_LEN,
        forall|i: int| 0 <= i < line.len() ==> is_b64_byte(#[trigger] line[i]),
    ensures
        spec_trim(line) == line,
        exists|w: Seq<u8>|
            #![auto]
            w.len() == crate::crypto::KEY_LEN && b64_of(w) == spec_trim(line),
{
    assert forall|i: int| 0 <= i < line.len() implies !is_ws(#[trigger] line[i]) by {
        assert(is_b64_byte(line[i]));
    }
    lemma_trim_no_ws(line);
    assert(k.len() == crate::crypto::KEY_LEN && b64_of(k) == spec_trim(line));
}

/// Recover the key from a PSK file's contents: strip surrounding
/// whitespace, undo the base64, and accept exactly a key of the cipher's
/// key length.
pub fn init_cipher(contents: &[u8]) -> (r: Option<Vec<u8>>)
    ensures
        match r {
            Some(k) => k@.len() == crate::crypto::KEY_LEN && b64_of(k@) == spec_trim(contents@),
            None => forall|w: Seq<u8>|
                w.len() == crate::crypto::KEY_LEN ==> b64_of(w) != spec_trim(contents@),
        },
{
    let t = trim_ascii(contents);
    let k = match b64_decode(t.as_slice()) {
        Some(k) => k,
        None => {
            return None;
        },
    };
    if k.len() != crate::crypto::KEY_LEN {
        proof {
            assert forall|w: Seq<u8>|
                w.len() == crate::crypto::KEY_LEN implies b64_of(w) != spec_trim(contents@) by {
                if b64_of(w) == spec_trim(contents@) {
                    assert(w == k@);
                }
            }
        }
        return None;
    }
    Some(k)
}

} // verus!
