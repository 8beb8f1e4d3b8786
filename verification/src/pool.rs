//! The fake-IP address pool: a bidirectional registry between domain names
//! and offsets inside a configured CIDR block. Forward lookups mint stable
//! synthetic addresses; reverse lookups recover the name for an address and
//! refresh its liveness; garbage collection evicts entries whose last access
//! is older than a timeout.

use vstd::prelude::*;

verus! {

/// One live binding: a domain name, its offset inside the pool, and the
/// moment the binding was last confirmed by a reverse lookup.
pub struct PoolEntry {
    pub name: Vec<u8>,
    pub off: u32,
    pub last_access: u64,
}

/// Some entry of `s` carries the name `n`.
pub open spec fn has_name(s: Seq<PoolEntry>, n: Seq<u8>) -> bool {
    exists|i: int| 0 <= i < s.len() && (#[trigger] s[i]).name@ == n
}

/// The index of the entry carrying name `n` (unique under `entries_wf`).
pub open spec fn name_index(s: Seq<PoolEntry>, n: Seq<u8>) -> int {
    choose|i: int| 0 <= i < s.len() && (#[trigger] s[i]).name@ == n
}

/// Some entry of `s` occupies offset `o`.
pub open spec fn has_off(s: Seq<PoolEntry>, o: u32) -> bool {
    exists|i: int| 0 <= i < s.len() && (#[trigger] s[i]).off == o
}

/// The index of the entry at offset `o` (unique under `entries_wf`).
pub open spec fn off_index(s: Seq<PoolEntry>, o: u32) -> int {
    choose|i: int| 0 <= i < s.len() && (#[trigger] s[i]).off == o
}

/// The offset bound to name `n`.
pub open spec fn fwd_val(s: Seq<PoolEntry>, n: Seq<u8>) -> u32 {
    s[name_index(s, n)].off
}

/// The name and last-access time recorded at offset `o`.
pub open spec fn rev_val(s: Seq<PoolEntry>, o: u32) -> (Seq<u8>, u64) {
    (s[off_index(s, o)].name@, s[off_index(s, o)].last_access)
}

/// Entries are pairwise distinct in both name and offset, and every offset
/// fits under the pool mask.
pub open spec fn entries_wf(s: Seq<PoolEntry>, mask: u32) -> bool {
    &&& forall|i: int| 0 <= i < s.len() ==> (#[trigger] s[i]).off <= mask
    &&& forall|i: int, j: int|
        0 <= i < s.len() && 0 <= j < s.len() && i != j ==> (#[trigger] s[i]).off != (
        #[trigger] s[j]).off
    &&& forall|i: int, j: int|
        0 <= i < s.len() && 0 <= j < s.len() && i != j ==> (#[trigger] s[i]).name@ != (
        #[trigger] s[j]).name@
}

/// How long ago `last` was, seen from `now`; a `last` in the future counts
/// as age zero.
pub open spec fn age_of(last: u64, now: u64) -> u64 {
    if now >= last {
        (now - last) as u64
    } else {
        0
    }
}

/// An entry survives a collection with the given timeout.
pub open spec fn keep_entry(e: PoolEntry, timeout: u64, now: u64) -> bool {
    age_of(e.last_access, now) < timeout
}

/// The pool of synthetic addresses. The network-visible address for an
/// entry at offset `off` is `base + off`.
pub struct FakePool {
    base: u32,
    mask: u32,
    current: u32,
    entries: Vec<PoolEntry>,
}

/// The pool mask derived from a CIDR prefix length: the low `32 - cidr_len`
/// bits set.
pub open spec fn pool_mask(cidr_len: u8) -> u32
    recommends
        1 <= cidr_len <= 32,
{
    ((1u64 << ((32 - cidr_len) as u64)) - 1) as u32
}

impl FakePool {
    pub closed spec fn entries_seq(&self) -> Seq<PoolEntry> {
        self.entries@
    }

    pub closed spec fn spec_base(&self) -> u32 {
        self.base
    }

    pub closed spec fn spec_mask(&self) -> u32 {
        self.mask
    }

    pub closed spec fn spec_cursor(&self) -> u32 {
        self.current
    }

    /// The forward map: domain name to offset.
    pub open spec fn forward(&self) -> Map<Seq<u8>, u32> {
        Map::new(
            |n: Seq<u8>| has_name(self.entries_seq(), n),
            |n: Seq<u8>| fwd_val(self.entries_seq(), n),
        )
    }

    /// The reverse map: offset to name and last-access time.
    pub open spec fn reverse(&self) -> Map<u32, (Seq<u8>, u64)> {
        Map::new(
            |o: u32| has_off(self.entries_seq(), o),
            |o: u32| rev_val(self.entries_seq(), o),
        )
    }

    /// Well-formedness: distinct entries under the mask, a cursor in range,
    /// a mask of low-bits shape, and a base that cannot overflow when an
    /// offset is added.
    pub open spec fn wf(&self) -> bool {
        &&& entries_wf(self.entries_seq(), self.spec_mask())
        &&& self.spec_cursor() <= self.spec_mask()
        &&& self.spec_base() + self.spec_mask() <= u32::MAX
        &&& self.spec_mask() <= 0x7fff_ffffu32
        &&& (self.spec_mask() & ((self.spec_mask() + 1) as u32)) == 0
    }
}

/// `x` advanced by `k` slots in wrap order under `mask`.
pub open spec fn wrap_add(mask: u32, x: u32, k: int) -> int
    recommends
        x <= mask,
        0 <= k <= mask + 1,
{
    if x + k <= mask {
        x + k
    } else {
        x + k - (mask + 1)
    }
}

/// Where the cursor lands after an allocation at `pre`'s cursor: on the
/// first offset after the allocated one, in wrap order, that the old
/// reverse map does not hold — or back on the allocated offset itself
/// when the scan comes full circle.
pub open spec fn cursor_post(pre: FakePool, post: FakePool) -> bool {
    let off = pre.spec_cursor();
    let mask = pre.spec_mask();
    exists|k: int|
        #![auto]
        {
            &&& 1 <= k <= mask + 1
            &&& post.spec_cursor() == wrap_add(mask, off, k)
            &&& forall|j: int|
                1 <= j < k ==> pre.reverse().contains_key((wrap_add(mask, off, j)) as u32)
            &&& (k == mask + 1 || !pre.reverse().contains_key(post.spec_cursor()))
        }
}

/// What `get` did: a hit leaves the pool untouched and returns the recorded
/// address; a miss binds the name to the offset under the cursor, evicting
/// whatever entry held that offset, and moves the cursor to the next free
/// slot.
pub open spec fn get_post(pre: FakePool, name: Seq<u8>, now: u64, post: FakePool, r: u32) -> bool {
    &&& post.spec_base() == pre.spec_base()
    &&& post.spec_mask() == pre.spec_mask()
    &&& if pre.forward().contains_key(name) {
        &&& r == pre.spec_base() + pre.forward()[name]
        &&& post == pre
    } else {
        let off = pre.spec_cursor();
        &&& r == pre.spec_base() + off
        &&& post.reverse() == pre.reverse().insert(off, (name, now))
        &&& post.forward() == (if pre.reverse().contains_key(off) {
            pre.forward().remove(pre.reverse()[off].0)
        } else {
            pre.forward()
        }).insert(name, off)
        &&& cursor_post(pre, post)
    }
}

/// What `get_reverse` did: an in-range, present address refreshes the
/// entry's last access and returns its name; anything else changes nothing.
pub open spec fn get_reverse_post(
    pre: FakePool,
    addr: u32,
    now: u64,
    post: FakePool,
    r: Option<Seq<u8>>,
) -> bool {
    &&& post.spec_base() == pre.spec_base()
    &&& post.spec_mask() == pre.spec_mask()
    &&& post.spec_cursor() == pre.spec_cursor()
    &&& if pre.spec_base() <= addr && addr - pre.spec_base() <= pre.spec_mask()
        && pre.reverse().contains_key((addr - pre.spec_base()) as u32) {
        let off = (addr - pre.spec_base()) as u32;
        &&& r == Some(pre.reverse()[off].0)
        &&& post.reverse() == pre.reverse().insert(off, (pre.reverse()[off].0, now))
        &&& post.forward() == pre.forward()
    } else {
        &&& r is None
        &&& post == pre
    }
}

/// What `gc` did: exactly the entries whose age reached the timeout are
/// gone, from both maps; the cursor does not move.
pub open spec fn gc_post(pre: FakePool, timeout: u64, now: u64, post: FakePool) -> bool {
    &&& post.spec_base() == pre.spec_base()
    &&& post.spec_mask() == pre.spec_mask()
    &&& post.spec_cursor() == pre.spec_cursor()
    &&& post.reverse() == Map::<u32, (Seq<u8>, u64)>::new(
        |o: u32| pre.reverse().contains_key(o) && age_of(pre.reverse()[o].1, now) < timeout,
        |o: u32| pre.reverse()[o],
    )
    &&& post.forward() == Map::<Seq<u8>, u32>::new(
        |n: Seq<u8>| pre.forward().contains_key(n) && age_of(
            pre.reverse()[pre.forward()[n]].1,
            now,
        ) < timeout,
        |n: Seq<u8>| pre.forward()[n],
    )
}

/// Under `entries_wf`, the chosen index for a present offset is the unique
/// one.
proof fn lemma_off_index(s: Seq<PoolEntry>, mask: u32, o: u32)
    requires
        entries_wf(s, mask),
        has_off(s, o),
    ensures
        0 <= off_index(s, o) < s.len(),
        s[off_index(s, o)].off == o,
        forall|j: int| 0 <= j < s.len() && (#[trigger] s[j]).off == o ==> j == off_index(s, o),
{
    let i = choose|i: int| 0 <= i < s.len() && (#[trigger] s[i]).off == o;
    assert(s[i].off == o);
}

/// Under `entries_wf`, the chosen index for a present name is the unique
/// one.
proof fn lemma_name_index(s: Seq<PoolEntry>, mask: u32, n: Seq<u8>)
    requires
        entries_wf(s, mask),
        has_name(s, n),
    ensures
        0 <= name_index(s, n) < s.len(),
        s[name_index(s, n)].name@ == n,
        forall|j: int| 0 <= j < s.len() && (#[trigger] s[j]).name@ == n ==> j == name_index(s, n),
{
    let i = choose|i: int| 0 <= i < s.len() && (#[trigger] s[i]).name@ == n;
    assert(s[i].name@ == n);
}

/// Removing one entry keeps the rest well-formed and removes exactly that
/// entry's name and offset from the two views.
proof fn lemma_remove_entry(s: Seq<PoolEntry>, mask: u32, i: int)
    requires
        entries_wf(s, mask),
        0 <= i < s.len(),
    ensures
        entries_wf(s.remove(i), mask),
        forall|o: u32| #[trigger] has_off(s.remove(i), o) <==> (has_off(s, o) && o != s[i].off),
        forall|n: Seq<u8>| #[trigger]
            has_name(s.remove(i), n) <==> (has_name(s, n) && n != s[i].name@),
        forall|o: u32|
            has_off(s, o) && o != s[i].off ==> #[trigger] rev_val(s.remove(i), o) == rev_val(s, o),
        forall|n: Seq<u8>|
            has_name(s, n) && n != s[i].name@ ==> #[trigger] fwd_val(s.remove(i), n) == fwd_val(
                s,
                n,
            ),
{
    let t = s.remove(i);
    assert(forall|j: int| 0 <= j < i ==> t[j] == s[j]);
    assert(forall|j: int| i <= j < t.len() ==> t[j] == s[j + 1]);
    assert forall|o: u32| #[trigger] has_off(t, o) implies (has_off(s, o) && o != s[i].off) by {
        let j = choose|j: int| 0 <= j < t.len() && (#[trigger] t[j]).off == o;
        if j < i {
            assert(s[j].off == o);
        } else {
            assert(s[j + 1].off == o);
        }
    }
    assert forall|o: u32| has_off(s, o) && o != s[i].off implies #[trigger] has_off(t, o) by {
        let j = choose|j: int| 0 <= j < s.len() && (#[trigger] s[j]).off == o;
        if j < i {
            assert(t[j].off == o);
        } else {
            assert(j != i);
            assert(t[j - 1].off == o);
        }
    }
    assert forall|n: Seq<u8>| #[trigger] has_name(t, n) implies (has_name(s, n) && n
        != s[i].name@) by {
        let j = choose|j: int| 0 <= j < t.len() && (#[trigger] t[j]).name@ == n;
        if j < i {
            assert(s[j].name@ == n);
        } else {
            assert(s[j + 1].name@ == n);
        }
    }
    assert forall|n: Seq<u8>| has_name(s, n) && n != s[i].name@ implies #[trigger] has_name(
        t,
        n,
    ) by {
        let j = choose|j: int| 0 <= j < s.len() && (#[trigger] s[j]).name@ == n;
        if j < i {
            assert(t[j].name@ == n);
        } else {
            assert(j != i);
            assert(t[j - 1].name@ == n);
        }
    }
    assert forall|o: u32| has_off(s, o) && o != s[i].off implies #[trigger] rev_val(t, o)
        == rev_val(s, o) by {
        lemma_off_index(s, mask, o);
        lemma_off_index(t, mask, o);
        let j = off_index(t, o);
        if j < i {
            assert(s[j].off == o);
        } else {
            assert(s[j + 1].off == o);
        }
    }
    assert forall|n: Seq<u8>| has_name(s, n) && n != s[i].name@ implies #[trigger] fwd_val(t, n)
        == fwd_val(s, n) by {
        lemma_name_index(s, mask, n);
        lemma_name_index(t, mask, n);
        let j = name_index(t, n);
        if j < i {
            assert(s[j].name@ == n);
        } else {
            assert(s[j + 1].name@ == n);
        }
    }
}

/// Appending a fresh entry keeps the sequence well-formed and adds exactly
/// that entry to the two views.
proof fn lemma_push_entry(s: Seq<PoolEntry>, mask: u32, e: PoolEntry)
    requires
        entries_wf(s, mask),
        !has_off(s, e.off),
        !has_name(s, e.name@),
        e.off <= mask,
    ensures
        entries_wf(s.push(e), mask),
        forall|o: u32| #[trigger] has_off(s.push(e), o) <==> (has_off(s, o) || o == e.off),
        forall|n: Seq<u8>| #[trigger] has_name(s.push(e), n) <==> (has_name(s, n) || n == e.name@),
        rev_val(s.push(e), e.off) == (e.name@, e.last_access),
        fwd_val(s.push(e), e.name@) == e.off,
        forall|o: u32|
            has_off(s, o) && o != e.off ==> #[trigger] rev_val(s.push(e), o) == rev_val(s, o),
        forall|n: Seq<u8>|
            has_name(s, n) && n != e.name@ ==> #[trigger] fwd_val(s.push(e), n) == fwd_val(s, n),
{
    let t = s.push(e);
    assert(forall|j: int| 0 <= j < s.len() ==> t[j] == s[j]);
    assert(t[s.len() as int] == e);
    assert forall|o: u32| #[trigger] has_off(t, o) implies (has_off(s, o) || o == e.off) by {
        let j = choose|j: int| 0 <= j < t.len() && (#[trigger] t[j]).off == o;
        if j < s.len() {
            assert(s[j].off == o);
        }
    }
    assert forall|n: Seq<u8>| #[trigger] has_name(t, n) implies (has_name(s, n) || n
        == e.name@) by {
        let j = choose|j: int| 0 <= j < t.len() && (#[trigger] t[j]).name@ == n;
        if j < s.len() {
            assert(s[j].name@ == n);
        }
    }
    assert(has_off(t, e.off)) by {
        assert(t[s.len() as int].off == e.off);
    }
    assert(has_name(t, e.name@)) by {
        assert(t[s.len() as int].name@ == e.name@);
    }
    assert(entries_wf(t, mask)) by {
        assert forall|i: int, j: int|
            0 <= i < t.len() && 0 <= j < t.len() && i != j implies (#[trigger] t[i]).off != (
        #[trigger] t[j]).off by {
            if i < s.len() && j < s.len() {
            } else if i < s.len() {
                assert(t[j] == e);
                assert(has_off(s, s[i].off));
            } else {
                assert(t[i] == e);
                assert(has_off(s, s[j].off));
            }
        }
        assert forall|i: int, j: int|
            0 <= i < t.len() && 0 <= j < t.len() && i != j implies (#[trigger] t[i]).name@ != (
        #[trigger] t[j]).name@ by {
            if i < s.len() && j < s.len() {
            } else if i < s.len() {
                assert(t[j] == e);
                assert(has_name(s, s[i].name@));
            } else {
                assert(t[i] == e);
                assert(has_name(s, s[j].name@));
            }
        }
    }
    assert(rev_val(t, e.off) == (e.name@, e.last_access)) by {
        lemma_off_index(t, mask, e.off);
        assert(t[s.len() as int].off == e.off);
    }
    assert(fwd_val(t, e.name@) == e.off) by {
        lemma_name_index(t, mask, e.name@);
        assert(t[s.len() as int].name@ == e.name@);
    }
    assert forall|o: u32| has_off(s, o) && o != e.off implies #[trigger] rev_val(t, o) == rev_val(
        s,
        o,
    ) by {
        lemma_off_index(s, mask, o);
        lemma_off_index(t, mask, o);
        let j = off_index(s, o);
        assert(t[j].off == o);
    }
    assert forall|n: Seq<u8>| has_name(s, n) && n != e.name@ implies #[trigger] fwd_val(t, n)
        == fwd_val(s, n) by {
        lemma_name_index(s, mask, n);
        lemma_name_index(t, mask, n);
        let j = name_index(s, n);
        assert(t[j].name@ == n);
    }
}

impl FakePool {
    /// Find the entry carrying `name`, if any.
    fn find_name(&self, name: &[u8]) -> (r: Option<usize>)
        ensures
            match r {
                Some(i) => 0 <= i < self.entries_seq().len() && self.entries_seq()[i as int].name@
                    == name@,
                None => !has_name(self.entries_seq(), name@),
            },
    {
        let mut i: usize = 0;
        while i < self.entries.len()
            invariant
                i <= self.entries@.len(),
                forall|j: int| 0 <= j < i ==> (#[trigger] self.entries@[j]).name@ != name@,
            decreases self.entries@.len() - i,
        {
            if crate::bits::bytes_eq(self.entries[i].name.as_slice(), name) {
                return Some(i);
            }
            i += 1;
        }
        None
    }

    /// Find the entry occupying offset `off`, if any.
    fn find_off(&self, off: u32) -> (r: Option<usize>)
        ensures
            match r {
                Some(i) => 0 <= i < self.entries_seq().len() && self.entries_seq()[i as int].off
                    == off,
                None => !has_off(self.entries_seq(), off),
            },
    {
        let mut i: usize = 0;
        while i < self.entries.len()
            invariant
                i <= self.entries@.len(),
                forall|j: int| 0 <= j < i ==> (#[trigger] self.entries@[j]).off != off,
            decreases self.entries@.len() - i,
        {
            if self.entries[i].off == off {
                return Some(i);
            }
            i += 1;
        }
        None
    }

    /// Compute the pool mask a prefix length yields, so that a caller can
    /// test at run time whether its block stays inside the address space.
    pub fn pool_mask_of(cidr_len: u8) -> (r: u32)
        requires
            1 <= cidr_len <= 32,
        ensures
            r == pool_mask(cidr_len),
            r <= 0x7fff_ffffu32,
    {
        let shift: u32 = 32 - (cidr_len as u32);
        proof {
            let s = shift;
            assert(s <= 31 ==> (1u32 << s) >= 1) by (bit_vector);
            let c = cidr_len;
            assert(1 <= c <= 32 ==> ((1u32 << ((32 - (c as u32)) as u32)) - 1) as u64 == ((1u64
                << ((32 - c) as u64)) - 1)) by (bit_vector);
            assert(1 <= c <= 32 ==> ((1u32 << ((32 - (c as u32)) as u32)) - 1) <= 0x7fff_ffffu32)
                by (bit_vector);
        }
        (1u32 << shift) - 1
    }

    /// Create an empty pool over `base / cidr_len`, with room reserved for
    /// `init_cap` entries.
    pub fn new(base: u32, cidr_len: u8, init_cap: usize) -> (r: FakePool)
        requires
            1 <= cidr_len <= 32,
            base + pool_mask(cidr_len) <= u32::MAX,
        ensures
            r.wf(),
            r.spec_base() == base,
            r.spec_mask() == pool_mask(cidr_len),
            r.spec_cursor() == 0,
            r.forward() == Map::<Seq<u8>, u32>::empty(),
            r.reverse() == Map::<u32, (Seq<u8>, u64)>::empty(),
    {
        let mask: u32 = Self::pool_mask_of(cidr_len);
        proof {
            let c = cidr_len;
            assert(1 <= c <= 32 ==> ((((1u64 << ((32 - c) as u64)) - 1) as u32) & (((((1u64 << ((32
                - c) as u64)) - 1) as u32) + 1) as u32)) == 0) by (bit_vector);
        }
        let r = FakePool { base, mask, current: 0, entries: Vec::with_capacity(init_cap) };
        proof {
            assert(r.forward() =~= Map::<Seq<u8>, u32>::empty());
            assert(r.reverse() =~= Map::<u32, (Seq<u8>, u64)>::empty());
        }
        r
    }

    /// Look `name` up, minting a fresh binding if it has none. A hit does
    /// not refresh the entry's last access: only reverse lookups do.
    pub fn get(&mut self, name: &[u8], now: u64) -> (r: u32)
        requires
            old(self).wf(),
        ensures
            final(self).wf(),
            get_post(*old(self), name@, now, *final(self), r),
    {
        let ghost pre = *self;
        match self.find_name(name) {
            Some(i) => {
                let off = self.entries[i].off;
                proof {
                    assert(has_name(pre.entries_seq(), name@));
                    lemma_name_index(pre.entries_seq(), pre.spec_mask(), name@);
                    assert(name_index(pre.entries_seq(), name@) == i as int);
                    assert(pre.forward().contains_key(name@));
                    assert(pre.forward()[name@] == off);
                }
                self.base + off
            },
            None => {
                proof {
                    assert(!pre.forward().contains_key(name@));
                }
                let off = self.current;
                let cap: u32 = self.mask + 1;
                let mut steps: u32 = 1;
                proof {
                    let m = pre.spec_mask();
                    let x = pre.spec_cursor();
                    assert((m <= 0x7fff_ffffu32 && (m & ((m + 1) as u32)) == 0 && x <= m) ==> ((
                    (x + 1) as u32) & m) == (if x == m {
                        0u32
                    } else {
                        (x + 1) as u32
                    })) by (bit_vector);
                }
                self.current = (self.current + 1) & self.mask;
                loop
                    invariant_except_break
                        self.base == pre.spec_base(),
                        self.mask == pre.spec_mask(),
                        self.entries@ == pre.entries_seq(),
                        entries_wf(self.entries@, self.mask),
                        self.mask <= 0x7fff_ffffu32,
                        (self.mask & ((self.mask + 1) as u32)) == 0,
                        self.base + self.mask <= u32::MAX,
                        cap == self.mask + 1,
                        off == pre.spec_cursor(),
                        off <= self.mask,
                        self.current <= self.mask,
                        1 <= steps <= cap,
                        self.current as int == wrap_add(self.mask, off, steps as int),
                        forall|j: int|
                            1 <= j < steps ==> has_off(
                                pre.entries_seq(),
                                (wrap_add(pre.spec_mask(), off, j)) as u32,
                            ),
                    ensures
                        self.base == pre.spec_base(),
                        self.mask == pre.spec_mask(),
                        self.entries@ == pre.entries_seq(),
                        entries_wf(self.entries@, self.mask),
                        self.base + self.mask <= u32::MAX,
                        cap == self.mask + 1,
                        off == pre.spec_cursor(),
                        off <= self.mask,
                        self.current <= self.mask,
                        1 <= steps <= cap,
                        self.current as int == wrap_add(self.mask, off, steps as int),
                        forall|j: int|
                            1 <= j < steps ==> has_off(
                                pre.entries_seq(),
                                (wrap_add(pre.spec_mask(), off, j)) as u32,
                            ),
                        steps == cap || !has_off(pre.entries_seq(), self.current),
                    decreases cap - steps,
                {
                    let found = self.find_off(self.current);
                    let occupied = match found {
                        Some(_) => true,
                        None => false,
                    };
                    if !occupied || self.current == off {
                        proof {
                            if occupied {
                                // back at the start: the scan came full circle
                                assert(steps == cap);
                            }
                        }
                        break ;
                    }
                    proof {
                        assert(has_off(pre.entries_seq(), self.current));
                        if steps == cap {
                            assert(self.current == off);
                        }
                        let m = self.mask;
                        let x = self.current;
                        assert((m <= 0x7fff_ffffu32 && (m & ((m + 1) as u32)) == 0 && x <= m) ==> ((
                        (x + 1) as u32) & m) == (if x == m {
                            0u32
                        } else {
                            (x + 1) as u32
                        })) by (bit_vector);
                    }
                    self.current = (self.current + 1) & self.mask;
                    steps = steps + 1;
                }
                let ghost s0 = pre.entries_seq();
                match self.find_off(off) {
                    Some(i) => {
                        proof {
                            lemma_remove_entry(s0, pre.spec_mask(), i as int);
                            lemma_off_index(s0, pre.spec_mask(), off);
                        }
                        let ghost victim = self.entries@[i as int];
                        self.entries.remove(i);
                        let stored = crate::bits::bytes_to_vec(name);
                        let e = PoolEntry { name: stored, off, last_access: now };
                        proof {
                            let s1 = s0.remove(i as int);
                            assert(!has_off(s1, off));
                            assert(!has_name(s1, e.name@)) by {
                                assert(!has_name(s0, name@));
                            }
                            lemma_push_entry(s1, pre.spec_mask(), e);
                        }
                        self.entries.push(e);
                        proof {
                            let s1 = s0.remove(i as int);
                            let s2 = s1.push(e);
                            assert(self.entries@ == s2);
                            assert(pre.reverse().contains_key(off));
                            lemma_off_index(s0, pre.spec_mask(), off);
                            assert(off_index(s0, off) == i as int);
                            assert(pre.reverse()[off].0 == victim.name@);
                            assert(self.reverse() =~= pre.reverse().insert(off, (name@, now))) by {
                                assert forall|o: u32|
                                    self.reverse().contains_key(o) <==> pre.reverse().insert(
                                        off,
                                        (name@, now),
                                    ).contains_key(o) by {
                                    if o != off {
                                        assert(has_off(s2, o) <==> has_off(s1, o));
                                        assert(has_off(s1, o) <==> (has_off(s0, o) && o
                                            != victim.off));
                                    }
                                }
                                assert forall|o: u32|
                                    self.reverse().contains_key(o) implies self.reverse()[o]
                                    == pre.reverse().insert(off, (name@, now))[o] by {
                                    if o == off {
                                        assert(rev_val(s2, off) == (name@, now));
                                    } else {
                                        assert(rev_val(s2, o) == rev_val(s1, o));
                                        assert(rev_val(s1, o) == rev_val(s0, o));
                                    }
                                }
                            }
                            assert(self.forward() =~= pre.forward().remove(victim.name@).insert(
                                name@,
                                off,
                            )) by {
                                assert forall|n: Seq<u8>|
                                    self.forward().contains_key(n) <==> pre.forward().remove(
                                        victim.name@,
                                    ).insert(name@, off).contains_key(n) by {
                                    if n != name@ {
                                        assert(has_name(s2, n) <==> has_name(s1, n));
                                        assert(has_name(s1, n) <==> (has_name(s0, n) && n
                                            != victim.name@));
                                    }
                                }
                                assert forall|n: Seq<u8>|
                                    self.forward().contains_key(n) implies self.forward()[n]
                                    == pre.forward().remove(victim.name@).insert(name@, off)[n] by {
                                    if n == name@ {
                                        assert(fwd_val(s2, name@) == off);
                                    } else {
                                        assert(fwd_val(s2, n) == fwd_val(s1, n));
                                        assert(fwd_val(s1, n) == fwd_val(s0, n));
                                    }
                                }
                            }
                        }
                    },
                    None => {
                        let stored = crate::bits::bytes_to_vec(name);
                        let e = PoolEntry { name: stored, off, last_access: now };
                        proof {
                            assert(!has_name(s0, e.name@)) by {
                                assert(!has_name(s0, name@));
                            }
                            lemma_push_entry(s0, pre.spec_mask(), e);
                        }
                        self.entries.push(e);
                        proof {
                            let s2 = s0.push(e);
                            assert(self.entries@ == s2);
                            assert(!pre.reverse().contains_key(off));
                            assert(self.reverse() =~= pre.reverse().insert(off, (name@, now))) by {
                                assert forall|o: u32|
                                    self.reverse().contains_key(o) implies self.reverse()[o]
                                    == pre.reverse().insert(off, (name@, now))[o] by {
                                    if o == off {
                                        assert(rev_val(s2, off) == (name@, now));
                                    } else {
                                        assert(rev_val(s2, o) == rev_val(s0, o));
                                    }
                                }
                            }
                            assert(self.forward() =~= pre.forward().insert(name@, off)) by {
                                assert forall|n: Seq<u8>|
                                    self.forward().contains_key(n) implies self.forward()[n]
                                    == pre.forward().insert(name@, off)[n] by {
                                    if n == name@ {
                                        assert(fwd_val(s2, name@) == off);
                                    } else {
                                        assert(fwd_val(s2, n) == fwd_val(s0, n));
                                    }
                                }
                            }
                        }
                    },
                }
                proof {
                    let k = steps as int;
                    let m = pre.spec_mask();
                    let start = pre.spec_cursor();
                    assert(exists|k2: int|
                        #![auto]
                        {
                            &&& 1 <= k2 <= m + 1
                            &&& self.spec_cursor() == wrap_add(m, start, k2)
                            &&& forall|j: int|
                                1 <= j < k2 ==> pre.reverse().contains_key(
                                    (wrap_add(m, start, j)) as u32,
                                )
                            &&& (k2 == m + 1 || !pre.reverse().contains_key(self.spec_cursor()))
                        }) by {
                        assert(1 <= k <= m + 1);
                        assert(self.spec_cursor() == wrap_add(m, start, k));
                        assert forall|j: int|
                            1 <= j < k implies pre.reverse().contains_key(
                            (wrap_add(m, start, j)) as u32,
                        ) by {
                            assert(has_off(pre.entries_seq(), (wrap_add(m, start, j)) as u32));
                        }
                        if k != m + 1 {
                            assert(!has_off(pre.entries_seq(), self.current));
                        }
                    }
                    assert(cursor_post(pre, *self));
                }
                self.base + off
            },
        }
    }

    /// Recover the name behind a synthetic address and refresh its
    /// last-access time; only this path keeps an entry alive.
    pub fn get_reverse(&mut self, addr: u32, now: u64) -> (r: Option<Vec<u8>>)
        requires
            old(self).wf(),
        ensures
            final(self).wf(),
            get_reverse_post(
                *old(self),
                addr,
                now,
                *final(self),
                match r {
                    Some(v) => Some(v@),
                    None => None,
                },
            ),
    {
        let ghost pre = *self;
        if addr < self.base {
            return None;
        }
        let off = addr - self.base;
        if off > self.mask {
            return None;
        }
        match self.find_off(off) {
            None => None,
            Some(i) => {
                proof {
                    lemma_off_index(pre.entries_seq(), pre.spec_mask(), off);
                    assert(off_index(pre.entries_seq(), off) == i as int);
                }
                let found = crate::bits::bytes_to_vec(self.entries[i].name.as_slice());
                let returned = crate::bits::bytes_to_vec(found.as_slice());
                let e = PoolEntry { name: found, off, last_access: now };
                let ghost s0 = pre.entries_seq();
                self.entries[i] = e;
                proof {
                    let s2 = self.entries@;
                    assert(s2 == s0.update(i as int, e));
                    assert(entries_wf(s2, pre.spec_mask())) by {
                        assert(forall|j: int| 0 <= j < s2.len() && j != i ==> s2[j] == s0[j]);
                        assert(s2[i as int].off == s0[i as int].off);
                        assert(s2[i as int].name@ == s0[i as int].name@);
                    }
                    assert forall|o: u32| #[trigger]
                        has_off(s2, o) <==> has_off(s0, o) by {
                        if has_off(s2, o) {
                            let j = choose|j: int|
                                0 <= j < s2.len() && (#[trigger] s2[j]).off == o;
                            if j == i {
                                assert(s0[j].off == o);
                            } else {
                                assert(s0[j].off == o);
                            }
                        }
                        if has_off(s0, o) {
                            let j = choose|j: int|
                                0 <= j < s0.len() && (#[trigger] s0[j]).off == o;
                            if j == i {
                                assert(s2[j].off == o);
                            } else {
                                assert(s2[j].off == o);
                            }
                        }
                    }
                    assert forall|n: Seq<u8>| #[trigger]
                        has_name(s2, n) <==> has_name(s0, n) by {
                        if has_name(s2, n) {
                            let j = choose|j: int|
                                0 <= j < s2.len() && (#[trigger] s2[j]).name@ == n;
                            assert(s0[j].name@ == n);
                        }
                        if has_name(s0, n) {
                            let j = choose|j: int|
                                0 <= j < s0.len() && (#[trigger] s0[j]).name@ == n;
                            assert(s2[j].name@ == n);
                        }
                    }
                    assert(self.reverse() =~= pre.reverse().insert(
                        off,
                        (pre.reverse()[off].0, now),
                    )) by {
                        assert forall|o: u32|
                            self.reverse().contains_key(o) implies self.reverse()[o]
                            == pre.reverse().insert(off, (pre.reverse()[off].0, now))[o] by {
                            lemma_off_index(s0, pre.spec_mask(), o);
                            lemma_off_index(s2, pre.spec_mask(), o);
                            if o == off {
                                assert(s2[i as int].off == off);
                                assert(off_index(s2, off) == i as int);
                                assert(rev_val(s2, off) == (s0[i as int].name@, now));
                            } else {
                                let j = off_index(s2, o);
                                assert(s2[j].off == o);
                                assert(j != i);
                                assert(s0[j].off == o);
                                assert(off_index(s0, o) == j);
                            }
                        }
                    }
                    assert(self.forward() =~= pre.forward()) by {
                        assert forall|n: Seq<u8>|
                            self.forward().contains_key(n) implies self.forward()[n]
                            == pre.forward()[n] by {
                            lemma_name_index(s0, pre.spec_mask(), n);
                            lemma_name_index(s2, pre.spec_mask(), n);
                            let j = name_index(s2, n);
                            assert(s2[j].name@ == n);
                            if j == i {
                                assert(s0[j].name@ == n);
                                assert(name_index(s0, n) == j);
                                assert(s2[j].off == s0[j].off);
                            } else {
                                assert(s0[j].name@ == n);
                                assert(name_index(s0, n) == j);
                            }
                        }
                    }
                    assert(pre.reverse()[off].0 == s0[i as int].name@);
                }
                Some(returned)
            },
        }
    }

    /// Evict every entry whose age reached `timeout`, from both maps.
    pub fn gc(&mut self, timeout: u64, now: u64)
        requires
            old(self).wf(),
        ensures
            final(self).wf(),
            gc_post(*old(self), timeout, now, *final(self)),
    {
        let ghost pre = *self;
        let ghost s0 = self.entries@;
        let mut i: usize = 0;
        let ghost mut jj: int = 0;
        while i < self.entries.len()
            invariant
                self.base == pre.spec_base(),
                self.mask == pre.spec_mask(),
                self.current == pre.spec_cursor(),
                pre.wf(),
                0 <= jj <= s0.len(),
                i as int == s0.take(jj).filter(
                    |e: PoolEntry| keep_entry(e, timeout, now),
                ).len(),
                self.entries@ == s0.take(jj).filter(|e: PoolEntry| keep_entry(e, timeout, now))
                    + s0.skip(jj),
                entries_wf(self.entries@, self.mask),
            decreases s0.len() - jj,
        {
            let ghost p = |e: PoolEntry| keep_entry(e, timeout, now);
            proof {
                s0.take(jj).lemma_filter_len(p);
                assert(self.entries@[i as int] == s0.skip(jj)[0]);
                assert(s0.skip(jj)[0] == s0[jj]);
                assert(s0.take(jj + 1) == s0.take(jj).push(s0[jj])) by {
                    assert(s0.take(jj + 1) =~= s0.take(jj).push(s0[jj]));
                }
                s0.take(jj).lemma_filter_push(s0[jj], p);
            }
            let e_last = self.entries[i].last_access;
            let age: u64 = if now >= e_last {
                now - e_last
            } else {
                0
            };
            if age < timeout {
                proof {
                    assert(p(s0[jj]));
                    assert(s0.take(jj + 1).filter(p) == s0.take(jj).filter(p).push(s0[jj]));
                    assert(s0.take(jj).filter(p) + s0.skip(jj) == s0.take(jj + 1).filter(p)
                        + s0.skip(jj + 1)) by {
                        assert(s0.take(jj).filter(p) + s0.skip(jj) =~= s0.take(jj + 1).filter(p)
                            + s0.skip(jj + 1));
                    }
                }
                i += 1;
            } else {
                proof {
                    assert(!p(s0[jj]));
                    assert(s0.take(jj + 1).filter(p) == s0.take(jj).filter(p));
                    lemma_remove_entry(self.entries@, self.mask, i as int);
                    assert(self.entries@.remove(i as int) =~= s0.take(jj + 1).filter(p) + s0.skip(
                        jj + 1,
                    ));
                }
                self.entries.remove(i);
            }
            proof {
                jj = jj + 1;
            }
        }
        proof {
            let p = |e: PoolEntry| keep_entry(e, timeout, now);
            assert(jj == s0.len());
            assert(s0.take(jj) == s0) by {
                assert(s0.take(jj) =~= s0);
            }
            assert(s0.skip(jj) =~= Seq::<PoolEntry>::empty());
            let sf = s0.filter(p);
            assert(self.entries@ == sf) by {
                assert(s0.filter(p) + s0.skip(jj) =~= s0.filter(p));
            }
            broadcast use vstd::seq_lib::group_filter_ensures;
            assert forall|o: u32| #[trigger]
                has_off(sf, o) <==> (has_off(s0, o) && age_of(rev_val(s0, o).1, now)
                    < timeout) by {
                if has_off(sf, o) {
                    let j = choose|j: int| 0 <= j < sf.len() && (#[trigger] sf[j]).off == o;
                    assert(p(sf[j]));
                    assert(sf.contains(sf[j]));
                    s0.lemma_filter_contains_rev(p, sf[j]);
                    assert(s0.contains(sf[j]));
                    let k = choose|k: int| 0 <= k < s0.len() && s0[k] == sf[j];
                    assert(s0[k].off == o);
                    lemma_off_index(s0, pre.spec_mask(), o);
                    assert(off_index(s0, o) == k);
                    assert(age_of(rev_val(s0, o).1, now) < timeout);
                }
                if has_off(s0, o) && age_of(rev_val(s0, o).1, now) < timeout {
                    lemma_off_index(s0, pre.spec_mask(), o);
                    let k = off_index(s0, o);
                    assert(p(s0[k]));
                    assert(sf.contains(s0[k]));
                    let j = choose|j: int| 0 <= j < sf.len() && sf[j] == s0[k];
                    assert(sf[j].off == o);
                }
            }
            assert forall|o: u32|
                has_off(sf, o) implies #[trigger] rev_val(sf, o) == rev_val(s0, o) by {
                lemma_off_index(sf, pre.spec_mask(), o);
                let j = off_index(sf, o);
                assert(sf.contains(sf[j]));
                s0.lemma_filter_contains_rev(p, sf[j]);
                assert(s0.contains(sf[j]));
                let k = choose|k: int| 0 <= k < s0.len() && s0[k] == sf[j];
                lemma_off_index(s0, pre.spec_mask(), o);
                assert(off_index(s0, o) == k);
            }
            assert forall|n: Seq<u8>| #[trigger]
                has_name(sf, n) <==> (has_name(s0, n) && age_of(
                    rev_val(s0, fwd_val(s0, n)).1,
                    now,
                ) < timeout) by {
                if has_name(sf, n) {
                    let j = choose|j: int| 0 <= j < sf.len() && (#[trigger] sf[j]).name@ == n;
                    assert(p(sf[j]));
                    assert(sf.contains(sf[j]));
                    s0.lemma_filter_contains_rev(p, sf[j]);
                    assert(s0.contains(sf[j]));
                    let k = choose|k: int| 0 <= k < s0.len() && s0[k] == sf[j];
                    assert(s0[k].name@ == n);
                    lemma_name_index(s0, pre.spec_mask(), n);
                    assert(name_index(s0, n) == k);
                    lemma_off_index(s0, pre.spec_mask(), s0[k].off);
                    assert(off_index(s0, s0[k].off) == k);
                }
                if has_name(s0, n) && age_of(rev_val(s0, fwd_val(s0, n)).1, now) < timeout {
                    lemma_name_index(s0, pre.spec_mask(), n);
                    let k = name_index(s0, n);
                    lemma_off_index(s0, pre.spec_mask(), s0[k].off);
                    assert(off_index(s0, s0[k].off) == k);
                    assert(p(s0[k]));
                    assert(sf.contains(s0[k]));
                    let j = choose|j: int| 0 <= j < sf.len() && sf[j] == s0[k];
                    assert(sf[j].name@ == n);
                }
            }
            assert forall|n: Seq<u8>|
                has_name(sf, n) implies #[trigger] fwd_val(sf, n) == fwd_val(s0, n) by {
                lemma_name_index(sf, pre.spec_mask(), n);
                let j = name_index(sf, n);
                assert(sf.contains(sf[j]));
                s0.lemma_filter_contains_rev(p, sf[j]);
                assert(s0.contains(sf[j]));
                let k = choose|k: int| 0 <= k < s0.len() && s0[k] == sf[j];
                lemma_name_index(s0, pre.spec_mask(), n);
                assert(name_index(s0, n) == k);
            }
            assert(self.reverse() =~= Map::<u32, (Seq<u8>, u64)>::new(
                |o: u32| pre.reverse().contains_key(o) && age_of(pre.reverse()[o].1, now)
                    < timeout,
                |o: u32| pre.reverse()[o],
            ));
            assert(self.forward() =~= Map::<Seq<u8>, u32>::new(
                |n: Seq<u8>| pre.forward().contains_key(n) && age_of(
                    pre.reverse()[pre.forward()[n]].1,
                    now,
                ) < timeout,
                |n: Seq<u8>| pre.forward()[n],
            ));
        }
    }
}

/// The offsets occupied by a sequence of entries.
pub open spec fn offs_of(s: Seq<PoolEntry>) -> Set<u32> {
    Set::new(|o: u32| has_off(s, o))
}

/// The names bound by a sequence of entries.
pub open spec fn names_of(s: Seq<PoolEntry>) -> Set<Seq<u8>> {
    Set::new(|n: Seq<u8>| has_name(s, n))
}

/// A well-formed entry sequence binds exactly as many names as offsets:
/// both index sets are finite and of the sequence's length.
proof fn lemma_entry_card(s: Seq<PoolEntry>, mask: u32)
    requires
        entries_wf(s, mask),
    ensures
        offs_of(s).finite(),
        offs_of(s).len() == s.len(),
        names_of(s).finite(),
        names_of(s).len() == s.len(),
    decreases s.len(),
{
    if s.len() == 0 {
        assert(offs_of(s) =~= Set::<u32>::empty());
        assert(names_of(s) =~= Set::<Seq<u8>>::empty());
    } else {
        let i = s.len() - 1;
        let t = s.remove(i);
        lemma_remove_entry(s, mask, i);
        lemma_entry_card(t, mask);
        assert(offs_of(s) =~= offs_of(t).insert(s[i].off)) by {
            assert(has_off(s, s[i].off));
        }
        assert(names_of(s) =~= names_of(t).insert(s[i].name@)) by {
            assert(has_name(s, s[i].name@));
        }
        assert(!offs_of(t).contains(s[i].off));
        assert(!names_of(t).contains(s[i].name@));
    }
}

/// The forward and reverse maps of a well-formed pool are inverse to each
/// other, and carry the same number of bindings: together, the two maps
/// form a bijection between live names and live offsets.
pub proof fn lemma_pool_bijection(p: FakePool)
    requires
        p.wf(),
    ensures
        forall|n: Seq<u8>| #[trigger]
            p.forward().contains_key(n) ==> p.reverse().contains_key(p.forward()[n])
                && p.reverse()[p.forward()[n]].0 == n,
        forall|o: u32| #[trigger]
            p.reverse().contains_key(o) ==> p.forward().contains_key(p.reverse()[o].0)
                && p.forward()[p.reverse()[o].0] == o,
        p.forward().dom().finite(),
        p.reverse().dom().finite(),
        p.forward().dom().len() == p.reverse().dom().len(),
{
    let s = p.entries_seq();
    let mask = p.spec_mask();
    assert forall|n: Seq<u8>| #[trigger]
        p.forward().contains_key(n) implies p.reverse().contains_key(p.forward()[n])
        && p.reverse()[p.forward()[n]].0 == n by {
        lemma_name_index(s, mask, n);
        let k = name_index(s, n);
        assert(has_off(s, s[k].off));
        lemma_off_index(s, mask, s[k].off);
        assert(off_index(s, s[k].off) == k);
    }
    assert forall|o: u32| #[trigger]
        p.reverse().contains_key(o) implies p.forward().contains_key(p.reverse()[o].0)
        && p.forward()[p.reverse()[o].0] == o by {
        lemma_off_index(s, mask, o);
        let k = off_index(s, o);
        assert(has_name(s, s[k].name@));
        lemma_name_index(s, mask, s[k].name@);
        assert(name_index(s, s[k].name@) == k);
    }
    lemma_entry_card(s, mask);
    assert(p.forward().dom() =~= names_of(s));
    assert(p.reverse().dom() =~= offs_of(s));
}

/// Once `get` has answered an address for a name, an immediately repeated
/// `get` of the same name answers the same address and moves nothing.
pub proof fn lemma_get_stable(
    p0: FakePool,
    p1: FakePool,
    p2: FakePool,
    name: Seq<u8>,
    now1: u64,
    now2: u64,
    ip1: u32,
    ip2: u32,
)
    requires
        p0.wf(),
        get_post(p0, name, now1, p1, ip1),
        get_post(p1, name, now2, p2, ip2),
    ensures
        ip2 == ip1,
        p2 == p1,
{
}

/// Collection keeps exactly the entries refreshed recently enough: an
/// entry whose age stayed under the timeout survives with its binding
/// intact, one whose age reached it is gone, and nothing new appears.
pub proof fn lemma_gc_liveness(pre: FakePool, post: FakePool, timeout: u64, now: u64)
    requires
        pre.wf(),
        gc_post(pre, timeout, now, post),
    ensures
        forall|o: u32|
            pre.reverse().contains_key(o) && age_of(#[trigger] pre.reverse()[o].1, now) < timeout
                ==> post.reverse().contains_key(o) && post.reverse()[o] == pre.reverse()[o],
        forall|o: u32|
            pre.reverse().contains_key(o) && age_of(#[trigger] pre.reverse()[o].1, now) >= timeout
                ==> !post.reverse().contains_key(o),
        forall|o: u32| #[trigger]
            post.reverse().contains_key(o) ==> pre.reverse().contains_key(o),
        forall|n: Seq<u8>| #[trigger]
            post.forward().contains_key(n) ==> pre.forward().contains_key(n) && post.forward()[n]
                == pre.forward()[n],
{
}

/// Convert the four octets of an IPv4 address to the 32-bit value they
/// spell in big-endian order.
pub fn ip4_to_u32(octets: &[u8; 4]) -> (r: u32)
    ensures
        r == ip4_value(octets@),
{
    ((octets[0] as u32) << 24) | ((octets[1] as u32) << 16) | ((octets[2] as u32) << 8) | (
    octets[3] as u32)
}

/// The 32-bit value spelled by four octets in big-endian order.
pub open spec fn ip4_value(o: Seq<u8>) -> u32
    recommends
        o.len() == 4,
{
    (((o[0] as u32) << 24) | ((o[1] as u32) << 16) | ((o[2] as u32) << 8) | (o[3] as u32)) as u32
}

/// Convert a 32-bit value back to the four octets of an IPv4 address.
pub fn u32_to_ip4(ip: u32) -> (r: [u8; 4])
    ensures
        r@ == crate::bits::spec_be32(ip),
        ip4_value(r@) == ip,
{
    let r = [(ip >> 24) as u8, (ip >> 16) as u8, (ip >> 8) as u8, ip as u8];
    proof {
        assert(r@ =~= crate::bits::spec_be32(ip));
        assert(((((ip >> 24) as u8 as u32) << 24) | (((ip >> 16) as u8 as u32) << 16) | (((ip
            >> 8) as u8 as u32) << 8) | ((ip as u8) as u32)) as u32 == ip) by (bit_vector);
    }
    r
}

} // verus!
