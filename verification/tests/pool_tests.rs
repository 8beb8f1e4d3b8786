use tatermint::fakedns::fake_resolve;
use tatermint::pool::{ip4_to_u32, u32_to_ip4, FakePool};

fn base() -> u32 {
    ip4_to_u32(&[100, 64, 0, 0])
}

fn example_query() -> (Vec<u8>, usize) {
    let mut q: Vec<u8> = vec![
        0x12, 0x34, 0x01, 0x00, 0, 1, 0, 0, 0, 0, 0, 0, 7, b'e', b'x', b'a', b'm', b'p', b'l',
        b'e', 3, b'c', b'o', b'm', 0, 0, 1, 0, 1,
    ];
    let qlen = q.len();
    q.resize(0x600, 0);
    (q, qlen)
}

#[test]
fn s1_dns_query() {
    let mut pool = FakePool::new(base(), 10, 16);
    let (q, qlen) = example_query();
    assert_eq!(qlen, 29);
    let (resp, rlen) = fake_resolve(&mut pool, q.clone(), qlen, 1000).unwrap();
    assert_eq!(rlen, 45);
    // id preserved
    assert_eq!(&resp[0..2], &[0x12, 0x34]);
    // response bit set, recursion mirrored, no error
    assert_eq!(resp[2], 0x81);
    assert_eq!(resp[3], 0x80);
    // one question, one answer
    assert_eq!(&resp[4..12], &[0, 1, 0, 1, 0, 0, 0, 0]);
    // the question is untouched
    assert_eq!(&resp[12..29], &q[12..29]);
    // one A record: compression pointer, type A, class IN, ttl 1,
    // four data bytes, the first pool address
    assert_eq!(
        &resp[29..45],
        &[0xc0, 0x0c, 0, 1, 0, 1, 0, 0, 0, 1, 0, 4, 100, 64, 0, 0]
    );
    // the same name resolves to the same address again
    let (resp2, rlen2) = fake_resolve(&mut pool, q.clone(), qlen, 2000).unwrap();
    assert_eq!(rlen2, 45);
    assert_eq!(&resp2[41..45], &[100, 64, 0, 0]);
}

#[test]
fn s2_pool_reverse_gc() {
    let mut pool = FakePool::new(base(), 10, 16);
    let a = pool.get(b"a.test", 100);
    assert_eq!(u32_to_ip4(a), [100, 64, 0, 0]);
    assert_eq!(pool.get_reverse(a, 150), Some(b"a.test".to_vec()));
    pool.gc(0, 200);
    assert_eq!(pool.get_reverse(a, 250), None);
}

#[test]
fn pool_stable_get() {
    let mut pool = FakePool::new(base(), 10, 16);
    let a = pool.get(b"a.test", 0);
    assert_eq!(pool.get(b"a.test", 5), a);
    let b = pool.get(b"b.test", 6);
    assert_ne!(a, b);
    assert_eq!(pool.get(b"a.test", 7), a);
    assert_eq!(pool.get(b"b.test", 8), b);
}

#[test]
fn gc_liveness() {
    let mut pool = FakePool::new(base(), 10, 64);
    let a = pool.get(b"a.test", 0);
    let b = pool.get(b"b.test", 0);
    assert_ne!(a, b);
    // only the reverse lookup refreshes liveness
    assert!(pool.get_reverse(a, 100).is_some());
    // at time 120 with timeout 50: a is 20 old and stays, b is 120 old and goes
    pool.gc(50, 120);
    assert_eq!(pool.get_reverse(a, 121), Some(b"a.test".to_vec()));
    assert_eq!(pool.get_reverse(b, 121), None);
}

#[test]
fn pool_wrap_eviction() {
    // a /32 pool has a single slot: a second name silently overwrites it
    let mut pool = FakePool::new(base(), 32, 4);
    let x = pool.get(b"x.test", 0);
    let y = pool.get(b"y.test", 1);
    assert_eq!(x, y);
    assert_eq!(pool.get_reverse(x, 2), Some(b"y.test".to_vec()));
    // the evicted name mints a fresh entry rather than answering stale
    let x2 = pool.get(b"x.test", 3);
    assert_eq!(x2, x);
    assert_eq!(pool.get_reverse(x, 4), Some(b"x.test".to_vec()));
}

#[test]
fn pool_many_names() {
    let mut pool = FakePool::new(base(), 24, 16);
    let mut addrs: Vec<u32> = Vec::new();
    for i in 0..10u8 {
        let name = vec![b'h', b'0' + i];
        let a = pool.get(&name, i as u64);
        // every fresh name gets its own address
        assert!(!addrs.contains(&a));
        addrs.push(a);
    }
    for (i, a) in addrs.iter().enumerate() {
        let name = vec![b'h', b'0' + i as u8];
        assert_eq!(pool.get_reverse(*a, 100), Some(name));
    }
}

#[test]
fn pool_reverse_out_of_range() {
    let mut pool = FakePool::new(base(), 10, 16);
    let _ = pool.get(b"a.test", 0);
    // below the base
    assert_eq!(pool.get_reverse(base() - 1, 1), None);
    // beyond the mask
    assert_eq!(pool.get_reverse(base() + (1 << 22), 1), None);
    // in range but never allocated
    assert_eq!(pool.get_reverse(base() + 5, 1), None);
}

#[test]
fn dns_rejections() {
    let mut pool = FakePool::new(base(), 10, 16);
    // an opcode other than query is answered NotImp
    let (mut q, qlen) = example_query();
    q[2] = 0x08;
    let (resp, rlen) = fake_resolve(&mut pool, q, qlen, 0).unwrap();
    assert_eq!(rlen, qlen);
    assert_eq!(resp[2] & 0x80, 0x80);
    assert_eq!(resp[3] & 0x0f, 4);
    // no question is answered FormErr
    let (mut q, qlen) = example_query();
    q[5] = 0;
    let (resp, rlen) = fake_resolve(&mut pool, q, qlen, 0).unwrap();
    assert_eq!(rlen, qlen);
    assert_eq!(resp[2] & 0x80, 0x80);
    assert_eq!(resp[3] & 0x0f, 1);
    // a truncated query is dropped without a response
    let (mut q, qlen) = example_query();
    q[2] |= 0x02;
    assert!(fake_resolve(&mut pool, q, qlen, 0).is_none());
    // too short to hold a header
    assert!(fake_resolve(&mut pool, vec![0u8; 8], 8, 0).is_none());
    // a label length running past the end is dropped
    let (mut q, qlen) = example_query();
    q[12] = 200;
    assert!(fake_resolve(&mut pool, q, qlen, 0).is_none());
    // a question that is not an A/IN query is answered NotImp
    let (mut q, qlen) = example_query();
    q[26] = 28;
    let (resp, rlen) = fake_resolve(&mut pool, q, qlen, 0).unwrap();
    assert_eq!(rlen, qlen);
    assert_eq!(resp[3] & 0x0f, 4);
}

#[test]
fn pool_cursor_scan() {
    // a /30 pool has four slots; watch the cursor skip occupied ones
    let mut pool = FakePool::new(base(), 30, 4);
    let a = pool.get(b"a.test", 0);
    let b = pool.get(b"b.test", 0);
    assert_eq!(a, base());
    assert_eq!(b, base() + 1);
    // refresh b only, then collect: a's slot frees up, the cursor stays
    assert!(pool.get_reverse(b, 10).is_some());
    pool.gc(5, 11);
    assert_eq!(pool.get_reverse(a, 12), None);
    // the next misses take the slots after the cursor, then wrap to the
    // freed slot, skipping b's occupied one
    let c = pool.get(b"c.test", 12);
    assert_eq!(c, base() + 2);
    let d = pool.get(b"d.test", 12);
    assert_eq!(d, base() + 3);
    let e = pool.get(b"e.test", 12);
    assert_eq!(e, base());
}

#[test]
fn dns_non_utf8_name_declined() {
    let mut pool = FakePool::new(base(), 10, 16);
    // one label holding a byte that is not UTF-8
    let mut q: Vec<u8> = vec![
        0x12, 0x34, 0x01, 0x00, 0, 1, 0, 0, 0, 0, 0, 0, 1, 0xff, 0, 0, 1, 0, 1,
    ];
    let qlen = q.len();
    q.resize(0x600, 0);
    let (resp, rlen) = fake_resolve(&mut pool, q, qlen, 0).unwrap();
    // declined: a response with recursion mirrored, no answer, no error
    assert_eq!(rlen, qlen);
    assert_eq!(resp[2], 0x81);
    assert_eq!(resp[3], 0x80);
    assert_eq!(&resp[4..12], &[0, 1, 0, 0, 0, 0, 0, 0]);
    // and the pool was never touched
    assert_eq!(pool.get_reverse(base(), 1), None);
}

#[test]
fn ip4_conversions() {
    assert_eq!(ip4_to_u32(&[100, 64, 0, 0]), 0x6440_0000);
    assert_eq!(ip4_to_u32(&[127, 0, 0, 1]), 0x7f00_0001);
    assert_eq!(u32_to_ip4(0x7f00_0001), [127, 0, 0, 1]);
    assert_eq!(u32_to_ip4(ip4_to_u32(&[10, 1, 2, 3])), [10, 1, 2, 3]);
}
