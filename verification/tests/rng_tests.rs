use rand::{RngCore, SeedableRng};
use rand_xorshift::XorShiftRng;
use zkevm::rng::RandStream;

#[test]
fn stream_is_deterministic() {
    let seed = [7u8; 16];
    let mut a = RandStream::from_seed(seed);
    let mut b = RandStream::from_seed(seed);
    for _ in 0..10 {
        assert_eq!(a.fill16(), b.fill16());
    }
}

#[test]
fn stream_matches_xorshift() {
    // the stream is exactly the xorshift byte stream, block by block
    let seed = [
        1u8, 2, 3, 4, 5, 6, 7, 8, 9, 10, 11, 12, 13, 14, 15, 16,
    ];
    let mut s = RandStream::from_seed(seed);
    let mut raw = XorShiftRng::from_seed(seed);
    let mut expected = [0u8; 48];
    raw.fill_bytes(&mut expected);
    let mut got = Vec::new();
    for _ in 0..3 {
        got.extend_from_slice(&s.fill16());
    }
    assert_eq!(got.as_slice(), &expected[..]);
}

#[test]
fn blocks_advance() {
    let mut s = RandStream::from_seed([9u8; 16]);
    let first = s.fill16();
    let second = s.fill16();
    assert_ne!(first, second);
}

#[test]
fn sub_seed_independence() {
    // across 10_000 sampled parent seeds, the two derived 128-bit
    // sub-seeds are never equal to each other nor to the parent's first
    // bytes
    let mut sampler = XorShiftRng::from_seed([0xA5u8; 16]);
    for _ in 0..10_000 {
        let mut parent = [0u8; 16];
        sampler.fill_bytes(&mut parent);
        let mut s = RandStream::from_seed(parent);
        let sub1 = s.fill16();
        let sub2 = s.fill16();
        assert_ne!(sub1, sub2);
        assert_ne!(sub1, parent);
        assert_ne!(sub2, parent);
    }
}
