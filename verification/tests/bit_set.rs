use unicycle::bit_set_layout;
use unicycle::round_capacity_up;
use unicycle::AtomicBitSet;
use unicycle::BitSet;

#[test]
fn test_set_and_test() {
    let mut set = BitSet::new();
    set.reserve(1024);
    set.set(1);
    set.set(64);
    set.set(129);
    set.set(1023);

    assert!(set.test(1));
    assert!(set.test(64));
    assert!(set.test(129));
    assert!(set.test(1023));
    assert!(!set.test(1022));

    let mut layer0 = vec![0u64; 16];
    layer0[0] = 1 << 1;
    layer0[1] = 1;
    layer0[2] = 1 << 1;
    layer0[15] = 1 << 63;

    let mut layer1 = vec![0u64; 1];
    layer1[0] = 1 << 15 | 1 << 2 | 1 << 1 | 1;

    assert_eq!(vec![layer0, layer1], set.layers());
}

#[test]
fn test_bit_layout() {
    assert!(bit_set_layout(0).is_empty());
    assert_eq!(
        vec![1],
        bit_set_layout(64).iter().map(|l| l.cap).collect::<Vec<_>>()
    );
    assert_eq!(
        vec![2, 1],
        bit_set_layout(128).iter().map(|l| l.cap).collect::<Vec<_>>()
    );
    assert_eq!(
        vec![64, 1],
        bit_set_layout(4096).iter().map(|l| l.cap).collect::<Vec<_>>()
    );
    assert_eq!(
        vec![65, 2, 1],
        bit_set_layout(4097).iter().map(|l| l.cap).collect::<Vec<_>>()
    );
    assert_eq!(
        vec![2, 1],
        bit_set_layout(65).iter().map(|l| l.cap).collect::<Vec<_>>()
    );
    assert_eq!(
        vec![2, 1],
        bit_set_layout(128).iter().map(|l| l.cap).collect::<Vec<_>>()
    );
    assert_eq!(
        vec![3, 1],
        bit_set_layout(129).iter().map(|l| l.cap).collect::<Vec<_>>()
    );
    assert_eq!(
        vec![65, 2, 1],
        bit_set_layout(4097).iter().map(|l| l.cap).collect::<Vec<_>>()
    );
}

#[test]
fn test_reserve() {
    let mut b = BitSet::new();
    b.reserve(1_000);
    b.reserve(10_000);

    assert_ne!(bit_set_layout(1_000), bit_set_layout(10_000));
}

fn drain_case(cap: usize, positions: Vec<usize>, expected_op_count: usize) {
    let mut set = BitSet::new();
    set.reserve(cap);

    for p in positions.iter().copied() {
        set.set(p);
    }

    let mut drain = set.drain();
    let mut collected: Vec<usize> = Vec::new();
    while let Some(p) = drain.next(&mut set) {
        collected.push(p);
    }
    assert_eq!(positions, collected);
    let op_count = drain.op_count;

    // Assert that all layers are zero.
    assert_eq!(
        0,
        set.layers()
            .into_iter()
            .map(|l| l.iter().copied().sum::<u64>())
            .sum::<u64>()
    );

    assert_eq!(expected_op_count, op_count);
}

#[test]
fn test_drain() {
    drain_case(64, vec![0], 1);
    drain_case(64, vec![0, 1], 2);
    drain_case(64, vec![0, 1, 63], 3);
    drain_case(128, vec![64], 3);
    drain_case(128, vec![0, 32, 64], 7);
    drain_case(4096, vec![0, 32, 64, 3030, 4095], 13);
    drain_case(
        1_000_000,
        vec![
            0, 32, 64, 3030, 4095, 50_000, 102110, 203020, 500000, 803020, 900900,
        ],
        51,
    );
    drain_case(
        10_000_000,
        vec![
            0, 32, 64, 3030, 4095, 50_000, 102110, 203020, 500000, 803020, 900900, 9_009_009,
        ],
        58,
    );
}

#[test]
fn test_round_capacity_up() {
    assert_eq!(0, round_capacity_up(0));
    assert_eq!(16, round_capacity_up(1));
    assert_eq!(32, round_capacity_up(17));
    assert_eq!(32, round_capacity_up(32));
    assert_eq!((usize::MAX >> 1) + 1, round_capacity_up(usize::MAX >> 1));
}

#[test]
fn set_clear_test_consistency() {
    let mut set = BitSet::with_capacity(256);
    for p in [0usize, 3, 77, 128, 255] {
        assert!(!set.test(p));
        set.set(p);
        assert!(set.test(p));
        set.clear(p);
        assert!(!set.test(p));
    }
    assert!(set.is_empty());
}

#[test]
fn clear_is_idempotent() {
    let mut set = BitSet::with_capacity(64);
    set.clear(2);
    assert!(set.is_empty());
    set.set(2);
    assert!(!set.is_empty());
    set.clear(2);
    assert!(set.is_empty());
    set.clear(2);
    assert!(set.is_empty());
}

#[test]
fn round_capacity_up_shape() {
    // Always 0 or a power of two of at least 16; idempotent.
    for n in [0usize, 1, 2, 15, 16, 17, 100, 1023, 1024, 1025] {
        let r = round_capacity_up(n);
        if n == 0 {
            assert_eq!(0, r);
        } else {
            assert!(r >= 16);
            assert!(r.is_power_of_two());
            assert!(r >= n);
        }
        assert_eq!(r, round_capacity_up(r));
    }
}

#[test]
fn reserve_preserves_bits() {
    let mut set = BitSet::with_capacity(128);
    assert_eq!(128, set.capacity());
    set.set(5);
    set.set(77);

    // A request at or below the current capacity changes nothing.
    set.reserve(100);
    assert_eq!(128, set.capacity());
    assert!(set.test(5));
    assert!(set.test(77));

    // A larger request rounds up and keeps every bit.
    set.reserve(250);
    assert_eq!(256, set.capacity());
    assert!(set.test(5));
    assert!(set.test(77));
    assert!(!set.test(200));
}

#[test]
fn local_shared_round_trip() {
    let mut set = BitSet::with_capacity(1024);
    set.set(1);
    set.set(640);

    let before = set.layers();
    let mut atomic = set.into_atomic();
    atomic.set(42);
    assert!(atomic.as_local().test(42));

    let set = atomic.into_local();
    assert_eq!(1024, set.capacity());
    assert!(set.test(1));
    assert!(set.test(42));
    assert!(set.test(640));
    // Apart from the freshly marked bit (whose summary bit position 1 had
    // already raised), every word is exactly as before.
    let mut after = set.layers();
    after[0][0] &= !(1u64 << 42);
    assert_eq!(before, after);

    // A bare round trip reproduces the storage exactly.
    let twice = set.into_atomic().into_local();
    assert_eq!(after, {
        let mut b = twice.layers();
        b[0][0] &= !(1u64 << 42);
        b
    });
    assert_eq!(1024, twice.capacity());
}

#[test]
fn atomic_starts_empty() {
    let atomic = AtomicBitSet::new();
    assert_eq!(0, atomic.as_local().capacity());
    assert!(atomic.as_local().is_empty());
}

#[test]
fn layer_words_scenario() {
    // Capacity 128: two layers; positions 1 and 5 share layer-0 word 0.
    let mut set = BitSet::with_capacity(128);
    set.set(1);
    set.set(5);
    assert_eq!(vec![vec![0b100010u64, 0], vec![1u64]], set.layers());
}

#[test]
fn drain_scenario_sparse() {
    // Capacity 4096: drained positions come back sorted, then nothing.
    let mut set = BitSet::with_capacity(4096);
    for p in [3030usize, 64, 4095, 0, 32] {
        set.set(p);
    }
    let drained = set.drain_all();
    assert_eq!(vec![0usize, 32, 64, 3030, 4095], drained);
    assert!(set.is_empty());
    assert_eq!(
        0,
        set.layers()
            .into_iter()
            .map(|l| l.iter().copied().sum::<u64>())
            .sum::<u64>()
    );
}

#[test]
fn drain_scenario_single() {
    let mut set = BitSet::with_capacity(64);
    set.set(0);
    assert_eq!(vec![0usize], set.drain_all());
    assert!(set.is_empty());
    assert_eq!(vec![vec![0u64]], set.layers());
}

#[test]
fn drain_empty_set() {
    let mut set = BitSet::with_capacity(512);
    assert_eq!(Vec::<usize>::new(), set.drain_all());
    assert!(set.is_empty());

    let mut fresh = BitSet::new();
    assert_eq!(Vec::<usize>::new(), fresh.drain_all());
}

#[test]
fn drain_after_noncolliding_clear() {
    // Clearing positions that share no summary bit with anything else
    // keeps the hierarchy fit for draining.
    let mut set = BitSet::with_capacity(4096);
    set.set(5);
    set.set(700);
    set.set(2100);
    set.clear(700);
    assert_eq!(vec![5usize, 2100], set.drain_all());
    assert!(set.is_empty());
}

#[test]
fn new_set_is_empty() {
    let set = BitSet::new();
    assert!(set.is_empty());
    assert_eq!(0, set.capacity());
    assert!(set.layers().is_empty());

    let set = BitSet::with_capacity(0);
    assert!(set.is_empty());
    assert_eq!(0, set.capacity());
}

#[test]
fn minimum_capacity_boundaries() {
    let mut set = BitSet::with_capacity(1);
    assert_eq!(16, set.capacity());
    set.set(15);
    assert!(set.test(15));
    assert!(!set.test(0));
    assert_eq!(vec![0usize, 15], {
        set.set(0);
        set.drain_all()
    });
}
