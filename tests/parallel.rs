use tile_game::out_of_core::SetError;
use tile_game::parallel::ParallelHashedItemSet;

#[test]
fn parallel_set_claims_in_phases() {
    // Four shards sharing eight cached hashes.
    let set = ParallelHashedItemSet::with_prime_caches(4, 8).unwrap();
    assert_eq!(set.shard_count(), 4);
    for i in (0..1028u32).step_by(4) {
        assert!(!set.insert_check(&i));
    }
    for i in (0..1028u32).step_by(2) {
        assert_eq!(set.insert_check(&i), i % 4 == 0);
    }
    for i in 0..1028u32 {
        assert_eq!(set.insert_check(&i), i % 2 == 0);
    }
    assert_eq!(set.len(), 1028);
}

#[test]
fn parallel_set_interleaved_disjoint_streams() {
    // Four streams of 500 values each, taken in turn.
    let set = ParallelHashedItemSet::new(4, 16).unwrap();
    let mut claims = 0;
    for k in 0..500u32 {
        for t in 0..4u32 {
            if !set.insert_check(&(k * 4 + t)) {
                claims += 1;
            }
        }
    }
    assert_eq!(claims, 2000);
    assert_eq!(set.len(), 2000);
    for x in 0..2000u32 {
        assert!(set.contains(&x));
    }
}

#[test]
fn parallel_set_overlapping_streams_claim_once() {
    let set = ParallelHashedItemSet::new(3, 5).unwrap();
    let mut claims = 0;
    for x in 0..300u32 {
        for _ in 0..4 {
            if !set.insert_check(&x) {
                claims += 1;
            }
        }
    }
    assert_eq!(claims, 300);
    assert_eq!(set.len(), 300);
    assert!(!set.contains(&300u32));
}

#[test]
fn parallel_set_rejects_bad_sizes() {
    assert!(matches!(
        ParallelHashedItemSet::<u32>::new(0, 4),
        Err(SetError::ZeroShards)
    ));
    assert!(matches!(
        ParallelHashedItemSet::<u32>::new(2, 0),
        Err(SetError::ZeroCacheCapacity)
    ));
    assert!(matches!(
        ParallelHashedItemSet::<u32>::with_prime_caches(0, 8),
        Err(SetError::ZeroShards)
    ));
    assert_eq!(
        ParallelHashedItemSet::<u32>::with_prime_caches(9, 8)
            .unwrap()
            .shard_count(),
        4
    );
}

#[test]
fn prime_caches_follow_the_weights() {
    // With 26 hashes to share, four shards get 3, 5, 7 and 11 of them:
    // each shard flushes once its cache is full.
    let set = ParallelHashedItemSet::<u32>::with_prime_caches(4, 26).unwrap();
    for x in 0..1000u32 {
        assert!(!set.insert_check(&x));
    }
    assert_eq!(set.len(), 1000);
    // A huge total does not overflow.
    let big = ParallelHashedItemSet::<u32>::with_prime_caches(2, usize::MAX).unwrap();
    assert_eq!(big.shard_count(), 2);
}
