use tile_game::big_set::HashedItemSet;
use tile_game::out_of_core::{PartitionedHashedItemSet, SetError};

#[test]
fn partitioned_set_shards_sum_to_total() {
    let mut set = PartitionedHashedItemSet::new(2, 3).unwrap();
    let letters = ['a', 'c', 'e', 'g', 'i', 'k', 'm', 'o', 'q', 's', 'u', 'w', 'y'];
    for (i, c) in letters.iter().enumerate() {
        assert_eq!(set.len(), i);
        set.insert(c);
    }
    assert_eq!(set.shard_count(), 2);
    let total: usize = (0..2).map(|i| set.shard(i).len_hashes()).sum();
    assert_eq!(total, 13);
    assert_eq!(set.len(), 13);
    for i in 0..2 {
        assert!(set.shard(i).run().windows(2).all(|w| w[0] < w[1]));
    }
    for (i, c) in ('a'..='z').enumerate() {
        assert_eq!(set.contains(&c), i % 2 == 0);
    }
}

#[test]
fn partitioned_set_places_hashes_by_remainder() {
    let mut set = PartitionedHashedItemSet::<char>::new(3, 1).unwrap();
    for h in 0..30u64 {
        set.insert_hash(h);
    }
    for i in 0..3 {
        assert_eq!(set.shard(i).len_hashes(), 10);
        assert!(set.shard(i).run().iter().all(|h| *h % 3 == i as u64));
    }
    assert!(set.contains_hash(29));
    assert!(!set.contains_hash(30));
}

#[test]
fn partitioned_set_rejects_bad_sizes() {
    assert!(matches!(
        PartitionedHashedItemSet::<char>::new(0, 3),
        Err(SetError::ZeroShards)
    ));
    assert!(matches!(
        PartitionedHashedItemSet::<char>::new(2, 0),
        Err(SetError::ZeroCacheCapacity)
    ));
}

#[test]
fn claims_on_overlapping_streams() {
    // Four shards with two cached hashes each.
    let mut set = PartitionedHashedItemSet::<u32>::new(4, 2).unwrap();
    for i in (0..1028u32).step_by(4) {
        assert!(!set.insert_check(&i));
    }
    for i in (0..1028u32).step_by(2) {
        assert_eq!(set.insert_check(&i), i % 4 == 0);
    }
    let mut absent = 0;
    for i in 0..1028u32 {
        let was_present = set.insert_check(&i);
        assert_eq!(was_present, i % 2 == 0);
        if !was_present {
            absent += 1;
        }
    }
    assert_eq!(absent, 514);
    assert_eq!(set.len(), 1028);
    for i in 0..1028u32 {
        assert!(set.contains(&i));
    }
}
