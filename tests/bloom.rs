use tile_game::big_set::HashedItemSet;
use tile_game::bloom::BloomHashedItemSet;
use tile_game::out_of_core::SetError;

#[test]
fn bloom_set_holds_every_other_letter() {
    let mut set = BloomHashedItemSet::new(13, 10, 3).unwrap();
    for (i, c) in ('a'..='z').step_by(2).enumerate() {
        assert_eq!(set.len(), i);
        set.insert(&c);
    }
    for (i, c) in ('a'..='z').enumerate() {
        assert_eq!(set.contains(&c), i % 2 == 0);
    }
    assert_eq!(set.len(), 13);
}

#[test]
fn bloom_set_beyond_its_expected_size() {
    // A one-bit filter lets everything through to the set proper.
    let mut set = BloomHashedItemSet::<char>::new(0, 0, 4).unwrap();
    for h in (0..500u64).map(|x| x * 31 + 7) {
        set.insert_hash(h);
    }
    for x in 0..500u64 {
        assert!(set.contains_hash(x * 31 + 7));
        assert!(!set.contains_hash(x * 31 + 8));
    }
    assert_eq!(set.len_hashes(), 500);
}

#[test]
fn bloom_set_repeats_count_once() {
    let mut set = BloomHashedItemSet::<char>::new(100, 8, 5).unwrap();
    for _ in 0..4 {
        for h in [u64::MAX, 0, 1 << 40, 12345] {
            set.insert_hash(h);
        }
    }
    assert_eq!(set.len_hashes(), 4);
    assert!(set.contains_hash(0));
    assert!(!set.contains_hash(2));
}

#[test]
fn bloom_set_rejects_empty_cache() {
    assert!(matches!(
        BloomHashedItemSet::<char>::new(10, 10, 0),
        Err(SetError::ZeroCacheCapacity)
    ));
}
