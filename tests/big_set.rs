use tile_game::big_set::{BigHashSet, HashedItemSet, LittleSet};
use tile_game::out_of_core::{InMemoryHashedItemSet, OutOfCoreHashedItemSet, SetError};

fn test_hashed_item_set(items: &mut impl HashedItemSet<char>) {
    for (i, c) in ('a'..='z').step_by(2).enumerate() {
        assert_eq!(items.len(), i);
        items.insert(&c);
    }

    for (i, c) in ('a'..='z').enumerate() {
        match i % 2 {
            0 => assert!(items.contains(&c)),
            _ => assert!(!items.contains(&c)),
        }
    }
    assert_eq!(items.len(), 13);
}

#[test]
pub fn test_big_hash_set() {
    test_hashed_item_set(&mut BigHashSet::new(25, 50));
}

#[test]
fn little_set_holds_every_other_letter() {
    test_hashed_item_set(&mut LittleSet::new());
}

#[test]
fn out_of_core_set_holds_every_other_letter() {
    test_hashed_item_set(&mut OutOfCoreHashedItemSet::new(3).unwrap());
}

#[test]
pub fn test_in_memory_hashed_item_set() {
    let mut hash_items = InMemoryHashedItemSet::new();

    for c in ('a'..='z').step_by(2) {
        hash_items.insert(&c);
    }

    for (i, c) in ('a'..='z').enumerate() {
        match i % 2 {
            0 => assert!(hash_items.contains(&c)),
            _ => assert!(!hash_items.contains(&c)),
        }
    }
}

#[test]
fn big_hash_set_table_has_prime_size() {
    // 25 items at 50% load want 50 slots; the next prime is 53.
    let set: BigHashSet<char> = BigHashSet::new(25, 50);
    assert_eq!(set.slots(), 53);
    let set: BigHashSet<char> = BigHashSet::new(0, 100);
    assert_eq!(set.slots(), 2);
    let set: BigHashSet<char> = BigHashSet::new(10, 60);
    assert_eq!(set.slots(), 17);
}

#[test]
fn big_hash_set_grows_and_keeps_everything() {
    let mut set: BigHashSet<char> = BigHashSet::new(2, 50);
    let start = set.slots();
    let letters: Vec<char> = ('a'..='z').chain('A'..='Z').collect();
    for (i, c) in letters.iter().enumerate() {
        assert_eq!(set.len(), i);
        set.insert(c);
    }
    assert!(set.slots() > start);
    for c in letters.iter() {
        assert!(set.contains(c));
    }
    assert!(!set.contains(&'0'));
    assert_eq!(set.len(), 52);
}

#[test]
fn big_hash_set_counts_repeated_inserts_once() {
    let mut set: BigHashSet<char> = BigHashSet::new(4, 50);
    for _ in 0..3 {
        for c in ['x', 'y', 'z'] {
            set.insert(&c);
        }
    }
    assert_eq!(set.len(), 3);
}

#[test]
fn big_hash_set_hash_zero_and_full_range() {
    let mut set: BigHashSet<char> = BigHashSet::new(4, 100);
    assert!(!set.contains_hash(0));
    set.insert_hash(0);
    assert!(set.contains_hash(0));
    set.insert_hash(0);
    set.insert_hash(u64::MAX);
    set.insert_hash(u64::MAX - 1);
    assert!(set.contains_hash(u64::MAX));
    assert!(set.contains_hash(u64::MAX - 1));
    assert!(!set.contains_hash(u64::MAX - 2));
    assert_eq!(HashedItemSet::<char>::len(&set), 3);
}

#[test]
fn big_hash_set_many_hashes() {
    let mut set: BigHashSet<char> = BigHashSet::new(8, 75);
    for h in 1..=2000u64 {
        set.insert_hash(h * 7919);
    }
    for h in 1..=2000u64 {
        assert!(set.contains_hash(h * 7919));
        assert!(!set.contains_hash(h * 7919 + 1));
    }
    assert_eq!(HashedItemSet::<char>::len(&set), 2000);
}

#[test]
fn out_of_core_set_flushes_sorted_runs() {
    let mut set = OutOfCoreHashedItemSet::new(3).unwrap();
    let letters = ['a', 'c', 'e', 'g', 'i', 'k', 'm', 'o', 'q', 's', 'u', 'w', 'y'];
    for (i, c) in letters.iter().enumerate() {
        set.insert(c);
        let n = i + 1;
        assert_eq!(set.run().len(), n - n % 3);
        assert!(set.run().windows(2).all(|w| w[0] < w[1]));
    }
    assert!(!set.contains(&'n'));
    assert!(set.contains(&'o'));
    assert_eq!(set.len(), 13);
}

#[test]
fn out_of_core_set_rejects_empty_cache() {
    assert!(matches!(
        OutOfCoreHashedItemSet::<char>::new(0),
        Err(SetError::ZeroCacheCapacity)
    ));
}

#[test]
fn out_of_core_set_ignores_repeats_across_flushes() {
    let mut set = OutOfCoreHashedItemSet::<char>::new(2).unwrap();
    for h in [5u64, 3, 5, 9, 3, 1, 9, 7] {
        set.insert_hash(h);
    }
    assert_eq!(set.run(), &[1, 3, 5, 9]);
    assert!(set.contains_hash(7));
    assert_eq!(HashedItemSet::<char>::len(&set), 5);
}
