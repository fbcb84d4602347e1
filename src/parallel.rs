use crate::fingerprint::{hash, Fingerprint};
use crate::out_of_core::{shard_of, OutOfCoreHashedItemSet, SetError};
use vstd::prelude::*;
use vstd::rwlock::{ReadHandle, RwLock, RwLockPredicate};

verus! {

/// What the lock of shard `index` of `count` guarantees of the shard inside.
pub struct ShardRule {
    pub index: usize,
    pub count: usize,
    /// The capacity of the shard's cache.
    pub cache: usize,
}

impl<T> RwLockPredicate<OutOfCoreHashedItemSet<T>> for ShardRule {
    open spec fn inv(self, v: OutOfCoreHashedItemSet<T>) -> bool {
        &&& v.inv()
        &&& v@.finite()
        &&& v.spec_cache_capacity() == self.cache
        &&& forall|h: u64| #[trigger] v@.contains(h) ==> shard_of(h, self.count as int) == self.index
    }
}

/// The weight of shard `i` in the prime-staggered cache split: 3, 5, 7, 11.
pub open spec fn shard_weight(i: int) -> int {
    if i == 0 {
        3
    } else if i == 1 {
        5
    } else if i == 2 {
        7
    } else {
        11
    }
}

/// The total weight of the first `count` shards.
pub open spec fn weight_sum(count: int) -> int {
    if count <= 1 {
        3
    } else if count == 2 {
        8
    } else if count == 3 {
        15
    } else {
        26
    }
}

/// The cache capacity of shard `i` of `count` sharing `total` cached hashes:
/// its share in proportion to its weight, rounded down, and at least one.
pub open spec fn prime_cache_size(total: int, count: int, i: int) -> int {
    let share = total * shard_weight(i) / weight_sum(count);
    if share < 1 {
        1
    } else {
        share
    }
}

/// `total * w / s`, computed without a product that could overflow.
fn weighted_share(total: usize, w: usize, s: usize) -> (r: usize)
    requires
        0 < w <= s <= 26,
    ensures
        r == total as int * w as int / s as int,
{
    let q = total / s;
    let rem = total % s;
    proof {
        let t = total as int;
        let wi = w as int;
        let si = s as int;
        let qi = q as int;
        let ri = rem as int;
        vstd::arithmetic::div_mod::lemma_fundamental_div_mod(t, si);
        let a = (ri * wi) / si;
        let c = (ri * wi) % si;
        vstd::arithmetic::div_mod::lemma_fundamental_div_mod(ri * wi, si);
        assert(t * wi == si * (qi * wi + a) + c) by (nonlinear_arith)
            requires
                t == si * qi + ri,
                ri * wi == si * a + c,
        ;
        assert(0 <= c < si) by {
            vstd::arithmetic::div_mod::lemma_mod_bound(ri * wi, si);
        }
        assert(ri * wi >= 0) by (nonlinear_arith)
            requires
                ri >= 0,
                wi >= 0,
        ;
        vstd::arithmetic::div_mod::lemma_div_multiples_vanish_fancy(qi * wi + a, c, si);
        assert(qi * wi <= t) by (nonlinear_arith)
            requires
                t == si * qi + ri,
                0 <= ri,
                0 <= qi,
                wi <= si,
        ;
        assert(ri * wi < 26 * 26) by (nonlinear_arith)
            requires
                0 <= ri < si,
                wi <= si,
                si <= 26,
        ;
        assert(qi * wi + a <= t) by (nonlinear_arith)
            requires
                t * wi == si * (qi * wi + a) + c,
                0 <= c,
                wi <= si,
                0 < si,
                t >= 0,
                qi * wi + a >= 0,
        ;
    }
    q * w + rem * w / s
}

/// A set split into shards by hash, each behind a lock of its own, so that
/// threads may insert into different shards at the same time.
///
/// Other threads may change the set between any two calls, so its methods
/// promise nothing of its contents; what each lock keeps, whatever the
/// threads do, is that its shard stays well-formed and holds only the hashes
/// that belong to it.
pub struct ParallelHashedItemSet<T> {
    shards: Vec<RwLock<OutOfCoreHashedItemSet<T>, ShardRule>>,
}

impl<T> ParallelHashedItemSet<T> {
    /// The cache capacity of shard `i`.
    pub closed spec fn shard_cache_capacity(&self, i: int) -> int {
        self.shards@[i].pred().cache as int
    }

    /// The number of shards.
    pub closed spec fn spec_shard_count(&self) -> nat {
        self.shards@.len()
    }

    /// The set's invariant: each lock guards the shard of its index.
    pub closed spec fn inv(&self) -> bool {
        &&& self.shards@.len() >= 1
        &&& forall|i: int|
            0 <= i < self.shards@.len() ==> (#[trigger] self.shards@[i]).pred().index == i
                && self.shards@[i].pred().count == self.shards@.len()
    }

    /// Creates an empty set of `shard_count` shards, each caching
    /// `cache_per_shard` hashes between flushes.
    pub fn new(shard_count: usize, cache_per_shard: usize) -> (r: Result<Self, SetError>)
        ensures
            shard_count == 0 ==> r == Err::<Self, SetError>(SetError::ZeroShards),
            shard_count > 0 && cache_per_shard == 0 ==> r == Err::<Self, SetError>(
                SetError::ZeroCacheCapacity,
            ),
            shard_count > 0 && cache_per_shard > 0 ==> (r matches Ok(s) && s.inv()
                && s.spec_shard_count() == shard_count && forall|i: int|
                0 <= i < shard_count ==> #[trigger] s.shard_cache_capacity(i) == cache_per_shard),
    {
        if shard_count == 0 {
            return Err(SetError::ZeroShards);
        }
        if cache_per_shard == 0 {
            return Err(SetError::ZeroCacheCapacity);
        }
        let mut shards: Vec<RwLock<OutOfCoreHashedItemSet<T>, ShardRule>> = Vec::new();
        let mut k: usize = 0;
        while k < shard_count
            invariant
                k <= shard_count,
                cache_per_shard > 0,
                shards@.len() == k,
                forall|i: int|
                    0 <= i < k ==> (#[trigger] shards@[i]).pred() == (ShardRule {
                        index: i as usize,
                        count: shard_count,
                        cache: cache_per_shard,
                    }),
            decreases shard_count - k,
        {
            match OutOfCoreHashedItemSet::new(cache_per_shard) {
                Ok(shard) => {
                    let rule = Ghost(ShardRule { index: k, count: shard_count, cache: cache_per_shard });
                    shards.push(RwLock::new(shard, rule));
                },
                Err(_) => {},
            }
            k += 1;
        }
        Ok(Self { shards })
    }

    /// Creates an empty set of at most four shards whose caches, sharing
    /// `total_cache` hashes in proportion to 3, 5, 7 and 11, fill up and are
    /// flushed at different times.
    pub fn with_prime_caches(shard_count: usize, total_cache: usize) -> (r: Result<Self, SetError>)
        ensures
            shard_count == 0 ==> r == Err::<Self, SetError>(SetError::ZeroShards),
            shard_count > 0 ==> (r matches Ok(s) && s.inv() && s.spec_shard_count() == if shard_count
                > 4 {
                4
            } else {
                shard_count
            } && forall|i: int|
                0 <= i < s.spec_shard_count() ==> #[trigger] s.shard_cache_capacity(i)
                    == prime_cache_size(total_cache as int, s.spec_shard_count() as int, i)),
    {
        if shard_count == 0 {
            return Err(SetError::ZeroShards);
        }
        let count: usize = if shard_count > 4 {
            4
        } else {
            shard_count
        };
        let weights: [usize; 4] = [3, 5, 7, 11];
        let sum: usize = if count == 1 {
            3
        } else if count == 2 {
            8
        } else if count == 3 {
            15
        } else {
            26
        };
        let mut shards: Vec<RwLock<OutOfCoreHashedItemSet<T>, ShardRule>> = Vec::new();
        let mut k: usize = 0;
        while k < count
            invariant
                1 <= count <= 4,
                k <= count,
                sum == weight_sum(count as int),
                weights@ == seq![3usize, 5, 7, 11],
                shards@.len() == k,
                forall|i: int|
                    0 <= i < k ==> (#[trigger] shards@[i]).pred() == (ShardRule {
                        index: i as usize,
                        count: count,
                        cache: prime_cache_size(total_cache as int, count as int, i) as usize,
                    }),
            decreases count - k,
        {
            proof {
                assert(weights@[k as int] == shard_weight(k as int));
            }
            let share = weighted_share(total_cache, weights[k], sum);
            let cache = if share < 1 {
                1
            } else {
                share
            };
            match OutOfCoreHashedItemSet::new(cache) {
                Ok(shard) => {
                    let rule = Ghost(ShardRule { index: k, count, cache });
                    shards.push(RwLock::new(shard, rule));
                },
                Err(_) => {},
            }
            k += 1;
        }
        Ok(Self { shards })
    }

    /// The number of shards.
    pub fn shard_count(&self) -> (r: usize)
        ensures
            r == self.spec_shard_count(),
    {
        self.shards.len()
    }

    /// Inserts the hash `h` unless its shard holds it already, and returns
    /// whether it did; a caller that gets `false` is the only one to claim
    /// `h`. The shard is locked throughout.
    pub fn insert_check_hash(&self, h: u64) -> (was_present: bool)
        requires
            self.inv(),
    {
        let i = (h % (self.shards.len() as u64)) as usize;
        let (mut shard, handle) = self.shards[i].acquire_write();
        let mut was_present = shard.contains_hash(h);
        if !was_present {
            if shard.len_hashes() < usize::MAX {
                shard.insert_hash(h);
            } else {
                // A full shard can claim nothing more.
                was_present = true;
            }
        }
        handle.release_write(shard);
        was_present
    }

    /// Returns true if the shard of the hash `h` holds it.
    pub fn contains_hash(&self, h: u64) -> (r: bool)
        requires
            self.inv(),
    {
        let i = (h % (self.shards.len() as u64)) as usize;
        let handle = self.shards[i].acquire_read();
        let r = handle.borrow().contains_hash(h);
        handle.release_read();
        r
    }

    /// The number of hashes held, counted with every shard locked, or
    /// `usize::MAX` if there are more.
    pub fn len(&self) -> (r: usize)
        requires
            self.inv(),
    {
        let mut handles: Vec<ReadHandle<OutOfCoreHashedItemSet<T>, ShardRule>> = Vec::new();
        let mut k: usize = 0;
        while k < self.shards.len()
            invariant
                self.inv(),
                k <= self.shards@.len(),
                handles@.len() == k,
                forall|i: int|
                    0 <= i < k ==> (#[trigger] handles@[i]).rwlock() == self.shards@[i]
                        && self.shards@[i].inv(handles@[i].view()),
            decreases self.shards@.len() - k,
        {
            handles.push(self.shards[k].acquire_read());
            k += 1;
        }
        let mut total: usize = 0;
        let mut j: usize = 0;
        while j < handles.len()
            invariant
                self.inv(),
                j <= handles@.len(),
                handles@.len() == self.shards@.len(),
                forall|i: int|
                    0 <= i < handles@.len() ==> (#[trigger] handles@[i]).rwlock() == self.shards@[i]
                        && self.shards@[i].inv(handles@[i].view()),
            decreases handles@.len() - j,
        {
            let n = handles[j].borrow().len_hashes();
            total = if total > usize::MAX - n {
                usize::MAX
            } else {
                total + n
            };
            j += 1;
        }
        while handles.len() > 0
            decreases handles@.len(),
        {
            let handle = handles.pop().unwrap();
            handle.release_read();
        }
        total
    }
}

impl<T: Fingerprint> ParallelHashedItemSet<T> {
    /// Inserts an item unless the set holds it already, and returns whether
    /// it did.
    pub fn insert_check(&self, item: &T) -> (was_present: bool)
        requires
            self.inv(),
    {
        self.insert_check_hash(hash(item))
    }

    /// Returns true if the set contains this item (up to hash collisions).
    pub fn contains(&self, item: &T) -> (r: bool)
        requires
            self.inv(),
    {
        self.contains_hash(hash(item))
    }
}

} // verus!
