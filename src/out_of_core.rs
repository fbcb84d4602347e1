use crate::big_set::HashedItemSet;
use crate::fingerprint::{hash, Fingerprint};
use std::collections::HashSet;
use std::marker::PhantomData;
use vstd::prelude::*;

verus! {

broadcast use vstd::std_specs::hash::group_hash_axioms, vstd::seq_lib::lemma_seq_contains_after_push;

/// A set of items held in memory by their hashes.
pub struct InMemoryHashedItemSet<T> {
    hashes: HashSet<u64>,
    phantom: PhantomData<T>,
}

impl<T> View for InMemoryHashedItemSet<T> {
    type V = Set<u64>;

    closed spec fn view(&self) -> Set<u64> {
        self.hashes@
    }
}

impl<T> InMemoryHashedItemSet<T> {
    /// Constructor
    pub fn new() -> (r: Self)
        ensures
            r@ == Set::<u64>::empty(),
    {
        Self { hashes: HashSet::new(), phantom: PhantomData }
    }
}

impl<T: Fingerprint> HashedItemSet<T> for InMemoryHashedItemSet<T> {
    open spec fn hashes(&self) -> Set<u64> {
        self@
    }

    open spec fn well_formed(&self) -> bool {
        self@.finite()
    }

    open spec fn has_room(&self) -> bool {
        true
    }

    /// Returns true if the set contains this item.
    fn contains(&self, item: &T) -> (r: bool) {
        let h = hash(item);
        self.hashes.contains(&h)
    }

    /// Inserts an item into the set
    fn insert(&mut self, item: &T) {
        let h = hash(item);
        self.hashes.insert(h);
    }

    /// Returns the number of elements in this set.
    fn len(&self) -> (r: usize) {
        self.hashes.len()
    }
}

/// Whether `s` is sorted in strictly ascending order.
pub open spec fn strictly_sorted(s: Seq<u64>) -> bool {
    forall|i: int, j: int| 0 <= i < j < s.len() ==> s[i] < s[j]
}

/// Inserts `x`, which `v` does not hold, into the sorted `v` at its place.
fn sorted_insert(v: &mut Vec<u64>, x: u64)
    requires
        strictly_sorted(old(v)@),
        !old(v)@.contains(x),
    ensures
        strictly_sorted(final(v)@),
        final(v)@.len() == old(v)@.len() + 1,
        forall|y: u64| #[trigger] final(v)@.contains(y) <==> old(v)@.contains(y) || y == x,
{
    let mut i = v.len();
    while i > 0 && v[i - 1] > x
        invariant
            i <= v@.len(),
            v@ == old(v)@,
            forall|k: int| i <= k < v@.len() ==> v@[k] > x,
        decreases i,
    {
        i -= 1;
    }
    proof {
        if i > 0 {
            assert(v@[i - 1] != x);
        }
    }
    v.insert(i, x);
    proof {
        let s = old(v)@;
        assert(forall|k: int| 0 <= k < i ==> v@[k] == s[k]);
        assert(v@[i as int] == x);
        assert(forall|k: int| i < k < v@.len() ==> v@[k] == s[k - 1]);
        assert forall|y: u64| #[trigger] v@.contains(y) <==> s.contains(y) || y == x by {
            if v@.contains(y) {
                let k = choose|k: int| 0 <= k < v@.len() && v@[k] == y;
                if k < i {
                    assert(s[k] == y);
                } else if k > i {
                    assert(s[k - 1] == y);
                }
            }
            if s.contains(y) {
                let k = choose|k: int| 0 <= k < s.len() && s[k] == y;
                if k < i {
                    assert(v@[k] == y);
                } else {
                    assert(v@[k + 1] == y);
                }
            }
            if y == x {
                assert(v@[i as int] == y);
            }
        }
    }
}

/// Merges two sorted runs that share no value into one sorted run.
fn merge_runs(a: &Vec<u64>, b: &Vec<u64>) -> (r: Vec<u64>)
    requires
        strictly_sorted(a@),
        strictly_sorted(b@),
        forall|x: u64| a@.contains(x) ==> !b@.contains(x),
        a@.len() + b@.len() <= usize::MAX,
    ensures
        strictly_sorted(r@),
        r@.len() == a@.len() + b@.len(),
        forall|y: u64| #[trigger] r@.contains(y) <==> a@.contains(y) || b@.contains(y),
{
    let mut out: Vec<u64> = Vec::new();
    let mut i: usize = 0;
    let mut j: usize = 0;
    while i < a.len() || j < b.len()
        invariant
            i <= a@.len(),
            j <= b@.len(),
            a@.len() + b@.len() <= usize::MAX,
            out@.len() == i + j,
            strictly_sorted(a@),
            strictly_sorted(b@),
            forall|x: u64| a@.contains(x) ==> !b@.contains(x),
            strictly_sorted(out@),
            forall|y: u64| #[trigger]
                out@.contains(y) <==> a@.subrange(0, i as int).contains(y) || b@.subrange(
                    0,
                    j as int,
                ).contains(y),
            out@.len() > 0 && i < a@.len() ==> out@.last() < a@[i as int],
            out@.len() > 0 && j < b@.len() ==> out@.last() < b@[j as int],
        decreases a@.len() + b@.len() - i - j,
    {
        let ghost old_out = out@;
        let take_a = j >= b.len() || (i < a.len() && a[i] < b[j]);
        if take_a {
            let x = a[i];
            out.push(x);
            proof {
                assert(a@.subrange(0, i + 1) =~= a@.subrange(0, i as int).push(x));
                if j < b@.len() {
                    assert(x != b@[j as int]) by {
                        assert(a@.contains(x));
                    }
                }
            }
            i += 1;
        } else {
            let x = b[j];
            out.push(x);
            proof {
                assert(b@.subrange(0, j + 1) =~= b@.subrange(0, j as int).push(x));
                if i < a@.len() {
                    assert(x != a@[i as int]) by {
                        assert(a@.contains(a@[i as int]));
                        assert(b@.contains(x));
                    }
                }
            }
            j += 1;
        }
        proof {
            assert forall|p: int, q: int| 0 <= p < q < out@.len() implies out@[p] < out@[q] by {
                if q == out@.len() - 1 && p < old_out.len() - 1 {
                    assert(old_out[p] < old_out.last());
                }
            }
        }
    }
    proof {
        assert(a@.subrange(0, i as int) =~= a@);
        assert(b@.subrange(0, j as int) =~= b@);
    }
    out
}

/// Returns true if the sorted run holds `h`.
fn run_contains(run: &Vec<u64>, h: u64) -> (r: bool)
    requires
        strictly_sorted(run@),
    ensures
        r == run@.contains(h),
{
    let mut lo: usize = 0;
    let mut hi: usize = run.len();
    while lo < hi
        invariant
            lo <= hi <= run@.len(),
            strictly_sorted(run@),
            forall|k: int| 0 <= k < lo ==> run@[k] < h,
            forall|k: int| hi <= k < run@.len() ==> run@[k] > h,
        decreases hi - lo,
    {
        let mid = lo + (hi - lo) / 2;
        if run[mid] == h {
            return true;
        } else if run[mid] < h {
            lo = mid + 1;
        } else {
            hi = mid;
        }
    }
    false
}

/// Why a set could not be built.
#[derive(Debug, PartialEq, Eq)]
pub enum SetError {
    /// A cache that holds no hash would never be flushed.
    ZeroCacheCapacity,
    /// A partitioned set needs at least one shard.
    ZeroShards,
}

/// Stores a large group of elements by hash: recent hashes sit in a small
/// cache, which is merged into a single sorted run whenever it fills up.
pub struct OutOfCoreHashedItemSet<T> {
    /// Hashes inserted since the last flush, without repetition.
    cache: Vec<u64>,
    /// How many hashes the cache holds before it is flushed.
    cache_capacity: usize,
    /// The sorted run of flushed hashes.
    run: Vec<u64>,
    phantom: PhantomData<T>,
}

impl<T> View for OutOfCoreHashedItemSet<T> {
    type V = Set<u64>;

    closed spec fn view(&self) -> Set<u64> {
        Set::new(|h: u64| self.cache@.contains(h) || self.run@.contains(h))
    }
}

impl<T> OutOfCoreHashedItemSet<T> {
    /// The sorted run of flushed hashes.
    pub closed spec fn spec_run(&self) -> Seq<u64> {
        self.run@
    }

    /// The hashes in the cache, in the order they came.
    pub closed spec fn spec_cache(&self) -> Seq<u64> {
        self.cache@
    }

    /// The number of hashes in the cache.
    pub closed spec fn cache_len(&self) -> nat {
        self.cache@.len()
    }

    /// How many hashes the cache holds before it is flushed.
    pub closed spec fn spec_cache_capacity(&self) -> nat {
        self.cache_capacity as nat
    }

    /// The set's invariant.
    pub closed spec fn inv(&self) -> bool {
        &&& self.cache_capacity >= 1
        &&& self.cache@.len() < self.cache_capacity
        &&& self.cache@.no_duplicates()
        &&& strictly_sorted(self.run@)
        &&& forall|h: u64| self.cache@.contains(h) ==> !self.run@.contains(h)
        &&& self.cache@.len() + self.run@.len() <= usize::MAX
    }

    /// The run of a well-formed set is sorted in strictly ascending order.
    pub proof fn lemma_run_sorted(&self)
        requires
            self.inv(),
        ensures
            strictly_sorted(self.spec_run()),
    {
    }

    /// A well-formed set holds finitely many hashes.
    pub proof fn lemma_finite(&self)
        requires
            self.inv(),
        ensures
            self@.finite(),
    {
        self.lemma_len();
    }

    /// A well-formed set holds exactly the hashes of its cache and its run,
    /// which share none, and its cache stays below capacity.
    pub proof fn lemma_len(&self)
        requires
            self.inv(),
        ensures
            self@.finite(),
            self@.len() == self.cache_len() + self.spec_run().len(),
            self@ == self.spec_cache().to_set() + self.spec_run().to_set(),
            self.cache_len() < self.spec_cache_capacity(),
    {
        let c = self.cache@.to_set();
        let s = self.run@.to_set();
        assert(self.run@.no_duplicates()) by {
            assert forall|i: int, j: int|
                0 <= i < self.run@.len() && 0 <= j < self.run@.len() && i != j implies self.run@[i]
                != self.run@[j] by {
                if i < j {
                    assert(self.run@[i] < self.run@[j]);
                } else {
                    assert(self.run@[j] < self.run@[i]);
                }
            }
        }
        self.cache@.unique_seq_to_set();
        self.run@.unique_seq_to_set();
        assert(c.disjoint(s));
        vstd::set_lib::lemma_set_disjoint_lens(c, s);
        assert(self@ =~= c + s);
    }

    /// Creates an empty set whose cache holds `max_elts` hashes before it is
    /// flushed; fails when `max_elts` is 0.
    pub fn new(max_elts: usize) -> (r: Result<Self, SetError>)
        ensures
            max_elts == 0 <==> r is Err,
            r matches Ok(s) ==> s.inv() && s@ == Set::<u64>::empty() && s.spec_cache_capacity()
                == max_elts && s.cache_len() == 0 && s.spec_run().len() == 0,
    {
        if max_elts == 0 {
            return Err(SetError::ZeroCacheCapacity);
        }
        let s = Self {
            cache: Vec::new(),
            cache_capacity: max_elts,
            run: Vec::new(),
            phantom: PhantomData,
        };
        proof {
            assert(s@ =~= Set::<u64>::empty());
        }
        Ok(s)
    }

    /// An empty set with a one-hash cache, standing in for a shard on loan.
    fn placeholder() -> (r: Self)
        ensures
            r.inv(),
            r@ == Set::<u64>::empty(),
    {
        let s = Self { cache: Vec::new(), cache_capacity: 1, run: Vec::new(), phantom: PhantomData };
        proof {
            assert(s@ =~= Set::<u64>::empty());
        }
        s
    }

    /// The sorted run of flushed hashes.
    pub fn run(&self) -> (r: &[u64])
        ensures
            r@ == self.spec_run(),
    {
        self.run.as_slice()
    }

    /// Returns true if the set holds the hash `h`.
    pub fn contains_hash(&self, h: u64) -> (r: bool)
        requires
            self.inv(),
        ensures
            r == self@.contains(h),
    {
        let mut k: usize = 0;
        while k < self.cache.len()
            invariant
                k <= self.cache@.len(),
                forall|i: int| 0 <= i < k ==> self.cache@[i] != h,
            decreases self.cache@.len() - k,
        {
            if self.cache[k] == h {
                return true;
            }
            k += 1;
        }
        run_contains(&self.run, h)
    }

    /// Inserts the hash `h`; when the cache fills up, it is merged into a new
    /// sorted run and emptied.
    pub fn insert_hash(&mut self, h: u64)
        requires
            old(self).inv(),
            old(self)@.len() < usize::MAX,
        ensures
            final(self).inv(),
            final(self)@ == old(self)@.insert(h),
            final(self).spec_cache_capacity() == old(self).spec_cache_capacity(),
            old(self)@.contains(h) ==> final(self).spec_run() == old(self).spec_run()
                && final(self).cache_len() == old(self).cache_len(),
            !old(self)@.contains(h) && old(self).cache_len() + 1 == old(
                self,
            ).spec_cache_capacity() ==> final(self).spec_run().len() == old(self).spec_run().len()
                + old(self).spec_cache_capacity() && final(self).cache_len() == 0,
            !old(self)@.contains(h) && old(self).cache_len() + 1 < old(self).spec_cache_capacity()
                ==> final(self).spec_run() == old(self).spec_run() && final(self).spec_cache()
                == old(self).spec_cache().push(h),
            !old(self)@.contains(h) && old(self).cache_len() + 1 == old(
                self,
            ).spec_cache_capacity() ==> forall|y: u64| #[trigger]
                final(self).spec_run().contains(y) <==> old(self)@.contains(y) || y == h,
            old(self)@.contains(h) ==> final(self).spec_cache() == old(self).spec_cache(),
            final(self).cache_len() < final(self).spec_cache_capacity(),
    {
        proof {
            self.lemma_len();
        }
        if self.contains_hash(h) {
            proof {
                assert(self@ =~= old(self)@.insert(h));
            }
            return;
        }
        self.cache.push(h);
        proof {
            assert(self.cache@.drop_last() =~= old(self).cache@);
            assert forall|i: int, j: int|
                0 <= i < self.cache@.len() && 0 <= j < self.cache@.len() && i != j implies self.cache@[i]
                != self.cache@[j] by {
                if i == self.cache@.len() - 1 {
                    assert(old(self).cache@.contains(self.cache@[j]));
                } else if j == self.cache@.len() - 1 {
                    assert(old(self).cache@.contains(self.cache@[i]));
                }
            }
        }
        if self.cache.len() == self.cache_capacity {
            let ghost before = self@;
            assert(before =~= old(self)@.insert(h));
            self.flush();
            proof {
                assert forall|y: u64| #[trigger]
                    self.run@.contains(y) <==> old(self)@.contains(y) || y == h by {
                    assert(self@.contains(y) == before.contains(y));
                    assert(!self.cache@.contains(y));
                }
            }
        }
        proof {
            assert(self@ =~= old(self)@.insert(h));
        }
    }

    /// Merges the full cache into a new sorted run and empties the cache.
    fn flush(&mut self)
        requires
            old(self).cache_capacity >= 1,
            old(self).cache@.len() == old(self).cache_capacity,
            old(self).cache@.no_duplicates(),
            strictly_sorted(old(self).run@),
            forall|h: u64| old(self).cache@.contains(h) ==> !old(self).run@.contains(h),
            old(self).cache@.len() + old(self).run@.len() <= usize::MAX,
        ensures
            final(self).inv(),
            final(self)@ == old(self)@,
            final(self).cache_capacity == old(self).cache_capacity,
            final(self).run@.len() == old(self).run@.len() + old(self).cache_capacity,
            final(self).cache@.len() == 0,
    {
        let mut sorted: Vec<u64> = Vec::new();
        let mut k: usize = 0;
        while k < self.cache.len()
            invariant
                k <= self.cache@.len(),
                self.cache@.no_duplicates(),
                strictly_sorted(sorted@),
                sorted@.len() == k,
                forall|y: u64| #[trigger]
                    sorted@.contains(y) <==> self.cache@.subrange(0, k as int).contains(y),
            decreases self.cache@.len() - k,
        {
            let x = self.cache[k];
            proof {
                if sorted@.contains(x) {
                    let p = choose|p: int| 0 <= p < k && self.cache@[p] == x;
                    assert(self.cache@.subrange(0, k as int)[p] == x);
                }
                assert(self.cache@.subrange(0, k + 1) =~= self.cache@.subrange(0, k as int).push(x));
            }
            sorted_insert(&mut sorted, x);
            k += 1;
        }
        proof {
            assert(self.cache@.subrange(0, k as int) =~= self.cache@);
        }
        let merged = merge_runs(&self.run, &sorted);
        let ghost before = self@;
        self.run = merged;
        self.cache = Vec::new();
        proof {
            assert(self@ =~= before);
        }
    }

    /// The number of hashes held.
    pub fn len_hashes(&self) -> (r: usize)
        requires
            self.inv(),
        ensures
            r == self@.len(),
    {
        proof {
            self.lemma_len();
        }
        self.cache.len() + self.run.len()
    }
}

impl<T: Fingerprint> HashedItemSet<T> for OutOfCoreHashedItemSet<T> {
    open spec fn hashes(&self) -> Set<u64> {
        self@
    }

    open spec fn well_formed(&self) -> bool {
        self.inv() && self@.finite()
    }

    open spec fn has_room(&self) -> bool {
        self@.len() < usize::MAX
    }

    /// Returns true if the set contains this item.
    fn contains(&self, item: &T) -> (r: bool) {
        self.contains_hash(hash(item))
    }

    /// Inserts an item into the set
    fn insert(&mut self, item: &T) {
        let h = hash(item);
        self.insert_hash(h);
        proof {
            self.lemma_len();
        }
    }

    /// Returns the number of elements in this set.
    fn len(&self) -> (r: usize) {
        self.len_hashes()
    }
}

/// The shard that holds the hash `h` among `p` shards.
pub open spec fn shard_of(h: u64, p: int) -> int {
    (h as int) % p
}

/// The hashes held by the shards numbered below `k`.
pub open spec fn shards_upto<T>(shards: Seq<OutOfCoreHashedItemSet<T>>, k: int) -> Set<u64> {
    Set::new(
        |h: u64|
            shard_of(h, shards.len() as int) < k && shards[shard_of(
                h,
                shards.len() as int,
            )]@.contains(h),
    )
}

/// The total size of the shards numbered below `k`.
pub open spec fn shard_total<T>(shards: Seq<OutOfCoreHashedItemSet<T>>, k: int) -> nat
    decreases k,
{
    if k <= 0 {
        0
    } else {
        shard_total(shards, k - 1) + shards[k - 1]@.len()
    }
}

/// Whether every shard is a well-formed set holding only hashes that belong
/// to it.
pub open spec fn shards_partition<T>(shards: Seq<OutOfCoreHashedItemSet<T>>) -> bool {
    &&& shards.len() >= 1
    &&& forall|i: int| 0 <= i < shards.len() ==> (#[trigger] shards[i]).inv()
    &&& forall|i: int| 0 <= i < shards.len() ==> (#[trigger] shards[i])@.finite()
    &&& forall|i: int, h: u64|
        0 <= i < shards.len() && #[trigger] shards[i]@.contains(h) ==> shard_of(
            h,
            shards.len() as int,
        ) == i
}

/// The shards below `k` together hold as many hashes as their sizes add up to.
proof fn lemma_shards_upto<T>(shards: Seq<OutOfCoreHashedItemSet<T>>, k: int)
    requires
        shards_partition(shards),
        0 <= k <= shards.len(),
    ensures
        shards_upto(shards, k).finite(),
        shards_upto(shards, k).len() == shard_total(shards, k),
    decreases k,
{
    let p = shards.len() as int;
    if k == 0 {
        assert(shards_upto(shards, k) =~= Set::<u64>::empty());
    } else {
        lemma_shards_upto(shards, k - 1);
        let before = shards_upto(shards, k - 1);
        let last = shards[k - 1]@;
        assert(shards_upto(shards, k) =~= before + last);
        assert(before.disjoint(last));
        vstd::set_lib::lemma_set_disjoint_lens(before, last);
    }
}

/// A set split into shards by hash: the hash `h` lives in shard `h % P`,
/// each shard being a cache-and-run set of its own.
pub struct PartitionedHashedItemSet<T> {
    shards: Vec<OutOfCoreHashedItemSet<T>>,
}

impl<T> View for PartitionedHashedItemSet<T> {
    type V = Set<u64>;

    closed spec fn view(&self) -> Set<u64> {
        shards_upto(self.shards@, self.shards@.len() as int)
    }
}

impl<T> PartitionedHashedItemSet<T> {
    /// The shards, in order.
    pub closed spec fn spec_shards(&self) -> Seq<OutOfCoreHashedItemSet<T>> {
        self.shards@
    }

    /// The set's invariant.
    pub closed spec fn inv(&self) -> bool {
        &&& shards_partition(self.shards@)
        &&& shard_total(self.shards@, self.shards@.len() as int) <= usize::MAX
    }

    /// The shards together hold each hash of the set once.
    proof fn lemma_len(&self)
        requires
            shards_partition(self.shards@),
        ensures
            self@.finite(),
            self@.len() == shard_total(self.shards@, self.shards@.len() as int),
            forall|i: int| 0 <= i < self.shards@.len() ==> (#[trigger] self.shards@[i])@.subset_of(self@),
    {
        lemma_shards_upto(self.shards@, self.shards@.len() as int);
    }

    /// Creates an empty set of `shard_count` shards, each caching
    /// `cache_per_shard` hashes between flushes.
    pub fn new(shard_count: usize, cache_per_shard: usize) -> (r: Result<Self, SetError>)
        ensures
            shard_count == 0 ==> r == Err::<Self, SetError>(SetError::ZeroShards),
            shard_count > 0 && cache_per_shard == 0 ==> r == Err::<Self, SetError>(
                SetError::ZeroCacheCapacity,
            ),
            shard_count > 0 && cache_per_shard > 0 ==> (r matches Ok(s) && s.inv() && s@ == Set::<
                u64,
            >::empty() && s.spec_shards().len() == shard_count && forall|i: int|
                0 <= i < shard_count ==> (#[trigger] s.spec_shards()[i]).spec_cache_capacity()
                    == cache_per_shard),
    {
        if shard_count == 0 {
            return Err(SetError::ZeroShards);
        }
        if cache_per_shard == 0 {
            return Err(SetError::ZeroCacheCapacity);
        }
        let mut shards: Vec<OutOfCoreHashedItemSet<T>> = Vec::new();
        let mut k: usize = 0;
        while k < shard_count
            invariant
                k <= shard_count,
                cache_per_shard > 0,
                shards@.len() == k,
                forall|i: int|
                    0 <= i < k ==> (#[trigger] shards@[i]).inv() && shards@[i]@ == Set::<
                        u64,
                    >::empty() && shards@[i].spec_cache_capacity() == cache_per_shard,
            decreases shard_count - k,
        {
            match OutOfCoreHashedItemSet::new(cache_per_shard) {
                Ok(shard) => shards.push(shard),
                Err(_) => {},
            }
            k += 1;
        }
        let r = Self { shards };
        proof {
            assert(shards_partition(r.shards@));
            r.lemma_len();
            assert(r@ =~= Set::<u64>::empty());
        }
        Ok(r)
    }

    /// The number of shards.
    pub fn shard_count(&self) -> (r: usize)
        ensures
            r == self.spec_shards().len(),
    {
        self.shards.len()
    }

    /// The shard numbered `i`.
    pub fn shard(&self, i: usize) -> (r: &OutOfCoreHashedItemSet<T>)
        requires
            i < self.spec_shards().len(),
        ensures
            *r == self.spec_shards()[i as int],
    {
        &self.shards[i]
    }

    /// The shard that holds the hash `h`.
    fn shard_index(&self, h: u64) -> (r: usize)
        requires
            self.shards@.len() >= 1,
        ensures
            r == shard_of(h, self.shards@.len() as int),
            r < self.shards@.len(),
    {
        (h % (self.shards.len() as u64)) as usize
    }

    /// Returns true if the set holds the hash `h`.
    pub fn contains_hash(&self, h: u64) -> (r: bool)
        requires
            self.inv(),
        ensures
            r == self@.contains(h),
    {
        let i = self.shard_index(h);
        self.shards[i].contains_hash(h)
    }

    /// Inserts the hash `h` into its shard.
    pub fn insert_hash(&mut self, h: u64)
        requires
            old(self).inv(),
            old(self)@.len() < usize::MAX,
        ensures
            final(self).inv(),
            final(self)@ == old(self)@.insert(h),
            final(self).spec_shards().len() == old(self).spec_shards().len(),
    {
        proof {
            self.lemma_len();
        }
        let i = self.shard_index(h);
        let ghost p = self.shards@.len() as int;
        let mut shard = OutOfCoreHashedItemSet::placeholder();
        self.shards.set_and_swap(i, &mut shard);
        proof {
            assert(shard == old(self).shards@[i as int]);
            vstd::set_lib::lemma_len_subset(shard@, old(self)@);
        }
        shard.insert_hash(h);
        self.shards.set_and_swap(i, &mut shard);
        proof {
            let s = self.shards@;
            let s0 = old(self).shards@;
            assert(s == s0.update(i as int, s[i as int]));
            assert forall|j: int, x: u64| 0 <= j < s.len() && #[trigger] s[j]@.contains(x) implies shard_of(
                x,
                p,
            ) == j by {
                if j != i {
                    assert(s[j] == s0[j]);
                }
            }
            assert(shards_partition(s));
            assert(self@ =~= old(self)@.insert(h)) by {
                assert forall|x: u64| self@.contains(x) <==> old(self)@.contains(x) || x == h by {
                    let j = shard_of(x, p);
                    if j != i {
                        assert(s[j] == s0[j]);
                    }
                }
            }
            self.lemma_len();
            old(self).lemma_len();
            assert(self@.len() <= old(self)@.len() + 1);
        }
    }

    /// The number of hashes held, summed over the shards.
    fn count(&self) -> (r: usize)
        requires
            self.inv(),
        ensures
            r == self@.len(),
    {
        let mut total: usize = 0;
        let mut k: usize = 0;
        proof {
            self.lemma_len();
        }
        while k < self.shards.len()
            invariant
                self.inv(),
                k <= self.shards@.len(),
                total == shard_total(self.shards@, k as int),
            decreases self.shards@.len() - k,
        {
            proof {
                lemma_shard_total_monotone(self.shards@, (k + 1) as int, self.shards@.len() as int);
            }
            total = total + self.shards[k].len_hashes();
            k += 1;
        }
        proof {
            self.lemma_len();
        }
        total
    }
}

/// Partial totals of shard sizes grow with the number of shards counted.
proof fn lemma_shard_total_monotone<T>(shards: Seq<OutOfCoreHashedItemSet<T>>, a: int, b: int)
    requires
        0 <= a <= b,
    ensures
        shard_total(shards, a) <= shard_total(shards, b),
    decreases b - a,
{
    if a < b {
        lemma_shard_total_monotone(shards, a, b - 1);
    }
}

impl<T: Fingerprint> HashedItemSet<T> for PartitionedHashedItemSet<T> {
    open spec fn hashes(&self) -> Set<u64> {
        self@
    }

    open spec fn well_formed(&self) -> bool {
        self.inv() && self@.finite()
    }

    open spec fn has_room(&self) -> bool {
        self@.len() < usize::MAX
    }

    /// Returns true if the set contains this item.
    fn contains(&self, item: &T) -> (r: bool) {
        self.contains_hash(hash(item))
    }

    /// Inserts an item into the set
    fn insert(&mut self, item: &T) {
        let h = hash(item);
        self.insert_hash(h);
        proof {
            self.lemma_len();
        }
    }

    /// Returns the number of elements in this set.
    fn len(&self) -> (r: usize) {
        self.count()
    }
}

} // verus!
