use crate::fingerprint::{hash, spec_hash, Fingerprint};
use crate::primes::{is_prime, smallest_prime_at_least};
use std::collections::HashSet;
use std::marker::PhantomData;
use vstd::prelude::*;
use vstd::set_lib::{lemma_int_range, lemma_len_subset, set_int_range};

verus! {

broadcast use vstd::std_specs::hash::group_hash_axioms;

/// A set of items, stored by their hash values.
pub trait HashedItemSet<T: Fingerprint> {
    /// The hashes held by the set.
    spec fn hashes(&self) -> Set<u64>;

    /// The set's internal invariant.
    spec fn well_formed(&self) -> bool;

    /// Whether one more item may be inserted.
    spec fn has_room(&self) -> bool;

    /// Returns true if the set contains this item (up to hash collisions).
    fn contains(&self, item: &T) -> (r: bool)
        requires
            self.well_formed(),
        ensures
            r == self.hashes().contains(spec_hash(item)),
    ;

    /// Inserts a item into this set.
    fn insert(&mut self, item: &T)
        requires
            old(self).well_formed(),
            old(self).has_room(),
        ensures
            final(self).well_formed(),
            final(self).hashes() == old(self).hashes().insert(spec_hash(item)),
    ;

    /// Returns the number of elements in this set.
    fn len(&self) -> (r: usize)
        requires
            self.well_formed(),
        ensures
            r == self.hashes().len(),
    ;

    /// Inserts an item, returning whether the set held it already; a caller
    /// that gets `false` is the first to claim the item.
    fn insert_check(&mut self, item: &T) -> (was_present: bool)
        requires
            old(self).well_formed(),
            old(self).has_room(),
        ensures
            final(self).well_formed(),
            was_present == old(self).hashes().contains(spec_hash(item)),
            final(self).hashes() == old(self).hashes().insert(spec_hash(item)),
    {
        let was_present = self.contains(item);
        self.insert(item);
        was_present
    }
}

/// The hashes a set holds after inserting the hashes `hs` in order into a set
/// holding `s`.
pub open spec fn after_inserts(s: Set<u64>, hs: Seq<u64>) -> Set<u64>
    decreases hs.len(),
{
    if hs.len() == 0 {
        s
    } else {
        after_inserts(s, hs.drop_last()).insert(hs.last())
    }
}

/// Inserting the hashes `hs` into an empty set leaves exactly the distinct
/// values of `hs`: the set counts each of them once and holds no other.
pub proof fn law_inserts_hold_distinct_hashes(hs: Seq<u64>)
    ensures
        after_inserts(Set::empty(), hs) == hs.to_set(),
        after_inserts(Set::empty(), hs).len() == hs.to_set().len(),
        forall|h: u64| #[trigger] after_inserts(Set::empty(), hs).contains(h) <==> hs.contains(h),
    decreases hs.len(),
{
    if hs.len() > 0 {
        law_inserts_hold_distinct_hashes(hs.drop_last());
        assert(hs =~= hs.drop_last() + seq![hs.last()]);
        Seq::<u64>::lemma_to_set_insert_commutes(hs.drop_last(), hs.last());
    } else {
        assert(hs.to_set() =~= Set::<u64>::empty());
    }
    assert forall|h: u64| #[trigger] after_inserts(Set::empty(), hs).contains(h) <==> hs.contains(h) by {
        assert(hs.to_set().contains(h) <==> hs.contains(h));
    }
}

/// How many of the hashes `hs`, inserted in order into a set holding `s`,
/// find the set without them.
pub open spec fn claims(s: Set<u64>, hs: Seq<u64>) -> nat
    decreases hs.len(),
{
    if hs.len() == 0 {
        0
    } else {
        let before = after_inserts(s, hs.drop_last());
        claims(s, hs.drop_last()) + if before.contains(hs.last()) {
            0nat
        } else {
            1nat
        }
    }
}

/// Claiming the hashes `hs` one after another on an empty set succeeds once
/// for each distinct hash, however the hashes repeat.
pub proof fn law_claims_count_distinct_hashes(hs: Seq<u64>)
    ensures
        claims(Set::empty(), hs) == hs.to_set().len(),
    decreases hs.len(),
{
    law_inserts_hold_distinct_hashes(hs);
    if hs.len() > 0 {
        law_claims_count_distinct_hashes(hs.drop_last());
        law_inserts_hold_distinct_hashes(hs.drop_last());
        let before = after_inserts(Set::empty(), hs.drop_last());
        assert(before.finite());
        if !before.contains(hs.last()) {
            assert(before.insert(hs.last()).len() == before.len() + 1);
        } else {
            assert(before.insert(hs.last()) =~= before);
        }
    }
}

/// A set of items, held in hashed form in memory.
pub struct LittleSet<T> {
    hashes: HashSet<u64>,
    phantom: PhantomData<T>,
}

impl<T> View for LittleSet<T> {
    type V = Set<u64>;

    closed spec fn view(&self) -> Set<u64> {
        self.hashes@
    }
}

impl<T> LittleSet<T> {
    /// Constructor
    pub fn new() -> (r: Self)
        ensures
            r@ == Set::<u64>::empty(),
    {
        Self { hashes: HashSet::new(), phantom: PhantomData }
    }
}

impl<T: Fingerprint> HashedItemSet<T> for LittleSet<T> {
    open spec fn hashes(&self) -> Set<u64> {
        self@
    }

    open spec fn well_formed(&self) -> bool {
        self@.finite()
    }

    open spec fn has_room(&self) -> bool {
        true
    }

    /// Returns true if the set contains this item.
    fn contains(&self, item: &T) -> (r: bool) {
        let h = hash(item);
        self.hashes.contains(&h)
    }

    /// Inserts an item into the set
    fn insert(&mut self, item: &T) {
        let h = hash(item);
        self.hashes.insert(h);
    }

    /// Returns the number of elements in this set.
    fn len(&self) -> (r: usize) {
        self.hashes.len()
    }
}

} // verus!

verus! {

/// A hash table never grows beyond this many slots.
pub const MAX_SLOTS: usize = 0x8000_0000;

/// Whether a `BigHashSet` holding `len` hashes at a maximum load of `load`
/// percent may take one more: its table can then still double within
/// `MAX_SLOTS`.
pub open spec fn room_for_one_more(len: int, load: int) -> bool {
    (len + 1) * 200 <= MAX_SLOTS * load
}

/// The number of slots a table wants for `n_elts` hashes at a load of
/// `max_load` percent.
pub open spec fn wanted_slots(n_elts: int, max_load: int) -> int {
    n_elts * 100 / max_load
}

/// Whether some prime lies between `lo` and `MAX_SLOTS`.
pub open spec fn prime_in_reach(lo: int) -> bool {
    exists|p: int| is_prime(p) && lo <= p <= MAX_SLOTS
}

/// The slot visited at step `i` of the probe for `h` in a table of `n` slots:
/// alternately `h`, `h - 1`, `h + 1`, `h - 2`, `h + 2`, ... modulo `n`.
pub open spec fn probe_slot(h: u64, n: int, i: int) -> int {
    let b = (h as int) % n;
    if i % 2 == 0 {
        let x = b + i / 2;
        if x >= n {
            x - n
        } else {
            x
        }
    } else {
        let k = (i + 2) / 2;
        if b >= k {
            b - k
        } else {
            b + n - k
        }
    }
}

/// The step at which the probe for `h` visits slot `j`.
pub open spec fn probe_step(h: u64, n: int, j: int) -> int {
    let b = (h as int) % n;
    let d = if j >= b {
        j - b
    } else {
        j + n - b
    };
    if 2 * d < n {
        2 * d
    } else {
        2 * (n - d) - 1
    }
}

/// Every step of a probe lands inside the table.
pub proof fn lemma_probe_in_range(h: u64, n: int, i: int)
    requires
        0 < n,
        0 <= i < n,
    ensures
        0 <= probe_slot(h, n, i) < n,
{
}

/// The probe for `h` visits every slot of the table within `n` steps.
pub proof fn lemma_probe_covers(h: u64, n: int, j: int)
    requires
        0 < n,
        0 <= j < n,
    ensures
        0 <= probe_step(h, n, j) < n,
        probe_slot(h, n, probe_step(h, n, j)) == j,
{
}

/// An open-addressing hash set of item hashes.
///
/// Slots hold hashes, with 0 marking an empty slot; the hash 0 itself is kept
/// in a flag.
pub struct BigHashSet<T> {
    /// The table of hashes.
    hashes: Vec<u64>,
    /// How many slots are occupied.
    stored_hashes: usize,
    /// Whether the hash 0 has been inserted.
    holds_zero: bool,
    /// Maximum load, in percent.
    max_load: usize,
    phantom: PhantomData<T>,
    /// The occupied slots.
    occupied: Ghost<Set<int>>,
    /// The nonzero hashes held in the table.
    members: Ghost<Set<u64>>,
    /// For each occupied slot, the probe step at which its hash was placed.
    depth: Ghost<Seq<int>>,
}

impl<T> View for BigHashSet<T> {
    type V = Set<u64>;

    closed spec fn view(&self) -> Set<u64> {
        if self.holds_zero {
            self.members@.insert(0)
        } else {
            self.members@
        }
    }
}

impl<T> BigHashSet<T> {
    /// The number of slots in the table.
    pub closed spec fn slot_count(&self) -> int {
        self.hashes@.len() as int
    }

    /// The maximum load of the table, in percent.
    pub closed spec fn load_percent(&self) -> int {
        self.max_load as int
    }

    /// The table's invariant.
    pub closed spec fn inv(&self) -> bool {
        let t = self.hashes@;
        let n = t.len() as int;
        &&& 0 < n <= MAX_SLOTS
        &&& 1 <= self.max_load <= 100
        &&& self.occupied@.finite()
        &&& self.occupied@.len() == self.stored_hashes
        &&& forall|j: int| #[trigger]
            self.occupied@.contains(j) <==> 0 <= j < n && t[j] != 0
        &&& self.members@.finite()
        &&& self.members@.len() == self.stored_hashes
        &&& !self.members@.contains(0)
        &&& forall|h: u64| #[trigger]
            self.members@.contains(h) ==> exists|j: int| 0 <= j < n && t[j] == h
        &&& forall|j: int| 0 <= j < n && t[j] != 0 ==> #[trigger] self.members@.contains(t[j])
        &&& forall|i: int, j: int|
            0 <= i < n && 0 <= j < n && i != j && t[i] != 0 ==> #[trigger] t[i] != #[trigger] t[j]
        &&& self.depth@.len() == n
        &&& forall|j: int|
            0 <= j < n && #[trigger] t[j] != 0 ==> {
                &&& 0 <= self.depth@[j] < n
                &&& probe_slot(t[j], n, self.depth@[j]) == j
                &&& forall|i: int|
                    0 <= i < self.depth@[j] ==> t[#[trigger] probe_slot(t[j], n, i)] != 0
            }
    }

    /// Creates an empty set sized for `n_elts` hashes at a load of `max_load`
    /// percent: the table has the smallest prime number of slots at or above
    /// `wanted_slots(n_elts, max_load)`, or `MAX_SLOTS` where no such prime
    /// lies within `MAX_SLOTS`.
    pub fn new(n_elts: usize, max_load: usize) -> (r: Self)
        requires
            1 <= max_load <= 100,
        ensures
            r.inv(),
            r@ == Set::<u64>::empty(),
            r.load_percent() == max_load,
            r.slot_count() >= 2,
            r.slot_count() <= MAX_SLOTS,
            r.slot_count() >= n_elts || r.slot_count() == MAX_SLOTS,
            prime_in_reach(wanted_slots(n_elts as int, max_load as int)) ==> {
                &&& is_prime(r.slot_count())
                &&& r.slot_count() >= wanted_slots(n_elts as int, max_load as int)
                &&& forall|q: int|
                    wanted_slots(n_elts as int, max_load as int) <= q < r.slot_count()
                        ==> !is_prime(q)
            },
            !prime_in_reach(wanted_slots(n_elts as int, max_load as int)) ==> r.slot_count()
                == MAX_SLOTS,
    {
        let ghost wanted = wanted_slots(n_elts as int, max_load as int);
        proof {
            assert((n_elts as int) * 100 / (max_load as int) >= n_elts) by (nonlinear_arith)
                requires
                    1 <= max_load <= 100,
                    n_elts >= 0,
            ;
        }
        let slots: usize = if n_elts > MAX_SLOTS {
            proof {
                assert(!prime_in_reach(wanted));
            }
            MAX_SLOTS
        } else {
            proof {
                assert((n_elts as int) * 100 / (max_load as int) <= n_elts * 100) by (nonlinear_arith)
                    requires
                        1 <= max_load,
                        n_elts >= 0,
                ;
            }
            let capacity: u64 = (n_elts as u64) * 100 / (max_load as u64);
            if capacity > MAX_SLOTS as u64 {
                proof {
                    assert(!prime_in_reach(wanted));
                }
                MAX_SLOTS
            } else {
                let prime_capacity = smallest_prime_at_least(capacity as usize);
                if prime_capacity > MAX_SLOTS {
                    proof {
                        if prime_in_reach(wanted) {
                            let p = choose|p: int| is_prime(p) && wanted <= p <= MAX_SLOTS;
                            assert(!is_prime(p));
                        }
                    }
                    MAX_SLOTS
                } else {
                    proof {
                        assert(is_prime(prime_capacity as int));
                        assert(prime_in_reach(wanted));
                    }
                    prime_capacity
                }
            }
        };
        let mut hashes: Vec<u64> = Vec::new();
        let mut k: usize = 0;
        while k < slots
            invariant
                k <= slots,
                hashes@.len() == k,
                forall|j: int| 0 <= j < k ==> hashes@[j] == 0,
            decreases slots - k,
        {
            hashes.push(0);
            k += 1;
        }
        let r = BigHashSet {
            hashes,
            stored_hashes: 0,
            holds_zero: false,
            max_load,
            phantom: PhantomData,
            occupied: Ghost(Set::empty()),
            members: Ghost(Set::empty()),
            depth: Ghost(Seq::new(slots as nat, |j: int| 0)),
        };
        proof {
            assert(r@ =~= Set::<u64>::empty());
        }
        r
    }

    /// Whether one more hash may be inserted.
    pub fn has_room_for_one(&self) -> (r: bool)
        requires
            self.inv(),
        ensures
            r == room_for_one_more(self@.len() as int, self.load_percent()),
    {
        let len = self.count();
        proof {
            lemma_int_range(0, self.hashes@.len() as int);
            lemma_len_subset(self.occupied@, set_int_range(0, self.hashes@.len() as int));
            let pct = self.max_load as int;
            assert(MAX_SLOTS as int * pct <= MAX_SLOTS as int * 100) by (nonlinear_arith)
                requires
                    1 <= pct <= 100,
            ;
        }
        ((len as u64) + 1) * 200 <= (MAX_SLOTS as u64) * (self.max_load as u64)
    }

    /// The number of slots in the table.
    pub fn slots(&self) -> (r: usize)
        ensures
            r == self.slot_count(),
    {
        self.hashes.len()
    }

    /// The slot visited at step `i` of the probe for `h`.
    fn probe(&self, h: u64, i: usize) -> (r: usize)
        requires
            self.inv(),
            i < self.hashes@.len(),
        ensures
            r == probe_slot(h, self.hashes@.len() as int, i as int),
            r < self.hashes@.len(),
    {
        let n = self.hashes.len();
        let b = (h % (n as u64)) as usize;
        if i % 2 == 0 {
            let x = b + i / 2;
            if x >= n {
                x - n
            } else {
                x
            }
        } else {
            let k = (i + 2) / 2;
            if b >= k {
                b - k
            } else {
                b + n - k
            }
        }
    }

    /// Returns true if the set holds the hash `h`.
    pub fn contains_hash(&self, h: u64) -> (r: bool)
        requires
            self.inv(),
        ensures
            r == self@.contains(h),
    {
        if h == 0 {
            return self.holds_zero;
        }
        let n = self.hashes.len();
        let mut i: usize = 0;
        while i < n
            invariant
                self.inv(),
                n == self.hashes@.len(),
                0 <= i <= n,
                h != 0,
                forall|k: int| 0 <= k < i ==> self.hashes@[#[trigger] probe_slot(h, n as int, k)] != h,
            decreases n - i,
        {
            let s = self.probe(h, i);
            if self.hashes[s] == h {
                proof {
                    assert(self.members@.contains(self.hashes@[s as int]));
                }
                return true;
            }
            if self.hashes[s] == 0 {
                proof {
                    if self.members@.contains(h) {
                        let j = choose|j: int| 0 <= j < n && self.hashes@[j] == h;
                        let d = self.depth@[j];
                        assert(probe_slot(h, n as int, d) == j);
                        if d < i {
                            assert(self.hashes@[probe_slot(h, n as int, d)] != h);
                        } else if d > i {
                            assert(self.hashes@[probe_slot(h, n as int, i as int)] != 0);
                        }
                    }
                }
                return false;
            }
            i += 1;
        }
        proof {
            if self.members@.contains(h) {
                let j = choose|j: int| 0 <= j < n && self.hashes@[j] == h;
                let d = self.depth@[j];
                assert(self.hashes@[probe_slot(h, n as int, d)] != h);
            }
        }
        false
    }

    /// Finds the first empty slot on the probe for `h`, with its probe step.
    fn find_free(&self, h: u64) -> (r: (usize, usize))
        requires
            self.inv(),
            self.stored_hashes < self.hashes@.len(),
        ensures
            r.0 < self.hashes@.len(),
            r.1 == probe_slot(h, self.hashes@.len() as int, r.0 as int),
            self.hashes@[r.1 as int] == 0,
            forall|k: int|
                0 <= k < r.0 ==> self.hashes@[#[trigger] probe_slot(
                    h,
                    self.hashes@.len() as int,
                    k,
                )] != 0,
    {
        let n = self.hashes.len();
        let mut i: usize = 0;
        while i < n
            invariant
                self.inv(),
                n == self.hashes@.len(),
                self.stored_hashes < n,
                0 <= i <= n,
                forall|k: int| 0 <= k < i ==> self.hashes@[#[trigger] probe_slot(h, n as int, k)] != 0,
            decreases n - i,
        {
            let s = self.probe(h, i);
            if self.hashes[s] == 0 {
                return (i, s);
            }
            i += 1;
        }
        proof {
            assert forall|j: int| set_int_range(0, n as int).contains(j) implies self.occupied@.contains(
                j,
            ) by {
                lemma_probe_covers(h, n as int, j);
                let k = probe_step(h, n as int, j);
                assert(self.hashes@[probe_slot(h, n as int, k)] != 0);
            }
            lemma_int_range(0, n as int);
            lemma_len_subset(set_int_range(0, n as int), self.occupied@);
        }
        (0, 0)
    }

    /// Stores `h`, which the set does not hold yet, in a free slot.
    fn place(&mut self, h: u64)
        requires
            old(self).inv(),
            h != 0,
            !old(self).members@.contains(h),
            old(self).stored_hashes < old(self).hashes@.len(),
        ensures
            final(self).inv(),
            final(self).members@ == old(self).members@.insert(h),
            final(self).stored_hashes == old(self).stored_hashes + 1,
            final(self).holds_zero == old(self).holds_zero,
            final(self).max_load == old(self).max_load,
            final(self).hashes@.len() == old(self).hashes@.len(),
    {
        let (i, s) = self.find_free(h);
        let ghost t0 = self.hashes@;
        let ghost n = t0.len() as int;
        self.hashes.set(s, h);
        self.stored_hashes = self.stored_hashes + 1;
        self.occupied = Ghost(self.occupied@.insert(s as int));
        self.members = Ghost(self.members@.insert(h));
        self.depth = Ghost(self.depth@.update(s as int, i as int));
        proof {
            let t = self.hashes@;
            assert(!old(self).occupied@.contains(s as int));
            assert forall|x: u64| #[trigger]
                self.members@.contains(x) implies exists|j: int| 0 <= j < n && t[j] == x by {
                if x == h {
                    assert(t[s as int] == h);
                } else {
                    let j = choose|j: int| 0 <= j < n && t0[j] == x;
                    assert(t[j] == x);
                }
            }
            assert forall|j: int| 0 <= j < n && t[j] != 0 implies #[trigger] self.members@.contains(
                t[j],
            ) by {
                if j != s {
                    assert(old(self).members@.contains(t0[j]));
                }
            }
            assert forall|a: int, b: int|
                0 <= a < n && 0 <= b < n && a != b && t[a] != 0 implies #[trigger] t[a]
                != #[trigger] t[b] by {
                if a == s {
                    if t0[b] != 0 {
                        assert(old(self).members@.contains(t0[b]));
                    }
                } else if b == s {
                    assert(old(self).members@.contains(t0[a]));
                }
            }
            assert forall|j: int| 0 <= j < n && #[trigger] t[j] != 0 implies {
                &&& 0 <= self.depth@[j] < n
                &&& probe_slot(t[j], n, self.depth@[j]) == j
                &&& forall|k: int|
                    0 <= k < self.depth@[j] ==> t[#[trigger] probe_slot(t[j], n, k)] != 0
            } by {
                if j != s {
                    assert(t0[j] != 0);
                    assert forall|k: int| 0 <= k < self.depth@[j] implies t[#[trigger] probe_slot(
                        t[j],
                        n,
                        k,
                    )] != 0 by {
                        lemma_probe_in_range(t[j], n, k);
                        assert(t0[probe_slot(t0[j], n, k)] != 0);
                    }
                } else {
                    assert forall|k: int| 0 <= k < self.depth@[j] implies t[#[trigger] probe_slot(
                        t[j],
                        n,
                        k,
                    )] != 0 by {
                        lemma_probe_in_range(h, n, k);
                        assert(t0[probe_slot(h, n, k)] != 0);
                    }
                }
            }
        }
    }

    /// Rebuilds the table with about twice as many slots.
    fn grow(&mut self)
        requires
            old(self).inv(),
            old(self).hashes@.len() * 2 <= MAX_SLOTS,
        ensures
            final(self).inv(),
            final(self).members@ == old(self).members@,
            final(self).stored_hashes == old(self).stored_hashes,
            final(self).holds_zero == old(self).holds_zero,
            final(self).max_load == old(self).max_load,
            final(self).hashes@.len() > final(self).stored_hashes,
    {
        let n = self.hashes.len();
        proof {
            lemma_int_range(0, n as int);
            lemma_len_subset(self.occupied@, set_int_range(0, n as int));
        }
        let mut bigger = Self::new(n * 2, self.max_load);
        proof {
            assert(!bigger@.contains(0));
            assert(!bigger.holds_zero);
            assert(bigger.members@ =~= Set::empty());
        }
        let mut j: usize = 0;
        while j < n
            invariant
                self.inv(),
                n == self.hashes@.len(),
                self.stored_hashes <= n,
                0 <= j <= n,
                bigger.inv(),
                bigger.max_load == self.max_load,
                !bigger.holds_zero,
                bigger.hashes@.len() >= n * 2,
                forall|k: int|
                    0 <= k < j && self.hashes@[k] != 0 ==> #[trigger] bigger.members@.contains(
                        self.hashes@[k],
                    ),
                forall|x: u64| #[trigger]
                    bigger.members@.contains(x) ==> exists|k: int|
                        0 <= k < j && self.hashes@[k] == x,
            decreases n - j,
        {
            let x = self.hashes[j];
            if x != 0 {
                proof {
                    if bigger.members@.contains(x) {
                        let k = choose|k: int| 0 <= k < j && self.hashes@[k] == x;
                        assert(self.hashes@[k] != self.hashes@[j as int]);
                    }
                    assert(bigger.members@.subset_of(self.members@)) by {
                        assert forall|y: u64| bigger.members@.contains(y) implies self.members@.contains(
                            y,
                        ) by {
                            let k = choose|k: int| 0 <= k < j && self.hashes@[k] == y;
                            assert(self.members@.contains(self.hashes@[k]));
                        }
                    }
                    lemma_len_subset(bigger.members@, self.members@);
                }
                bigger.place(x);
            }
            j += 1;
        }
        proof {
            assert forall|y: u64| self.members@.contains(y) implies bigger.members@.contains(y) by {
                let k = choose|k: int| 0 <= k < n && self.hashes@[k] == y;
                assert(bigger.members@.contains(self.hashes@[k]));
            }
            assert forall|y: u64| bigger.members@.contains(y) implies self.members@.contains(y) by {
                let k = choose|k: int| 0 <= k < n && self.hashes@[k] == y;
                assert(self.members@.contains(self.hashes@[k]));
            }
            assert(bigger.members@ =~= self.members@);
        }
        bigger.holds_zero = self.holds_zero;
        *self = bigger;
    }

    /// Inserts the hash `h` into the set.
    pub fn insert_hash(&mut self, h: u64)
        requires
            old(self).inv(),
            room_for_one_more(old(self)@.len() as int, old(self).load_percent()),
        ensures
            final(self).inv(),
            final(self)@ == old(self)@.insert(h),
            final(self).load_percent() == old(self).load_percent(),
    {
        if h == 0 {
            self.holds_zero = true;
            proof {
                assert(self@ =~= old(self)@.insert(h));
            }
            return;
        }
        if self.contains_hash(h) {
            proof {
                assert(self@ =~= old(self)@.insert(h));
            }
            return;
        }
        proof {
            if self.holds_zero {
                assert(self.members@.insert(0).len() == self.members@.len() + 1);
            }
            lemma_int_range(0, self.hashes@.len() as int);
            lemma_len_subset(self.occupied@, set_int_range(0, self.hashes@.len() as int));
        }
        let n = self.hashes.len();
        proof {
            let pct = self.max_load as int;
            assert((n as int) * pct <= 0x8000_0000 * 100) by (nonlinear_arith)
                requires
                    1 <= pct <= 100,
                    0 <= n <= 0x8000_0000,
            ;
        }
        let max_elts: u64 = (n as u64) * (self.max_load as u64) / 100;
        if (self.stored_hashes as u64) + 1 > max_elts {
            proof {
                let pct = self.max_load as int;
                let stored = self.stored_hashes as int;
                assert(n as int * 2 <= MAX_SLOTS) by (nonlinear_arith)
                    requires
                        1 <= pct <= 100,
                        stored + 1 > (n as int) * pct / 100,
                        (stored + 1) * 200 <= MAX_SLOTS * pct,
                        MAX_SLOTS == 0x8000_0000,
                        n >= 0,
                ;
            }
            self.grow();
        } else {
            proof {
                let pct = self.max_load as int;
                assert((n as int) * pct / 100 <= n) by (nonlinear_arith)
                    requires
                        1 <= pct <= 100,
                        n >= 0,
                ;
            }
        }
        self.place(h);
        proof {
            assert(self@ =~= old(self)@.insert(h));
        }
    }

    /// The number of hashes held.
    fn count(&self) -> (r: usize)
        requires
            self.inv(),
        ensures
            r == self@.len(),
    {
        proof {
            if self.holds_zero {
                assert(self.members@.insert(0).len() == self.members@.len() + 1);
            }
            lemma_int_range(0, self.hashes@.len() as int);
            lemma_len_subset(self.occupied@, set_int_range(0, self.hashes@.len() as int));
        }
        if self.holds_zero {
            self.stored_hashes + 1
        } else {
            self.stored_hashes
        }
    }
}

impl<T: Fingerprint> HashedItemSet<T> for BigHashSet<T> {
    open spec fn hashes(&self) -> Set<u64> {
        self@
    }

    open spec fn well_formed(&self) -> bool {
        self.inv() && self@.finite()
    }

    open spec fn has_room(&self) -> bool {
        room_for_one_more(self@.len() as int, self.load_percent())
    }

    /// Returns true if the set contains this item (up to hash collisions).
    fn contains(&self, item: &T) -> (r: bool) {
        self.contains_hash(hash(item))
    }

    /// Inserts a item into this set.
    fn insert(&mut self, item: &T) {
        let h = hash(item);
        self.insert_hash(h);
    }

    /// Returns the number of elements in this set.
    fn len(&self) -> (r: usize) {
        self.count()
    }
}

} // verus!
