use crate::big_set::HashedItemSet;
use crate::fingerprint::{hash, Fingerprint};
use crate::out_of_core::{OutOfCoreHashedItemSet, SetError};
use vstd::prelude::*;

verus! {

/// A Bloom filter never has more bits than this.
pub const MAX_BLOOM_BITS: usize = 0x4000_0000;

/// A Bloom filter never sets more bits per hash than this.
pub const MAX_PROBES: usize = 32;

/// The stride between the bits of `h`: odd, so that the probes spread out.
pub open spec fn probe_stride(h: u64, m: int) -> int {
    (((h as int) / 0x1_0000_0000) * 2 + 1) % m
}

/// The bit set by probe `i` of the hash `h` in a filter of `m` bits.
pub open spec fn bloom_bit(h: u64, m: int, i: int) -> int {
    ((h as int) % m + i * probe_stride(h, m)) % m
}

/// The number of probes for a filter of `bits_per_item` bits per expected
/// item: about `bits_per_item * ln 2`, and at least one.
pub open spec fn probes_for(bits_per_item: int) -> int {
    let k = bits_per_item * 7 / 10;
    if k < 1 {
        1
    } else if k > MAX_PROBES {
        MAX_PROBES as int
    } else {
        k
    }
}

/// A cache-and-run set fronted by a Bloom filter, which answers most
/// lookups of absent hashes without searching the run.
pub struct BloomHashedItemSet<T> {
    /// The filter's bits.
    bits: Vec<bool>,
    /// How many bits each hash sets.
    n_probes: usize,
    /// The set proper.
    inner: OutOfCoreHashedItemSet<T>,
}

impl<T> View for BloomHashedItemSet<T> {
    type V = Set<u64>;

    closed spec fn view(&self) -> Set<u64> {
        self.inner@
    }
}

impl<T> BloomHashedItemSet<T> {
    /// The number of bits in the filter.
    pub closed spec fn bit_count(&self) -> int {
        self.bits@.len() as int
    }

    /// How many bits each hash sets.
    pub closed spec fn probe_count(&self) -> int {
        self.n_probes as int
    }

    /// Whether every bit of the hash `h` is set.
    pub closed spec fn all_bits_set(&self, h: u64) -> bool {
        forall|i: int|
            0 <= i < self.n_probes ==> #[trigger] self.bits@[bloom_bit(
                h,
                self.bits@.len() as int,
                i,
            )]
    }

    /// The set's invariant: every hash held has all its bits set.
    pub closed spec fn inv(&self) -> bool {
        &&& 0 < self.bits@.len() <= MAX_BLOOM_BITS
        &&& 1 <= self.n_probes <= MAX_PROBES
        &&& self.inner.inv()
        &&& forall|h: u64| #[trigger] self.inner@.contains(h) ==> self.all_bits_set(h)
    }

    /// Creates an empty set sized for `expected_items` hashes with
    /// `bits_per_item` filter bits each; its cache holds `cache_size` hashes.
    ///
    /// The filter has `max(1, expected_items * bits_per_item)` bits (at most
    /// `MAX_BLOOM_BITS`); each hash sets `probes_for(bits_per_item)` of them.
    pub fn new(expected_items: usize, bits_per_item: usize, cache_size: usize) -> (r: Result<
        Self,
        SetError,
    >)
        ensures
            cache_size == 0 <==> r is Err,
            r matches Err(e) ==> e == SetError::ZeroCacheCapacity,
            r matches Ok(s) ==> {
                &&& s.inv()
                &&& s@ == Set::<u64>::empty()
                &&& s.probe_count() == probes_for(bits_per_item as int)
                &&& s.bit_count() == if expected_items as int * bits_per_item as int
                    > MAX_BLOOM_BITS {
                    MAX_BLOOM_BITS as int
                } else if expected_items as int * bits_per_item as int == 0 {
                    1
                } else {
                    expected_items as int * bits_per_item as int
                }
            },
    {
        let inner = match OutOfCoreHashedItemSet::new(cache_size) {
            Ok(inner) => inner,
            Err(_) => {
                return Err(SetError::ZeroCacheCapacity);
            },
        };
        let n_bits: usize = if expected_items == 0 || bits_per_item == 0 {
            proof {
                assert(expected_items as int * bits_per_item as int == 0) by (nonlinear_arith)
                    requires
                        expected_items == 0 || bits_per_item == 0,
                ;
            }
            1
        } else if expected_items > MAX_BLOOM_BITS / bits_per_item {
            proof {
                let e = expected_items as int;
                let b = bits_per_item as int;
                let q = MAX_BLOOM_BITS as int / b;
                assert(e * b > MAX_BLOOM_BITS) by (nonlinear_arith)
                    requires
                        b > 0,
                        e > q,
                        q == MAX_BLOOM_BITS as int / b,
                ;
            }
            MAX_BLOOM_BITS
        } else {
            proof {
                let e = expected_items as int;
                let b = bits_per_item as int;
                let q = MAX_BLOOM_BITS as int / b;
                assert(0 < e * b <= MAX_BLOOM_BITS) by (nonlinear_arith)
                    requires
                        b > 0,
                        e > 0,
                        e <= q,
                        q == MAX_BLOOM_BITS as int / b,
                ;
            }
            expected_items * bits_per_item
        };
        let k = bits_per_item / 10 * 7 + bits_per_item % 10 * 7 / 10;
        proof {
            assert(k == bits_per_item * 7 / 10);
        }
        let n_probes: usize = if k < 1 {
            1
        } else if k > MAX_PROBES {
            MAX_PROBES
        } else {
            k
        };
        let mut bits: Vec<bool> = Vec::new();
        let mut j: usize = 0;
        while j < n_bits
            invariant
                j <= n_bits,
                bits@.len() == j,
            decreases n_bits - j,
        {
            bits.push(false);
            j += 1;
        }
        let r = Self { bits, n_probes, inner };
        proof {
            assert(r@ =~= Set::<u64>::empty());
        }
        Ok(r)
    }

    /// The bit set by probe `i` of the hash `h`.
    fn bit_of(&self, h: u64, i: usize) -> (r: usize)
        requires
            0 < self.bits@.len() <= MAX_BLOOM_BITS,
            i < MAX_PROBES,
        ensures
            r == bloom_bit(h, self.bits@.len() as int, i as int),
            r < self.bits@.len(),
    {
        let m = self.bits.len() as u64;
        let stride = ((h / 0x1_0000_0000) * 2 + 1) % m;
        proof {
            assert((i as int) * (stride as int) <= MAX_PROBES as int * MAX_BLOOM_BITS as int) by (nonlinear_arith)
                requires
                    i < MAX_PROBES,
                    stride < m,
                    m <= MAX_BLOOM_BITS,
            ;
        }
        let r = ((h % m) + (i as u64) * stride) % m;
        r as usize
    }

    /// Returns true if the set holds the hash `h`.
    pub fn contains_hash(&self, h: u64) -> (r: bool)
        requires
            self.inv(),
        ensures
            r == self@.contains(h),
    {
        let mut i: usize = 0;
        while i < self.n_probes
            invariant
                self.inv(),
                i <= self.n_probes,
            decreases self.n_probes - i,
        {
            let b = self.bit_of(h, i);
            if !self.bits[b] {
                proof {
                    if self.inner@.contains(h) {
                        assert(self.all_bits_set(h));
                        assert(self.bits@[bloom_bit(h, self.bits@.len() as int, i as int)]);
                    }
                }
                return false;
            }
            i += 1;
        }
        self.inner.contains_hash(h)
    }

    /// Inserts the hash `h`, setting its bits first.
    pub fn insert_hash(&mut self, h: u64)
        requires
            old(self).inv(),
            old(self)@.len() < usize::MAX,
        ensures
            final(self).inv(),
            final(self)@ == old(self)@.insert(h),
    {
        let mut i: usize = 0;
        while i < self.n_probes
            invariant
                0 < self.bits@.len() <= MAX_BLOOM_BITS,
                1 <= self.n_probes <= MAX_PROBES,
                self.n_probes == old(self).n_probes,
                self.inner == old(self).inner,
                self.bits@.len() == old(self).bits@.len(),
                i <= self.n_probes,
                forall|p: int| 0 <= p < self.bits@.len() && old(self).bits@[p] ==> self.bits@[p],
                forall|q: int|
                    0 <= q < i ==> #[trigger] self.bits@[bloom_bit(h, self.bits@.len() as int, q)],
            decreases self.n_probes - i,
        {
            let b = self.bit_of(h, i);
            self.bits.set(b, true);
            i += 1;
        }
        proof {
            let m = self.bits@.len() as int;
            assert forall|x: u64| #[trigger] self.inner@.contains(x) implies self.all_bits_set(x) by {
                assert(old(self).all_bits_set(x));
                assert forall|q: int| 0 <= q < self.n_probes implies #[trigger] self.bits@[bloom_bit(
                    x,
                    m,
                    q,
                )] by {
                    assert(old(self).bits@[bloom_bit(x, m, q)]);
                }
            }
            assert(self.all_bits_set(h));
        }
        self.inner.insert_hash(h);
        proof {
            assert forall|x: u64| #[trigger] self.inner@.contains(x) implies self.all_bits_set(x) by {
                if x != h {
                    assert(old(self).inner@.contains(x));
                }
            }
        }
    }

    /// The number of hashes held.
    pub fn len_hashes(&self) -> (r: usize)
        requires
            self.inv(),
        ensures
            r == self@.len(),
    {
        self.inner.len_hashes()
    }
}

impl<T: Fingerprint> HashedItemSet<T> for BloomHashedItemSet<T> {
    open spec fn hashes(&self) -> Set<u64> {
        self@
    }

    open spec fn well_formed(&self) -> bool {
        self.inv() && self@.finite()
    }

    open spec fn has_room(&self) -> bool {
        self@.len() < usize::MAX
    }

    /// Returns true if the set contains this item.
    fn contains(&self, item: &T) -> (r: bool) {
        self.contains_hash(hash(item))
    }

    /// Inserts an item into the set
    fn insert(&mut self, item: &T) {
        let h = hash(item);
        self.insert_hash(h);
        proof {
            self.inner.lemma_finite();
        }
    }

    /// Returns the number of elements in this set.
    fn len(&self) -> (r: usize) {
        self.len_hashes()
    }
}

} // verus!
