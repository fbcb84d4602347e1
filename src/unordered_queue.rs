use vstd::multiset::Multiset;
use vstd::prelude::*;

verus! {

/// A queue that may hand its elements back in any order.
pub trait UnorderedQueue<T>: Sized {
    /// The elements held.
    spec fn elements(&self) -> Multiset<T>;

    /// Push an item onto the queue.
    fn enqueue(&mut self, item: T)
        ensures
            final(self).elements() == old(self).elements().insert(item),
    ;

    /// Pop an item from the queue. Order is not guaranteed.
    fn dequeue(&mut self) -> (r: Option<T>)
        ensures
            old(self).elements().len() == 0 ==> r is None && final(self).elements() == old(
                self,
            ).elements(),
            old(self).elements().len() > 0 ==> r is Some && old(self).elements().contains(
                r->0,
            ) && final(self).elements() == old(self).elements().remove(r->0),
    ;

    /// Returns the number of elements in this queue.
    fn len(&self) -> (r: usize)
        ensures
            r == self.elements().len(),
    ;
}

impl<T> UnorderedQueue<T> for Vec<T> {
    open spec fn elements(&self) -> Multiset<T> {
        self@.to_multiset()
    }

    /// Push an item onto the queue.
    fn enqueue(&mut self, item: T) {
        self.push(item);
        proof {
            old(self)@.to_multiset_ensures();
            self@.to_multiset_ensures();
            assert(self@.drop_last() =~= old(self)@);
            assert(self@ =~= old(self)@.push(item));
        }
    }

    /// Pop an item off the queue.
    fn dequeue(&mut self) -> (r: Option<T>) {
        proof {
            old(self)@.to_multiset_ensures();
        }
        let r = self.pop();
        proof {
            if old(self)@.len() > 0 {
                let x = old(self)@.last();
                assert(old(self)@ =~= self@.push(x));
                self@.to_multiset_ensures();
                assert(old(self)@.to_multiset().contains(x));
            }
        }
        r
    }

    /// Returns the number of elements in this queue.
    fn len(&self) -> (r: usize) {
        proof {
            self@.to_multiset_ensures();
        }
        Vec::len(self)
    }
}

/// A queue with a bounded working buffer.
pub struct BigQueue<T> {
    /// The in-memory queue.
    queue: Vec<T>,
    /// The capacity of the in-memory queue.
    capacity: usize,
}

impl<T> BigQueue<T> {
    /// The items held in memory.
    pub closed spec fn buffered(&self) -> Seq<T> {
        self.queue@
    }

    /// The capacity of the in-memory queue.
    pub closed spec fn spec_capacity(&self) -> nat {
        self.capacity as nat
    }

    /// Creates a new, empty BigQueue.
    pub fn new(capacity: usize) -> (r: Self)
        requires
            capacity >= 2,
        ensures
            r.buffered().len() == 0,
            r.spec_capacity() == capacity,
    {
        Self { queue: Vec::with_capacity(capacity), capacity }
    }
}

} // verus!
