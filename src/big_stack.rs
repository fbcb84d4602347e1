use std::marker::PhantomData;
use vstd::prelude::*;

verus! {

/// A last-in first-out container.
pub trait Stack<T>: Sized {
    /// The items held, oldest first.
    spec fn contents(&self) -> Seq<T>;

    /// The stack's internal invariant.
    spec fn well_formed(&self) -> bool;

    /// Push an item onto the stack.
    fn push(&mut self, item: T)
        requires
            old(self).well_formed(),
            old(self).contents().len() < usize::MAX,
        ensures
            final(self).well_formed(),
            final(self).contents() == old(self).contents().push(item),
    ;

    /// Pop the most recently pushed item from the stack.
    fn pop(&mut self) -> (r: Option<T>)
        requires
            old(self).well_formed(),
        ensures
            final(self).well_formed(),
            old(self).contents().len() == 0 ==> r is None && final(self).contents() == old(
                self,
            ).contents(),
            old(self).contents().len() > 0 ==> r == Some(old(self).contents().last())
                && final(self).contents() == old(self).contents().drop_last(),
    ;

    /// Returns the number of elements in this stack.
    fn len(&self) -> (r: usize)
        requires
            self.well_formed(),
        ensures
            r == self.contents().len(),
    ;

    /// Drains up to `n` items by calling `pop()`, most recent first.
    fn rev_drain(&mut self, n: usize) -> (r: Vec<T>)
        requires
            old(self).well_formed(),
        ensures
            final(self).well_formed(),
            ({
                let len = old(self).contents().len();
                let k = if n < len {
                    n as int
                } else {
                    len as int
                };
                &&& r@ == old(self).contents().subrange(len - k, len as int).reverse()
                &&& final(self).contents() == old(self).contents().subrange(0, len - k)
            }),
    {
        let ghost start = self.contents();
        let mut out: Vec<T> = Vec::new();
        let mut i: usize = 0;
        while i < n
            invariant
                self.well_formed(),
                i <= n,
                out@.len() <= i,
                out@.len() <= start.len(),
                self.contents() == start.subrange(0, start.len() - out@.len()),
                out@ == start.subrange(start.len() - out@.len(), start.len() as int).reverse(),
                out@.len() < i ==> out@.len() == start.len(),
            decreases n - i,
        {
            let ghost before = self.contents();
            match self.pop() {
                Some(x) => {
                    let ghost m = out@.len();
                    out.push(x);
                    proof {
                        assert(start.subrange(start.len() - (m + 1), start.len() as int).reverse()
                            =~= start.subrange(start.len() - m, start.len() as int).reverse().push(
                            x,
                        ));
                        assert(before.subrange(0, before.len() - 1) =~= start.subrange(
                            0,
                            start.len() - (m + 1),
                        ));
                    }
                },
                None => {},
            }
            i += 1;
        }
        out
    }
}

impl<T> Stack<T> for Vec<T> {
    open spec fn contents(&self) -> Seq<T> {
        self@
    }

    open spec fn well_formed(&self) -> bool {
        true
    }

    /// Push an item onto the stack.
    fn push(&mut self, item: T) {
        Vec::push(self, item);
    }

    /// Pop an item off the stack.
    fn pop(&mut self) -> (r: Option<T>) {
        Vec::pop(self)
    }

    /// Returns the number of elements in this stack.
    fn len(&self) -> (r: usize) {
        Vec::len(self)
    }
}

/// Drains a stack in reverse order of insertion by calling `pop()`.
pub struct Drain<'s, S, T> {
    stack: &'s mut S,
    phantom: PhantomData<T>,
}

impl<'s, S, T> Drain<'s, S, T> {
    /// The stack being drained.
    pub closed spec fn stack(&self) -> S {
        *self.stack
    }
}

impl<'s, S: Stack<T>, T> Drain<'s, S, T> {
    /// A draining view of `stack`, which pops items by calling `pop()`.
    pub fn new(stack: &'s mut S) -> (r: Self)
        ensures
            r.stack() == *old(stack),
    {
        Drain { stack, phantom: PhantomData }
    }

    /// Pops the next item.
    pub fn next(&mut self) -> (r: Option<T>)
        requires
            old(self).stack().well_formed(),
        ensures
            final(self).stack().well_formed(),
            old(self).stack().contents().len() == 0 ==> r is None && final(self).stack().contents()
                == old(self).stack().contents(),
            old(self).stack().contents().len() > 0 ==> r == Some(
                old(self).stack().contents().last(),
            ) && final(self).stack().contents() == old(self).stack().contents().drop_last(),
    {
        self.stack.pop()
    }
}

/// The items of the spilled batches, oldest batch first.
pub open spec fn spilled_items<T>(batches: Seq<Seq<T>>) -> Seq<T>
    decreases batches.len(),
{
    if batches.len() == 0 {
        Seq::empty()
    } else {
        spilled_items(batches.drop_last()) + batches.last()
    }
}

/// The spilled items of `b` followed by one more batch.
proof fn lemma_spilled_push<T>(b: Seq<Seq<T>>, v: Seq<T>)
    ensures
        spilled_items(b.push(v)) == spilled_items(b) + v,
{
    assert(b.push(v).drop_last() =~= b);
}

/// Every batch of `b` holding `k` items, the spilled items number `b.len() * k`.
proof fn lemma_spilled_len<T>(b: Seq<Seq<T>>, k: nat)
    requires
        forall|i: int| 0 <= i < b.len() ==> (#[trigger] b[i]).len() == k,
    ensures
        spilled_items(b).len() == b.len() * k,
    decreases b.len(),
{
    if b.len() > 0 {
        lemma_spilled_len(b.drop_last(), k);
        assert(b.last().len() == k);
        assert((b.len() - 1) * k + k == b.len() * k) by (nonlinear_arith);
    }
}

/// What a pop from a `SpillStack` hands back.
pub enum PopStep<T> {
    /// The most recently pushed item.
    Item(T),
    /// The working buffer is empty: the newest spilled batch must be handed
    /// back with `reload` first.
    Reload,
    /// The stack is empty.
    Empty,
}

/// The bookkeeping of a stack that keeps at most `capacity` items in its
/// working buffer and spills the rest in batches that its owner stores.
///
/// When the buffer is full, a push hands the oldest half of it back to be
/// stored; a pop from an empty buffer asks for the newest stored batch.
pub struct SpillStack<T> {
    /// The working buffer, oldest first.
    stack: Vec<T>,
    /// The capacity of the working buffer.
    capacity: usize,
    /// How many batches are stored outside.
    spilled: usize,
    /// The batches stored outside, oldest first.
    batches: Ghost<Seq<Seq<T>>>,
}

impl<T> SpillStack<T> {
    /// The capacity of the working buffer.
    pub closed spec fn spec_capacity(&self) -> nat {
        self.capacity as nat
    }

    /// The working buffer, oldest first.
    pub closed spec fn buffer(&self) -> Seq<T> {
        self.stack@
    }

    /// The batches stored outside, oldest first.
    pub closed spec fn spilled_batches(&self) -> Seq<Seq<T>> {
        self.batches@
    }

    /// The items held, oldest first, wherever they are.
    pub open spec fn items(&self) -> Seq<T> {
        spilled_items(self.spilled_batches()) + self.buffer()
    }

    /// The stack's invariant.
    pub closed spec fn inv(&self) -> bool {
        &&& self.capacity >= 2
        &&& self.stack@.len() <= self.capacity
        &&& self.spilled == self.batches@.len()
        &&& spilled_items(self.batches@).len() + self.stack@.len() <= usize::MAX
        &&& forall|i: int|
            0 <= i < self.batches@.len() ==> (#[trigger] self.batches@[i]).len() == self.capacity
                / 2
    }

    /// Creates an empty stack whose working buffer holds `capacity` items.
    pub fn new(capacity: usize) -> (r: Self)
        requires
            capacity >= 2,
        ensures
            r.inv(),
            r.items() == Seq::<T>::empty(),
            r.spec_capacity() == capacity,
            r.buffer().len() == 0,
            r.spilled_batches().len() == 0,
    {
        let r = SpillStack { stack: Vec::new(), capacity, spilled: 0, batches: Ghost(Seq::empty()) };
        proof {
            assert(r.items() =~= Seq::<T>::empty());
        }
        r
    }

    /// Returns half the capacity of the working buffer.
    fn half_capacity(&self) -> (r: usize)
        ensures
            r == self.capacity / 2,
    {
        self.capacity / 2
    }

    /// The number of items in each spilled batch.
    pub fn batch_size(&self) -> (r: usize)
        ensures
            r == self.spec_capacity() / 2,
    {
        self.half_capacity()
    }

    /// Pushes an item. When the buffer was full, its oldest half comes back,
    /// to be stored until `pop` asks for it.
    pub fn push(&mut self, item: T) -> (spill: Option<Vec<T>>)
        requires
            old(self).inv(),
            old(self).items().len() < usize::MAX,
        ensures
            final(self).inv(),
            final(self).items() == old(self).items().push(item),
            final(self).spec_capacity() == old(self).spec_capacity(),
            old(self).buffer().len() == old(self).spec_capacity() ==> (spill matches Some(b)
                && b@.len() == old(self).spec_capacity() / 2 && final(self).spilled_batches()
                == old(self).spilled_batches().push(b@)),
            old(self).buffer().len() < old(self).spec_capacity() ==> spill is None
                && final(self).spilled_batches() == old(self).spilled_batches(),
            spill matches Some(b) ==> final(self).spilled_batches() == old(
                self,
            ).spilled_batches().push(b@),
            spill is None ==> final(self).spilled_batches() == old(self).spilled_batches(),
            old(self).buffer().len() == old(self).spec_capacity() ==> (spill matches Some(b) && b@
                == old(self).buffer().subrange(0, (old(self).spec_capacity() / 2) as int)
                && final(self).buffer() == old(self).buffer().subrange(
                (old(self).spec_capacity() / 2) as int,
                old(self).spec_capacity() as int,
            ).push(item)),
            old(self).buffer().len() < old(self).spec_capacity() ==> final(self).buffer() == old(
                self,
            ).buffer().push(item),
    {
        let mut spill: Option<Vec<T>> = None;
        if self.stack.len() == self.capacity {
            let half = self.half_capacity();
            let mut front = self.stack.split_off(half);
            std::mem::swap(&mut self.stack, &mut front);
            proof {
                lemma_spilled_push(self.batches@, front@);
                assert(front@ + self.stack@ =~= old(self).stack@);
                lemma_spilled_len(old(self).batches@, (self.capacity / 2) as nat);
                let n = self.spilled as int;
                let k = (self.capacity / 2) as int;
                assert(n <= n * k) by (nonlinear_arith)
                    requires
                        k >= 1,
                        n >= 0,
                ;
            }
            self.spilled = self.spilled + 1;
            self.batches = Ghost(self.batches@.push(front@));
            spill = Some(front);
        }
        self.stack.push(item);
        proof {
            assert(self.items() =~= old(self).items().push(item));
        }
        spill
    }

    /// Pops the most recently pushed item, or asks for the newest stored
    /// batch when only stored batches are left.
    pub fn pop(&mut self) -> (r: PopStep<T>)
        requires
            old(self).inv(),
        ensures
            final(self).inv(),
            final(self).spec_capacity() == old(self).spec_capacity(),
            final(self).spilled_batches() == old(self).spilled_batches(),
            old(self).buffer().len() > 0 ==> r == PopStep::Item(old(self).items().last())
                && final(self).items() == old(self).items().drop_last(),
            old(self).buffer().len() == 0 && old(self).spilled_batches().len() > 0 ==> r
                is Reload && *final(self) == *old(self),
            old(self).items().len() == 0 ==> r is Empty && *final(self) == *old(self),
    {
        if self.stack.len() > 0 {
            let x = self.stack.pop().unwrap();
            proof {
                assert(self.items() =~= old(self).items().drop_last());
            }
            PopStep::Item(x)
        } else if self.spilled > 0 {
            PopStep::Reload
        } else {
            proof {
                assert(old(self).items() =~= Seq::<T>::empty());
            }
            PopStep::Empty
        }
    }

    /// Hands back the newest stored batch, which becomes the working buffer.
    pub fn reload(&mut self, batch: Vec<T>)
        requires
            old(self).inv(),
            old(self).buffer().len() == 0,
            old(self).spilled_batches().len() > 0,
            batch@ == old(self).spilled_batches().last(),
        ensures
            final(self).inv(),
            final(self).items() == old(self).items(),
            final(self).spec_capacity() == old(self).spec_capacity(),
            final(self).buffer() == batch@,
            final(self).buffer().len() > 0,
            final(self).spilled_batches() == old(self).spilled_batches().drop_last(),
    {
        proof {
            assert(self.batches@ =~= self.batches@.drop_last().push(batch@));
            lemma_spilled_push(self.batches@.drop_last(), batch@);
        }
        self.stack = batch;
        self.spilled = self.spilled - 1;
        self.batches = Ghost(self.batches@.drop_last());
        proof {
            assert(self.items() =~= old(self).items());
        }
    }

    /// Returns the number of items held, wherever they are.
    pub fn len(&self) -> (r: usize)
        requires
            self.inv(),
        ensures
            r == self.items().len(),
    {
        proof {
            lemma_spilled_len(self.batches@, (self.capacity / 2) as nat);
            assert(self.spilled * (self.capacity / 2) <= usize::MAX);
        }
        self.stack.len() + self.spilled * self.half_capacity()
    }
}

/// A stack that keeps at most `capacity` items in its working buffer.
///
/// When the buffer is full, a push first seals the oldest half of it into a
/// batch of its own; a pop from an empty buffer reopens the newest batch. The
/// sealed batches stay in memory: to keep them elsewhere, drive a
/// `SpillStack` directly, as `Search` does.
pub struct BigStack<T> {
    /// The working buffer and its bookkeeping.
    core: SpillStack<T>,
    /// The sealed batches, oldest first.
    sealed: Vec<Vec<T>>,
}

impl<T> BigStack<T> {
    /// The capacity of the working buffer.
    pub closed spec fn spec_capacity(&self) -> nat {
        self.core.spec_capacity()
    }

    /// The items held, oldest first.
    pub closed spec fn all_items(&self) -> Seq<T> {
        self.core.items()
    }

    /// The working buffer, oldest first.
    pub closed spec fn buffer(&self) -> Seq<T> {
        self.core.buffer()
    }

    /// The sealed batches, oldest first.
    pub closed spec fn sealed_batches(&self) -> Seq<Seq<T>> {
        self.core.spilled_batches()
    }

    /// The stack's invariant.
    pub closed spec fn inv(&self) -> bool {
        &&& self.core.inv()
        &&& self.sealed@.len() == self.core.spilled_batches().len()
        &&& forall|i: int|
            0 <= i < self.sealed@.len() ==> (#[trigger] self.sealed@[i])@
                == self.core.spilled_batches()[i]
    }

    /// Creates a new BigStack whose working buffer holds `capacity` items.
    pub fn new(capacity: usize) -> (r: Self)
        requires
            capacity >= 2,
        ensures
            r.inv(),
            r.contents() == Seq::<T>::empty(),
            r.spec_capacity() == capacity,
    {
        BigStack { core: SpillStack::new(capacity), sealed: Vec::new() }
    }
}

impl<T> Stack<T> for BigStack<T> {
    open spec fn contents(&self) -> Seq<T> {
        self.all_items()
    }

    open spec fn well_formed(&self) -> bool {
        self.inv()
    }

    /// Push an item onto the stack.
    fn push(&mut self, item: T)
        ensures
            old(self).buffer().len() == old(self).spec_capacity() ==> {
                &&& final(self).sealed_batches() == old(self).sealed_batches().push(
                    old(self).buffer().subrange(0, (old(self).spec_capacity() / 2) as int),
                )
                &&& final(self).buffer() == old(self).buffer().subrange(
                    (old(self).spec_capacity() / 2) as int,
                    old(self).spec_capacity() as int,
                ).push(item)
            },
            old(self).buffer().len() < old(self).spec_capacity() ==> final(self).sealed_batches()
                == old(self).sealed_batches() && final(self).buffer() == old(self).buffer().push(
                item,
            ),
            final(self).spec_capacity() == old(self).spec_capacity(),
    {
        let spill = self.core.push(item);
        if let Some(batch) = spill {
            self.sealed.push(batch);
        }
    }

    /// Pop the most recently pushed item from the stack.
    fn pop(&mut self) -> (r: Option<T>) {
        match self.core.pop() {
            PopStep::Item(x) => Some(x),
            PopStep::Empty => None,
            PopStep::Reload => {
                let batch = self.sealed.pop().unwrap();
                proof {
                    assert(batch@ == old(self).core.spilled_batches().last());
                }
                self.core.reload(batch);
                match self.core.pop() {
                    PopStep::Item(x) => Some(x),
                    _ => None,
                }
            },
        }
    }

    /// Returns the number of elements in this stack.
    fn len(&self) -> (r: usize) {
        self.core.len()
    }
}

/// The contents of a stack after pushing `vs` in order onto a stack holding `c`.
pub open spec fn after_pushes<T>(c: Seq<T>, vs: Seq<T>) -> Seq<T>
    decreases vs.len(),
{
    if vs.len() == 0 {
        c
    } else {
        after_pushes(c, vs.drop_last()).push(vs.last())
    }
}

/// The items that `n` successive pops take from a stack holding `c`, in the
/// order they come out.
pub open spec fn popped<T>(c: Seq<T>, n: nat) -> Seq<T>
    decreases n,
{
    if n == 0 || c.len() == 0 {
        Seq::empty()
    } else {
        seq![c.last()] + popped(c.drop_last(), (n - 1) as nat)
    }
}

/// Pushing `vs` and then popping as many times hands back exactly the items
/// pushed, last pushed first, whatever the stack held before.
pub proof fn law_pops_return_pushes<T>(c: Seq<T>, vs: Seq<T>)
    ensures
        after_pushes(c, vs) == c + vs,
        popped(c + vs, vs.len()) == vs.reverse(),
        popped(c + vs, vs.len()).to_multiset() == vs.to_multiset(),
    decreases vs.len(),
{
    if vs.len() > 0 {
        law_pops_return_pushes(c, vs.drop_last());
        assert(c + vs == (c + vs.drop_last()).push(vs.last()));
        assert((c + vs).drop_last() =~= c + vs.drop_last());
        assert((c + vs).last() == vs.last());
        assert(vs.reverse() =~= seq![vs.last()] + vs.drop_last().reverse());
    } else {
        assert(c + vs =~= c);
        assert(vs.reverse() =~= Seq::<T>::empty());
    }
    assert(popped(c + vs, vs.len()) == vs.reverse());
    vs.lemma_reverse_to_multiset();
}

} // verus!
