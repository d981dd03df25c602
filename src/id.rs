//! Dense integer handles and the vector that hands them out.
use std::marker::PhantomData;
use vstd::prelude::*;

verus! {

/// A handle into an `IdVec<T>`: the position of an item.
pub struct Id<T> {
    index: usize,
    marker: PhantomData<T>,
}

impl<T> Id<T> {
    pub closed spec fn spec_index(&self) -> usize {
        self.index
    }

    pub closed spec fn spec_new(index: usize) -> Self {
        Id { index, marker: PhantomData }
    }

    pub broadcast proof fn lemma_spec_new(index: usize)
        ensures
            #[trigger] Self::spec_new(index).spec_index() == index,
    {
    }

    /// Two handles with the same index are the same handle.
    pub proof fn lemma_spec_equal(a: Self, b: Self)
        requires
            a.spec_index() == b.spec_index(),
        ensures
            a == b,
    {
    }

    /// The handle of the item at `index`.
    pub fn new(index: usize) -> (r: Self)
        ensures
            r.spec_index() == index,
            r == Self::spec_new(index),
    {
        Id { index, marker: PhantomData }
    }

    /// The handle that names no item.
    pub fn none() -> (r: Self)
        ensures
            r.spec_index() == usize::MAX,
    {
        Self::new(usize::MAX)
    }

    pub fn index(&self) -> (r: usize)
        ensures
            r == self.spec_index(),
    {
        self.index
    }
}

impl<T> Clone for Id<T> {
    fn clone(&self) -> (r: Self)
        ensures
            r == *self,
    {
        Id { index: self.index, marker: PhantomData }
    }
}

impl<T> Copy for Id<T> {
}

impl<T> PartialEq for Id<T> {
    fn eq(&self, other: &Self) -> (r: bool) {
        self.index == other.index
    }
}

impl<T> vstd::std_specs::cmp::PartialEqSpecImpl for Id<T> {
    open spec fn obeys_eq_spec() -> bool {
        true
    }

    open spec fn eq_spec(&self, other: &Self) -> bool {
        self.spec_index() == other.spec_index()
    }
}

/// The items of `s` whose flag in `keep` is set, in their order.
pub open spec fn select<T>(s: Seq<T>, keep: Seq<bool>) -> Seq<T>
    decreases s.len(),
{
    if s.len() == 0 {
        Seq::empty()
    } else {
        let rest = select(s.drop_last(), keep.take(s.len() - 1));
        if keep[s.len() - 1] {
            rest.push(s.last())
        } else {
            rest
        }
    }
}

/// A vector whose items are named by `Id`s: the handle of an item is its
/// position.
pub struct IdVec<T> {
    items: Vec<T>,
}

impl<T> View for IdVec<T> {
    type V = Seq<T>;

    closed spec fn view(&self) -> Seq<T> {
        self.items@
    }
}

impl<T> IdVec<T> {
    pub fn new() -> (r: Self)
        ensures
            r@ == Seq::<T>::empty(),
    {
        IdVec { items: Vec::new() }
    }

    /// Appends `item`; its handle is the old length.
    pub fn add(&mut self, item: T) -> (r: Id<T>)
        ensures
            r.spec_index() == old(self)@.len(),
            final(self)@ == old(self)@.push(item),
    {
        let id = Id::new(self.items.len());
        self.items.push(item);
        id
    }

    /// Removes the item at `id` and moves the last item into its place.
    /// Returns the handle that the moved item had.
    pub fn remove(&mut self, id: Id<T>) -> (r: Id<T>)
        requires
            id.spec_index() < old(self)@.len(),
        ensures
            r.spec_index() == old(self)@.len() - 1,
            final(self)@ == old(self)@.update(id.spec_index() as int, old(self)@.last()).drop_last(),
    {
        let prev_id = Id::new(self.items.len() - 1);
        self.items.swap_remove(id.index());
        prev_id
    }

    /// Keeps the items on which `f` returns true, in their order.
    pub fn retain<F: Fn(&T) -> bool>(&mut self, f: F)
        requires
            forall|x: &T| f.requires((x,)),
        ensures
            exists|keep: Seq<bool>|
                {
                    &&& keep.len() == old(self)@.len()
                    &&& forall|i: int|
                        0 <= i < keep.len() ==> f.ensures((&old(self)@[i],), #[trigger] keep[i])
                    &&& final(self)@ == select(old(self)@, keep)
                },
    {
        let ghost orig = self.items@;
        let n = self.items.len();
        let mut rest: Vec<T> = Vec::new();
        std::mem::swap(&mut rest, &mut self.items);
        let mut rev: Vec<T> = Vec::new();
        while rest.len() > 0
            invariant
                orig.len() == n,
                rest@ == orig.take(rest.len() as int),
                rev.len() + rest.len() == n,
                forall|j: int| 0 <= j < rev.len() ==> #[trigger] rev@[j] == orig[n - 1 - j],
            decreases rest.len(),
        {
            let x = rest.pop().unwrap();
            rev.push(x);
        }
        let ghost keep: Seq<bool> = Seq::empty();
        let mut kept: Vec<T> = Vec::new();
        while rev.len() > 0
            invariant
                orig.len() == n,
                rev.len() <= n,
                forall|j: int| 0 <= j < rev.len() ==> #[trigger] rev@[j] == orig[n - 1 - j],
                keep.len() == n - rev.len(),
                forall|i: int| 0 <= i < keep.len() ==> f.ensures((&orig[i],), #[trigger] keep[i]),
                forall|x: &T| f.requires((x,)),
                kept@ == select(orig.take(keep.len() as int), keep),
            decreases rev.len(),
        {
            let k = n - rev.len();
            let x = rev.pop().unwrap();
            assert(x == orig[k as int]);
            let b = f(&x);
            proof {
                let s1 = orig.take(k as int + 1);
                let k1 = keep.push(b);
                assert(s1.drop_last() =~= orig.take(k as int));
                assert(k1.take(k as int) =~= keep);
                keep = k1;
            }
            if b {
                kept.push(x);
            }
        }
        assert(orig.take(n as int) =~= orig);
        self.items = kept;
    }

    /// The handles of all items, in order.
    pub fn ids(&self) -> (r: Vec<Id<T>>)
        ensures
            r@.len() == self@.len(),
            forall|i: int| 0 <= i < r@.len() ==> (#[trigger] r@[i]).spec_index() == i,
    {
        let mut r: Vec<Id<T>> = Vec::new();
        let mut i: usize = 0;
        while i < self.items.len()
            invariant
                i <= self.items.len(),
                r@.len() == i,
                forall|j: int| 0 <= j < r@.len() ==> (#[trigger] r@[j]).spec_index() == j,
            decreases self.items.len() - i,
        {
            r.push(Id::new(i));
            i += 1;
        }
        r
    }

    pub fn len(&self) -> (r: usize)
        ensures
            r == self@.len(),
    {
        self.items.len()
    }

    /// The item named by `id`.
    pub fn get(&self, id: Id<T>) -> (r: &T)
        requires
            id.spec_index() < self@.len(),
        ensures
            *r == self@[id.spec_index() as int],
    {
        &self.items[id.index()]
    }

    /// Replaces the item named by `id`.
    pub fn set(&mut self, id: Id<T>, item: T)
        requires
            id.spec_index() < old(self)@.len(),
        ensures
            final(self)@ == old(self)@.update(id.spec_index() as int, item),
    {
        self.items.set(id.index(), item);
    }

    /// Removes every item.
    pub fn clear(&mut self)
        ensures
            final(self)@ == Seq::<T>::empty(),
    {
        self.items.clear();
    }
}

impl<T> Default for IdVec<T> {
    fn default() -> (r: Self)
        ensures
            r@ == Seq::<T>::empty(),
    {
        IdVec::new()
    }
}

} // verus!
