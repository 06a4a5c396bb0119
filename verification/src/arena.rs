//! A slot-reusing arena. Values live in numbered slots; removing a value
//! frees its slot for reuse by a later insertion. The arena is the backing
//! store for both the vertex and the edge records of the incidence-list
//! storage.

use vstd::prelude::*;

verus! {

broadcast use vstd::set::axiom_set_insert_len, vstd::set::axiom_set_remove_len,
    vstd::set::axiom_set_insert_finite, vstd::set::axiom_set_remove_finite,
    vstd::set::axiom_set_contains_len, vstd::set::axiom_set_empty_len,
    vstd::set::axiom_set_empty_finite;

/// An arena of values of type `T`, modelled as a finite map from slot index
/// to value.
pub struct Arena<T> {
    slots: Vec<Option<T>>,
    free: Vec<usize>,
    count: usize,
}

impl<T> View for Arena<T> {
    type V = Map<usize, T>;

    closed spec fn view(&self) -> Map<usize, T> {
        Map::new(
            |i: usize| i < self.slots@.len() && self.slots@[i as int] is Some,
            |i: usize| self.slots@[i as int]->Some_0,
        )
    }
}

impl<T> Arena<T> {
    /// The internal invariant: the free list holds only vacant in-range
    /// slots, without duplicates, and the live count matches the model.
    pub closed spec fn wf(&self) -> bool {
        &&& forall|k: int|
            0 <= k < self.free@.len() ==> (#[trigger] self.free@[k] < self.slots@.len()
                && self.slots@[self.free@[k] as int] is None)
        &&& forall|k1: int, k2: int|
            #![trigger self.free@[k1], self.free@[k2]]
            0 <= k1 < k2 < self.free@.len() ==> self.free@[k1] != self.free@[k2]
        &&& self@.dom().finite()
        &&& self.count == self@.dom().len()
    }

    /// Every live slot index is below the length of the slot vector; in
    /// particular the model's domain is finite.
    pub proof fn lemma_dom_finite(&self)
        requires
            self.wf(),
        ensures
            self@.dom().finite(),
    {
    }

    pub fn new() -> (r: Self)
        ensures
            r.wf(),
            r@ == Map::<usize, T>::empty(),
    {
        let r = Arena { slots: Vec::new(), free: Vec::new(), count: 0 };
        proof {
            assert(r@ =~= Map::<usize, T>::empty());
        }
        r
    }

    pub fn with_capacity(capacity: usize) -> (r: Self)
        ensures
            r.wf(),
            r@ == Map::<usize, T>::empty(),
    {
        let r = Arena { slots: Vec::with_capacity(capacity), free: Vec::new(), count: 0 };
        proof {
            assert(r@ =~= Map::<usize, T>::empty());
        }
        r
    }

    /// The number of live values.
    pub fn len(&self) -> (r: usize)
        requires
            self.wf(),
        ensures
            r == self@.dom().len(),
    {
        self.count
    }

    pub fn contains(&self, i: usize) -> (r: bool)
        requires
            self.wf(),
        ensures
            r == self@.contains_key(i),
    {
        i < self.slots.len() && self.slots[i].is_some()
    }

    pub fn get(&self, i: usize) -> (r: Option<&T>)
        requires
            self.wf(),
        ensures
            (match r {
                Some(v) => self@.contains_key(i) && *v == self@[i],
                None => !self@.contains_key(i),
            }),
    {
        if i < self.slots.len() {
            self.slots[i].as_ref()
        } else {
            None
        }
    }

    /// One past the highest slot index ever used: every live slot index is
    /// strictly below this bound.
    pub fn slot_bound(&self) -> (r: usize)
        requires
            self.wf(),
        ensures
            forall|k: usize| self@.contains_key(k) ==> k < r,
    {
        self.slots.len()
    }

    /// Store a value in a vacant slot and return the slot's index. The most
    /// recently freed slot is reused first; with no free slot, a fresh one
    /// is appended.
    pub fn insert(&mut self, value: T) -> (r: usize)
        requires
            old(self).wf(),
            old(self)@.dom().len() < usize::MAX,
        ensures
            final(self).wf(),
            !old(self)@.contains_key(r),
            final(self)@ == old(self)@.insert(r, value),
    {
        let popped = self.free.pop();
        match popped {
            Some(k) => {
                assert(k < self.slots@.len() && self.slots@[k as int] is None);
                self.slots[k] = Some(value);
                assert(!old(self)@.contains_key(k));
                proof {
                    assert(self@ =~= old(self)@.insert(k, value));
                }
                self.count = self.count + 1;
                k
            },
            None => {
                let k = self.slots.len();
                self.slots.push(Some(value));
                assert(!old(self)@.contains_key(k));
                proof {
                    assert(self@ =~= old(self)@.insert(k, value));
                }
                self.count = self.count + 1;
                k
            },
        }
    }

    /// Remove and return the value in slot `i`, freeing the slot; absent if
    /// the slot is vacant or out of range.
    pub fn remove(&mut self, i: usize) -> (r: Option<T>)
        requires
            old(self).wf(),
        ensures
            final(self).wf(),
            (match r {
                Some(v) => {
                    &&& old(self)@.contains_key(i)
                    &&& v == old(self)@[i]
                    &&& final(self)@ == old(self)@.remove(i)
                },
                None => {
                    &&& !old(self)@.contains_key(i)
                    &&& final(self)@ == old(self)@
                },
            }),
    {
        if i < self.slots.len() {
            let v = self.slots[i].take();
            if v.is_some() {
                proof {
                    assert(self@ =~= old(self)@.remove(i));
                    // slot i held a value, so it cannot be on the free list
                    assert(forall|k: int|
                        0 <= k < self.free@.len() ==> #[trigger] self.free@[k] != i);
                }
                self.free.push(i);
                self.count = self.count - 1;
            } else {
                proof {
                    assert(self.slots@ =~= old(self).slots@);
                    assert(self@ =~= old(self)@);
                }
            }
            v
        } else {
            None
        }
    }

    /// Replace the value in an occupied slot, returning the old value. The
    /// slot keeps its index.
    pub fn replace(&mut self, i: usize, value: T) -> (r: T)
        requires
            old(self).wf(),
            old(self)@.contains_key(i),
        ensures
            final(self).wf(),
            r == old(self)@[i],
            final(self)@ == old(self)@.insert(i, value),
    {
        let old_v = self.slots[i].take();
        self.slots[i] = Some(value);
        proof {
            assert(self@ =~= old(self)@.insert(i, value));
            assert(self@.dom() =~= old(self)@.dom());
        }
        old_v.unwrap()
    }

    /// The indices of all live slots, in ascending order.
    pub fn keys(&self) -> (r: Vec<usize>)
        requires
            self.wf(),
        ensures
            forall|a: int, b: int| #![trigger r@[a], r@[b]] 0 <= a < b < r@.len() ==> r@[a] < r@[b],
            forall|k: usize| #[trigger] r@.contains(k) <==> self@.contains_key(k),
    {
        let mut r: Vec<usize> = Vec::new();
        let n = self.slots.len();
        let mut i: usize = 0;
        while i < n
            invariant
                self.wf(),
                n == self.slots@.len(),
                i <= n,
                forall|a: int, b: int|
                    #![trigger r@[a], r@[b]]
                    0 <= a < b < r@.len() ==> r@[a] < r@[b],
                forall|a: int| 0 <= a < r@.len() ==> #[trigger] r@[a] < i,
                forall|k: usize| #[trigger] r@.contains(k) <==> (k < i && self@.contains_key(k)),
            decreases n - i,
        {
            if self.slots[i].is_some() {
                let ghost r0 = r@;
                r.push(i);
                proof {
                    assert forall|k: usize| #[trigger] r@.contains(k) implies (k < i + 1
                        && self@.contains_key(k)) by {
                        let idx = choose|idx: int| 0 <= idx < r@.len() && r@[idx] == k;
                        if idx < r0.len() {
                            assert(r0.contains(k));
                        } else {
                            assert(k == i);
                        }
                    }
                    assert forall|k: usize| (k < i + 1 && self@.contains_key(k)) implies
                        r@.contains(k) by {
                        if k < i {
                            assert(r0.contains(k));
                            let idx = choose|idx: int| 0 <= idx < r0.len() && r0[idx] == k;
                            assert(r@[idx] == k);
                        } else {
                            assert(r@[r@.len() - 1] == i);
                        }
                    }
                }
            }
            i = i + 1;
        }
        r
    }
}

} // verus!
