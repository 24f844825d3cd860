//! An ordered, duplicate-free registry of slot values: the backbone of the
//! height index. Position `n` holds the n-th smallest registered value.

use vstd::prelude::*;

verus! {

pub struct SortedList {
    items: Vec<u64>,
}

impl SortedList {
    /// The registered values, in ascending order.
    pub closed spec fn view(&self) -> Seq<u64> {
        self.items@
    }

    /// The registry is strictly increasing, hence duplicate-free.
    pub open spec fn wf(&self) -> bool {
        forall|i: int, j: int| 0 <= i < j < self@.len() ==> self@[i] < self@[j]
    }

    pub fn new() -> (r: SortedList)
        ensures
            r@ =~= Seq::<u64>::empty(),
            r.wf(),
    {
        SortedList { items: Vec::new() }
    }

    pub fn len(&self) -> (n: usize)
        ensures
            n == self@.len(),
    {
        self.items.len()
    }

    /// The n-th smallest registered value, or a miss when `n` is out of range.
    pub fn nth(&self, n: usize) -> (r: Option<u64>)
        ensures
            n < self@.len() ==> r == Some(self@[n as int]),
            n >= self@.len() ==> r is None,
    {
        if n < self.items.len() {
            Some(self.items[n])
        } else {
            None
        }
    }

    /// Ordering law of the registry: whatever sequence of insertions built
    /// it, the value at a smaller position is strictly below the value at a
    /// larger one — so `nth` is strictly increasing in its argument (and, by
    /// `nth`'s contract, a miss at or beyond `len()`).
    pub proof fn lemma_nth_strictly_increasing(&self, i: int, j: int)
        requires
            self.wf(),
            0 <= i < j < self@.len(),
        ensures
            self@[i] < self@[j],
    {
    }

    /// Registers `key`, keeping the sequence sorted; a value already present
    /// is not added again.
    pub fn insert(&mut self, key: u64)
        requires
            old(self).wf(),
        ensures
            final(self).wf(),
            forall|x: u64| final(self)@.contains(x) <==> (old(self)@.contains(x) || x == key),
            old(self)@.contains(key) ==> final(self)@ == old(self)@,
            !old(self)@.contains(key) ==> final(self)@.len() == old(self)@.len() + 1,
    {
        let mut idx: usize = 0;
        while idx < self.items.len() && self.items[idx] < key
            invariant
                idx <= self@.len(),
                self@ == old(self)@,
                old(self).wf(),
                forall|i: int| 0 <= i < idx ==> self@[i] < key,
            decreases self@.len() - idx,
        {
            idx = idx + 1;
        }
        if idx < self.items.len() && self.items[idx] == key {
            assert(self@.contains(key));
        } else {
            assert(forall|j: int| idx < j < self@.len() ==> self@[idx as int] < self@[j]);
            assert(forall|j: int| idx <= j < self@.len() ==> self@[j] > key);
            assert(!old(self)@.contains(key));
            proof {
                old(self)@.insert_ensures(idx as int, key);
            }
            self.items.insert(idx, key);
            assert forall|i: int, j: int| 0 <= i < j < self@.len() implies self@[i] < self@[j] by {
                let prev = old(self)@;
                assert(self@ == prev.insert(idx as int, key));
                if j < idx {
                    assert(self@[i] == prev[i] && self@[j] == prev[j]);
                } else if i > idx {
                    assert(self@[i] == prev[i - 1] && self@[j] == prev[j - 1]);
                }
            }
            assert forall|x: u64| self@.contains(x) implies (old(self)@.contains(x) || x == key) by {
                let prev = old(self)@;
                let i = choose|i: int| 0 <= i < self@.len() && self@[i] == x;
                if i < idx {
                    assert(prev[i] == x);
                    assert(prev.contains(x));
                } else if i > idx {
                    assert(prev[i - 1] == x);
                    assert(prev.contains(x));
                }
            }
            assert forall|x: u64| old(self)@.contains(x) implies self@.contains(x) by {
                let prev = old(self)@;
                let i = choose|i: int| 0 <= i < prev.len() && prev[i] == x;
                if i < idx {
                    assert(self@[i] == x);
                } else {
                    assert(self@[i + 1] == x);
                }
            }
            assert(self@.contains(key)) by {
                assert(self@[idx as int] == key);
            }
        }
    }
}

} // verus!
