//! The bounded FIFO cache.

use vstd::prelude::*;

use crate::approximate_cache::{
    best_in, scan_best, ApproximateCache, CacheLine, DefaultApproximateCache,
};
use crate::comp::ApproxComparable;

verus! {

/// A bounded cache whose lines stand in insertion order, oldest first. A
/// lookup scans every line and never reorders; an insert appends, dropping
/// the oldest line when the capacity would be exceeded.
pub struct FifoCache<K, V> {
    max_capacity: usize,
    items: Vec<CacheLine<K, V>>,
}

impl<K: ApproxComparable, V: Clone> FifoCache<K, V> {
    /// An empty FIFO cache holding at most `max_capacity` lines.
    pub fn new(max_capacity: usize) -> (r: Self)
        requires
            max_capacity >= 1,
        ensures
            r.wf(),
            r.lines() == Seq::<CacheLine<K, V>>::empty(),
            r.capacity() == max_capacity,
    {
        FifoCache { max_capacity, items: Vec::new() }
    }
}

impl<K: ApproxComparable, V: Clone> ApproximateCache<K, V> for FifoCache<K, V> {
    /// The stored lines, oldest first.
    closed spec fn lines(self) -> Seq<CacheLine<K, V>> {
        self.items@
    }

    closed spec fn capacity(self) -> nat {
        self.max_capacity as nat
    }

    closed spec fn wf(self) -> bool {
        &&& self.max_capacity >= 1
        &&& self.items@.len() <= self.max_capacity
        &&& forall|i: int|
            0 <= i < self.items@.len() ==> crate::float_bits::is_valid_tolerance(
                (#[trigger] self.items@[i]).tol,
            )
    }

    proof fn lemma_wf_bounds(&self) {
    }

    /// The nearest-match lookup; a FIFO lookup never mutates the cache.
    fn find(&mut self, target: &K) -> (r: Option<V>)
        ensures
            *final(self) == *old(self),
    {
        let best = scan_best(&self.items, target);
        match best {
            Option::None => None,
            Option::Some(i) => Some(self.items[i].value.clone()),
        }
    }

    /// Appends the new line; when the cache was full, the oldest line leaves.
    fn insert(&mut self, key: K, value: V, tolerance: u32)
        ensures
            final(self).lines() == if old(self).lines().len() < old(self).capacity() {
                old(self).lines().push(CacheLine { key, tol: tolerance, value })
            } else {
                old(self).lines().push(CacheLine { key, tol: tolerance, value }).drop_first()
            },
    {
        let ghost line = CacheLine { key, tol: tolerance, value };
        self.items.push(CacheLine { key, tol: tolerance, value });
        if self.items.len() > self.max_capacity {
            let _victim = self.items.remove(0);
            proof {
                assert(old(self).lines().push(line).remove(0) =~= old(self).lines().push(
                    line,
                ).drop_first());
            }
        }
        proof {
            let stored = final(self).lines();
            assert(stored[stored.len() - 1] == line);
            assert(stored.contains(line));
            stored.to_multiset_ensures();
        }
    }

    fn len(&self) -> (n: usize) {
        self.items.len()
    }

    /// A FIFO lookup never mutates, so every batched answer is pinned against
    /// the one starting state.
    fn batch_find(&mut self, targets: &Vec<K>) -> (r: Vec<Option<V>>)
        ensures
            *final(self) == *old(self),
            forall|i: int|
                0 <= i < targets@.len() ==> ((#[trigger] r@[i]) is Some <==> best_in(
                    old(self).lines(),
                    targets@[i],
                ) is Some),
            forall|i: int|
                0 <= i < targets@.len() ==> ((#[trigger] r@[i]) matches Some(v) ==> cloned::<V>(
                    old(self).lines()[best_in(old(self).lines(), targets@[i])->Some_0].value,
                    v,
                )),
    {
        let mut out: Vec<Option<V>> = Vec::new();
        let n = targets.len();
        let mut i: usize = 0;
        while i < n
            invariant
                i <= n,
                n == targets@.len(),
                out@.len() == i,
                *self == *old(self),
                old(self).wf(),
                forall|j: int|
                    0 <= j < i ==> ((#[trigger] out@[j]) is Some <==> best_in(
                        old(self).lines(),
                        targets@[j],
                    ) is Some),
                forall|j: int|
                    0 <= j < i ==> ((#[trigger] out@[j]) matches Some(v) ==> cloned::<V>(
                        old(self).lines()[best_in(
                            old(self).lines(),
                            targets@[j],
                        )->Some_0].value,
                        v,
                    )),
            decreases n - i,
        {
            let answer = self.find(&targets[i]);
            out.push(answer);
            i = i + 1;
        }
        proof {
            let states = Seq::new((targets@.len() + 1) as nat, |j: int| old(self).lines());
            assert(crate::approximate_cache::batch_answers(targets@, states, out@));
        }
        out
    }
}

impl<K: ApproxComparable, V: Clone> DefaultApproximateCache<K, V> for FifoCache<K, V> {
    fn from_capacity(cap: usize) -> (r: Self) {
        FifoCache::new(cap)
    }
}

} // verus!

