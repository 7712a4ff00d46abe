//! The unbounded linear cache.

use vstd::pervasive::cloned;
use vstd::prelude::*;

use crate::comp::ApproxComparable;
use crate::float_bits::{float_lt, is_valid_tolerance};

verus! {

/// The index of the first key of `keys` that the queried key matches under
/// the cache-wide tolerance, or `None` when no key matches.
pub open spec fn first_match<K: ApproxComparable>(keys: Seq<K>, target: K, tol: u32) -> Option<
    int,
>
    decreases keys.len(),
{
    if keys.len() == 0 {
        None
    } else if float_lt(target.spec_fuzziness(keys[0]), tol) {
        Some(0)
    } else {
        match first_match(keys.drop_first(), target, tol) {
            Option::None => None,
            Option::Some(i) => Some(i + 1),
        }
    }
}

/// `first_match` selects the least matching index.
pub proof fn lemma_first_match<K: ApproxComparable>(keys: Seq<K>, target: K, tol: u32)
    ensures
        first_match(keys, target, tol) is Some <==> exists|j: int|
            0 <= j < keys.len() && #[trigger] float_lt(target.spec_fuzziness(keys[j]), tol),
        first_match(keys, target, tol) matches Some(i) ==> {
            &&& 0 <= i < keys.len()
            &&& float_lt(target.spec_fuzziness(keys[i]), tol)
            &&& forall|j: int|
                0 <= j < i ==> !#[trigger] float_lt(target.spec_fuzziness(keys[j]), tol)
        },
    decreases keys.len(),
{
    if keys.len() > 0 {
        lemma_first_match(keys.drop_first(), target, tol);
        assert(forall|j: int|
            0 <= j < keys.len() - 1 ==> keys.drop_first()[j] == keys[j + 1]);
        if first_match(keys, target, tol) is Some {
            let i = first_match(keys, target, tol)->Some_0;
            assert forall|j: int| 0 <= j < i implies !#[trigger] float_lt(
                target.spec_fuzziness(keys[j]),
                tol,
            ) by {
                if j > 0 {
                    assert(keys.drop_first()[j - 1] == keys[j]);
                }
            }
        }
        if !float_lt(target.spec_fuzziness(keys[0]), tol) {
            if exists|j: int|
                0 <= j < keys.len() && #[trigger] float_lt(target.spec_fuzziness(keys[j]), tol) {
                let j = choose|j: int|
                    0 <= j < keys.len() && #[trigger] float_lt(
                        target.spec_fuzziness(keys[j]),
                        tol,
                    );
                assert(j >= 1 && keys.drop_first()[j - 1] == keys[j]);
            }
        }
    }
}

/// A cache that scans all entries one by one and never evicts. A lookup
/// returns the value of the first key the query matches under the cache-wide
/// tolerance; an insert appends at the end, behind every earlier entry.
pub struct UnboundedLinearCache<K, V> {
    keys: Vec<K>,
    values: Vec<V>,
    tolerance: u32,
}

impl<K: ApproxComparable, V: Clone> UnboundedLinearCache<K, V> {
    /// The stored keys, oldest first.
    pub closed spec fn spec_keys(self) -> Seq<K> {
        self.keys@
    }

    /// The stored values, in the same order as the keys.
    pub closed spec fn spec_values(self) -> Seq<V> {
        self.values@
    }

    /// The cache-wide tolerance.
    pub closed spec fn spec_tolerance(self) -> u32 {
        self.tolerance
    }

    /// One key per value, and a strictly positive tolerance.
    pub closed spec fn wf(self) -> bool {
        self.keys@.len() == self.values@.len() && is_valid_tolerance(self.tolerance)
    }

    /// An empty unbounded cache with the given search tolerance.
    pub fn new(tolerance: u32) -> (r: Self)
        requires
            is_valid_tolerance(tolerance),
        ensures
            r.wf(),
            r.spec_keys() == Seq::<K>::empty(),
            r.spec_values() == Seq::<V>::empty(),
            r.spec_tolerance() == tolerance,
    {
        UnboundedLinearCache { keys: Vec::new(), values: Vec::new(), tolerance }
    }

    /// As `new`, reserving room for `capacity` entries up front.
    pub fn with_initial_capacity(tolerance: u32, capacity: usize) -> (r: Self)
        requires
            is_valid_tolerance(tolerance),
        ensures
            r.wf(),
            r.spec_keys() == Seq::<K>::empty(),
            r.spec_values() == Seq::<V>::empty(),
            r.spec_tolerance() == tolerance,
    {
        UnboundedLinearCache {
            keys: Vec::with_capacity(capacity),
            values: Vec::with_capacity(capacity),
            tolerance,
        }
    }

    /// Returns a copy of the value stored behind the first key that `to_find`
    /// matches, or `None` when no stored key matches.
    pub fn find(&self, to_find: &K) -> (r: Option<V>)
        requires
            self.wf(),
        ensures
            r is Some <==> first_match(self.spec_keys(), *to_find, self.spec_tolerance()) is Some,
            r matches Some(v) ==> cloned::<V>(
                self.spec_values()[first_match(
                    self.spec_keys(),
                    *to_find,
                    self.spec_tolerance(),
                )->Some_0],
                v,
            ),
    {
        let n = self.keys.len();
        let mut i: usize = 0;
        while i < n
            invariant
                i <= n,
                n == self.spec_keys().len(),
                self.wf(),
                forall|j: int|
                    0 <= j < i ==> !#[trigger] float_lt(
                        to_find.spec_fuzziness(self.spec_keys()[j]),
                        self.spec_tolerance(),
                    ),
            decreases n - i,
        {
            if to_find.roughly_matches(&self.keys[i], self.tolerance) {
                proof {
                    lemma_first_match(self.spec_keys(), *to_find, self.spec_tolerance());
                    lemma_first_match_unique(
                        self.spec_keys(),
                        *to_find,
                        self.spec_tolerance(),
                        i as int,
                    );
                }
                return Some(self.values[i].clone());
            }
            i = i + 1;
        }
        proof {
            lemma_first_match(self.spec_keys(), *to_find, self.spec_tolerance());
        }
        None
    }

    /// Appends an entry at the end, behind every earlier entry.
    pub fn insert(&mut self, key: K, value: V)
        requires
            old(self).wf(),
        ensures
            final(self).wf(),
            final(self).spec_keys() == old(self).spec_keys().push(key),
            final(self).spec_values() == old(self).spec_values().push(value),
            final(self).spec_tolerance() == old(self).spec_tolerance(),
    {
        self.keys.push(key);
        self.values.push(value);
    }

    /// The number of stored entries.
    pub fn len(&self) -> (n: usize)
        ensures
            n == self.spec_keys().len(),
    {
        self.keys.len()
    }

    /// True iff no entry is stored.
    pub fn is_empty(&self) -> (r: bool)
        ensures
            r <==> self.spec_keys().len() == 0,
    {
        self.keys.len() == 0
    }
}

/// The least matching index is what `first_match` returns.
proof fn lemma_first_match_unique<K: ApproxComparable>(keys: Seq<K>, target: K, tol: u32, i: int)
    requires
        0 <= i < keys.len(),
        float_lt(target.spec_fuzziness(keys[i]), tol),
        forall|j: int| 0 <= j < i ==> !#[trigger] float_lt(target.spec_fuzziness(keys[j]), tol),
    ensures
        first_match(keys, target, tol) == Some(i),
    decreases keys.len(),
{
    if i > 0 {
        assert(forall|j: int|
            0 <= j < keys.len() - 1 ==> keys.drop_first()[j] == keys[j + 1]);
        lemma_first_match_unique(keys.drop_first(), target, tol, i - 1);
    }
}

} // verus!
