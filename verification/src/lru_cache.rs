//! The bounded LRU cache.

use vstd::prelude::*;

use crate::approximate_cache::{
    best_in, line_fuzz, line_matches, ApproximateCache, CacheLine, DefaultApproximateCache,
};
use crate::comp::ApproxComparable;
use crate::linked_list::DoublyLinkedList;
use crate::list_node::Node;

verus! {

/// The cache lines carried by a recency chain whose nodes hold a key and a
/// tolerance-value pair.
spec fn chain_lines<K: ApproxComparable, V: Clone>(es: Seq<(K, (u32, V))>) -> Seq<
    CacheLine<K, V>,
> {
    Seq::new(es.len(), |p: int| CacheLine { key: es[p].0, tol: es[p].1.0, value: es[p].1.1 })
}

/// A bounded cache whose lines hang on a recency chain, most recent first:
/// the slab-backed doubly-linked list gives O(1) move-to-head on a hit and
/// O(1) pop-tail on eviction. A lookup scans every line; on a hit the winning
/// line is promoted to the head, so ties between equally close candidates
/// favour the more recently used line. An insert places the new line at the
/// head and, when the cache was full, evicts the tail — the least recently
/// used line.
///
/// Reinserting a key that is already present adds a fresh line at the head;
/// the older line stays reachable until it is evicted in its turn.
pub struct LRUCache<K, V> {
    max_capacity: usize,
    list: DoublyLinkedList<K, (u32, V)>,
}

impl<K: ApproxComparable, V: Clone> LRUCache<K, V> {
    /// An empty LRU cache holding at most `max_capacity` lines.
    pub fn new(max_capacity: usize) -> (r: Self)
        requires
            max_capacity >= 1,
        ensures
            r.wf(),
            r.lines() == Seq::<CacheLine<K, V>>::empty(),
            r.capacity() == max_capacity,
    {
        let r = LRUCache { max_capacity, list: DoublyLinkedList::new() };
        proof {
            assert(r.lines() =~= Seq::<CacheLine<K, V>>::empty());
        }
        r
    }
}

impl<K: ApproxComparable, V: Clone> ApproximateCache<K, V> for LRUCache<K, V> {
    /// The stored lines, most recently used first.
    closed spec fn lines(self) -> Seq<CacheLine<K, V>> {
        chain_lines(self.list.entries())
    }

    closed spec fn capacity(self) -> nat {
        self.max_capacity as nat
    }

    closed spec fn wf(self) -> bool {
        &&& self.max_capacity >= 1
        &&& self.list.wf()
        &&& self.list.entries().len() <= self.max_capacity
        &&& forall|p: int|
            0 <= p < self.list.entries().len() ==> crate::float_bits::is_valid_tolerance(
                (#[trigger] self.list.entries()[p]).1.0,
            )
    }

    proof fn lemma_wf_bounds(&self) {
        assert(forall|i: int|
            0 <= i < self.lines().len() ==> (#[trigger] self.lines()[i]).tol
                == self.list.entries()[i].1.0);
    }

    /// The nearest-match lookup. On a hit the winning node is unlinked and
    /// relinked at the head; on a miss nothing changes.
    fn find(&mut self, target: &K) -> (r: Option<V>)
        ensures
            best_in(old(self).lines(), *target) is None ==> *final(self) == *old(self),
            best_in(old(self).lines(), *target) matches Some(b) ==> final(self).lines() == old(
                self,
            ).lines().remove(b).insert(0, old(self).lines()[b]),
    {
        let handles = self.list.handles_vec();
        let n = handles.len();
        let mut best: Option<usize> = None;
        let mut best_fuzz: u32 = 0;
        let mut i: usize = 0;
        while i < n
            invariant
                *self == *old(self),
                self.wf(),
                handles@ == self.list.handles(),
                n == handles@.len(),
                n == self.lines().len(),
                i <= n,
                best is None ==> best_in(self.lines().take(i as int), *target) is None,
                best matches Some(b) ==> {
                    &&& b < i
                    &&& best_in(self.lines().take(i as int), *target) == Some(b as int)
                    &&& best_fuzz == line_fuzz(*target, self.lines()[b as int])
                },
            decreases n - i,
        {
            let h = handles[i];
            proof {
                assert(self.list.handles()[i as int] == h);
                assert(self.list.contains_handle(h));
            }
            let key = self.list.key_of(h);
            let pair = self.list.value_of(h);
            proof {
                assert(*key == self.list.entries()[i as int].0);
                assert(*pair == self.list.entries()[i as int].1);
            }
            let is_match = key.roughly_matches(target, pair.0);
            if is_match {
                let f = target.fuzziness(key);
                let replace = match best {
                    Option::None => true,
                    Option::Some(_) => crate::float_bits::lt_bits(f, best_fuzz),
                };
                if replace {
                    best = Some(i);
                    best_fuzz = f;
                }
            }
            proof {
                assert(self.lines().take(i + 1 as int).drop_last() =~= self.lines().take(
                    i as int,
                ));
                assert(self.lines().take(i + 1 as int).last() == self.lines()[i as int]);
                assert(line_matches(self.lines()[i as int], *target) == is_match);
            }
            i = i + 1;
        }
        proof {
            assert(self.lines().take(n as int) =~= self.lines());
        }
        match best {
            Option::None => None,
            Option::Some(b) => {
                let h = handles[b];
                proof {
                    assert(self.list.handles()[b as int] == h);
                    assert(self.list.contains_handle(h));
                }
                let node = self.list.remove(h);
                proof {
                    let oldl = old(self).list;
                    let p = oldl.handles().index_of(h);
                    oldl.lemma_handles_distinct();
                    if p != b as int {
                        assert(oldl.handles()[p] == oldl.handles()[b as int]);
                    }
                    assert(p == b as int);
                }
                let value = node.value.1.clone();
                let _relinked = self.list.add_to_head(Node::new(node.key, node.value));
                proof {
                    let s = old(self).lines();
                    let bi = b as int;
                    assert(final(self).list.entries() =~= seq![old(self).list.entries()[bi]]
                        + old(self).list.entries().remove(bi));
                    assert forall|q: int| 0 <= q < s.len() - 1 implies chain_lines(
                        old(self).list.entries().remove(bi),
                    )[q] == s.remove(bi)[q] by {
                        assert(old(self).list.entries().remove(bi)[q] == old(
                            self,
                        ).list.entries()[(if q < bi {
                            q
                        } else {
                            q + 1
                        })]);
                        assert(s.remove(bi)[q] == s[(if q < bi {
                            q
                        } else {
                            q + 1
                        })]);
                    }
                    assert(final(self).lines() =~= seq![s[bi]] + s.remove(bi));
                    assert(final(self).lines() =~= s.remove(bi).insert(0, s[bi]));
                    s.to_multiset_ensures();
                    s.remove(bi).to_multiset_ensures();
                    lemma_insert_head_multiset(s.remove(bi), s[bi]);
                    assert(s.to_multiset().count(s[bi]) > 0);
                    assert(final(self).lines().to_multiset() =~= s.to_multiset());
                }
                Some(value)
            },
        }
    }

    /// Places the new line at the head; when the cache was full, the least
    /// recently used line leaves the tail.
    fn insert(&mut self, key: K, value: V, tolerance: u32)
        ensures
            final(self).lines() == seq![CacheLine { key, tol: tolerance, value }] + (if old(
                self,
            ).lines().len() < old(self).capacity() {
                old(self).lines()
            } else {
                old(self).lines().drop_last()
            }),
    {
        let ghost line = CacheLine { key, tol: tolerance, value };
        let ghost survivors: Seq<CacheLine<K, V>> = if old(self).lines().len() < old(
            self,
        ).capacity() {
            old(self).lines()
        } else {
            old(self).lines().drop_last()
        };
        if self.list.len() == self.max_capacity {
            let _victim = self.list.remove_tail();
            proof {
                assert(chain_lines(self.list.entries()) =~= old(self).lines().drop_last());
            }
        }
        let _handle = self.list.add_to_head(Node::new(key, (tolerance, value)));
        proof {
            assert(final(self).lines() =~= seq![line] + survivors);
            assert(final(self).lines()[0] == line);
            assert(final(self).lines().contains(line));
            final(self).lines().to_multiset_ensures();
        }
    }

    fn len(&self) -> (n: usize) {
        self.list.len()
    }
}

impl<K: ApproxComparable, V: Clone> DefaultApproximateCache<K, V> for LRUCache<K, V> {
    fn from_capacity(cap: usize) -> (r: Self) {
        LRUCache::new(cap)
    }
}

/// Inserting at the head of a sequence inserts into its multiset.
proof fn lemma_insert_head_multiset<A>(s: Seq<A>, a: A)
    ensures
        s.insert(0, a).to_multiset() == s.to_multiset().insert(a),
    decreases s.len(),
{
    s.to_multiset_ensures();
    s.insert(0, a).to_multiset_ensures();
    assert(s.insert(0, a).remove(0) =~= s);
    assert(s.insert(0, a)[0] == a);
    assert(s.insert(0, a).remove(0).to_multiset() =~= s.insert(0, a).to_multiset().remove(a));
    assert(s.insert(0, a).to_multiset().contains(a)) by {
        assert(s.insert(0, a).contains(a));
    }
    assert(s.insert(0, a).to_multiset() =~= s.to_multiset().insert(a));
}

} // verus!
