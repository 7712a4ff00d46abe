//! The recency chain: a doubly-linked list over a slab of nodes.
//!
//! Nodes live in a slab and are named by stable indices, so the lookup side
//! of an LRU cache can hold plain handles; prev/next links give O(1) unlink
//! and move-to-head. Vacated slots are kept on a free list and reused. The
//! chain's shape — which handles stand in which order — is carried as a ghost
//! sequence that every operation maintains.

use vstd::prelude::*;

use crate::list_node::Node;

verus! {

/// A doubly-linked node chain with O(1) add-to-head, unlink and pop-tail.
pub struct DoublyLinkedList<K, V> {
    nodes: Vec<Option<Node<K, V>>>,
    free: Vec<usize>,
    head: Option<usize>,
    tail: Option<usize>,
    length: usize,
    order: Ghost<Seq<usize>>,
}

impl<K, V> DoublyLinkedList<K, V> {
    /// The slab node standing at position `p` of the chain.
    spec fn node_at(self, p: int) -> Node<K, V> {
        self.nodes@[self.order@[p] as int]->Some_0
    }

    /// The handles of the chain's nodes, head first.
    pub closed spec fn handles(self) -> Seq<usize> {
        self.order@
    }

    /// The key-value pairs on the chain, head first.
    pub closed spec fn entries(self) -> Seq<(K, V)> {
        Seq::new(self.order@.len(), |p: int| (self.node_at(p).key, self.node_at(p).value))
    }

    /// True iff `h` names a node currently on the chain.
    pub open spec fn contains_handle(self, h: usize) -> bool {
        self.handles().contains(h)
    }

    /// True iff slab slot `i` is on the free list.
    spec fn free_has(self, i: int) -> bool {
        exists|f: int| 0 <= f < self.free@.len() && (#[trigger] self.free@[f]) as int == i
    }

    /// The node at position `p` sits in the slab and its links name its
    /// neighbours.
    spec fn slot_ok(self, p: int) -> bool {
        let i = self.order@[p] as int;
        &&& 0 <= i < self.nodes@.len()
        &&& self.nodes@[i] is Some
        &&& self.nodes@[i]->Some_0.prev == (if p == 0 {
            Option::<usize>::None
        } else {
            Some(self.order@[p - 1])
        })
        &&& self.nodes@[i]->Some_0.next == (if p == self.order@.len() - 1 {
            Option::<usize>::None
        } else {
            Some(self.order@[p + 1])
        })
    }

    /// The list's invariant: a consistent chain over distinct slab slots,
    /// head and tail naming its ends, and the free list naming exactly the
    /// vacant slots, each once.
    pub closed spec fn wf(self) -> bool {
        &&& self.length == self.order@.len()
        &&& (forall|p: int| 0 <= p < self.order@.len() ==> self.slot_ok(p))
        &&& (forall|p: int, q: int|
            0 <= p < q < self.order@.len() ==> self.order@[p] != self.order@[q])
        &&& self.head == (if self.order@.len() == 0 {
            Option::<usize>::None
        } else {
            Some(self.order@[0])
        })
        &&& self.tail == (if self.order@.len() == 0 {
            Option::<usize>::None
        } else {
            Some(self.order@[self.order@.len() - 1])
        })
        &&& (forall|i: int|
            0 <= i < self.nodes@.len() ==> ((self.nodes@[i] is None) <==> self.free_has(i)))
        &&& (forall|f: int| 0 <= f < self.free@.len() ==> (self.free@[f] as int)
            < self.nodes@.len())
        &&& (forall|f: int, g: int|
            0 <= f < g < self.free@.len() ==> self.free@[f] != self.free@[g])
    }

    /// Distinct positions hold distinct handles.
    pub proof fn lemma_handles_distinct(self)
        requires
            self.wf(),
        ensures
            forall|p: int, q: int|
                0 <= p < q < self.handles().len() ==> self.handles()[p] != self.handles()[q],
    {
    }

    /// An empty chain.
    pub fn new() -> (r: Self)
        ensures
            r.wf(),
            r.handles() == Seq::<usize>::empty(),
            r.entries() == Seq::<(K, V)>::empty(),
    {
        let r = DoublyLinkedList {
            nodes: Vec::new(),
            free: Vec::new(),
            head: None,
            tail: None,
            length: 0,
            order: Ghost(Seq::empty()),
        };
        proof {
            assert(r.entries() =~= Seq::<(K, V)>::empty());
        }
        r
    }

    /// The key of the head node, the most recent position.
    pub fn head_key(&self) -> (r: Option<&K>)
        requires
            self.wf(),
        ensures
            self.entries().len() == 0 ==> r is None,
            self.entries().len() > 0 ==> (r matches Some(k) && *k == self.entries()[0].0),
    {
        match self.head {
            Option::None => None,
            Option::Some(h) => {
                proof {
                    assert(self.slot_ok(0));
                }
                match &self.nodes[h] {
                    Option::Some(n) => Some(&n.key),
                    Option::None => None,
                }
            },
        }
    }

    /// The key of the tail node, the least recent position.
    pub fn tail_key(&self) -> (r: Option<&K>)
        requires
            self.wf(),
        ensures
            self.entries().len() == 0 ==> r is None,
            self.entries().len() > 0 ==> (r matches Some(k) && *k == self.entries().last().0),
    {
        match self.tail {
            Option::None => None,
            Option::Some(t) => {
                proof {
                    assert(self.slot_ok(self.order@.len() - 1));
                }
                match &self.nodes[t] {
                    Option::Some(n) => Some(&n.key),
                    Option::None => None,
                }
            },
        }
    }

    /// The number of nodes on the chain.
    pub fn len(&self) -> (n: usize)
        requires
            self.wf(),
        ensures
            n == self.entries().len(),
            n == self.handles().len(),
    {
        self.length
    }

    /// A borrow of the key of the node named by `h`.
    pub fn key_of(&self, h: usize) -> (k: &K)
        requires
            self.wf(),
            self.contains_handle(h),
        ensures
            forall|p: int|
                0 <= p < self.handles().len() && self.handles()[p] == h ==> *k
                    == self.entries()[p].0,
    {
        proof {
            let p = choose|p: int| 0 <= p < self.order@.len() && self.order@[p] == h;
            assert(self.slot_ok(p));
        }
        match &self.nodes[h] {
            Option::Some(n) => &n.key,
            Option::None => vstd::pervasive::unreached(),
        }
    }

    /// A borrow of the value of the node named by `h`.
    pub fn value_of(&self, h: usize) -> (v: &V)
        requires
            self.wf(),
            self.contains_handle(h),
        ensures
            forall|p: int|
                0 <= p < self.handles().len() && self.handles()[p] == h ==> *v
                    == self.entries()[p].1,
    {
        proof {
            let p = choose|p: int| 0 <= p < self.order@.len() && self.order@[p] == h;
            assert(self.slot_ok(p));
        }
        match &self.nodes[h] {
            Option::Some(n) => &n.value,
            Option::None => vstd::pervasive::unreached(),
        }
    }

    /// The handles of the chain in order, head first, collected by walking
    /// the links.
    pub fn handles_vec(&self) -> (r: Vec<usize>)
        requires
            self.wf(),
        ensures
            r@ == self.handles(),
            self.entries().len() == self.handles().len(),
    {
        let mut out: Vec<usize> = Vec::new();
        let mut cur = self.head;
        while cur.is_some()
            invariant
                self.wf(),
                out@.len() <= self.handles().len(),
                out@ == self.handles().take(out@.len() as int),
                cur == (if out@.len() < self.handles().len() {
                    Some(self.handles()[out@.len() as int])
                } else {
                    Option::<usize>::None
                }),
            decreases self.handles().len() - out@.len(),
        {
            let h = cur.unwrap();
            proof {
                assert(self.slot_ok(out@.len() as int));
                assert(self.handles().take(out@.len() + 1 as int) =~= self.handles().take(
                    out@.len() as int,
                ).push(h));
            }
            out.push(h);
            cur = match &self.nodes[h] {
                Option::Some(n) => n.next,
                Option::None => None,
            };
        }
        proof {
            assert(self.handles().take(self.handles().len() as int) =~= self.handles());
        }
        out
    }

    /// Links a node at the head of the chain and returns its fresh handle;
    /// every handle already on the chain stays valid, shifted one position
    /// deeper.
    pub fn add_to_head(&mut self, node: Node<K, V>) -> (h: usize)
        requires
            old(self).wf(),
            old(self).entries().len() < usize::MAX,
        ensures
            final(self).wf(),
            !old(self).handles().contains(h),
            final(self).handles() == seq![h] + old(self).handles(),
            final(self).entries() == seq![(node.key, node.value)] + old(self).entries(),
    {
        let Node { key, value, prev: _, next: _ } = node;
        let old_head = self.head;
        let reuse = self.free.len() > 0;
        let h: usize = if reuse {
            self.free[self.free.len() - 1]
        } else {
            self.nodes.len()
        };
        proof {
            // the chosen slot is vacant or brand new, so it is on no position
            if reuse {
                assert(old(self).free_has(h as int));
                assert(self.nodes@[h as int] is None);
            }
            assert forall|p: int| 0 <= p < self.order@.len() implies self.order@[p] != h by {
                assert(self.slot_ok(p));
            }
        }
        // point the old head's prev link at the new slot
        match old_head {
            Option::Some(oh) => {
                proof {
                    assert(self.slot_ok(0));
                }
                let slot = &mut self.nodes[oh];
                match slot {
                    Option::Some(n) => {
                        n.prev = Some(h);
                    },
                    Option::None => {},
                }
            },
            Option::None => {},
        }
        // place the node
        let fresh = Node { key, value, prev: None, next: old_head };
        if reuse {
            let _slot = self.free.pop();
            self.nodes.set(h, Some(fresh));
        } else {
            self.nodes.push(Some(fresh));
        }
        self.head = Some(h);
        if self.tail.is_none() {
            self.tail = Some(h);
        }
        self.length = self.length + 1;
        self.order = Ghost(seq![h] + self.order@);
        proof {
            let oo = old(self).order@;
            let no = self.order@;
            assert forall|p: int| 0 <= p < no.len() implies self.slot_ok(p) by {
                if p == 0 {
                } else {
                    assert(old(self).slot_ok(p - 1));
                    if p > 1 {
                        assert(no[p] == oo[p - 1]);
                        assert(no[p] != h && no[p] != oo[0]);
                    }
                }
            }
            assert forall|i: int|
                0 <= i < self.nodes@.len() implies ((self.nodes@[i] is None) <==> self.free_has(
                i,
            )) by {
                if reuse {
                    let last = old(self).free@.len() - 1;
                    assert(old(self).free@[last] == h);
                    if self.free_has(i) {
                        let f = choose|f: int|
                            0 <= f < self.free@.len() && (#[trigger] self.free@[f]) as int == i;
                        assert(old(self).free@[f] as int == i);
                        assert(f < last);
                        assert(i != h as int);
                        assert(old(self).free_has(i));
                        assert(self.nodes@[i] is None);
                    }
                    if self.nodes@[i] is None {
                        assert(i != h as int);
                        if old_head is Some {
                            assert(old(self).slot_ok(0));
                        }
                        assert(old(self).nodes@[i] is None);
                        assert(old(self).free_has(i));
                        let f = choose|f: int|
                            0 <= f < old(self).free@.len() && (#[trigger] old(
                                self,
                            ).free@[f]) as int == i;
                        assert(f < last);
                        assert(self.free@[f] as int == i);
                        assert(self.free_has(i));
                    }
                } else {
                    if self.free_has(i) {
                        let f = choose|f: int|
                            0 <= f < self.free@.len() && (#[trigger] self.free@[f]) as int == i;
                        assert(old(self).free_has(i));
                        assert(old(self).nodes@[i] is None);
                        assert(i != h as int);
                        assert(self.nodes@[i] is None);
                    }
                    if self.nodes@[i] is None {
                        assert(i != h as int);
                        if old_head is Some {
                            assert(old(self).slot_ok(0));
                        }
                        assert(old(self).nodes@[i] is None);
                        assert(old(self).free_has(i));
                        let f = choose|f: int|
                            0 <= f < old(self).free@.len() && (#[trigger] old(
                                self,
                            ).free@[f]) as int == i;
                        assert(self.free@[f] as int == i);
                        assert(self.free_has(i));
                    }
                }
            }
            assert forall|p: int|
                1 <= p < no.len() implies (self.node_at(p).key == old(self).node_at(p - 1).key
                && self.node_at(p).value == old(self).node_at(p - 1).value) by {
                assert(old(self).slot_ok(p - 1));
                assert(no[p] == oo[p - 1]);
                assert(no[p] != h);
            }
            assert(self.node_at(0).key == node.key && self.node_at(0).value == node.value);
            assert(self.entries() =~= seq![(node.key, node.value)] + old(self).entries());
        }
        h
    }

    /// Unlinks the node named by `h` and hands it back; every other handle
    /// stays valid, its position shifted past the gap.
    pub fn remove(&mut self, h: usize) -> (node: Node<K, V>)
        requires
            old(self).wf(),
            old(self).contains_handle(h),
        ensures
            final(self).wf(),
            ({
                let p = old(self).handles().index_of(h);
                &&& 0 <= p < old(self).handles().len()
                &&& old(self).handles()[p] == h
                &&& final(self).handles() == old(self).handles().remove(p)
                &&& final(self).entries() == old(self).entries().remove(p)
                &&& node.key == old(self).entries()[p].0
                &&& node.value == old(self).entries()[p].1
            }),
            !final(self).handles().contains(h),
    {
        let ghost oo = old(self).order@;
        let ghost p = choose|p: int| 0 <= p < oo.len() && oo[p] == h;
        proof {
            assert(oo.contains(h));
            assert(oo[oo.index_of(h)] == h);
            assert(oo.index_of(h) == p);
            assert(self.slot_ok(p));
            if p > 0 {
                assert(old(self).slot_ok(p - 1));
            }
            if p < oo.len() - 1 {
                assert(old(self).slot_ok(p + 1));
            }
        }
        let slot = &mut self.nodes[h];
        let taken = slot.take();
        let node = taken.unwrap();
        let pv = node.prev;
        let nx = node.next;
        match pv {
            Option::Some(pi) => {
                let s = &mut self.nodes[pi];
                match s {
                    Option::Some(n) => {
                        n.next = nx;
                    },
                    Option::None => {},
                }
            },
            Option::None => {
                self.head = nx;
            },
        }
        match nx {
            Option::Some(ni) => {
                let s = &mut self.nodes[ni];
                match s {
                    Option::Some(n) => {
                        n.prev = pv;
                    },
                    Option::None => {},
                }
            },
            Option::None => {
                self.tail = pv;
            },
        }
        self.free.push(h);
        self.length = self.length - 1;
        self.order = Ghost(self.order@.remove(p));
        proof {
            let no = self.order@;
            assert forall|q: int| 0 <= q < no.len() implies self.slot_ok(q) by {
                if q < p {
                    assert(old(self).slot_ok(q));
                    assert(no[q] == oo[q]);
                    if q > 0 {
                        assert(no[q - 1] == oo[q - 1]);
                    }
                } else {
                    assert(old(self).slot_ok(q + 1));
                    assert(no[q] == oo[q + 1]);
                }
            }
            assert forall|i: int|
                0 <= i < self.nodes@.len() implies ((self.nodes@[i] is None) <==> self.free_has(
                i,
            )) by {
                let newlast = self.free@.len() - 1;
                assert(self.free@[newlast] == h);
                if i == h as int {
                    assert(self.free_has(i));
                } else {
                    if self.free_has(i) {
                        let f = choose|f: int|
                            0 <= f < self.free@.len() && (#[trigger] self.free@[f]) as int == i;
                        assert(f < newlast);
                        assert(old(self).free@[f] as int == i);
                        assert(old(self).free_has(i));
                        assert(old(self).nodes@[i] is None);
                        assert(self.nodes@[i] is None);
                    }
                    if self.nodes@[i] is None {
                        assert(old(self).nodes@[i] is None);
                        assert(old(self).free_has(i));
                        let f = choose|f: int|
                            0 <= f < old(self).free@.len() && (#[trigger] old(
                                self,
                            ).free@[f]) as int == i;
                        assert(self.free@[f] as int == i);
                        assert(self.free_has(i));
                    }
                }
            }
            assert(!old(self).free_has(h as int));
            assert forall|f: int, g: int|
                0 <= f < g < self.free@.len() implies self.free@[f] != self.free@[g] by {
                if g == self.free@.len() - 1 {
                    assert(old(self).free@[f] == self.free@[f]);
                }
            }
            assert forall|q: int|
                0 <= q < no.len() implies (self.node_at(q).key == old(self).node_at(
                if q < p {
                    q
                } else {
                    q + 1
                },
            ).key && self.node_at(q).value == old(self).node_at(
                if q < p {
                    q
                } else {
                    q + 1
                },
            ).value) by {
                let src: int = if q < p {
                    q
                } else {
                    q + 1
                };
                assert(old(self).slot_ok(src));
                assert(no[q] == oo[src]);
                assert(oo[src] != h);
            }
            assert(self.entries() =~= old(self).entries().remove(p));
            if self.handles().contains(h) {
                let q = choose|q: int| 0 <= q < no.len() && no[q] == h;
                if q < p {
                    assert(oo[q] == h);
                } else {
                    assert(oo[q + 1] == h);
                }
                assert(false);
            }
        }
        node
    }

    /// Pops and returns the tail node — the least recent — or `None` on an
    /// empty chain.
    pub fn remove_tail(&mut self) -> (r: Option<Node<K, V>>)
        requires
            old(self).wf(),
        ensures
            final(self).wf(),
            old(self).handles().len() == 0 ==> r is None && *final(self) == *old(self),
            old(self).handles().len() > 0 ==> {
                &&& (r matches Some(node) && node.key == old(self).entries().last().0
                    && node.value == old(self).entries().last().1)
                &&& final(self).handles() == old(self).handles().drop_last()
                &&& final(self).entries() == old(self).entries().drop_last()
            },
    {
        let t = self.tail;
        match t {
            Option::None => None,
            Option::Some(ti) => {
                proof {
                    let oo = self.order@;
                    assert(oo[oo.len() - 1] == ti);
                    assert(oo.contains(ti));
                    assert(oo[oo.index_of(ti)] == ti);
                    assert(oo.index_of(ti) == oo.len() - 1);
                }
                let node = self.remove(ti);
                proof {
                    assert(self.handles() =~= old(self).handles().drop_last());
                    assert(self.entries() =~= old(self).entries().drop_last());
                }
                Some(node)
            },
        }
    }
}

} // verus!
