//! One link of the recency chain.

use vstd::prelude::*;

verus! {

/// A cache line of the recency list: a key, a value, and the slab indices of
/// the neighbouring nodes. Nodes are owned by the list's slab and named by
/// stable indices, so unlinking needs no reference counting.
pub struct Node<K, V> {
    pub key: K,
    pub value: V,
    pub prev: Option<usize>,
    pub next: Option<usize>,
}

impl<K, V> Node<K, V> {
    /// A fresh, unlinked node.
    pub fn new(key: K, value: V) -> (n: Node<K, V>)
        ensures
            n.key == key,
            n.value == value,
            n.prev is None,
            n.next is None,
    {
        Node { key, value, prev: None, next: None }
    }
}

} // verus!
