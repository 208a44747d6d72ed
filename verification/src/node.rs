//! Nodes of the bucket lists, and the heads of the buckets.

use crate::bits::reverse_bits;
use crate::bits::reversed;
use vstd::prelude::*;

verus! {

/// The place of a node in the node memory.
pub type NodePtr = usize;

/// A node of a bucket list: either the sentinel that starts the list, or a key
/// with its value.
pub struct Node<K, V> {
    pub next: Option<NodePtr>,
    /// Reversed hash code of the key, or reversed position of the bucket.
    pub split_order_key: u64,
    pub key: K,
    pub value: V,
}

impl<K, V> Node<K, V> {
    /// The same node with another successor.
    pub open spec fn with_next(self, next: Option<NodePtr>) -> Node<K, V> {
        Node { next, ..self }
    }

    /// The node that starts the list of the bucket at `bucket_pos`.
    pub fn make_sentinel_node(bucket_pos: usize) -> (node: Node<K, V>) where K: Default, V: Default
        ensures
            node.next is None,
            node.split_order_key == reversed(bucket_pos as u64),
            call_ensures(K::default, (), node.key),
            call_ensures(V::default, (), node.value),
    {
        Node {
            next: None,
            split_order_key: reverse_bits(bucket_pos as u64),
            key: K::default(),
            value: V::default(),
        }
    }
}

/// A bucket of the table: nothing, until its sentinel is made.
pub struct Bucket {
    pub head: Option<NodePtr>,
}

impl Bucket {
    /// A bucket without a sentinel.
    pub fn new() -> (bucket: Bucket)
        ensures
            bucket.head is None,
    {
        Bucket { head: None }
    }
}

} // verus!
