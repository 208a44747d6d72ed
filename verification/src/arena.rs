//! The memory in which the nodes live. A node keeps its place from the moment it
//! is made until it is handed over; places that were given back are used again.
//! What is written is noted, in the order in which it is written.

use crate::hazard::HazardPointerManager;
use crate::node::Node;
use crate::node::NodePtr;
use crate::trail::was_retired;
use crate::trail::Guard;
use vstd::prelude::*;

verus! {

/// A single write to node memory.
pub enum Write {
    /// A node with the successor `next` is put at `ptr`.
    Make { ptr: NodePtr, next: Option<NodePtr> },
    /// `next` becomes the successor of the node at `ptr`.
    Store { ptr: NodePtr, next: Option<NodePtr> },
    /// The node at `ptr` is handed over to the memory manager.
    HandOver { ptr: NodePtr },
}

/// Node memory.
pub struct Arena<K, V> {
    slots: Vec<Option<Node<K, V>>>,
    free: Vec<NodePtr>,
    log: Ghost<Seq<Write>>,
}

impl<K, V> View for Arena<K, V> {
    type V = Map<NodePtr, Node<K, V>>;

    closed spec fn view(&self) -> Map<NodePtr, Node<K, V>> {
        Map::new(
            |p: NodePtr| p < self.slots@.len() && self.slots@[p as int] is Some,
            |p: NodePtr| self.slots@[p as int].unwrap(),
        )
    }
}

impl<K, V> Arena<K, V> {
    /// The free places are empty, and none is listed twice.
    pub closed spec fn wf(&self) -> bool {
        &&& self.free@.no_duplicates()
        &&& forall|i: int|
            0 <= i < self.free@.len() ==> (#[trigger] self.free@[i]) < self.slots@.len()
                && self.slots@[self.free@[i] as int] is None
    }

    /// How many places are in use.
    pub closed spec fn in_use(&self) -> int {
        self.slots@.len() - self.free@.len()
    }

    /// The writes so far, oldest first.
    pub closed spec fn log(&self) -> Seq<Write> {
        self.log@
    }

    /// Memory without a node.
    pub fn new() -> (arena: Arena<K, V>)
        ensures
            arena.wf(),
            arena@ == Map::<NodePtr, Node<K, V>>::empty(),
            arena.in_use() == 0,
            arena.log() == Seq::<Write>::empty(),
    {
        let arena = Arena { slots: Vec::new(), free: Vec::new(), log: Ghost(Seq::empty()) };
        assert(arena@ =~= Map::<NodePtr, Node<K, V>>::empty());
        arena
    }

    /// The node at `ptr`.
    pub fn get(&self, ptr: NodePtr) -> (node: &Node<K, V>)
        requires
            self@.contains_key(ptr),
        ensures
            *node == self@[ptr],
    {
        self.slots[ptr].as_ref().unwrap()
    }

    /// Stores `next` as the successor of the node at `ptr`.
    pub fn store_next(&mut self, ptr: NodePtr, next: Option<NodePtr>)
        requires
            old(self).wf(),
            old(self)@.contains_key(ptr),
        ensures
            final(self).wf(),
            final(self)@ == old(self)@.insert(ptr, old(self)@[ptr].with_next(next)),
            final(self).in_use() == old(self).in_use(),
            final(self).log() == old(self).log().push(Write::Store { ptr, next }),
    {
        match &mut self.slots[ptr] {
            Some(node) => {
                node.next = next;
            },
            None => {},
        }
        self.log = Ghost(self.log@.push(Write::Store { ptr, next }));
        assert(self@ =~= old(self)@.insert(ptr, old(self)@[ptr].with_next(next)));
    }

    /// Puts `node` into a place that is not in use.
    pub fn store_node(&mut self, node: Node<K, V>) -> (ptr: NodePtr)
        requires
            old(self).wf(),
        ensures
            final(self).wf(),
            !old(self)@.contains_key(ptr),
            final(self)@ == old(self)@.insert(ptr, node),
            final(self).in_use() == old(self).in_use() + 1,
            final(self).in_use() <= usize::MAX,
            final(self).log() == old(self).log().push(Write::Make { ptr, next: node.next }),
    {
        let ghost next = node.next;
        let ptr: NodePtr = match self.free.pop() {
            Some(ptr) => {
                assert(ptr == old(self).free@.last());
                self.slots[ptr] = Some(node);
                ptr
            },
            None => {
                self.slots.push(Some(node));
                self.slots.len() - 1
            },
        };
        self.log = Ghost(self.log@.push(Write::Make { ptr, next }));
        assert(self.slots.len() <= usize::MAX);
        assert(self@ =~= old(self)@.insert(ptr, node));
        ptr
    }

    /// Takes the node at `ptr` out and hands it over to the memory manager. Its place is
    /// free again at once: who hands over holds the memory exclusively, so no reader is
    /// looking at it.
    pub fn hand_over<M: HazardPointerManager<Node<K, V>>>(
        &mut self,
        ptr: NodePtr,
        guard: &mut Guard<M>,
    )
        requires
            old(self).wf(),
            old(self)@.contains_key(ptr),
        ensures
            final(self).wf(),
            final(self)@ == old(self)@.remove(ptr),
            final(self).in_use() == old(self).in_use() - 1,
            final(self).log() == old(self).log().push(Write::HandOver { ptr }),
            old(guard).manager().keeps_account() ==> final(guard).manager().keeps_account(),
            old(guard).manager().keeps_account() ==> final(guard).manager().retired() == old(
                guard
            ).manager().retired().push(old(self)@[ptr]),
            was_retired(old(guard).manager(), old(self)@[ptr]),
    {
        let node = self.slots[ptr].take().unwrap();
        self.free.push(ptr);
        guard.retire(node);
        self.log = Ghost(self.log@.push(Write::HandOver { ptr }));
        assert(self@ =~= old(self)@.remove(ptr));
    }
}

} // verus!
