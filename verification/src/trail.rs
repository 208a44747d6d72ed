//! The trail of a search: what it did, and what it saw, one turn after the other.
//!
//! Whatever a search does to memory and to its hazard slots it does through its
//! trail, which does it and notes it. So what a trail tells is what was done, in the
//! order in which it was done.

use crate::arena::Arena;
use crate::hash_key::HashKey;
use crate::hazard::acquire_name;
use crate::hazard::release_name;
use crate::hazard::retire_name;
use crate::hazard::HazardPointerManager;
use crate::node::Bucket;
use crate::node::Node;
use crate::node::NodePtr;
use crate::reader::Action;
use crate::reader::Observation;
use crate::reader::Placement;
use crate::reader::Turn;
use vstd::prelude::*;

verus! {

/// The turns that a search has taken so far.
pub struct Trail {
    turns: Ghost<Seq<Turn>>,
}

impl View for Trail {
    type V = Seq<Turn>;

    closed spec fn view(&self) -> Seq<Turn> {
        self.turns@
    }
}

/// A memory manager whose hazard slots are reached on a trail alone.
pub struct Guard<M> {
    manager: M,
}

impl<M> Guard<M> {
    /// The memory manager.
    pub closed spec fn manager(&self) -> M {
        self.manager
    }

    /// Puts `manager` behind the guard.
    pub fn new(manager: M) -> (guard: Guard<M>)
        ensures
            guard.manager() == manager,
    {
        Guard { manager }
    }

    /// Hands `node` over to the memory manager.
    pub fn retire<T>(&mut self, node: T) where M: HazardPointerManager<T>
        ensures
            old(self).manager().keeps_account() ==> final(self).manager().keeps_account(),
            old(self).manager().keeps_account() ==> final(self).manager().retired() == old(
                self
            ).manager().retired().push(node),
            was_retired(old(self).manager(), node),
        opens_invariants [retire_name()]
    {
        self.manager.retire_ptr(node);
    }
}

/// The memory manager was called to take over `node`, when it was `before`.
pub open spec fn was_retired<T, M: HazardPointerManager<T>>(before: M, node: T) -> bool {
    exists|manager: &mut M|
        *manager == before && #[trigger] call_ensures(M::retire_ptr, (manager, node), ())
}

/// The memory manager was called as `turn` says, if it speaks of a hazard slot.
pub open spec fn was_asked<T, M: HazardPointerManager<T>>(manager: M, turn: Turn) -> bool {
    match turn.action {
        Action::Acquire(slot, ptr) => call_ensures(M::acquire_ptr, (&manager, slot, ptr), ()),
        Action::Release(slot) => call_ensures(M::release, (&manager, slot), ()),
        _ => true,
    }
}

/// How a node stands with respect to a key with the given split order key.
pub open spec fn placement_of<K: HashKey, V>(
    node: Node<K, V>,
    key: K::V,
    split_order_key: u64,
) -> Placement {
    if node.split_order_key == split_order_key && node.key@ == key {
        Placement::Match
    } else if node.split_order_key > split_order_key {
        Placement::Beyond
    } else {
        Placement::Before
    }
}

/// What is stored in the node that was found.
pub open spec fn value_at<K, V>(arena: &Arena<K, V>, found: Option<NodePtr>) -> Option<&V> {
    match found {
        Some(ptr) => Some(&arena@[ptr].value),
        None => None,
    }
}

impl Trail {
    /// The trail of a search that has not begun.
    pub fn new() -> (trail: Trail)
        ensures
            trail@ == Seq::<Turn>::empty(),
    {
        Trail { turns: Ghost(Seq::empty()) }
    }

    /// Looks up the sentinel of `bucket`.
    pub fn find_sentinel(&mut self, bucket: &Bucket) -> (head: Option<NodePtr>)
        ensures
            head == bucket.head,
            final(self)@ == old(self)@.push(
                Turn { action: Action::FindSentinel, seen: Observation::Sentinel(head) },
            ),
    {
        let head: Option<NodePtr> = bucket.head;
        self.turns = Ghost(
            self.turns@.push(
                Turn { action: Action::FindSentinel, seen: Observation::Sentinel(head) },
            ),
        );
        head
    }

    /// Reads the successor of the node at `ptr`.
    pub fn load_next<K, V>(&mut self, arena: &Arena<K, V>, ptr: NodePtr) -> (next: Option<NodePtr>)
        requires
            arena@.contains_key(ptr),
        ensures
            next == arena@[ptr].next,
            final(self)@ == old(self)@.push(
                Turn { action: Action::LoadNext(ptr), seen: Observation::Link(next) },
            ),
    {
        let next: Option<NodePtr> = arena.get(ptr).next;
        self.turns = Ghost(
            self.turns@.push(Turn { action: Action::LoadNext(ptr), seen: Observation::Link(next) }),
        );
        next
    }

    /// Compares the node at `ptr` with `key`.
    pub fn inspect<K: HashKey, V>(
        &mut self,
        arena: &Arena<K, V>,
        ptr: NodePtr,
        key: &K,
        split_order_key: u64,
    ) -> (placement: Placement)
        requires
            arena@.contains_key(ptr),
        ensures
            placement == placement_of(arena@[ptr], key@, split_order_key),
            final(self)@ == old(self)@.push(
                Turn { action: Action::Inspect(ptr), seen: Observation::Compared(placement) },
            ),
    {
        let node: &Node<K, V> = arena.get(ptr);
        let placement: Placement = if node.split_order_key == split_order_key
            && node.key.same_key(key) {
            Placement::Match
        } else if node.split_order_key > split_order_key {
            Placement::Beyond
        } else {
            Placement::Before
        };
        self.turns = Ghost(
            self.turns@.push(
                Turn { action: Action::Inspect(ptr), seen: Observation::Compared(placement) },
            ),
        );
        placement
    }

    /// Publishes `ptr` in the hazard slot `slot`.
    pub fn acquire<T, M: HazardPointerManager<T>>(
        &mut self,
        guard: &Guard<M>,
        slot: usize,
        ptr: Option<NodePtr>,
    )
        ensures
            call_ensures(M::acquire_ptr, (&guard.manager(), slot, ptr), ()),
            final(self)@ == old(self)@.push(
                Turn { action: Action::Acquire(slot, ptr), seen: Observation::Done },
            ),
        opens_invariants [acquire_name(slot, ptr)]
    {
        guard.manager.acquire_ptr(slot, ptr);
        self.turns = Ghost(
            self.turns@.push(Turn { action: Action::Acquire(slot, ptr), seen: Observation::Done }),
        );
    }

    /// Empties the hazard slot `slot`.
    pub fn release<T, M: HazardPointerManager<T>>(&mut self, guard: &Guard<M>, slot: usize)
        ensures
            call_ensures(M::release, (&guard.manager(), slot), ()),
            final(self)@ == old(self)@.push(
                Turn { action: Action::Release(slot), seen: Observation::Done },
            ),
        opens_invariants [release_name(slot)]
    {
        guard.manager.release(slot);
        self.turns = Ghost(
            self.turns@.push(Turn { action: Action::Release(slot), seen: Observation::Done }),
        );
    }

    /// Gives the answer: calls `func` with what is stored in the node that was found.
    pub fn answer<K, V, F, R>(
        &mut self,
        arena: &Arena<K, V>,
        found: Option<NodePtr>,
        func: F,
    ) -> (result: R) where F: for <'a>FnOnce(Option<&'a V>) -> R
        requires
            found is Some ==> arena@.contains_key(found.unwrap()),
            call_requires(func, (value_at(arena, found),)),
        ensures
            call_ensures(func, (value_at(arena, found),), result),
            final(self)@ == old(self)@.push(
                Turn { action: Action::Answer(found), seen: Observation::Done },
            ),
    {
        let result: R = match found {
            Some(ptr) => func(Some(&arena.get(ptr).value)),
            None => func(None),
        };
        self.turns = Ghost(
            self.turns@.push(Turn { action: Action::Answer(found), seen: Observation::Done }),
        );
        result
    }
}

} // verus!
