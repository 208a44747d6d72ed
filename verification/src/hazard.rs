//! What the table asks of the memory manager that guards its nodes.

use crate::node::NodePtr;
use vstd::prelude::*;

verus! {

/// Hazard slot that holds the node whose successor is read next.
pub const PRE_SLOT: usize = 0;

/// Hazard slot that holds the node that was read last.
pub const CUR_SLOT: usize = 1;

/// The name of a call that publishes `ptr` in `slot`.
///
/// Every call of a memory manager has a name, made of what is called and with what, and
/// the manager's methods declare it where a function declares the invariants that it may
/// open. No invariant has such a name, so for an implementation this says nothing. But
/// whoever calls the method opens the name too, and a function that declares names opens
/// no others. So what it declares are the only calls that it can make of a manager.
pub open spec fn acquire_name(slot: usize, ptr: Option<NodePtr>) -> int {
    match ptr {
        Some(ptr) => 3 * ((ptr + 1) * 0x1_0000_0000_0000_0000 + slot),
        None => 3 * slot,
    }
}

/// The name of a call that empties `slot`.
pub open spec fn release_name(slot: usize) -> int {
    3 * slot + 1
}

/// The name of a call that hands a node over.
pub open spec fn retire_name() -> int {
    2
}

/// Calls that differ, in what is called or in what it is called with, have different names.
pub proof fn law_calls_have_names_of_their_own(
    slot: usize,
    ptr: Option<NodePtr>,
    other_slot: usize,
    other_ptr: Option<NodePtr>,
)
    ensures
        acquire_name(slot, ptr) == acquire_name(other_slot, other_ptr) ==> slot == other_slot
            && ptr == other_ptr,
        release_name(slot) == release_name(other_slot) ==> slot == other_slot,
        acquire_name(slot, ptr) != release_name(other_slot),
        acquire_name(slot, ptr) != retire_name(),
        release_name(slot) != retire_name(),
{
}

/// A memory manager for nodes of type `T`. Readers publish in their hazard slots
/// the nodes that they are about to look at, and a node that has left its list is
/// handed over for disposal.
pub trait HazardPointerManager<T> {
    /// Whether the manager keeps account of the nodes handed over. Of one that does not,
    /// nothing is known of [`retired`].
    ///
    /// [`retired`]: HazardPointerManager::retired
    open spec fn keeps_account(&self) -> bool {
        false
    }

    /// The nodes handed over so far, oldest first.
    open spec fn retired(&self) -> Seq<T> {
        arbitrary()
    }

    /// Publishes `ptr` in the hazard slot `slot` of the calling reader.
    fn acquire_ptr(&self, slot: usize, ptr: Option<NodePtr>)
        opens_invariants [acquire_name(slot, ptr)]
    ;

    /// Empties the hazard slot `slot` of the calling reader.
    fn release(&self, slot: usize)
        opens_invariants [release_name(slot)]
    ;

    /// Takes over `node`, which is no longer in any list.
    fn retire_ptr(&mut self, node: T)
        ensures
            old(self).keeps_account() ==> final(self).keeps_account() && final(self).retired()
                == old(self).retired().push(node),
        opens_invariants [retire_name()]
    ;
}

/// The manager of a table that is reached through Rust references alone. Whoever
/// removes a node holds the table exclusively, so no reader can be looking at it:
/// there is nothing to publish, and a retired node is dropped at once.
pub struct OwnedReclaim<T> {
    retired: Ghost<Seq<T>>,
}

impl<T> OwnedReclaim<T> {
    pub fn new() -> (manager: OwnedReclaim<T>)
        ensures
            manager.keeps_account(),
            manager.retired() == Seq::<T>::empty(),
    {
        OwnedReclaim { retired: Ghost(Seq::empty()) }
    }
}

impl<T> HazardPointerManager<T> for OwnedReclaim<T> {
    open spec fn keeps_account(&self) -> bool {
        true
    }

    closed spec fn retired(&self) -> Seq<T> {
        self.retired@
    }

    fn acquire_ptr(&self, slot: usize, ptr: Option<NodePtr>) {
    }

    fn release(&self, slot: usize) {
    }

    fn retire_ptr(&mut self, node: T) {
        self.retired = Ghost(self.retired@.push(node));
    }
}

} // verus!
