//! The memory manager of a table, in the hands of its searches and its writer.
//!
//! A search gets from the manager what its reader wants next, and nothing else; the
//! writer can hand nodes over, and nothing else. Neither reaches the manager in another
//! way.

use crate::arena::Arena;
use crate::arena::Write;
use crate::hazard::acquire_name;
use crate::hazard::release_name;
use crate::hazard::HazardPointerManager;
use crate::node::Node;
use crate::node::NodePtr;
use crate::reader::is_walk;
use crate::reader::reader_after;
use crate::reader::Action;
use crate::reader::Observation;
use crate::reader::Reader;
use crate::reader::Turn;
use crate::trail::was_asked;
use crate::trail::was_retired;
use crate::trail::Guard;
use crate::trail::Trail;
use vstd::prelude::*;

verus! {

/// A memory manager that is asked only for what a reader wants, or a writer hands over.
pub struct Keeper<M> {
    guard: Guard<M>,
}

/// The name of the call of a memory manager that an action asks for.
pub open spec fn action_name(action: Action) -> int {
    match action {
        Action::Acquire(slot, ptr) => acquire_name(slot, ptr),
        Action::Release(slot) => release_name(slot),
        _ => -1,
    }
}

impl<M> Keeper<M> {
    /// The memory manager.
    pub closed spec fn manager(&self) -> M {
        self.guard.manager()
    }

    /// Puts `manager` in the hands of a keeper.
    pub fn new(manager: M) -> (keeper: Keeper<M>)
        ensures
            keeper.manager() == manager,
    {
        Keeper { guard: Guard::new(manager) }
    }

    /// Does to the hazard slots what the reader wants next. `trail` is where the reader has
    /// come, on turns for which the manager was asked.
    pub fn serve<T>(&self, reader: Reader, trail: &mut Trail) where M: HazardPointerManager<T>
        requires
            is_walk(old(trail)@),
            reader == reader_after(old(trail)@),
            reader.wants() is Acquire || reader.wants() is Release,
            forall|t: int|
                0 <= t < old(trail)@.len() ==> was_asked::<T, M>(
                    self.manager(),
                    #[trigger] old(trail)@[t],
                ),
        ensures
            final(trail)@ == old(trail)@.push(
                Turn { action: reader.wants(), seen: Observation::Done },
            ),
            was_asked::<T, M>(
                self.manager(),
                Turn { action: reader.wants(), seen: Observation::Done },
            ),
        opens_invariants [action_name(reader.wants())]
    {
        match reader.action() {
            Action::Acquire(slot, ptr) => trail.acquire(&self.guard, slot, ptr),
            Action::Release(slot) => trail.release(&self.guard, slot),
            _ => {},
        }
    }

    /// Takes the node at `ptr` out of memory and hands it over to the memory manager.
    pub fn hand_over<K, V>(&mut self, arena: &mut Arena<K, V>, ptr: NodePtr) where
        M: HazardPointerManager<Node<K, V>>,

        requires
            old(arena).wf(),
            old(arena)@.contains_key(ptr),
        ensures
            final(arena).wf(),
            final(arena)@ == old(arena)@.remove(ptr),
            final(arena).in_use() == old(arena).in_use() - 1,
            final(arena).log() == old(arena).log().push(Write::HandOver { ptr }),
            old(self).manager().keeps_account() ==> final(self).manager().keeps_account(),
            old(self).manager().keeps_account() ==> final(self).manager().retired() == old(
                self
            ).manager().retired().push(old(arena)@[ptr]),
            was_retired(old(self).manager(), old(arena)@[ptr]),
    {
        arena.hand_over(ptr, &mut self.guard);
    }
}

} // verus!
