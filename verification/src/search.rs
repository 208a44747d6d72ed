//! Searches: what a reader does with a map, from its beginning to its end.
//!
//! A search has no way to a node, or to the memory manager, but by the turns that the map
//! takes for it.

use crate::bits::make_split_order_key;
use crate::bits::split_order;
use crate::hash_key::HashKey;
use crate::hazard::HazardPointerManager;
use crate::map::ConcurrentHashMap;
use crate::node::Node;
use crate::reader::is_walk;
use crate::reader::reader_after;
use crate::reader::Action;
use crate::reader::Observation;
use crate::reader::Reader;
use crate::reader::Turn;
use crate::shared::has_answered;
use crate::trail::Trail;
use vstd::prelude::*;

verus! {

impl<K: HashKey, V: Default, M: HazardPointerManager<Node<K, V>>> ConcurrentHashMap<K, V, M> {
    /// A search for `key`, turn by turn: what it reads, and what it does to its hazard
    /// slots. `trail` tells afterwards that this was the walk of a [`Reader`], from its
    /// beginning to its end. Returns what `fun` makes of what is stored under `key`.
    pub fn walk<F, R>(&self, key: &K, fun: F, trail: &mut Trail) -> (result: R) where
        F: for <'a>FnOnce(Option<&'a V>) -> R,

        requires
            self.wf(),
            old(trail)@.len() == 0,
            call_requires(fun, (self.lookup(key@),)),
        ensures
            call_ensures(fun, (self.lookup(key@),), result),
            self.searched(key@, final(trail)@),
            self.answered(final(trail)@, fun, result),
    {
        let hash_code: u64 = self.make_hash(key);
        let split_order_key: u64 = make_split_order_key(hash_code);
        let mut func: Option<F> = Some(fun);
        let mut reader: Reader = Reader::Enter;
        let mut answer: Option<R> = None;
        let ghost mut i: int = 0;
        proof {
            self.lemma_searches_begin(key@);
        }
        loop
            invariant
                self.wf(),
                hash_code == self.hash_of(key@),
                split_order_key == split_order(hash_code),
                call_requires(fun, (self.lookup(key@),)),
                self.on_the_way(key@, i, reader),
                is_walk(trail@),
                reader == reader_after(trail@),
                self.shows(key@, trail@),
                self.asked(trail@),
                if has_answered(reader) {
                    &&& answer is Some
                    &&& call_ensures(fun, (self.lookup(key@),), answer.unwrap())
                    &&& self.answered(trail@, fun, answer.unwrap())
                } else {
                    &&& func == Some(fun)
                    &&& forall|t: int|
                        0 <= t < trail@.len() ==> !((#[trigger] trail@[t]).action is Answer)
                },
            decreases self.turns_left(key@, i, reader),
        {
            let ghost turns = trail@;
            match reader.action() {
                Action::Finish => {
                    return answer.unwrap();
                },
                Action::Answer(_) => {
                    let result: R = self.answer(
                        key,
                        func.take().unwrap(),
                        reader,
                        trail,
                        Ghost(i),
                    );
                    answer = Some(result);
                    reader = reader.advance(Observation::Done);
                },
                _ => {
                    let (next, Ghost(at)) = self.turn(
                        key,
                        hash_code,
                        split_order_key,
                        reader,
                        trail,
                        Ghost(i),
                    );
                    reader = next;
                    proof {
                        i = at;
                    }
                },
            }
            assert(forall|t: int|
                0 <= t < turns.len() ==> #[trigger] trail@[t] == trail@.drop_last()[t]);
            assert(trail@.drop_last() =~= turns);
        }
    }

    /// Returns what `fun` makes of what is stored under `key`, by a [`walk`]. `fun` is given
    /// up for its one call.
    ///
    /// [`walk`]: ConcurrentHashMap::walk
    pub fn search<F, R>(&self, key: &K, fun: F) -> (result: R) where
        F: for <'a>FnOnce(Option<&'a V>) -> R,

        requires
            self.wf(),
            call_requires(fun, (self.lookup(key@),)),
        ensures
            call_ensures(fun, (self.lookup(key@),), result),
            exists|turns: Seq<Turn>| #[trigger]
                self.searched(key@, turns) && self.answered(turns, fun, result),
    {
        let mut trail = Trail::new();
        self.walk(key, fun, &mut trail)
    }

    /// Whether `key` is stored.
    pub fn contains(&self, key: &K) -> (stored: bool)
        requires
            self.wf(),
        ensures
            stored == self@.contains_key(key@),
            exists|turns: Seq<Turn>| #[trigger] self.searched(key@, turns),
    {
        let is_stored = |stored: Option<&V>| -> (some: bool)
            ensures some == (stored is Some)
        {
            stored.is_some()
        };
        self.search(key, is_stored)
    }

    /// The value stored under `key`, which must be there.
    pub fn get(&self, key: &K) -> (value: V) where V: Copy
        requires
            self.wf(),
            self@.contains_key(key@),
        ensures
            value == self@[key@],
            exists|turns: Seq<Turn>| #[trigger] self.searched(key@, turns),
    {
        let copy_out = |stored: Option<&V>| -> (value: V)
            requires stored is Some
            ensures value == *stored.unwrap()
        {
            *stored.unwrap()
        };
        self.search(key, copy_out)
    }
}

} // verus!
