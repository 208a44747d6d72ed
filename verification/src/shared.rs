//! What readers find while a writer is at work: the interleaving of [`protocol`]
//! with the keys and values of the nodes.
//!
//! [`protocol`]: crate::protocol

use crate::arena::Write;
use crate::bits::split_order;
use crate::hash_key::HashKey;
use crate::layout::link;
use crate::layout::Change;
use crate::layout::Layout;
use crate::listing::Lists;
use crate::node::Node;
use crate::node::NodePtr;
use crate::protocol::Step;
use crate::protocol::World;
use crate::protocol::Writer;
use crate::reader::Action;
use crate::reader::Observation;
use crate::reader::Placement;
use crate::reader::Reader;
use vstd::prelude::*;

verus! {

/// What a node holds. It never changes.
pub struct Entry<K, V> {
    pub key: K,
    pub value: V,
}

/// A search: its key, what the key had at each moment of the search, and the answers
/// given.
#[verifier::reject_recursive_types(V)]
pub struct Seeker<K, V> {
    pub key: K,
    pub had: Set<Option<V>>,
    pub answers: Seq<Option<V>>,
}

/// Memory with what its nodes hold: the sentinel of each bucket, the entry of each
/// other node, and the search of each thread. `order` and `bucket` say where a key
/// belongs.
#[verifier::reject_recursive_types(K)]
#[verifier::reject_recursive_types(V)]
pub struct Store<K, V> {
    pub world: World,
    pub heads: Map<int, NodePtr>,
    pub entries: Map<NodePtr, Entry<K, V>>,
    pub seekers: Map<int, Seeker<K, V>>,
    pub order: spec_fn(K) -> u64,
    pub bucket: spec_fn(K) -> int,
}

/// A single access to memory, with what it writes.
pub enum Act<K, V> {
    MakeSentinel { bucket: int, ptr: NodePtr },
    Prepare { pre: NodePtr, new: NodePtr, entry: Entry<K, V> },
    PrepareReplacement { pre: NodePtr, new: NodePtr, cur: NodePtr, entry: Entry<K, V> },
    Link,
    Unlink { pre: NodePtr, cur: NodePtr },
    Sever,
    Retire,
    Free { ptr: NodePtr },
    Begin { id: int, key: K },
    Read { id: int, seen: Observation },
}

impl<K, V> Act<K, V> {
    /// The node that is made.
    pub open spec fn makes(self) -> Option<NodePtr> {
        match self {
            Act::MakeSentinel { bucket, ptr } => Some(ptr),
            Act::Prepare { pre, new, entry } => Some(new),
            Act::PrepareReplacement { pre, new, cur, entry } => Some(new),
            _ => None,
        }
    }

    /// The access to the links.
    pub open spec fn step(self) -> Step {
        match self {
            Act::MakeSentinel { bucket, ptr } => Step::MakeSentinel { ptr },
            Act::Prepare { pre, new, entry } => Step::Prepare { pre, new },
            Act::PrepareReplacement { pre, new, cur, entry } => Step::PrepareReplacement {
                pre,
                new,
                cur,
            },
            Act::Link => Step::Link,
            Act::Unlink { pre, cur } => Step::Unlink { pre, cur },
            Act::Sever => Step::Sever,
            Act::Retire => Step::Retire,
            Act::Free { ptr } => Step::Free { ptr },
            Act::Begin { id, key } => Step::Begin { id },
            Act::Read { id, seen } => Step::Read { id, seen },
        }
    }
}

/// The successor of every node.
pub type Links = Map<NodePtr, Option<NodePtr>>;

/// The acts of a change, in their order.
pub open spec fn is_change<K, V>(change: Change, acts: Seq<Act<K, V>>) -> bool {
    match change {
        Change::Nothing => acts.len() == 0,
        Change::Addition => acts.len() == 2 && acts[0] is Prepare && acts[1] is Link,
        Change::Replacement => {
            &&& acts.len() == 5
            &&& acts[0] is PrepareReplacement
            &&& acts[1] is Link
            &&& acts[2] is Sever
            &&& acts[3] is Retire
            &&& acts[4] is Free
        },
        Change::Removal => {
            &&& acts.len() == 4
            &&& acts[0] is Unlink
            &&& acts[1] is Sever
            &&& acts[2] is Retire
            &&& acts[3] is Free
        },
    }
}

/// The acts of a change, before which a sentinel is made or not.
pub open spec fn is_write<K, V>(made_sentinel: bool, change: Change, acts: Seq<Act<K, V>>) -> bool {
    if made_sentinel {
        acts.len() > 0 && acts[0] is MakeSentinel && is_change(change, acts.skip(1))
    } else {
        is_change(change, acts)
    }
}

/// A node is made, and then linked in behind `pre`.
pub open spec fn log_of_addition(links: Links, pre: NodePtr, new: NodePtr) -> Seq<Write> {
    seq![Write::Make { ptr: new, next: links[pre] }, Write::Store { ptr: pre, next: Some(new) }]
}

/// A node is made, linked in behind `pre` in place of `cur`, and then `cur` is cut off and
/// handed over.
pub open spec fn log_of_replacement(
    links: Links,
    pre: NodePtr,
    cur: NodePtr,
    new: NodePtr,
) -> Seq<Write> {
    seq![
        Write::Make { ptr: new, next: links[cur] },
        Write::Store { ptr: pre, next: Some(new) },
        Write::Store { ptr: cur, next: None },
        Write::HandOver { ptr: cur },
    ]
}

/// The link of `pre` is led past `cur`, and then `cur` is cut off and handed over.
pub open spec fn log_of_removal(links: Links, pre: NodePtr, cur: NodePtr) -> Seq<Write> {
    seq![
        Write::Store { ptr: pre, next: links[cur] },
        Write::Store { ptr: cur, next: None },
        Write::HandOver { ptr: cur },
    ]
}

/// What a change writes, in this order, where the links were `links`. What is handed over
/// is the node to which the link of `pre` led.
pub open spec fn is_log_of(links: Links, change: Change, log: Seq<Write>) -> bool {
    match change {
        Change::Nothing => log.len() == 0,
        Change::Addition => exists|pre: NodePtr, new: NodePtr|
            log == #[trigger] log_of_addition(links, pre, new),
        Change::Replacement => exists|pre: NodePtr, cur: NodePtr, new: NodePtr|
            log == #[trigger] log_of_replacement(links, pre, cur, new) && links[pre] == Some(cur),
        Change::Removal => exists|pre: NodePtr, cur: NodePtr|
            log == #[trigger] log_of_removal(links, pre, cur) && links[pre] == Some(cur),
    }
}

/// The acts of the writer alone, when the memory manager frees nodes later.
pub open spec fn without_frees<K, V>(acts: Seq<Act<K, V>>) -> Seq<Act<K, V>>
    decreases acts.len(),
{
    if acts.len() == 0 {
        acts
    } else if acts.last() is Free {
        without_frees(acts.drop_last())
    } else {
        without_frees(acts.drop_last()).push(acts.last())
    }
}

/// The first act begins a search of thread `id` for `key`, and no other begins another
/// search of this thread.
pub open spec fn is_search<K, V>(acts: Seq<Act<K, V>>, id: int, key: K) -> bool {
    &&& acts.len() > 0
    &&& acts[0] == (Act::<K, V>::Begin { id, key })
    &&& forall|t: int|
        0 < t < acts.len() ==> !(#[trigger] acts[t] is Begin && acts[t]->Begin_id == id)
}

/// `ptr` is the node of `key` in its list.
pub open spec fn lists_in<K, V>(
    world: World,
    entries: Map<NodePtr, Entry<K, V>>,
    key: K,
    ptr: NodePtr,
) -> bool {
    world.listed(ptr) && entries[ptr].key == key
}

/// The keys that are in the lists, each with its value.
pub open spec fn contents_of<K, V>(world: World, entries: Map<NodePtr, Entry<K, V>>) -> Map<K, V> {
    Map::new(
        |key: K| exists|ptr: NodePtr| lists_in(world, entries, key, ptr),
        |key: K| entries[choose|ptr: NodePtr| lists_in(world, entries, key, ptr)].value,
    )
}

/// The reader has given its answer.
pub open spec fn has_answered(reader: Reader) -> bool {
    reader is Leave || reader is LeaveLast || reader is Done
}

impl<K, V> Store<K, V> {
    /// `ptr` is a node of a list: neither a sentinel, nor outside, nor handed over.
    pub open spec fn listed(self, ptr: NodePtr) -> bool {
        self.world.listed(ptr)
    }

    /// `ptr` is the node of `key` in its list.
    pub open spec fn lists(self, key: K, ptr: NodePtr) -> bool {
        lists_in(self.world, self.entries, key, ptr)
    }

    /// The keys that are in the lists at this moment, each with its value.
    pub open spec fn contents(self) -> Map<K, V> {
        contents_of(self.world, self.entries)
    }

    /// What `key` has at this moment.
    pub open spec fn lookup(self, key: K) -> Option<V> {
        if self.contents().contains_key(key) {
            Some(self.contents()[key])
        } else {
            None
        }
    }

    /// How the node `ptr` compares with `key`.
    pub open spec fn compares(self, ptr: NodePtr, key: K) -> Placement {
        let held = self.entries[ptr].key;
        if held == key {
            Placement::Match
        } else if (self.order)(held) > (self.order)(key) {
            Placement::Beyond
        } else {
            Placement::Before
        }
    }

    /// What the next action of a reader brings to a search for `key`.
    pub open spec fn shows(self, action: Action, key: K, seen: Observation) -> bool {
        match action {
            Action::FindSentinel => seen == Observation::Sentinel(
                if self.heads.contains_key((self.bucket)(key)) {
                    Some(self.heads[(self.bucket)(key)])
                } else {
                    None
                },
            ),
            Action::LoadNext(ptr) => seen == Observation::Link(self.world.next[ptr]),
            Action::Inspect(ptr) => seen == Observation::Compared(self.compares(ptr, key)),
            _ => true,
        }
    }

    /// Whether an act can be done. A node is made only for a key that no other node
    /// has, but for the one that it replaces, and for the place of its key.
    pub open spec fn enables(self, act: Act<K, V>) -> bool {
        &&& self.world.enables(act.step())
        &&& match act {
            Act::MakeSentinel { bucket, ptr } => !self.heads.contains_key(bucket),
            Act::Prepare { pre, new, entry } => !self.contents().contains_key(entry.key)
                && self.fits(pre, entry.key),
            Act::PrepareReplacement { pre, new, cur, entry } => entry.key == self.entries[cur].key,
            Act::Read { id, seen } => self.shows(
                self.world.threads[id].reader.wants(),
                self.seekers[id].key,
                seen,
            ),
            _ => true,
        }
    }

    /// The memory after an act, before the searches take notice.
    pub open spec fn written(self, act: Act<K, V>) -> Store<K, V> {
        Store {
            world: self.world.after(act.step()),
            heads: match act {
                Act::MakeSentinel { bucket, ptr } => self.heads.insert(bucket, ptr),
                _ => self.heads,
            },
            entries: match act {
                Act::Prepare { pre, new, entry } => self.entries.insert(new, entry),
                Act::PrepareReplacement { pre, new, cur, entry } => self.entries.insert(new, entry),
                Act::Free { ptr } => self.entries.remove(ptr),
                _ => self.entries,
            },
            ..self
        }
    }

    /// The search of thread `id` after an act.
    pub open spec fn seeker_after(self, act: Act<K, V>, id: int) -> Seeker<K, V> {
        let written = self.written(act);
        if act is Begin && act->Begin_id == id {
            let key = act->Begin_key;
            Seeker { key, had: set![written.lookup(key)], answers: Seq::empty() }
        } else {
            let seeker = self.seekers[id];
            let reader = self.world.threads[id].reader;
            Seeker {
                key: seeker.key,
                had: if reader is Done {
                    seeker.had
                } else {
                    seeker.had.insert(written.lookup(seeker.key))
                },
                answers: if act is Read && act->Read_id == id && reader.wants() is Answer {
                    seeker.answers.push(
                        match reader.wants()->Answer_0 {
                            Some(ptr) => Some(self.entries[ptr].value),
                            None => None,
                        },
                    )
                } else {
                    seeker.answers
                },
            }
        }
    }

    /// The memory after an act.
    pub open spec fn after(self, act: Act<K, V>) -> Store<K, V> {
        Store {
            seekers: Map::new(
                |id: int| self.world.after(act.step()).threads.contains_key(id),
                |id: int| self.seeker_after(act, id),
            ),
            ..self.written(act)
        }
    }

    /// No two nodes in the lists have one key.
    pub open spec fn keys_are_unique(self) -> bool {
        forall|p: NodePtr, q: NodePtr|
            #![trigger self.listed(p), self.listed(q)]
            self.listed(p) && self.listed(q) && p != q ==> self.entries[p].key
                != self.entries[q].key
    }

    /// The node that the writer has made has a key of its own, or that of the node
    /// that it replaces.
    pub open spec fn writer_wf(self) -> bool {
        match self.world.writer {
            Writer::Prepared { pre, new, replaced: None } => !self.contents().contains_key(
                self.entries[new].key,
            ) && self.fits(pre, self.entries[new].key),
            Writer::Prepared { pre, new, replaced: Some(cur) } => self.entries[new].key
                == self.entries[cur].key,
            _ => true,
        }
    }

    /// A search knows what its key had, and what it has found is among that.
    pub open spec fn seeker_wf(self, id: int) -> bool {
        let seeker = self.seekers[id];
        let reader = self.world.threads[id].reader;
        &&& !(reader is Done) ==> seeker.had.contains(self.lookup(seeker.key))
        &&& match reader {
            Reader::Visit { pre, cur } => self.entries[cur].key == seeker.key
                ==> seeker.had.contains(Some(self.entries[cur].value)),
            Reader::Hit { cur } => self.entries[cur].key == seeker.key && seeker.had.contains(
                Some(self.entries[cur].value),
            ),
            _ => true,
        }
        &&& if has_answered(reader) {
            &&& seeker.answers.len() == 1
            &&& seeker.answers[0] is Some ==> seeker.had.contains(seeker.answers[0])
        } else {
            seeker.answers.len() == 0
        }
    }

    pub open spec fn wf(self) -> bool {
        &&& self.world.wf()
        &&& forall|b: int| #[trigger]
            self.heads.contains_key(b) ==> self.world.sentinels.contains(self.heads[b])
        &&& self.entries.dom() == self.world.next.dom().difference(self.world.sentinels)
        &&& self.keys_are_unique()
        &&& self.in_order()
        &&& self.writer_wf()
        &&& self.seekers.dom() == self.world.threads.dom()
        &&& forall|id: int| #[trigger] self.world.threads.contains_key(id) ==> self.seeker_wf(id)
    }

    /// A node of a list is what its key has.
    pub proof fn lemma_listed(self, ptr: NodePtr)
        requires
            self.keys_are_unique(),
            self.listed(ptr),
        ensures
            self.lookup(self.entries[ptr].key) == Some(self.entries[ptr].value),
    {
        let key = self.entries[ptr].key;
        assert(self.lists(key, ptr));
        let q = choose|q: NodePtr| lists_in(self.world, self.entries, key, q);
        assert(self.listed(q));
    }

    /// Which nodes are in the lists after an act.
    pub open spec fn listed_after(self, act: Act<K, V>, ptr: NodePtr) -> bool {
        match (act, self.world.writer) {
            (Act::Link, Writer::Prepared { pre, new, replaced }) => ptr == new || (self.listed(ptr)
                && replaced != Some(ptr)),
            (Act::Unlink { pre, cur }, _) => self.listed(ptr) && ptr != cur,
            _ => self.listed(ptr),
        }
    }

    /// The nodes that an act leaves in the lists hold what they held.
    pub proof fn lemma_listed_after(self, act: Act<K, V>, ptr: NodePtr)
        requires
            self.wf(),
            self.enables(act),
        ensures
            self.after(act).listed(ptr) == self.listed_after(act, ptr),
            self.after(act).listed(ptr) ==> self.after(act).entries[ptr] == self.entries[ptr],
    {
    }

    /// The node that goes, if one goes, is in a list.
    pub proof fn lemma_going_node_is_listed(self, act: Act<K, V>)
        requires
            self.wf(),
            self.enables(act),
        ensures
            match (act, self.world.writer) {
                (Act::Link, Writer::Prepared { pre, new, replaced: Some(cur) }) => self.listed(cur),
                (Act::Unlink { pre, cur }, _) => self.listed(cur),
                _ => true,
            },
    {
        match (act, self.world.writer) {
            (Act::Link, Writer::Prepared { pre, new, replaced }) => {
                assert(self.world.next.contains_key(pre));
            },
            (Act::Unlink { pre, cur }, _) => {
                assert(self.world.next.contains_key(pre));
            },
            _ => {},
        }
    }

    proof fn lemma_keys_stay_unique(self, act: Act<K, V>)
        requires
            self.wf(),
            self.enables(act),
        ensures
            self.after(act).keys_are_unique(),
    {
        let new = self.after(act);
        self.lemma_going_node_is_listed(act);
        assert forall|p: NodePtr, q: NodePtr|
            #![trigger new.listed(p), new.listed(q)]
            new.listed(p) && new.listed(q) && p != q implies new.entries[p].key
            != new.entries[q].key by {
            self.lemma_listed_after(act, p);
            self.lemma_listed_after(act, q);
            if self.listed(p) {
                self.lemma_listed(p);
            }
            if self.listed(q) {
                self.lemma_listed(q);
            }
        }
    }

    /// What an act does to the contents. They change when a link to a new node is
    /// stored, and when the link to a node is taken away; every other act leaves them
    /// alone.
    pub proof fn law_contents_change_with_one_link(self, act: Act<K, V>)
        requires
            self.wf(),
            self.enables(act),
        ensures
            self.after(act).contents() == (match (act, self.world.writer) {
                (Act::Link, Writer::Prepared { pre, new, replaced }) => self.contents().insert(
                    self.entries[new].key,
                    self.entries[new].value,
                ),
                (Act::Unlink { pre, cur }, _) => self.contents().remove(self.entries[cur].key),
                _ => self.contents(),
            }),
    {
        let new = self.after(act);
        let expected = match (act, self.world.writer) {
            (Act::Link, Writer::Prepared { pre, new, replaced }) => self.contents().insert(
                self.entries[new].key,
                self.entries[new].value,
            ),
            (Act::Unlink { pre, cur }, _) => self.contents().remove(self.entries[cur].key),
            _ => self.contents(),
        };
        self.lemma_keys_stay_unique(act);
        self.lemma_going_node_is_listed(act);
        assert forall|key: K|
            #![trigger new.contents().dom().contains(key)]
            #![trigger expected.dom().contains(key)]
            new.contents().contains_key(key) == expected.contains_key(key) && (
            expected.contains_key(key) ==> new.contents()[key] == expected[key]) by {
            if exists|p: NodePtr| lists_in(new.world, new.entries, key, p) {
                let p = choose|p: NodePtr| lists_in(new.world, new.entries, key, p);
                self.lemma_listed_after(act, p);
                new.lemma_listed(p);
                if self.listed(p) {
                    self.lemma_listed(p);
                }
            }
            if exists|p: NodePtr| lists_in(self.world, self.entries, key, p) {
                let p = choose|p: NodePtr| lists_in(self.world, self.entries, key, p);
                self.lemma_listed_after(act, p);
                self.lemma_listed(p);
                if new.listed(p) {
                    assert(new.lists(key, p));
                    new.lemma_listed(p);
                }
            }
            match (act, self.world.writer) {
                (Act::Link, Writer::Prepared { pre, new: made, replaced }) => {
                    self.lemma_listed_after(act, made);
                    new.lemma_listed(made);
                },
                (Act::Unlink { pre, cur }, _) => {
                    self.lemma_listed_after(act, cur);
                },
                _ => {},
            }
        }
        assert(new.contents() =~= expected);
    }

    /// Whatever the order in which writer, readers and memory manager act, what a
    /// search has found is what its key had at some moment of the search, and it has
    /// answered at most once.
    pub proof fn law_every_act_keeps_the_searches_right(self, act: Act<K, V>)
        requires
            self.wf(),
            self.enables(act),
        ensures
            self.after(act).wf(),
    {
        let new = self.after(act);
        self.world.law_every_step_keeps_memory_safe(act.step());
        self.lemma_keys_stay_unique(act);
        self.lemma_stays_in_order(act);
        self.law_contents_change_with_one_link(act);
        assert(new.contents() == self.written(act).contents());
        assert(new.entries.dom() =~= new.world.next.dom().difference(new.world.sentinels));
        assert(new.seekers.dom() =~= new.world.threads.dom());
        assert(new.writer_wf());
        assert forall|id: int| #[trigger] new.world.threads.contains_key(id) implies new.seeker_wf(
            id,
        ) by {
            if act is Begin && act->Begin_id == id {
            } else {
                assert(self.world.threads.contains_key(id));
                assert(self.world.thread_wf(self.world.threads[id]));
                assert(self.seeker_wf(id));
                if act is Read && act->Read_id == id && self.world.threads[id].reader is Confirm {
                    self.world.law_confirmed_nodes_are_in_a_list(id, act->Read_seen);
                    if new.world.threads[id].reader is Visit {
                        self.lemma_listed(new.world.threads[id].reader->Visit_cur);
                    }
                }
            }
        }
    }

    /// A search that is done has given one answer, however often its walk started
    /// over, and a value that it has given is one that its key had in the course of
    /// the search.
    pub proof fn law_a_search_answers_once(self, id: int)
        requires
            self.wf(),
            self.world.threads.contains_key(id),
            self.world.threads[id].reader is Done,
        ensures
            self.seekers[id].answers.len() == 1,
            self.seekers[id].answers[0] is Some ==> self.seekers[id].had.contains(
                self.seekers[id].answers[0],
            ),
    {
        assert(self.seeker_wf(id));
    }

    /// Memory after a run of acts.
    pub open spec fn run(self, acts: Seq<Act<K, V>>) -> Store<K, V>
        decreases acts.len(),
    {
        if acts.len() == 0 {
            self
        } else {
            self.run(acts.drop_last()).after(acts.last())
        }
    }

    /// Whether the acts can be done one after the other.
    pub open spec fn allows(self, acts: Seq<Act<K, V>>) -> bool
        decreases acts.len(),
    {
        acts.len() == 0 || (self.allows(acts.drop_last()) && self.run(acts.drop_last()).enables(
            acts.last(),
        ))
    }

    /// What a run writes to node memory, in its order.
    pub open spec fn writes(self, acts: Seq<Act<K, V>>) -> Seq<Write>
        decreases acts.len(),
    {
        if acts.len() == 0 {
            Seq::empty()
        } else {
            self.writes(acts.drop_last()) + self.run(acts.drop_last()).world.writes(
                acts.last().step(),
            )
        }
    }

    /// Memory stays safe, and the searches right, in the course of a run.
    pub proof fn law_runs_keep_the_searches_right(self, acts: Seq<Act<K, V>>)
        requires
            self.wf(),
            self.allows(acts),
        ensures
            self.run(acts).wf(),
        decreases acts.len(),
    {
        if acts.len() > 0 {
            self.law_runs_keep_the_searches_right(acts.drop_last());
            self.run(acts.drop_last()).law_every_act_keeps_the_searches_right(acts.last());
        }
    }

    /// After the first `t` acts, `key` has `found`.
    pub open spec fn has_after(self, acts: Seq<Act<K, V>>, t: int, key: K, found: Option<V>) -> bool {
        1 <= t <= acts.len() && self.run(acts.take(t)).lookup(key) == found
    }

    /// What thread `id` has noted of its key is what the key had at the moments since
    /// its search began.
    pub proof fn lemma_what_a_search_has_noted(self, acts: Seq<Act<K, V>>, id: int, key: K)
        requires
            self.wf(),
            self.allows(acts),
            is_search(acts, id, key),
        ensures
            self.run(acts).world.threads.contains_key(id),
            self.run(acts).seekers.contains_key(id),
            self.run(acts).seekers[id].key == key,
            forall|found: Option<V>| #[trigger]
                self.run(acts).seekers[id].had.contains(found) ==> exists|t: int|
                    self.has_after(acts, t, key, found),
        decreases acts.len(),
    {
        let before = acts.drop_last();
        let act = acts.last();
        let now = self.run(acts);
        self.law_runs_keep_the_searches_right(acts);
        self.law_runs_keep_the_searches_right(before);
        assert(acts.take(acts.len() as int) =~= acts);
        assert(now.contents() == self.run(before).written(act).contents());
        if before.len() == 0 {
            assert forall|found: Option<V>| #[trigger]
                now.seekers[id].had.contains(found) implies exists|t: int|
                self.has_after(acts, t, key, found) by {
                assert(self.has_after(acts, 1, key, found));
            }
        } else {
            self.lemma_what_a_search_has_noted(before, id, key);
            assert forall|found: Option<V>| #[trigger]
                now.seekers[id].had.contains(found) implies exists|t: int|
                self.has_after(acts, t, key, found) by {
                if self.run(before).seekers[id].had.contains(found) {
                    let t = choose|t: int| self.has_after(before, t, key, found);
                    assert(acts.take(t) =~= before.take(t));
                    assert(self.has_after(acts, t, key, found));
                } else {
                    assert(self.has_after(acts, acts.len() as int, key, found));
                }
            }
        }
    }

    /// A search that begins, runs to its end while the writer and other readers go
    /// on, and answers with a value, answers with what its key had at some moment
    /// between its beginning and its end.
    pub proof fn law_a_value_found_was_stored_meanwhile(
        self,
        acts: Seq<Act<K, V>>,
        id: int,
        key: K,
        value: V,
    )
        requires
            self.wf(),
            self.allows(acts),
            is_search(acts, id, key),
            self.run(acts).world.threads[id].reader is Done,
            self.run(acts).seekers[id].answers.contains(Some(value)),
        ensures
            self.run(acts).seekers[id].answers.len() == 1,
            exists|t: int| #[trigger] self.has_after(acts, t, key, Some(value)),
    {
        self.law_runs_keep_the_searches_right(acts);
        self.lemma_what_a_search_has_noted(acts, id, key);
        self.run(acts).law_a_search_answers_once(id);
        assert(self.run(acts).seekers[id].had.contains(Some(value)));
    }

    /// Every value that is stored, or that a search has seen, stands in the relation
    /// `good` to its key.
    pub open spec fn holds_only(self, good: spec_fn(K, V) -> bool) -> bool {
        &&& forall|ptr: NodePtr| #[trigger]
            self.entries.contains_key(ptr) ==> good(
                self.entries[ptr].key,
                self.entries[ptr].value,
            )
        &&& forall|id: int, value: V| #[trigger]
            self.seekers.contains_key(id) && #[trigger] self.seekers[id].had.contains(
                Some(value),
            ) ==> good(self.seekers[id].key, value)
    }

    /// What an act stores stands in the relation `good` to its key.
    pub open spec fn writes_only(act: Act<K, V>, good: spec_fn(K, V) -> bool) -> bool {
        match act {
            Act::Prepare { pre, new, entry } => good(entry.key, entry.value),
            Act::PrepareReplacement { pre, new, cur, entry } => good(entry.key, entry.value),
            _ => true,
        }
    }

    /// As long as the writer stores only values that suit their keys, no reader is
    /// ever given a value that does not suit its key: it never gets that of another.
    pub proof fn law_readers_get_only_values_that_suit_their_keys(
        self,
        act: Act<K, V>,
        good: spec_fn(K, V) -> bool,
        id: int,
    )
        requires
            self.wf(),
            self.enables(act),
            self.holds_only(good),
            Self::writes_only(act, good),
        ensures
            self.after(act).holds_only(good),
            self.after(act).world.threads.contains_key(id) && has_answered(
                self.after(act).world.threads[id].reader,
            ) ==> match self.after(act).seekers[id].answers[0] {
                Some(value) => good(self.after(act).seekers[id].key, value),
                None => true,
            },
    {
        let new = self.after(act);
        self.law_every_act_keeps_the_searches_right(act);
        assert(new.contents() == self.written(act).contents());
        assert forall|key: K, value: V| new.lookup(key) == Some(value) implies good(key, value) by {
            let p = choose|p: NodePtr| lists_in(new.world, new.entries, key, p);
            assert(new.entries.contains_key(p));
        }
        assert forall|other: int, value: V| #[trigger]
            new.seekers.contains_key(other) && #[trigger] new.seekers[other].had.contains(
                Some(value),
            ) implies good(new.seekers[other].key, value) by {
            if !(act is Begin && act->Begin_id == other) {
                assert(self.seekers.contains_key(other));
            }
        }
        if new.world.threads.contains_key(id) {
            assert(new.seeker_wf(id));
            assert(new.seekers.contains_key(id));
        }
    }

    /// So it is in the course of a run.
    pub proof fn law_runs_give_only_values_that_suit_their_keys(
        self,
        acts: Seq<Act<K, V>>,
        good: spec_fn(K, V) -> bool,
    )
        requires
            self.wf(),
            self.allows(acts),
            self.holds_only(good),
            forall|t: int| 0 <= t < acts.len() ==> Self::writes_only(#[trigger] acts[t], good),
        ensures
            self.run(acts).holds_only(good),
        decreases acts.len(),
    {
        if acts.len() > 0 {
            let before = acts.drop_last();
            assert(forall|t: int| 0 <= t < before.len() ==> #[trigger] before[t] == acts[t]);
            assert(acts[acts.len() - 1] == acts.last());
            self.law_runs_give_only_values_that_suit_their_keys(before, good);
            self.law_runs_keep_the_searches_right(before);
            self.run(before).law_readers_get_only_values_that_suit_their_keys(
                acts.last(),
                good,
                0,
            );
        }
    }

    /// To the writer, this memory is `alone`: the live nodes are the same and hold the
    /// same, and its change is as far. Readers, and nodes that were handed over and
    /// are not yet freed, may be here and not there.
    pub open spec fn covers(self, alone: Self) -> bool {
        &&& self.world.writer == alone.world.writer
        &&& self.world.sentinels == alone.world.sentinels
        &&& self.heads == alone.heads
        &&& self.order == alone.order
        &&& self.bucket == alone.bucket
        &&& forall|ptr: NodePtr| #[trigger] self.world.live(ptr) == alone.world.live(ptr)
        &&& forall|ptr: NodePtr| #[trigger]
            self.world.live(ptr) ==> self.world.next[ptr] == alone.world.next[ptr] && (
            !self.world.sentinels.contains(ptr) ==> self.entries[ptr] == alone.entries[ptr])
    }

    /// Memories that are alike to the writer have the same contents.
    pub proof fn lemma_covered_contents(self, alone: Self)
        requires
            self.wf(),
            alone.wf(),
            self.covers(alone),
        ensures
            self.contents() == alone.contents(),
    {
        assert forall|ptr: NodePtr| #[trigger] self.listed(ptr) == alone.listed(ptr) && (
        self.listed(ptr) ==> self.entries[ptr] == alone.entries[ptr]) by {
            assert(self.world.live(ptr) == alone.world.live(ptr));
        }
        assert forall|key: K|
            #![trigger self.contents().dom().contains(key)]
            #![trigger alone.contents().dom().contains(key)]
            self.contents().contains_key(key) == alone.contents().contains_key(key) && (
            self.contents().contains_key(key) ==> self.contents()[key] == alone.contents()[key]) by {
            if exists|p: NodePtr| lists_in(self.world, self.entries, key, p) {
                let p = choose|p: NodePtr| lists_in(self.world, self.entries, key, p);
                assert(self.listed(p));
                assert(alone.lists(key, p));
                self.lemma_listed(p);
                alone.lemma_listed(p);
            }
            if exists|p: NodePtr| lists_in(alone.world, alone.entries, key, p) {
                let p = choose|p: NodePtr| lists_in(alone.world, alone.entries, key, p);
                assert(self.listed(p) == alone.listed(p));
                assert(self.lists(key, p));
            }
        }
        assert(self.contents() =~= alone.contents());
    }

    /// Readers do not hold up the writer: what it can do on its own it can do among
    /// them, with the same effect, as long as it makes new nodes in places that are
    /// free. A node that is freed at once when the writer is alone may be freed later.
    pub proof fn law_the_writer_works_among_readers(self, alone: Self, act: Act<K, V>)
        requires
            self.wf(),
            alone.wf(),
            self.covers(alone),
            alone.enables(act),
            !(act is Begin) && !(act is Read),
            act.makes() is Some ==> !self.world.next.contains_key(act.makes().unwrap()),
        ensures
            if act is Free {
                self.covers(alone.after(act))
            } else {
                self.enables(act) && self.after(act).covers(alone.after(act))
            },
    {
        self.lemma_covered_contents(alone);
        let here = self.after(act);
        let there = alone.after(act);
        match act {
            Act::Prepare { pre, new, entry } => {
                assert(self.world.live(pre) == alone.world.live(pre));
            },
            Act::PrepareReplacement { pre, new, cur, entry } => {
                assert(self.world.live(pre) == alone.world.live(pre));
                assert(alone.world.next.contains_key(pre));
                assert(self.world.live(cur) == alone.world.live(cur));
            },
            Act::Unlink { pre, cur } => {
                assert(self.world.live(pre) == alone.world.live(pre));
                assert(alone.world.next.contains_key(pre));
                assert(self.world.live(cur) == alone.world.live(cur));
            },
            _ => {},
        }
        if !(act is Free) {
            assert forall|ptr: NodePtr| #[trigger]
                here.world.live(ptr) == there.world.live(ptr) && (here.world.live(ptr)
                ==> here.world.next[ptr] == there.world.next[ptr] && (
                !here.world.sentinels.contains(ptr) ==> here.entries[ptr]
                    == there.entries[ptr])) by {
                assert(self.world.live(ptr) == alone.world.live(ptr));
            }
        } else {
            assert forall|ptr: NodePtr| #[trigger]
                self.world.live(ptr) == there.world.live(ptr) && (self.world.live(ptr)
                ==> self.world.next[ptr] == there.world.next[ptr] && (
                !self.world.sentinels.contains(ptr) ==> self.entries[ptr]
                    == there.entries[ptr])) by {
                assert(self.world.live(ptr) == alone.world.live(ptr));
            }
        }
    }

    /// Between two acts of the writer, readers may act and nodes may be freed: the
    /// writer finds memory as it left it.
    pub proof fn law_readers_leave_the_writer_alone(self, alone: Self, act: Act<K, V>)
        requires
            self.wf(),
            self.covers(alone),
            self.enables(act),
            act is Begin || act is Read || act is Free,
        ensures
            self.after(act).covers(alone),
    {
        let here = self.after(act);
        assert forall|ptr: NodePtr| #[trigger]
            here.world.live(ptr) == alone.world.live(ptr) && (here.world.live(ptr)
            ==> here.world.next[ptr] == alone.world.next[ptr] && (
            !here.world.sentinels.contains(ptr) ==> here.entries[ptr] == alone.entries[ptr])) by {
            assert(self.world.live(ptr) == alone.world.live(ptr));
        }
    }

    /// A whole run of the writer goes through among readers. It leads to memory that
    /// is to the writer what it would be had it been alone, with the same contents.
    pub proof fn law_writes_go_through_among_readers(self, alone: Self, acts: Seq<Act<K, V>>)
        requires
            self.wf(),
            alone.wf(),
            self.covers(alone),
            alone.allows(acts),
            forall|t: int|
                0 <= t < acts.len() ==> !(#[trigger] acts[t] is Begin) && !(acts[t] is Read),
            forall|t: int|
                0 <= t < acts.len() && (#[trigger] acts[t]).makes() is Some
                    ==> !self.world.next.contains_key(acts[t].makes().unwrap()),
            forall|t: int, u: int|
                0 <= t < u < acts.len() && (#[trigger] acts[t]).makes() is Some ==> acts[t].makes()
                    != (#[trigger] acts[u]).makes(),
        ensures
            self.allows(without_frees(acts)),
            self.run(without_frees(acts)).wf(),
            self.run(without_frees(acts)).covers(alone.run(acts)),
            self.run(without_frees(acts)).contents() == alone.run(acts).contents(),
            forall|ptr: NodePtr| #[trigger]
                self.run(without_frees(acts)).world.next.contains_key(ptr)
                    ==> self.world.next.contains_key(ptr) || exists|t: int|
                    0 <= t < acts.len() && (#[trigger] acts[t]).makes() == Some(ptr),
        decreases acts.len(),
    {
        if acts.len() == 0 {
            self.lemma_covered_contents(alone);
        } else {
            let before = acts.drop_last();
            let act = acts.last();
            assert(forall|t: int| 0 <= t < before.len() ==> #[trigger] before[t] == acts[t]);
            self.law_writes_go_through_among_readers(alone, before);
            alone.law_runs_keep_the_searches_right(before);
            alone.law_runs_keep_the_searches_right(acts);
            let here = self.run(without_frees(before));
            let there = alone.run(before);
            assert(acts[acts.len() - 1] == act);
            here.law_the_writer_works_among_readers(there, act);
            if !(act is Free) {
                self.lemma_run_act(without_frees(before), act);
                self.law_runs_keep_the_searches_right(without_frees(acts));
            }
            self.run(without_frees(acts)).lemma_covered_contents(alone.run(acts));
            assert forall|ptr: NodePtr| #[trigger]
                self.run(without_frees(acts)).world.next.contains_key(
                    ptr,
                ) implies self.world.next.contains_key(ptr) || exists|t: int|
                0 <= t < acts.len() && (#[trigger] acts[t]).makes() == Some(ptr) by {
                if here.world.next.contains_key(ptr) && !self.world.next.contains_key(ptr) {
                    let t = choose|t: int|
                        0 <= t < before.len() && (#[trigger] before[t]).makes() == Some(ptr);
                    assert(acts[t].makes() == Some(ptr));
                }
            }
        }
    }

    /// Memory comes to be `other` by the acts of a change, before which a sentinel
    /// is made or not, and `log` is what these acts write, in their order.
    pub open spec fn changes_to(
        self,
        other: Self,
        made_sentinel: bool,
        change: Change,
        log: Seq<Write>,
    ) -> bool {
        exists|acts: Seq<Act<K, V>>|
            {
                &&& #[trigger] self.allows(acts)
                &&& self.run(acts) == other
                &&& is_write(made_sentinel, change, acts)
                &&& self.writes(acts) == log
            }
    }

    /// One run after another is a run.
    pub proof fn lemma_run_on(self, first: Seq<Act<K, V>>, second: Seq<Act<K, V>>)
        ensures
            self.run(first + second) == self.run(first).run(second),
            self.allows(first + second) == (self.allows(first) && self.run(first).allows(second)),
            self.writes(first + second) == self.writes(first) + self.run(first).writes(second),
        decreases second.len(),
    {
        if second.len() == 0 {
            assert(first + second =~= first);
            assert(self.writes(first) + Seq::<Write>::empty() =~= self.writes(first));
        } else {
            assert((first + second).drop_last() =~= first + second.drop_last());
            self.lemma_run_on(first, second.drop_last());
            assert(self.writes(first + second) =~= self.writes(first) + self.run(first).writes(
                second,
            ));
        }
    }

    /// A run can be continued by an act.
    pub proof fn lemma_run_act(self, acts: Seq<Act<K, V>>, act: Act<K, V>)
        ensures
            self.run(acts.push(act)) == self.run(acts).after(act),
            self.allows(acts) && self.run(acts).enables(act) ==> self.allows(acts.push(act)),
            self.writes(acts.push(act)) == self.writes(acts) + self.run(acts).world.writes(
                act.step(),
            ),
    {
        assert(acts.push(act).drop_last() =~= acts);
    }

    /// The order in which a change writes. A node is made before the link to it is stored.
    /// A node is handed over last: the link to it is changed first, and it is cut off next.
    pub proof fn law_order_of_writes(
        self,
        other: Self,
        made_sentinel: bool,
        change: Change,
        log: Seq<Write>,
    )
        requires
            self.changes_to(other, made_sentinel, change, log),
        ensures
            if made_sentinel {
                &&& log.len() > 0
                &&& log[0] matches Write::Make { ptr, next: None }
                &&& is_log_of(self.world.next.insert(ptr, None), change, log.skip(1))
            } else {
                is_log_of(self.world.next, change, log)
            },
    {
        let acts = choose|acts: Seq<Act<K, V>>|
            {
                &&& #[trigger] self.allows(acts)
                &&& self.run(acts) == other
                &&& is_write(made_sentinel, change, acts)
                &&& self.writes(acts) == log
            };
        if made_sentinel {
            let first = seq![acts[0]];
            let rest = acts.skip(1);
            assert(acts =~= first + rest);
            self.lemma_run_on(first, rest);
            assert(first =~= Seq::<Act<K, V>>::empty().push(acts[0]));
            self.lemma_run_act(Seq::empty(), acts[0]);
            self.run(first).lemma_log_of_a_change(change, rest);
            assert(log.skip(1) =~= self.run(first).writes(rest));
        } else {
            self.lemma_log_of_a_change(change, acts);
        }
    }

    /// What the acts of a change write.
    proof fn lemma_log_of_a_change(self, change: Change, acts: Seq<Act<K, V>>)
        requires
            self.allows(acts),
            is_change(change, acts),
        ensures
            is_log_of(self.world.next, change, self.writes(acts)),
    {
        let log = self.writes(acts);
        let links = self.world.next;
        reveal_with_fuel(Store::writes, 6);
        reveal_with_fuel(Store::run, 6);
        reveal_with_fuel(Store::allows, 6);
        match change {
            Change::Nothing => {},
            Change::Addition => {
                let (pre, new) = (acts[0]->Prepare_pre, acts[0]->Prepare_new);
                assert(log =~= log_of_addition(links, pre, new));
            },
            Change::Replacement => {
                let pre = acts[0]->PrepareReplacement_pre;
                let cur = acts[0]->PrepareReplacement_cur;
                let new = acts[0]->PrepareReplacement_new;
                assert(log =~= log_of_replacement(links, pre, cur, new));
            },
            Change::Removal => {
                let (pre, cur) = (acts[0]->Unlink_pre, acts[0]->Unlink_cur);
                assert(log =~= log_of_removal(links, pre, cur));
            },
        }
    }

    /// No change needs no act.
    pub proof fn lemma_no_change(self)
        ensures
            self.changes_to(self, false, Change::Nothing, Seq::empty()),
    {
        let acts = Seq::<Act<K, V>>::empty();
        assert(self.allows(acts) && self.writes(acts) == Seq::<Write>::empty());
    }

    /// A change can follow upon the making of a sentinel.
    pub proof fn lemma_change_after_sentinel(
        self,
        middle: Self,
        other: Self,
        made_sentinel: bool,
        change: Change,
        first_log: Seq<Write>,
        second_log: Seq<Write>,
    )
        requires
            self.changes_to(middle, made_sentinel, Change::Nothing, first_log),
            middle.changes_to(other, false, change, second_log),
        ensures
            self.changes_to(other, made_sentinel, change, first_log + second_log),
    {
        let first = choose|acts: Seq<Act<K, V>>|
            {
                &&& #[trigger] self.allows(acts)
                &&& self.run(acts) == middle
                &&& is_write(made_sentinel, Change::Nothing, acts)
                &&& self.writes(acts) == first_log
            };
        let second = choose|acts: Seq<Act<K, V>>|
            {
                &&& #[trigger] middle.allows(acts)
                &&& middle.run(acts) == other
                &&& is_write(false, change, acts)
                &&& middle.writes(acts) == second_log
            };
        self.lemma_run_on(first, second);
        if made_sentinel {
            assert((first + second).skip(1) =~= second);
        } else {
            assert(first + second =~= second);
        }
        assert(self.allows(first + second));
    }
}

/// A table that no reader looks at, as shared memory.
pub open spec fn store_of<K: HashKey, V>(table: Layout<K, V>) -> Store<K::V, V> {
    let world = World::of(table);
    Store {
        world,
        heads: Map::new(
            |b: int| 0 <= b < table.heads.len() && table.heads[b] is Some,
            |b: int| table.heads[b].unwrap(),
        ),
        entries: Map::new(
            |ptr: NodePtr| table.mem.contains_key(ptr) && !world.sentinels.contains(ptr),
            |ptr: NodePtr| Entry { key: table.mem[ptr].key@, value: table.mem[ptr].value },
        ),
        seekers: Map::empty(),
        order: |key: K::V| split_order(table.hash(key)),
        bucket: |key: K::V| table.home(key),
    }
}

/// The nodes in the lists of shared memory are the nodes of the table's lists.
proof fn lemma_listed_nodes_of_a_table<K: HashKey, V>(table: Layout<K, V>, ptr: NodePtr) -> (at: (
    int,
    int,
))
    requires
        table.wf(),
        store_of(table).listed(ptr),
    ensures
        0 <= at.0 < table.heads.len(),
        0 <= at.1 < table.chains[at.0].len(),
        table.chains[at.0][at.1] == ptr,
        store_of(table).entries[ptr].key == table.node(at.0, at.1).key@,
        store_of(table).entries[ptr].value == table.node(at.0, at.1).value,
        table.home(table.node(at.0, at.1).key@) == at.0,
        table.holds(table.node(at.0, at.1).key@, at.1),
{
    assert(table.owned(ptr));
    let b = choose|b: int| 0 <= b < table.heads.len() && #[trigger] table.owns(b, ptr);
    assert(table.bucket_wf(b));
    let i = choose|i: int| 0 <= i < table.chains[b].len() && table.chains[b][i] == ptr;
    assert(table.member_wf(b, i));
    (b, i)
}

/// What shared memory has of a node in a list of the table.
pub proof fn lemma_entry_of_a_table<K: HashKey, V>(table: Layout<K, V>, b: int, i: int)
    requires
        table.wf(),
        0 <= b < table.heads.len(),
        0 <= i < table.chains[b].len(),
    ensures
        store_of(table).listed(table.chains[b][i]),
        store_of(table).entries.contains_key(table.chains[b][i]),
        store_of(table).entries[table.chains[b][i]].key == table.node(b, i).key@,
        store_of(table).entries[table.chains[b][i]].value == table.node(b, i).value,
{
    let p = table.chains[b][i];
    assert(table.bucket_wf(b));
    assert(table.member_wf(b, i));
    assert(table.owns(b, p));
    if store_of(table).world.sentinels.contains(p) {
        let c = choose|c: int| 0 <= c < table.heads.len() && #[trigger] table.heads[c] == Some(p);
        table.lemma_owner_is_unique(c, b, p);
    }
}

/// The lists of a table.
pub open spec fn lists_of<K, V>(table: Layout<K, V>) -> Lists {
    Map::new(
        |b: int| 0 <= b < table.heads.len() && table.heads[b] is Some,
        |b: int| table.chains[b],
    )
}

/// The lists of a table are those of shared memory.
proof fn lemma_lists_of_a_table<K: HashKey, V>(table: Layout<K, V>)
    requires
        table.wf(),
    ensures
        store_of(table).in_order(),
{
    let store = store_of(table);
    let lists = lists_of(table);
    assert(lists.dom() =~= store.heads.dom());
    assert forall|b: int, c: int|
        #![trigger store.heads[b], store.heads[c]]
        store.heads.contains_key(b) && store.heads.contains_key(c) && b != c implies store.heads[b]
        != store.heads[c] by {
        if store.heads[b] == store.heads[c] {
            table.lemma_owner_is_unique(b, c, store.heads[b]);
        }
    }
    assert forall|b: int| #[trigger] lists.contains_key(b) implies store.is_list(lists[b], b) by {
        assert(table.bucket_wf(b));
        table.lemma_chain_has_no_duplicates(b);
        assert forall|i: int| 0 <= i < lists[b].len() implies #[trigger] store.is_member(
            lists[b],
            b,
            i,
        ) by {
            assert(table.member_wf(b, i));
            lemma_entry_of_a_table(table, b, i);
        }
        assert forall|i: int, j: int| 0 <= i < j < lists[b].len() implies store.order_of(
            #[trigger] lists[b][i],
        ) <= store.order_of(#[trigger] lists[b][j]) && lists[b][i] != lists[b][j] by {
            assert(table.member_wf(b, i));
            assert(table.member_wf(b, j));
            lemma_entry_of_a_table(table, b, i);
            lemma_entry_of_a_table(table, b, j);
            assert(table.node(b, i).split_order_key <= table.node(b, j).split_order_key);
        }
    }
    assert forall|ptr: NodePtr| #[trigger] store.listed(ptr) implies lists.contains_key(
        store.bucket_of(ptr),
    ) && lists[store.bucket_of(ptr)].contains(ptr) by {
        let (b, i) = lemma_listed_nodes_of_a_table(table, ptr);
        assert(table.bucket_wf(b));
    }
    assert(store.is_listing(lists));
    assert forall|ptr: NodePtr| #[trigger] store.entries.contains_key(ptr) implies match store.world.next[ptr] {
        Some(next) => store.order_of(ptr) <= store.order_of(next),
        None => true,
    } by {
        assert(store.listed(ptr));
        let (b, i) = lemma_listed_nodes_of_a_table(table, ptr);
        assert(table.bucket_wf(b));
        assert(table.member_wf(b, i));
        if i + 1 < table.chains[b].len() {
            assert(table.member_wf(b, i + 1));
            lemma_entry_of_a_table(table, b, i + 1);
            assert(table.node(b, i).split_order_key <= table.node(b, i + 1).split_order_key);
        }
    }
}

/// A table at rest is shared memory in order, with the contents of the table.
pub proof fn law_tables_are_stores<K: HashKey, V>(table: Layout<K, V>)
    requires
        table.wf(),
    ensures
        store_of(table).wf(),
        store_of(table).contents() == table.contents(),
{
    let store = store_of(table);
    World::law_tables_are_safe(table);
    lemma_lists_of_a_table(table);
    assert(store.entries.dom() =~= store.world.next.dom().difference(store.world.sentinels));
    assert(store.keys_are_unique()) by {
        assert forall|p: NodePtr, q: NodePtr|
            #![trigger store.listed(p), store.listed(q)]
            store.listed(p) && store.listed(q) && p != q implies store.entries[p].key
            != store.entries[q].key by {
            let (b, i) = lemma_listed_nodes_of_a_table(table, p);
            let (c, j) = lemma_listed_nodes_of_a_table(table, q);
            table.lemma_held(store.entries[p].key, i);
        }
    }
    assert(store.seekers.dom() =~= store.world.threads.dom());
    assert forall|key: K::V|
        #![trigger store.contents().dom().contains(key)]
        #![trigger table.contents().dom().contains(key)]
        store.contents().contains_key(key) == table.contents().contains_key(key) && (
        table.contents().contains_key(key) ==> store.contents()[key] == table.contents()[key]) by {
        if exists|p: NodePtr| lists_in(store.world, store.entries, key, p) {
            let p = choose|p: NodePtr| lists_in(store.world, store.entries, key, p);
            let (b, i) = lemma_listed_nodes_of_a_table(table, p);
            table.lemma_held(key, i);
            store.lemma_listed(p);
        }
        if exists|i: int| table.holds(key, i) {
            let i = choose|i: int| table.holds(key, i);
            let b = table.home(key);
            table.lemma_home(key);
            table.lemma_held(key, i);
            let p = table.chains[b][i];
            lemma_entry_of_a_table(table, b, i);
            assert(lists_in(store.world, store.entries, key, p));
            store.lemma_listed(p);
        }
    }
    assert(store.contents() =~= table.contents());
}

/// Making a sentinel takes one act.
pub proof fn lemma_acts_of_sentinel<K: HashKey, V>(
    table: Layout<K, V>,
    b: int,
    ptr: NodePtr,
    node: Node<K, V>,
)
    requires
        table.wf(),
        0 <= b < table.heads.len(),
        table.heads[b] is None,
        !table.mem.contains_key(ptr),
        node.next is None,
    ensures
        store_of(table).changes_to(
            store_of(table.with_sentinel(b, ptr, node)),
            true,
            Change::Nothing,
            seq![Write::Make { ptr, next: None }],
        ),
{
    let store = store_of(table);
    let made = store_of(table.with_sentinel(b, ptr, node));
    let act = Act::MakeSentinel { bucket: b, ptr };
    assert(made.world.next =~= store.after(act).world.next);
    assert(made.world.sentinels =~= store.after(act).world.sentinels) by {
        let heads = table.heads.update(b, Some(ptr));
        assert(heads[b] == Some(ptr));
        assert forall|p: NodePtr| store.world.sentinels.contains(p) implies made.world.sentinels.contains(
            p,
        ) by {
            let c = choose|c: int|
                0 <= c < table.heads.len() && #[trigger] table.heads[c] == Some(p);
            assert(heads[c] == Some(p));
        }
        assert forall|p: NodePtr| made.world.sentinels.contains(p) && p
            != ptr implies store.world.sentinels.contains(p) by {
            let c = choose|c: int| 0 <= c < heads.len() && #[trigger] heads[c] == Some(p);
            assert(table.heads[c] == Some(p));
        }
    }
    lemma_same_store(made, store.after(act));
    let acts = Seq::<Act<K::V, V>>::empty().push(act);
    store.lemma_run_act(Seq::empty(), act);
    assert(acts.skip(1) =~= Seq::empty());
    assert(store.writes(acts) =~= seq![Write::Make { ptr, next: None }]);
    assert(store.allows(acts) && is_write(true, Change::Nothing, acts));
}

/// Two stores without searches are the same if their parts agree.
proof fn lemma_same_store<K, V>(a: Store<K, V>, b: Store<K, V>)
    requires
        a.world =~= b.world,
        a.heads =~= b.heads,
        a.entries =~= b.entries,
        a.seekers =~= b.seekers,
        a.order =~= b.order,
        a.bucket =~= b.bucket,
    ensures
        a == b,
{
}

/// Linking in a node takes two acts: the node is complete before the one link that
/// leads to it is stored.
pub proof fn lemma_acts_of_link<K: HashKey, V>(
    table: Layout<K, V>,
    b: int,
    i: int,
    ptr: NodePtr,
    node: Node<K, V>,
)
    requires
        table.wf(),
        0 <= b < table.heads.len(),
        table.heads[b] is Some,
        0 <= i <= table.chains[b].len(),
        !table.mem.contains_key(ptr),
        !table.contents().contains_key(node.key@),
        table.home(node.key@) == b,
        forall|j: int|
            0 <= j < i ==> (#[trigger] table.node(b, j)).split_order_key <= split_order(
                table.hash(node.key@),
            ),
        forall|j: int|
            i <= j < table.chains[b].len() ==> split_order(table.hash(node.key@)) <= (
            #[trigger] table.node(b, j)).split_order_key,
        node.next == link(table.chains[b], i),
    ensures
        store_of(table).changes_to(
            store_of(table.with_link(b, i, ptr, node)),
            false,
            Change::Addition,
            seq![
                Write::Make { ptr, next: node.next },
                Write::Store { ptr: table.before(b, i), next: Some(ptr) },
            ],
        ),
{
    let store = store_of(table);
    let linked = store_of(table.with_link(b, i, ptr, node));
    let pre = table.before(b, i);
    let entry = Entry { key: node.key@, value: node.value };
    law_tables_are_stores(table);
    table.lemma_before(b, i);
    assert(table.bucket_wf(b));
    assert(store.heads.contains_key(b));
    assert(store.world.sentinels.contains(store.heads[b]));
    if i > 0 {
        assert(table.member_wf(b, i - 1));
        lemma_entry_of_a_table(table, b, i - 1);
        assert(table.node(b, i - 1).split_order_key <= split_order(table.hash(node.key@)));
    }
    if i < table.chains[b].len() {
        assert(table.member_wf(b, i));
        lemma_entry_of_a_table(table, b, i);
        assert(split_order(table.hash(node.key@)) <= table.node(b, i).split_order_key);
    }
    assert(store.fits(pre, node.key@));
    let s0 = Seq::<Act<K::V, V>>::empty();
    let s1 = s0.push(Act::Prepare { pre, new: ptr, entry });
    let s2 = s1.push(Act::Link);
    store.lemma_run_act(s0, Act::Prepare { pre, new: ptr, entry });
    store.lemma_run_act(s1, Act::Link);
    let after = store.run(s2);
    assert(linked.world.next =~= after.world.next);
    lemma_same_store(linked, after);
    assert(store.writes(s2) =~= seq![
        Write::Make { ptr, next: node.next },
        Write::Store { ptr: pre, next: Some(ptr) },
    ]);
    assert(store.allows(s2) && is_write(false, Change::Addition, s2));
}

/// Replacing a node takes those two acts, and three more to cut the old node off,
/// hand it over and free it.
pub proof fn lemma_acts_of_replacement<K: HashKey, V>(
    table: Layout<K, V>,
    b: int,
    i: int,
    ptr: NodePtr,
    node: Node<K, V>,
)
    requires
        table.wf(),
        0 <= b < table.heads.len(),
        0 <= i < table.chains[b].len(),
        !table.mem.contains_key(ptr),
        node.key@ == table.node(b, i).key@,
        node.next == link(table.chains[b], i + 1),
    ensures
        store_of(table).changes_to(
            store_of(table.with_replacement(b, i, ptr, node)),
            false,
            Change::Replacement,
            seq![
                Write::Make { ptr, next: node.next },
                Write::Store { ptr: table.before(b, i), next: Some(ptr) },
                Write::Store { ptr: table.chains[b][i], next: None },
                Write::HandOver { ptr: table.chains[b][i] },
            ],
        ),
{
    let store = store_of(table);
    let replaced = store_of(table.with_replacement(b, i, ptr, node));
    let pre = table.before(b, i);
    let cur = table.chains[b][i];
    let entry = Entry { key: node.key@, value: node.value };
    law_tables_are_stores(table);
    assert(table.bucket_wf(b));
    assert(table.member_wf(b, i));
    table.lemma_before(b, i);
    table.lemma_place_is_not_before(b, i);
    assert(store.world.next.contains_key(pre));
    let s0 = Seq::<Act<K::V, V>>::empty();
    let s1 = s0.push(Act::PrepareReplacement { pre, new: ptr, cur, entry });
    let s2 = s1.push(Act::Link);
    let s3 = s2.push(Act::Sever);
    let s4 = s3.push(Act::Retire);
    let s5 = s4.push(Act::Free { ptr: cur });
    store.lemma_run_act(s0, Act::PrepareReplacement { pre, new: ptr, cur, entry });
    store.lemma_run_act(s1, Act::Link);
    store.lemma_run_act(s2, Act::Sever);
    store.lemma_run_act(s3, Act::Retire);
    store.lemma_run_act(s4, Act::Free { ptr: cur });
    let after = store.run(s5);
    assert(replaced.world.next =~= after.world.next);
    assert(replaced.world.retired =~= after.world.retired);
    lemma_same_store(replaced, after);
    assert(store.writes(s5) =~= seq![
        Write::Make { ptr, next: node.next },
        Write::Store { ptr: pre, next: Some(ptr) },
        Write::Store { ptr: cur, next: None },
        Write::HandOver { ptr: cur },
    ]);
    assert(store.allows(s5) && is_write(false, Change::Replacement, s5));
}

/// Taking a node out takes four acts: no link leads to the node any more, it is cut
/// off, handed over and freed.
pub proof fn lemma_acts_of_removal<K: HashKey, V>(table: Layout<K, V>, b: int, i: int)
    requires
        table.wf(),
        0 <= b < table.heads.len(),
        0 <= i < table.chains[b].len(),
    ensures
        store_of(table).changes_to(
            store_of(table.without(b, i)),
            false,
            Change::Removal,
            seq![
                Write::Store { ptr: table.before(b, i), next: link(table.chains[b], i + 1) },
                Write::Store { ptr: table.chains[b][i], next: None },
                Write::HandOver { ptr: table.chains[b][i] },
            ],
        ),
{
    let store = store_of(table);
    let removed = store_of(table.without(b, i));
    let pre = table.before(b, i);
    let cur = table.chains[b][i];
    assert(table.bucket_wf(b));
    assert(table.member_wf(b, i));
    table.lemma_before(b, i);
    table.lemma_place_is_not_before(b, i);
    let s0 = Seq::<Act<K::V, V>>::empty();
    let s1 = s0.push(Act::Unlink { pre, cur });
    let s2 = s1.push(Act::Sever);
    let s3 = s2.push(Act::Retire);
    let s4 = s3.push(Act::Free { ptr: cur });
    store.lemma_run_act(s0, Act::Unlink { pre, cur });
    store.lemma_run_act(s1, Act::Sever);
    store.lemma_run_act(s2, Act::Retire);
    store.lemma_run_act(s3, Act::Free { ptr: cur });
    let after = store.run(s4);
    assert(removed.world.next =~= after.world.next);
    assert(removed.world.retired =~= after.world.retired);
    lemma_same_store(removed, after);
    assert(store.writes(s4) =~= seq![
        Write::Store { ptr: pre, next: link(table.chains[b], i + 1) },
        Write::Store { ptr: cur, next: None },
        Write::HandOver { ptr: cur },
    ]);
    assert(store.allows(s4) && is_write(false, Change::Removal, s4));
}

} // verus!
