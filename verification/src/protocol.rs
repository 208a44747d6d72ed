//! One writer and any number of readers, interleaved access by access.
//!
//! The writer changes one link at a time, and hands a node over only after it has
//! taken the last link to it away and has cut it off from its list. A node that
//! was handed over is freed once no hazard slot holds it. The laws say what this
//! gives a reader, wherever it stands: the nodes that it touches are there.

use crate::arena::Write;
use crate::hash_key::HashKey;
use crate::hazard::PRE_SLOT;
use crate::layout::link;
use crate::layout::Layout;
use crate::node::Node;
use crate::node::NodePtr;
use crate::reader::Action;
use crate::reader::Observation;
use crate::reader::Reader;
use vstd::prelude::*;

verus! {

/// A reader and its two hazard slots.
pub struct Thread {
    pub reader: Reader,
    pub pre_slot: Option<NodePtr>,
    pub cur_slot: Option<NodePtr>,
}

/// How far the writer has come with a change.
pub enum Writer {
    /// No change is under way.
    Idle,
    /// `new` is ready to come behind `pre`, in place of `replaced` if there is one.
    Prepared { pre: NodePtr, new: NodePtr, replaced: Option<NodePtr> },
    /// No link leads to `cur` any more.
    Detached { cur: NodePtr },
    /// Nor does a link lead from `cur` to another node.
    Severed { cur: NodePtr },
}

/// Memory, as readers and writer share it: the successor of every node that has
/// not been freed, the nodes that are sentinels, those handed over to the memory
/// manager, and who is where.
pub struct World {
    pub next: Map<NodePtr, Option<NodePtr>>,
    pub sentinels: Set<NodePtr>,
    pub retired: Set<NodePtr>,
    pub writer: Writer,
    pub threads: Map<int, Thread>,
}

/// A single access to memory.
pub enum Step {
    /// The writer makes the sentinel `ptr`.
    MakeSentinel { ptr: NodePtr },
    /// The writer makes the node `new`, to come behind `pre`.
    Prepare { pre: NodePtr, new: NodePtr },
    /// The writer makes the node `new`, to come behind `pre` in place of `cur`.
    PrepareReplacement { pre: NodePtr, new: NodePtr, cur: NodePtr },
    /// The writer links in the node that it has made.
    Link,
    /// The writer takes `cur`, which is behind `pre`, out of the list.
    Unlink { pre: NodePtr, cur: NodePtr },
    /// The writer cuts off the node that it has taken out.
    Sever,
    /// The writer hands that node over.
    Retire,
    /// The memory manager frees a node.
    Free { ptr: NodePtr },
    /// A reader in thread `id` starts a search.
    Begin { id: int },
    /// The reader of thread `id` takes its next action, which brings `seen`.
    Read { id: int, seen: Observation },
}

impl Thread {
    /// `ptr` is in one of the hazard slots.
    pub open spec fn protects(self, ptr: NodePtr) -> bool {
        self.pre_slot == Some(ptr) || self.cur_slot == Some(ptr)
    }

    /// The thread after its next action has brought `seen`.
    pub open spec fn after(self, seen: Observation) -> Thread {
        let reader = self.reader.after(seen);
        match self.reader.wants() {
            Action::Acquire(slot, ptr) => if slot == PRE_SLOT {
                Thread { reader, pre_slot: ptr, ..self }
            } else {
                Thread { reader, cur_slot: ptr, ..self }
            },
            Action::Release(slot) => if slot == PRE_SLOT {
                Thread { reader, pre_slot: None, ..self }
            } else {
                Thread { reader, cur_slot: None, ..self }
            },
            _ => Thread { reader, ..self },
        }
    }
}

impl World {
    /// `ptr` is a node that has not been handed over.
    pub open spec fn live(self, ptr: NodePtr) -> bool {
        self.next.contains_key(ptr) && !self.retired.contains(ptr)
    }

    /// What an action of a reader can bring.
    pub open spec fn shows(self, action: Action, seen: Observation) -> bool {
        match (action, seen) {
            (Action::FindSentinel, Observation::Sentinel(Some(head))) => self.sentinels.contains(
                head,
            ),
            (Action::LoadNext(ptr), Observation::Link(next)) => next == self.next[ptr],
            _ => true,
        }
    }

    /// Whether a step can be taken.
    pub open spec fn enables(self, step: Step) -> bool {
        match step {
            Step::MakeSentinel { ptr } => self.writer is Idle && !self.next.contains_key(ptr),
            Step::Prepare { pre, new } => self.writer is Idle && self.live(pre)
                && !self.next.contains_key(new),
            Step::PrepareReplacement { pre, new, cur } => {
                &&& self.writer is Idle
                &&& self.live(pre)
                &&& !self.next.contains_key(new)
                &&& self.next[pre] == Some(cur)
                &&& pre != cur
            },
            Step::Link => self.writer is Prepared,
            Step::Unlink { pre, cur } => {
                &&& self.writer is Idle
                &&& self.live(pre)
                &&& self.next[pre] == Some(cur)
                &&& pre != cur
            },
            Step::Sever => self.writer is Detached,
            Step::Retire => self.writer is Severed,
            Step::Free { ptr } => self.retired.contains(ptr) && forall|id: int| #[trigger]
                self.threads.contains_key(id) ==> !self.threads[id].protects(ptr),
            Step::Begin { id } => self.threads.contains_key(id) ==> self.threads[id].reader is Done,
            Step::Read { id, seen } => {
                &&& self.threads.contains_key(id)
                &&& self.threads[id].reader.accepts(seen)
                &&& self.shows(self.threads[id].reader.wants(), seen)
            },
        }
    }

    /// Memory after a step.
    pub open spec fn after(self, step: Step) -> World {
        match step {
            Step::MakeSentinel { ptr } => World {
                next: self.next.insert(ptr, None),
                sentinels: self.sentinels.insert(ptr),
                ..self
            },
            Step::Prepare { pre, new } => World {
                next: self.next.insert(new, self.next[pre]),
                writer: Writer::Prepared { pre, new, replaced: None },
                ..self
            },
            Step::PrepareReplacement { pre, new, cur } => World {
                next: self.next.insert(new, self.next[cur]),
                writer: Writer::Prepared { pre, new, replaced: Some(cur) },
                ..self
            },
            Step::Link => match self.writer {
                Writer::Prepared { pre, new, replaced } => World {
                    next: self.next.insert(pre, Some(new)),
                    writer: match replaced {
                        Some(cur) => Writer::Detached { cur },
                        None => Writer::Idle,
                    },
                    ..self
                },
                _ => self,
            },
            Step::Unlink { pre, cur } => World {
                next: self.next.insert(pre, self.next[cur]),
                writer: Writer::Detached { cur },
                ..self
            },
            Step::Sever => match self.writer {
                Writer::Detached { cur } => World {
                    next: self.next.insert(cur, None),
                    writer: Writer::Severed { cur },
                    ..self
                },
                _ => self,
            },
            Step::Retire => match self.writer {
                Writer::Severed { cur } => World {
                    retired: self.retired.insert(cur),
                    writer: Writer::Idle,
                    ..self
                },
                _ => self,
            },
            Step::Free { ptr } => World {
                next: self.next.remove(ptr),
                retired: self.retired.remove(ptr),
                ..self
            },
            Step::Begin { id } => World {
                threads: self.threads.insert(
                    id,
                    Thread { reader: Reader::Enter, pre_slot: None, cur_slot: None },
                ),
                ..self
            },
            Step::Read { id, seen } => World {
                threads: self.threads.insert(id, self.threads[id].after(seen)),
                ..self
            },
        }
    }

    /// What a step writes to node memory.
    pub open spec fn writes(self, step: Step) -> Seq<Write> {
        match (step, self.writer) {
            (Step::MakeSentinel { ptr }, _) => seq![Write::Make { ptr, next: None }],
            (Step::Prepare { pre, new }, _) => seq![
                Write::Make { ptr: new, next: self.next[pre] },
            ],
            (Step::PrepareReplacement { pre, new, cur }, _) => seq![
                Write::Make { ptr: new, next: self.next[cur] },
            ],
            (Step::Link, Writer::Prepared { pre, new, replaced }) => seq![
                Write::Store { ptr: pre, next: Some(new) },
            ],
            (Step::Unlink { pre, cur }, _) => seq![
                Write::Store { ptr: pre, next: self.next[cur] },
            ],
            (Step::Sever, Writer::Detached { cur }) => seq![Write::Store { ptr: cur, next: None }],
            (Step::Retire, Writer::Severed { cur }) => seq![Write::HandOver { ptr: cur }],
            _ => Seq::empty(),
        }
    }

    /// `ptr` is the node that the writer holds outside of every list.
    pub open spec fn outside(self, ptr: NodePtr) -> bool {
        match self.writer {
            Writer::Idle => false,
            Writer::Prepared { pre, new, replaced } => ptr == new,
            Writer::Detached { cur } => ptr == cur,
            Writer::Severed { cur } => ptr == cur,
        }
    }

    /// `ptr` is a node of a list: neither a sentinel, nor outside, nor handed over.
    pub open spec fn listed(self, ptr: NodePtr) -> bool {
        self.live(ptr) && !self.outside(ptr) && !self.sentinels.contains(ptr)
    }

    /// `ptr` is the last node of a list, or a sentinel with nothing behind it.
    pub open spec fn is_last(self, ptr: NodePtr) -> bool {
        (self.listed(ptr) || self.sentinels.contains(ptr)) && self.next[ptr] is None
    }

    /// The writer has taken `ptr` out of its list, and no link leads from it.
    pub open spec fn is_cut_off(self, ptr: NodePtr) -> bool {
        &&& self.next.contains_key(ptr)
        &&& self.next[ptr] is None
        &&& self.retired.contains(ptr) || self.writer == (Writer::Detached { cur: ptr })
            || self.writer == (Writer::Severed { cur: ptr })
    }

    /// A link leads to a live node that is in a list.
    pub open spec fn links_wf(self) -> bool {
        forall|ptr: NodePtr| #[trigger] self.next.contains_key(ptr) ==> match self.next[ptr] {
            Some(next) => self.listed(next) && !self.retired.contains(ptr),
            None => true,
        }
    }

    /// No two links lead to one node, but for those that the writer is changing.
    pub open spec fn links_are_unique(self) -> bool {
        forall|p: NodePtr, q: NodePtr|
            #![trigger self.next.contains_key(p), self.next.contains_key(q)]
            self.next.contains_key(p) && self.next.contains_key(q) && p != q && !self.outside(p)
                && !self.outside(q) && self.next[p] is Some ==> self.next[p] != self.next[q]
    }

    /// The writer is where its last step has brought it.
    pub open spec fn writer_wf(self) -> bool {
        match self.writer {
            Writer::Idle => true,
            Writer::Prepared { pre, new, replaced } => {
                &&& self.live(pre)
                &&& self.live(new)
                &&& !self.sentinels.contains(new)
                &&& pre != new
                &&& match replaced {
                    Some(cur) => cur != pre && self.next[pre] == Some(cur) && self.next[new]
                        == self.next[cur],
                    None => self.next[new] == self.next[pre],
                }
            },
            Writer::Detached { cur } => self.live(cur) && !self.sentinels.contains(cur),
            Writer::Severed { cur } => self.live(cur) && !self.sentinels.contains(cur)
                && self.next[cur] is None,
        }
    }

    /// `ptr` is there, and it is or was in a list.
    pub open spec fn known(self, ptr: NodePtr) -> bool {
        self.next.contains_key(ptr) && !(self.writer is Prepared && self.outside(ptr))
    }

    /// `pre` cannot be freed while the thread holds it.
    pub open spec fn kept(self, thread: Thread, pre: NodePtr) -> bool {
        self.sentinels.contains(pre) || (thread.pre_slot == Some(pre) && self.known(pre))
    }

    /// A thread protects what it is going to touch.
    pub open spec fn thread_wf(self, thread: Thread) -> bool {
        match thread.reader {
            Reader::Enter | Reader::Miss | Reader::Done => thread.pre_slot is None
                && thread.cur_slot is None,
            Reader::Load { pre } => self.kept(thread, pre) && thread.cur_slot is None,
            Reader::Publish { pre, link } => self.kept(thread, pre) && thread.cur_slot is None,
            Reader::Confirm { pre, link } => self.kept(thread, pre) && thread.cur_slot == link,
            Reader::Visit { pre, cur } => thread.cur_slot == Some(cur) && self.known(cur)
                && !self.sentinels.contains(cur),
            Reader::Keep { cur } => thread.cur_slot == Some(cur) && self.known(cur),
            Reader::LetGo { cur } => thread.pre_slot == Some(cur) && thread.cur_slot == Some(cur)
                && self.known(cur),
            Reader::Hit { cur } => thread.cur_slot == Some(cur) && self.known(cur)
                && !self.sentinels.contains(cur),
            Reader::AtEnd => thread.cur_slot is None,
            Reader::RetryLast | Reader::LeaveLast => thread.pre_slot is None,
            _ => true,
        }
    }

    pub open spec fn wf(self) -> bool {
        &&& self.sentinels.subset_of(self.next.dom())
        &&& self.retired.subset_of(self.next.dom())
        &&& self.sentinels.disjoint(self.retired)
        &&& self.links_wf()
        &&& self.links_are_unique()
        &&& self.writer_wf()
        &&& forall|id: int| #[trigger] self.threads.contains_key(id) ==> self.thread_wf(
            self.threads[id],
        )
    }

    /// Whatever the order in which writer, readers and memory manager take their
    /// steps, every link leads to a live node, and every reader protects what it is
    /// going to touch.
    pub proof fn law_every_step_keeps_memory_safe(self, step: Step)
        requires
            self.wf(),
            self.enables(step),
        ensures
            self.after(step).wf(),
    {
    }

    /// The node that a reader reads, compares, or answers with has not been freed.
    pub proof fn law_readers_touch_only_nodes_that_are_there(self, id: int)
        requires
            self.wf(),
            self.threads.contains_key(id),
        ensures
            match self.threads[id].reader.wants() {
                Action::LoadNext(ptr) => self.next.contains_key(ptr),
                Action::Inspect(ptr) => self.next.contains_key(ptr),
                Action::Answer(Some(ptr)) => self.next.contains_key(ptr),
                _ => true,
            },
    {
    }

    /// What the writer hands over is out of reach: no link leads to it, and none leads
    /// from it.
    pub proof fn law_nodes_are_handed_over_out_of_reach(self, ptr: NodePtr)
        requires
            self.wf(),
            self.enables(Step::Retire),
            self.next.contains_key(ptr),
        ensures
            self.writes(Step::Retire) == seq![Write::HandOver { ptr: self.writer->Severed_cur }],
            self.next[ptr] != Some(self.writer->Severed_cur),
            self.next[self.writer->Severed_cur] is None,
    {
    }

    /// A node to which the link still leads when it is read again is in a list at
    /// that moment: the writer has neither taken it out nor handed it over. A node
    /// without a successor is the last of its list at that moment, or has been cut
    /// off from it. If the link has changed, the reader starts over.
    pub proof fn law_confirmed_nodes_are_in_a_list(self, id: int, seen: Observation)
        requires
            self.wf(),
            self.enables(Step::Read { id, seen }),
            self.threads[id].reader is Confirm,
        ensures
            match self.threads[id].reader.after(seen) {
                Reader::Visit { pre, cur } => self.listed(cur) && self.next[pre] == Some(cur),
                Reader::AtEnd => self.is_last(self.threads[id].reader->Confirm_pre)
                    || self.is_cut_off(self.threads[id].reader->Confirm_pre),
                after => after is Retry && self.next[self.threads[id].reader->Confirm_pre]
                    != self.threads[id].reader->Confirm_link,
            },
    {
    }

    /// A reader that is done protects nothing.
    pub proof fn law_finished_readers_hold_no_hazard(self, id: int, ptr: NodePtr)
        requires
            self.wf(),
            self.threads.contains_key(id),
            self.threads[id].reader is Done,
        ensures
            !self.threads[id].protects(ptr),
    {
    }

    /// The nodes of a table that no reader looks at.
    pub open spec fn of<K, V>(table: Layout<K, V>) -> World {
        World {
            next: table.mem.map_values(|node: Node<K, V>| node.next),
            sentinels: Set::new(
                |ptr: NodePtr|
                    exists|b: int|
                        0 <= b < table.heads.len() && #[trigger] table.heads[b] == Some(ptr),
            ),
            retired: Set::empty(),
            writer: Writer::Idle,
            threads: Map::empty(),
        }
    }

    /// Every node of a table is before some place of its bucket.
    proof fn lemma_node_is_before_a_place<K: HashKey, V>(table: Layout<K, V>, ptr: NodePtr) -> (at: (
        int,
        int,
    ))
        requires
            table.wf(),
            table.mem.contains_key(ptr),
        ensures
            0 <= at.0 < table.heads.len(),
            table.heads[at.0] is Some,
            0 <= at.1 <= table.chains[at.0].len(),
            ptr == table.before(at.0, at.1),
            table.mem[ptr].next == link(table.chains[at.0], at.1),
    {
        let b = choose|b: int| 0 <= b < table.heads.len() && #[trigger] table.owns(b, ptr);
        assert(table.bucket_wf(b));
        if table.heads[b] == Some(ptr) {
            (b, 0)
        } else {
            let i = choose|i: int| 0 <= i < table.chains[b].len() && table.chains[b][i] == ptr;
            assert(table.member_wf(b, i));
            (b, i + 1)
        }
    }

    /// The memory of a table is safe.
    pub proof fn law_tables_are_safe<K: HashKey, V>(table: Layout<K, V>)
        requires
            table.wf(),
        ensures
            World::of(table).wf(),
    {
        let world = World::of(table);
        assert forall|ptr: NodePtr| #[trigger] world.sentinels.contains(ptr) implies world.next.contains_key(
            ptr,
        ) by {
            let b = choose|b: int|
                0 <= b < table.heads.len() && #[trigger] table.heads[b] == Some(ptr);
            assert(table.bucket_wf(b));
        }
        assert forall|ptr: NodePtr| #[trigger]
            world.next.contains_key(ptr) && world.next[ptr] is Some implies {
            let next = world.next[ptr].unwrap();
            world.live(next) && !world.sentinels.contains(next)
        } by {
            let (b, i) = World::lemma_node_is_before_a_place(table, ptr);
            let next = table.chains[b][i];
            assert(table.bucket_wf(b));
            assert(table.member_wf(b, i));
            if world.sentinels.contains(next) {
                let c = choose|c: int|
                    0 <= c < table.heads.len() && #[trigger] table.heads[c] == Some(next);
                table.lemma_owner_is_unique(c, b, next);
            }
        }
        assert forall|p: NodePtr, q: NodePtr|
            #![trigger world.next.contains_key(p), world.next.contains_key(q)]
            world.next.contains_key(p) && world.next.contains_key(q) && p != q
                && world.next[p] is Some implies world.next[p] != world.next[q] by {
            let (b, i) = World::lemma_node_is_before_a_place(table, p);
            let (c, j) = World::lemma_node_is_before_a_place(table, q);
            if world.next[p] == world.next[q] {
                let next = table.chains[b][i];
                table.lemma_owner_is_unique(b, c, next);
                table.lemma_chain_has_no_duplicates(b);
            }
        }
    }
}

} // verus!
