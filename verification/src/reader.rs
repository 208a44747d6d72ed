//! The walk of a reader along a bucket list, one memory access at a time.
//!
//! A reader may meet a writer at any moment. So it publishes a node in a hazard
//! slot before it looks at it, and then reads the link again: only if the link
//! still leads to the node was the node in the list when it was published. If the
//! link has changed, the walk starts over.
//!
//! What a reader finds was in the list when it read the link again. A reader that
//! finds nothing can tell less: if the node at which it stands is removed and cut
//! off meanwhile, it takes that for the end of the list. [`pursuit`] shows that this is
//! the only way to miss a key that is there all the while.
//!
//! [`pursuit`]: crate::pursuit

use crate::hazard::CUR_SLOT;
use crate::hazard::PRE_SLOT;
use crate::node::NodePtr;
use vstd::prelude::*;

verus! {

/// Where a node stands with respect to the key that is looked for.
#[derive(Clone, Copy, Debug, PartialEq, Eq)]
pub enum Placement {
    /// It holds the key.
    Match,
    /// The key would stand before it.
    Beyond,
    /// The key, if it is there, stands after it.
    Before,
}

/// What a reader does next.
#[derive(Clone, Copy, Debug, PartialEq, Eq)]
pub enum Action {
    /// Look up the sentinel of the bucket.
    FindSentinel,
    /// Read the successor of a node.
    LoadNext(NodePtr),
    /// Compare the key of a node with the key that is looked for.
    Inspect(NodePtr),
    /// Publish a node in a hazard slot.
    Acquire(usize, Option<NodePtr>),
    /// Empty a hazard slot.
    Release(usize),
    /// Give the answer: the node that holds the key, if there is one.
    Answer(Option<NodePtr>),
    /// Nothing.
    Finish,
}

/// What an action has brought.
#[derive(Clone, Copy, Debug, PartialEq, Eq)]
pub enum Observation {
    Sentinel(Option<NodePtr>),
    Link(Option<NodePtr>),
    Compared(Placement),
    Done,
}

/// A turn of a search: what it did, and what that brought.
#[derive(Clone, Copy, Debug, PartialEq, Eq)]
pub struct Turn {
    pub action: Action,
    pub seen: Observation,
}

/// How far a reader has come. `pre` is the node whose link is followed, `link` is
/// what was read there, and `cur` is the node to which it led.
#[derive(Clone, Copy, Debug, PartialEq, Eq)]
pub enum Reader {
    Enter,
    Load { pre: NodePtr },
    Publish { pre: NodePtr, link: Option<NodePtr> },
    Confirm { pre: NodePtr, link: Option<NodePtr> },
    Visit { pre: NodePtr, cur: NodePtr },
    Keep { cur: NodePtr },
    LetGo { cur: NodePtr },
    Retry,
    RetryLast,
    AtEnd,
    Miss,
    Past,
    Hit { cur: NodePtr },
    Leave,
    LeaveLast,
    Done,
}

impl Reader {
    /// The action that a reader takes next.
    pub open spec fn wants(self) -> Action {
        match self {
            Reader::Enter => Action::FindSentinel,
            Reader::Load { pre } => Action::LoadNext(pre),
            Reader::Publish { pre, link } => Action::Acquire(CUR_SLOT, link),
            Reader::Confirm { pre, link } => Action::LoadNext(pre),
            Reader::Visit { pre, cur } => Action::Inspect(cur),
            Reader::Keep { cur } => Action::Acquire(PRE_SLOT, Some(cur)),
            Reader::LetGo { cur } => Action::Release(CUR_SLOT),
            Reader::Retry => Action::Release(PRE_SLOT),
            Reader::RetryLast => Action::Release(CUR_SLOT),
            Reader::AtEnd => Action::Release(PRE_SLOT),
            Reader::Miss => Action::Answer(None),
            Reader::Past => Action::Answer(None),
            Reader::Hit { cur } => Action::Answer(Some(cur)),
            Reader::Leave => Action::Release(PRE_SLOT),
            Reader::LeaveLast => Action::Release(CUR_SLOT),
            Reader::Done => Action::Finish,
        }
    }

    /// `seen` is what the next action can bring.
    pub open spec fn accepts(self, seen: Observation) -> bool {
        match self.wants() {
            Action::FindSentinel => seen is Sentinel,
            Action::LoadNext(_) => seen is Link,
            Action::Inspect(_) => seen is Compared,
            Action::Acquire(_, _) => seen is Done,
            Action::Release(_) => seen is Done,
            Action::Answer(_) => seen is Done,
            Action::Finish => false,
        }
    }

    /// The reader after its next action has brought `seen`.
    pub open spec fn after(self, seen: Observation) -> Reader {
        match (self, seen) {
            (Reader::Enter, Observation::Sentinel(None)) => Reader::Miss,
            (Reader::Enter, Observation::Sentinel(Some(head))) => Reader::Load { pre: head },
            (Reader::Load { pre }, Observation::Link(link)) => Reader::Publish { pre, link },
            (Reader::Publish { pre, link }, _) => Reader::Confirm { pre, link },
            (Reader::Confirm { pre, link }, Observation::Link(again)) => if again != link {
                Reader::Retry
            } else {
                match link {
                    None => Reader::AtEnd,
                    Some(cur) => Reader::Visit { pre, cur },
                }
            },
            (Reader::Visit { pre, cur }, Observation::Compared(Placement::Match)) => Reader::Hit {
                cur,
            },
            (Reader::Visit { pre, cur }, Observation::Compared(Placement::Beyond)) => Reader::Past,
            (Reader::Visit { pre, cur }, Observation::Compared(Placement::Before)) => Reader::Keep {
                cur,
            },
            (Reader::Keep { cur }, _) => Reader::LetGo { cur },
            (Reader::LetGo { cur }, _) => Reader::Load { pre: cur },
            (Reader::Retry, _) => Reader::RetryLast,
            (Reader::RetryLast, _) => Reader::Enter,
            (Reader::AtEnd, _) => Reader::Miss,
            (Reader::Miss, _) => Reader::Done,
            (Reader::Past, _) => Reader::Leave,
            (Reader::Hit { cur }, _) => Reader::Leave,
            (Reader::Leave, _) => Reader::LeaveLast,
            (Reader::LeaveLast, _) => Reader::Done,
            (same, _) => same,
        }
    }

    /// The node from which the walk goes on.
    pub open spec fn stands_at(self) -> Option<NodePtr> {
        match self {
            Reader::Load { pre } => Some(pre),
            Reader::Publish { pre, link } => Some(pre),
            Reader::Confirm { pre, link } => Some(pre),
            Reader::Visit { pre, cur } => Some(cur),
            Reader::Keep { cur } => Some(cur),
            Reader::LetGo { cur } => Some(cur),
            _ => None,
        }
    }

    /// The action that this reader takes next.
    pub fn action(self) -> (action: Action)
        ensures
            action == self.wants(),
        opens_invariants none
    {
        match self {
            Reader::Enter => Action::FindSentinel,
            Reader::Load { pre } | Reader::Confirm { pre, .. } => Action::LoadNext(pre),
            Reader::Publish { link, .. } => Action::Acquire(CUR_SLOT, link),
            Reader::Visit { cur, .. } => Action::Inspect(cur),
            Reader::Keep { cur } => Action::Acquire(PRE_SLOT, Some(cur)),
            Reader::Retry | Reader::AtEnd | Reader::Leave => Action::Release(PRE_SLOT),
            Reader::LetGo { .. } | Reader::RetryLast | Reader::LeaveLast => Action::Release(
                CUR_SLOT,
            ),
            Reader::Miss | Reader::Past => Action::Answer(None),
            Reader::Hit { cur } => Action::Answer(Some(cur)),
            Reader::Done => Action::Finish,
        }
    }

    /// Goes on with what the action has brought.
    pub fn advance(self, seen: Observation) -> (next: Reader)
        requires
            self.accepts(seen),
        ensures
            next == self.after(seen),
    {
        match (self, seen) {
            (Reader::Enter, Observation::Sentinel(Some(head))) => Reader::Load { pre: head },
            (Reader::Enter, _) | (Reader::AtEnd, _) => Reader::Miss,
            (Reader::Load { pre }, Observation::Link(link)) => Reader::Publish { pre, link },
            (Reader::Publish { pre, link }, _) => Reader::Confirm { pre, link },
            (Reader::Confirm { pre, link }, Observation::Link(again)) => match (link, again) {
                (None, None) => Reader::AtEnd,
                (Some(cur), Some(again)) => if cur == again {
                    Reader::Visit { pre, cur }
                } else {
                    Reader::Retry
                },
                _ => Reader::Retry,
            },
            (Reader::Visit { cur, .. }, Observation::Compared(placement)) => match placement {
                Placement::Match => Reader::Hit { cur },
                Placement::Beyond => Reader::Past,
                Placement::Before => Reader::Keep { cur },
            },
            (Reader::Keep { cur }, _) => Reader::LetGo { cur },
            (Reader::LetGo { cur }, _) => Reader::Load { pre: cur },
            (Reader::Retry, _) => Reader::RetryLast,
            (Reader::RetryLast, _) => Reader::Enter,
            (Reader::Hit { .. }, _) | (Reader::Past, _) => Reader::Leave,
            (Reader::Leave, _) => Reader::LeaveLast,
            (Reader::Miss, _) | (Reader::LeaveLast, _) => Reader::Done,
            (same, _) => same,
        }
    }
}

/// How far a reader has come after `turns`, from the beginning of its search.
pub open spec fn reader_after(turns: Seq<Turn>) -> Reader
    decreases turns.len(),
{
    if turns.len() == 0 {
        Reader::Enter
    } else {
        reader_after(turns.drop_last()).after(turns.last().seen)
    }
}

/// Each of the turns is the one that a reader takes next.
pub open spec fn is_walk(turns: Seq<Turn>) -> bool
    decreases turns.len(),
{
    turns.len() > 0 ==> {
        let reader = reader_after(turns.drop_last());
        &&& is_walk(turns.drop_last())
        &&& turns.last().action == reader.wants()
        &&& reader.accepts(turns.last().seen)
    }
}

/// What is in a hazard slot after `turns`.
pub open spec fn held_after(turns: Seq<Turn>, slot: usize) -> Option<NodePtr>
    decreases turns.len(),
{
    if turns.len() == 0 {
        None
    } else {
        match turns.last().action {
            Action::Acquire(into, ptr) if into == slot => ptr,
            Action::Release(from) if from == slot => None,
            _ => held_after(turns.drop_last(), slot),
        }
    }
}

/// How many answers have been given in `turns`.
pub open spec fn answers_in(turns: Seq<Turn>) -> nat
    decreases turns.len(),
{
    if turns.len() == 0 {
        0
    } else if turns.last().action is Answer {
        answers_in(turns.drop_last()) + 1
    } else {
        answers_in(turns.drop_last())
    }
}

/// `ptr` was found as the sentinel of the bucket in one of the turns.
pub open spec fn found_as_sentinel(turns: Seq<Turn>, ptr: NodePtr) -> bool {
    turns.contains(Turn { action: Action::FindSentinel, seen: Observation::Sentinel(Some(ptr)) })
}

/// What is in the hazard slots, wherever a walk stands.
proof fn lemma_slots_of_a_walk(turns: Seq<Turn>)
    requires
        is_walk(turns),
    ensures
        ({
            let held_pre = held_after(turns, PRE_SLOT);
            let held_cur = held_after(turns, CUR_SLOT);
            match reader_after(turns) {
                Reader::Enter | Reader::Miss | Reader::Done => held_pre is None
                    && held_cur is None,
                Reader::Load { pre } | Reader::Publish { pre, .. } => held_cur is None && (held_pre
                    == Some(pre) || (held_pre is None && found_as_sentinel(turns, pre))),
                Reader::Confirm { pre, link } => held_cur == link && (held_pre == Some(pre) || (
                held_pre is None && found_as_sentinel(turns, pre))),
                Reader::Visit { cur, .. } | Reader::Keep { cur } | Reader::Hit { cur } => held_cur
                    == Some(cur),
                Reader::LetGo { cur } => held_pre == Some(cur) && held_cur == Some(cur),
                Reader::AtEnd => held_cur is None,
                Reader::RetryLast | Reader::LeaveLast => held_pre is None,
                _ => true,
            }
        }),
        answers_in(turns) == (match reader_after(turns) {
            Reader::Leave | Reader::LeaveLast | Reader::Done => 1nat,
            _ => 0nat,
        }),
    decreases turns.len(),
{
    if turns.len() > 0 {
        let before = turns.drop_last();
        lemma_slots_of_a_walk(before);
        assert forall|ptr: NodePtr| found_as_sentinel(before, ptr) implies found_as_sentinel(
            turns,
            ptr,
        ) by {
            let turn = Turn {
                action: Action::FindSentinel,
                seen: Observation::Sentinel(Some(ptr)),
            };
            let t = choose|t: int| 0 <= t < before.len() && before[t] == turn;
            assert(turns[t] == turn);
        }
        assert(turns[turns.len() - 1] == turns.last());
        match turns.last().seen {
            Observation::Sentinel(Some(ptr)) if reader_after(before) is Enter => {
                assert(found_as_sentinel(turns, ptr));
            },
            _ => {},
        }
    }
}

/// A walk protects what it touches. Before it reads the link of a node it has published
/// the node and still holds it, unless the node is a sentinel; and so with a node that
/// it compares, or answers with. When it is done both slots are empty.
pub proof fn law_a_walk_holds_what_it_touches(turns: Seq<Turn>)
    requires
        is_walk(turns),
    ensures
        match reader_after(turns).wants() {
            Action::LoadNext(ptr) => held_after(turns, PRE_SLOT) == Some(ptr) || found_as_sentinel(
                turns,
                ptr,
            ),
            Action::Inspect(ptr) => held_after(turns, CUR_SLOT) == Some(ptr),
            Action::Answer(Some(ptr)) => held_after(turns, CUR_SLOT) == Some(ptr),
            Action::Answer(None) => true,
            Action::Finish => held_after(turns, PRE_SLOT) is None && held_after(
                turns,
                CUR_SLOT,
            ) is None,
            _ => true,
        },
{
    lemma_slots_of_a_walk(turns);
}

/// A walk that is done has answered once.
pub proof fn law_a_walk_answers_once(turns: Seq<Turn>)
    requires
        is_walk(turns),
        reader_after(turns) is Done,
    ensures
        answers_in(turns) == 1,
{
    lemma_slots_of_a_walk(turns);
}

/// What a walk has done before turn `n` is a walk, and turn `n` goes on from there.
proof fn lemma_start_of_a_walk(turns: Seq<Turn>, n: int)
    requires
        is_walk(turns),
        0 <= n <= turns.len(),
    ensures
        is_walk(turns.take(n)),
        n < turns.len() ==> {
            let reader = reader_after(turns.take(n));
            &&& turns[n].action == reader.wants()
            &&& reader.accepts(turns[n].seen)
            &&& reader_after(turns.take(n + 1)) == reader.after(turns[n].seen)
        },
    decreases turns.len(),
{
    if n == turns.len() {
        assert(turns.take(n) =~= turns);
    } else {
        let before = turns.drop_last();
        assert(before.take(n) =~= turns.take(n));
        lemma_start_of_a_walk(before, n);
        if n == before.len() {
            assert(turns.take(n) =~= before);
            assert(turns.take(n + 1) =~= turns);
            assert(turns[n] == turns.last());
        } else {
            assert(before.take(n + 1) =~= turns.take(n + 1));
        }
    }
}

/// Turn `s` puts `ptr` into the slot, and no turn since has touched the slot.
pub open spec fn holds_since(turns: Seq<Turn>, slot: usize, ptr: NodePtr, s: int) -> bool {
    &&& 0 <= s < turns.len()
    &&& turns[s].action == Action::Acquire(slot, Some(ptr))
    &&& forall|u: int|
        s < u < turns.len() ==> match (#[trigger] turns[u]).action {
            Action::Acquire(into, _) => into != slot,
            Action::Release(from) => from != slot,
            _ => true,
        }
}

/// What is in a slot was put there, and has not been touched since.
proof fn lemma_held_since(turns: Seq<Turn>, slot: usize, ptr: NodePtr) -> (s: int)
    requires
        held_after(turns, slot) == Some(ptr),
    ensures
        holds_since(turns, slot, ptr, s),
    decreases turns.len(),
{
    let last = turns.len() - 1;
    if turns.last().action == Action::Acquire(slot, Some(ptr)) {
        last
    } else {
        let before = turns.drop_last();
        let s = lemma_held_since(before, slot, ptr);
        assert forall|u: int| s < u < turns.len() implies match (#[trigger] turns[u]).action {
            Action::Acquire(into, _) => into != slot,
            Action::Release(from) => from != slot,
            _ => true,
        } by {
            if u < last {
                assert(before[u] == turns[u]);
            }
        }
        s
    }
}

/// A node that a walk answers with was published before, and is not let go until the answer
/// is given. Then both slots are emptied, and the walk is done.
pub proof fn law_a_hit_is_held_until_it_is_answered(turns: Seq<Turn>, t: int, ptr: NodePtr)
    requires
        is_walk(turns),
        reader_after(turns) is Done,
        0 <= t < turns.len(),
        turns[t].action == Action::Answer(Some(ptr)),
    ensures
        held_after(turns.take(t), CUR_SLOT) == Some(ptr),
        exists|s: int| holds_since(turns.take(t), CUR_SLOT, ptr, s),
        turns.len() == t + 3,
        turns[t + 1].action == Action::Release(PRE_SLOT),
        turns[t + 2].action == Action::Release(CUR_SLOT),
{
    lemma_start_of_a_walk(turns, t);
    lemma_slots_of_a_walk(turns.take(t));
    let s = lemma_held_since(turns.take(t), CUR_SLOT, ptr);
    assert(turns.take(turns.len() as int) =~= turns);
    lemma_start_of_a_walk(turns, t + 1);
    if t + 1 < turns.len() {
        lemma_start_of_a_walk(turns, t + 2);
    }
    if t + 2 < turns.len() {
        lemma_start_of_a_walk(turns, t + 3);
    }
}

/// What each turn of a walk brings is of the kind that its action asks for.
pub proof fn law_turns_of_a_walk(turns: Seq<Turn>, t: int)
    requires
        is_walk(turns),
        0 <= t < turns.len(),
    ensures
        match turns[t].action {
            Action::FindSentinel => turns[t].seen is Sentinel,
            Action::LoadNext(_) => turns[t].seen is Link,
            Action::Inspect(_) => turns[t].seen is Compared,
            Action::Finish => false,
            _ => turns[t].seen is Done,
        },
{
    lemma_start_of_a_walk(turns, t);
}

/// A walk that is done answers in one turn, and in no other.
pub proof fn law_a_walk_answers_in_one_turn(turns: Seq<Turn>) -> (t: int)
    requires
        is_walk(turns),
        reader_after(turns) is Done,
    ensures
        0 <= t < turns.len(),
        turns[t].action is Answer,
        forall|u: int| 0 <= u < turns.len() && u != t ==> !(#[trigger] turns[u].action is Answer),
{
    lemma_slots_of_a_walk(turns);
    lemma_one_answer(turns)
}

/// Where one answer is given, one turn gives it.
proof fn lemma_one_answer(turns: Seq<Turn>) -> (t: int)
    requires
        answers_in(turns) == 1,
    ensures
        0 <= t < turns.len(),
        turns[t].action is Answer,
        forall|u: int| 0 <= u < turns.len() && u != t ==> !(#[trigger] turns[u].action is Answer),
    decreases turns.len(),
{
    let before = turns.drop_last();
    assert(forall|u: int| 0 <= u < before.len() ==> #[trigger] before[u] == turns[u]);
    if turns.last().action is Answer {
        lemma_no_answer(before);
        let t = turns.len() - 1;
        assert forall|u: int| 0 <= u < turns.len() && u != t implies !(
        #[trigger] turns[u].action is Answer) by {
            assert(!(before[u].action is Answer));
        }
        t
    } else {
        let t = lemma_one_answer(before);
        assert forall|u: int| 0 <= u < turns.len() && u != t implies !(
        #[trigger] turns[u].action is Answer) by {
            if u < before.len() {
                assert(before[u] == turns[u]);
            }
        }
        t
    }
}

/// Where no answer is given, no turn gives one.
proof fn lemma_no_answer(turns: Seq<Turn>)
    requires
        answers_in(turns) == 0,
    ensures
        forall|u: int| 0 <= u < turns.len() ==> !(#[trigger] turns[u].action is Answer),
    decreases turns.len(),
{
    if turns.len() > 0 {
        let before = turns.drop_last();
        lemma_no_answer(before);
        assert forall|u: int| 0 <= u < turns.len() implies !(
        #[trigger] turns[u].action is Answer) by {
            if u < before.len() {
                assert(before[u] == turns[u]);
            }
        }
    }
}

} // verus!
