//! When a search finds its key while a writer is at work.
//!
//! A reader follows the links, and what is ahead of it stays ahead of it: a node that
//! the writer takes out still leads on, until the writer cuts it off. So a search misses
//! a key that is stored all the while only if the very node at which it stands is cut
//! off.

use crate::hazard::CUR_SLOT;
use crate::hazard::PRE_SLOT;
use crate::listing::Lists;
use crate::node::NodePtr;
use crate::protocol::Thread;
use crate::protocol::Writer;
use crate::reader::answers_in;
use crate::reader::held_after;
use crate::reader::is_walk;
use crate::reader::reader_after;
use crate::reader::Reader;
use crate::reader::Turn;
use crate::shared::is_search;
use crate::shared::lists_in;
use crate::shared::Act;
use crate::shared::Store;
use vstd::prelude::*;

verus! {

/// The acts of a search of thread `id` for `key` that takes these turns.
pub open spec fn acts_of_a_walk<K, V>(id: int, key: K, turns: Seq<Turn>) -> Seq<Act<K, V>>
    decreases turns.len(),
{
    if turns.len() == 0 {
        seq![Act::Begin { id, key }]
    } else {
        acts_of_a_walk(id, key, turns.drop_last()).push(
            Act::Read { id, seen: turns.last().seen },
        )
    }
}

impl<K, V> Store<K, V> {
    /// The writer cuts off the node at which the reader of thread `id` stands.
    pub open spec fn cuts_off(self, act: Act<K, V>, id: int) -> bool {
        &&& act is Sever
        &&& self.world.writer is Detached
        &&& self.world.threads[id].reader.stands_at() == Some(self.world.writer->Detached_cur)
    }

    /// The writer never cuts off the node at which the reader of thread `id` stands.
    pub open spec fn stays_on_the_list(self, acts: Seq<Act<K, V>>, id: int) -> bool {
        forall|t: int|
            0 < t < acts.len() ==> !(#[trigger] self.run(acts.take(t))).cuts_off(acts[t], id)
    }

    /// The link of `ptr` leads to node `j` in the list of `key`, and node `i`, there or
    /// behind, holds the key.
    spec fn leads_to(self, lists: Lists, ptr: NodePtr, key: K, j: int, i: int) -> bool {
        let b = (self.bucket)(key);
        &&& lists.contains_key(b)
        &&& 0 <= j <= i < lists[b].len()
        &&& self.world.next[ptr] == Some(lists[b][j])
        &&& self.entries[lists[b][i]].key == key
    }

    /// The links lead from `ptr` on to the node of `key`.
    spec fn is_ahead(self, lists: Lists, ptr: NodePtr, key: K) -> bool {
        exists|j: int, i: int| self.leads_to(lists, ptr, key, j, i)
    }

    /// The search of thread `id` has its key ahead, or has found it.
    spec fn pursues(self, lists: Lists, id: int) -> bool {
        let key = self.seekers[id].key;
        match self.world.threads[id].reader {
            Reader::Load { pre } => self.is_ahead(lists, pre, key),
            Reader::Publish { pre, link } => self.is_ahead(lists, pre, key),
            Reader::Confirm { pre, link } => self.is_ahead(lists, pre, key),
            Reader::Visit { pre, cur } => self.entries[cur].key == key || self.is_ahead(
                lists,
                cur,
                key,
            ),
            Reader::Keep { cur } => self.is_ahead(lists, cur, key),
            Reader::LetGo { cur } => self.is_ahead(lists, cur, key),
            Reader::AtEnd | Reader::Miss | Reader::Past => false,
            Reader::Leave | Reader::LeaveLast | Reader::Done => self.seekers[id].answers[0] is Some,
            _ => true,
        }
    }

    /// The place of a key that is stored.
    proof fn lemma_place_of_a_key(self, lists: Lists, key: K) -> (i: int)
        requires
            self.is_listing(lists),
            self.lookup(key) is Some,
        ensures
            lists.contains_key((self.bucket)(key)),
            self.heads.contains_key((self.bucket)(key)),
            0 <= i < lists[(self.bucket)(key)].len(),
            self.entries[lists[(self.bucket)(key)][i]].key == key,
    {
        let p = choose|p: NodePtr| lists_in(self.world, self.entries, key, p);
        assert(self.listed(p));
        self.lemma_place(lists, p)
    }

    /// An act that stores no link that leads into a list leaves ahead what is ahead.
    proof fn lemma_stays_ahead_at_rest(self, lists: Lists, act: Act<K, V>, ptr: NodePtr, key: K)
        requires
            self.wf(),
            self.enables(act),
            self.is_listing(lists),
            !(act is Link) && !(act is Unlink),
            self.world.next.contains_key(ptr),
            self.after(act).world.next.contains_key(ptr),
            act is Sever ==> self.world.writer != (Writer::Detached { cur: ptr }),
            self.is_ahead(lists, ptr, key),
        ensures
            self.after(act).is_ahead(self.lists_after(lists, act), ptr, key),
    {
        let new = self.after(act);
        let b = (self.bucket)(key);
        let (j, i) = choose|j: int, i: int| self.leads_to(lists, ptr, key, j, i);
        assert(self.is_list(lists[b], b));
        assert(self.is_member(lists[b], b, i));
        assert(self.heads.dom().contains(b));
        self.lemma_listed_after(act, lists[b][i]);
        assert(new.leads_to(self.lists_after(lists, act), ptr, key, j, i));
    }

    /// A new node does not come between a reader and what is ahead of it, other than as
    /// a node on the way.
    proof fn lemma_stays_ahead_of_a_new_node(self, lists: Lists, ptr: NodePtr, key: K)
        requires
            self.wf(),
            self.is_listing(lists),
            self.world.writer is Prepared,
            self.world.writer->replaced is None,
            self.world.next.contains_key(ptr),
            self.is_ahead(lists, ptr, key),
        ensures
            self.after(Act::Link).is_ahead(self.lists_after(lists, Act::Link), ptr, key),
    {
        let act = Act::<K, V>::Link;
        let new = self.after(act);
        let b = (self.bucket)(key);
        let (j, i) = choose|j: int, i: int| self.leads_to(lists, ptr, key, j, i);
        let list = lists[b];
        let pre = self.world.writer->pre;
        let made = self.world.writer->new;
        let c = self.bucket_of(made);
        let at = self.lemma_place_behind(lists);
        let there = self.lists_after(lists, act);
        assert(self.is_list(list, b));
        assert(self.is_list(lists[c], c));
        assert(self.is_member(list, b, i));
        assert(self.is_member(list, b, j));
        if at > 0 {
            assert(self.is_member(lists[c], c, at - 1));
        }
        if at < lists[c].len() {
            assert(self.is_member(lists[c], c, at));
        }
        self.lemma_listed_after(act, list[i]);
        if c != b {
            assert(new.leads_to(there, ptr, key, j, i));
        } else {
            let longer = list.insert(at, made);
            assert(there[b] == longer);
            let to = if i < at {
                i
            } else {
                i + 1
            };
            assert(longer[to] == list[i]);
            if ptr == pre {
                assert(list[j] == list[at]);
                assert(longer[at] == made);
                assert(new.leads_to(there, ptr, key, at, to));
            } else {
                let from = if j < at {
                    j
                } else {
                    j + 1
                };
                assert(longer[from] == list[j]);
                assert(new.leads_to(there, ptr, key, from, to));
            }
        }
    }

    /// A node that replaces another leads on as that one did.
    proof fn lemma_stays_ahead_of_a_replacement(self, lists: Lists, ptr: NodePtr, key: K)
        requires
            self.wf(),
            self.is_listing(lists),
            self.world.writer is Prepared,
            self.world.writer->replaced is Some,
            self.world.next.contains_key(ptr),
            self.is_ahead(lists, ptr, key),
        ensures
            self.after(Act::Link).is_ahead(self.lists_after(lists, Act::Link), ptr, key),
    {
        let act = Act::<K, V>::Link;
        let new = self.after(act);
        let b = (self.bucket)(key);
        let (j, i) = choose|j: int, i: int| self.leads_to(lists, ptr, key, j, i);
        let list = lists[b];
        let pre = self.world.writer->pre;
        let made = self.world.writer->new;
        let cur = self.world.writer->replaced.unwrap();
        self.lemma_going_node_is_listed(act);
        let c = self.bucket_of(cur);
        let at = self.lemma_place(lists, cur);
        self.lemma_link_to_a_node(lists, pre, cur);
        let there = self.lists_after(lists, act);
        assert(self.is_list(list, b));
        assert(self.is_list(lists[c], c));
        assert(self.is_member(list, b, i));
        assert(self.is_member(list, b, j));
        assert(self.is_member(lists[c], c, at));
        self.lemma_listed_after(act, list[i]);
        self.lemma_listed_after(act, made);
        if c != b {
            assert(new.leads_to(there, ptr, key, j, i));
        } else {
            assert(there[b] == list.update(at, made));
            assert(self.world.next.contains_key(pre));
            if ptr != pre {
                assert(j != at);
            }
            assert(new.leads_to(there, ptr, key, j, i));
        }
    }

    /// Where a node is taken out, the links lead past it to what is ahead.
    proof fn lemma_stays_ahead_of_a_removal(
        self,
        lists: Lists,
        pre: NodePtr,
        cur: NodePtr,
        ptr: NodePtr,
        key: K,
    )
        requires
            self.wf(),
            self.is_listing(lists),
            self.enables(Act::Unlink { pre, cur }),
            self.entries[cur].key != key,
            self.world.next.contains_key(ptr),
            self.is_ahead(lists, ptr, key),
        ensures
            self.after(Act::Unlink { pre, cur }).is_ahead(
                self.lists_after(lists, Act::Unlink { pre, cur }),
                ptr,
                key,
            ),
    {
        let act = Act::<K, V>::Unlink { pre, cur };
        let new = self.after(act);
        let b = (self.bucket)(key);
        let (j, i) = choose|j: int, i: int| self.leads_to(lists, ptr, key, j, i);
        let list = lists[b];
        self.lemma_going_node_is_listed(act);
        let c = self.bucket_of(cur);
        let at = self.lemma_place(lists, cur);
        self.lemma_link_to_a_node(lists, pre, cur);
        let there = self.lists_after(lists, act);
        assert(self.is_list(list, b));
        assert(self.is_list(lists[c], c));
        assert(self.is_member(list, b, i));
        assert(self.is_member(list, b, j));
        assert(self.is_member(lists[c], c, at));
        self.lemma_listed_after(act, list[i]);
        if c != b {
            assert(new.leads_to(there, ptr, key, j, i));
        } else {
            let shorter = list.remove(at);
            assert(there[b] == shorter);
            assert(i != at);
            let to = if i < at {
                i
            } else {
                i - 1
            };
            assert(shorter[to] == list[i]);
            if ptr == pre {
                assert(list[j] == list[at]);
                assert(shorter[at] == list[at + 1]);
                assert(new.leads_to(there, ptr, key, at, to));
            } else {
                assert(self.world.next.contains_key(pre));
                assert(j != at);
                let from = if j < at {
                    j
                } else {
                    j - 1
                };
                assert(shorter[from] == list[j]);
                assert(new.leads_to(there, ptr, key, from, to));
            }
        }
    }

    /// What is ahead of `ptr` stays ahead, unless `ptr` is cut off or the key goes.
    proof fn lemma_stays_ahead(self, lists: Lists, act: Act<K, V>, ptr: NodePtr, key: K)
        requires
            self.wf(),
            self.enables(act),
            self.is_listing(lists),
            self.world.next.contains_key(ptr),
            self.after(act).world.next.contains_key(ptr),
            act is Sever ==> self.world.writer != (Writer::Detached { cur: ptr }),
            self.is_ahead(lists, ptr, key),
            self.after(act).lookup(key) is Some,
        ensures
            self.after(act).is_ahead(self.lists_after(lists, act), ptr, key),
    {
        match act {
            Act::Link => {
                if self.world.writer->replaced is None {
                    self.lemma_stays_ahead_of_a_new_node(lists, ptr, key);
                } else {
                    self.lemma_stays_ahead_of_a_replacement(lists, ptr, key);
                }
            },
            Act::Unlink { pre, cur } => {
                self.law_contents_change_with_one_link(act);
                self.lemma_stays_ahead_of_a_removal(lists, pre, cur, ptr, key);
            },
            _ => {
                self.lemma_stays_ahead_at_rest(lists, act, ptr, key);
            },
        }
    }

    /// A search that has its key ahead goes on to have it ahead, or finds it.
    proof fn lemma_pursuit_goes_on(self, lists: Lists, act: Act<K, V>, id: int)
        requires
            self.wf(),
            self.enables(act),
            self.is_listing(lists),
            self.world.threads.contains_key(id),
            self.pursues(lists, id),
            !(act is Begin && act->Begin_id == id),
            !self.cuts_off(act, id),
            self.lookup(self.seekers[id].key) is Some,
            self.after(act).lookup(self.seekers[id].key) is Some,
        ensures
            self.after(act).pursues(self.lists_after(lists, act), id),
    {
        let new = self.after(act);
        let there = self.lists_after(lists, act);
        let key = self.seekers[id].key;
        let reader = self.world.threads[id].reader;
        self.law_every_act_keeps_the_searches_right(act);
        assert(self.world.thread_wf(self.world.threads[id]));
        assert(self.seeker_wf(id));
        assert(new.world.threads.contains_key(id));
        assert(new.world.thread_wf(new.world.threads[id]));
        assert(new.seekers[id].key == key);
        if act is Read && act->Read_id == id {
            let b = (self.bucket)(key);
            let i = self.lemma_place_of_a_key(lists, key);
            assert(self.is_list(lists[b], b));
            assert(there == lists);
            match reader {
                Reader::Enter => {
                    assert(new.leads_to(lists, self.heads[b], key, 0, i));
                },
                Reader::Confirm { pre, link } => {
                    let (j, k) = choose|j: int, k: int| self.leads_to(lists, pre, key, j, k);
                    let cur = lists[b][j];
                    assert(self.is_member(lists[b], b, j));
                    if j < k {
                        assert(new.leads_to(lists, cur, key, j + 1, k));
                    }
                },
                Reader::Visit { pre, cur } => {
                    if self.entries[cur].key != key {
                        let (j, k) = choose|j: int, k: int| self.leads_to(lists, cur, key, j, k);
                        assert(self.entries.contains_key(cur));
                        if j < k {
                            assert(self.order_of(lists[b][j]) <= self.order_of(lists[b][k]));
                        }
                        assert(new.leads_to(lists, cur, key, j, k));
                    }
                },
                _ => {
                    if reader.stands_at() is Some {
                        let at = reader.stands_at().unwrap();
                        let (j, k) = choose|j: int, k: int| self.leads_to(lists, at, key, j, k);
                        assert(new.leads_to(lists, at, key, j, k));
                    }
                },
            }
        } else if reader.stands_at() is Some {
            let at = reader.stands_at().unwrap();
            if self.is_ahead(lists, at, key) {
                self.lemma_stays_ahead(lists, act, at, key);
            }
        }
    }

    /// A search for a key that is stored all the while has it ahead, or has found it.
    proof fn lemma_pursuit(self, acts: Seq<Act<K, V>>, id: int, key: K)
        requires
            self.wf(),
            self.allows(acts),
            is_search(acts, id, key),
            self.stays_on_the_list(acts, id),
            forall|t: int|
                1 <= t <= acts.len() ==> (#[trigger] self.run(acts.take(t))).lookup(key) is Some,
        ensures
            exists|lists: Lists|
                self.run(acts).is_listing(lists) && #[trigger] self.run(acts).pursues(lists, id),
        decreases acts.len(),
    {
        let before = acts.drop_last();
        let act = acts.last();
        self.law_runs_keep_the_searches_right(acts);
        self.law_runs_keep_the_searches_right(before);
        assert(acts.take(acts.len() as int) =~= acts);
        if before.len() == 0 {
            let lists = choose|lists: Lists| self.run(acts).is_listing(lists);
            assert(self.run(acts).pursues(lists, id));
        } else {
            let last = before.len() as int;
            assert(acts.take(last) =~= before);
            assert forall|t: int| 1 <= t <= before.len() implies (#[trigger] self.run(
                before.take(t),
            )).lookup(key) is Some by {
                assert(before.take(t) =~= acts.take(t));
            }
            assert forall|t: int| 0 < t < before.len() implies !(#[trigger] self.run(
                before.take(t),
            )).cuts_off(before[t], id) by {
                assert(before.take(t) =~= acts.take(t));
            }
            self.lemma_pursuit(before, id, key);
            self.lemma_what_a_search_has_noted(before, id, key);
            let there = self.run(before);
            assert(self.run(acts.take(last)).lookup(key) is Some);
            assert(self.run(acts.take(last + 1)).lookup(key) is Some);
            let lists = choose|lists: Lists|
                there.is_listing(lists) && #[trigger] there.pursues(lists, id);
            assert(!self.run(acts.take(last)).cuts_off(acts[last], id));
            there.lemma_pursuit_goes_on(lists, act, id);
            there.lemma_lists_after(lists, act);
            assert(self.run(acts).pursues(there.lists_after(lists, act), id));
        }
    }

    /// A search that ends without finding its key did not have it at some moment between
    /// its beginning and its end, whatever the writer and other readers did meanwhile,
    /// as long as the writer did not cut off the node at which the search stood.
    pub proof fn law_a_key_that_is_missed_was_absent_meanwhile(
        self,
        acts: Seq<Act<K, V>>,
        id: int,
        key: K,
    )
        requires
            self.wf(),
            self.allows(acts),
            is_search(acts, id, key),
            self.stays_on_the_list(acts, id),
            self.run(acts).world.threads[id].reader is Done,
            self.run(acts).seekers[id].answers.contains(None::<V>),
        ensures
            exists|t: int| #[trigger] self.has_after(acts, t, key, None),
    {
        self.law_runs_keep_the_searches_right(acts);
        self.lemma_what_a_search_has_noted(acts, id, key);
        self.run(acts).law_a_search_answers_once(id);
        if forall|t: int| !(#[trigger] self.has_after(acts, t, key, None)) {
            assert forall|t: int| 1 <= t <= acts.len() implies (#[trigger] self.run(
                acts.take(t),
            )).lookup(key) is Some by {
                assert(!self.has_after(acts, t, key, None));
            }
            self.lemma_pursuit(acts, id, key);
        }
    }

    /// In particular it is right if the writer cuts off no node at all meanwhile.
    pub proof fn law_a_key_that_is_missed_was_absent_if_nothing_was_cut_off(
        self,
        acts: Seq<Act<K, V>>,
        id: int,
        key: K,
    )
        requires
            self.wf(),
            self.allows(acts),
            is_search(acts, id, key),
            forall|t: int| 0 < t < acts.len() ==> !(#[trigger] acts[t] is Sever),
            self.run(acts).world.threads[id].reader is Done,
            self.run(acts).seekers[id].answers.contains(None::<V>),
        ensures
            exists|t: int| #[trigger] self.has_after(acts, t, key, None),
    {
        self.law_a_key_that_is_missed_was_absent_meanwhile(acts, id, key);
    }

    /// A key that is stored all the while, with one value, is found with this value,
    /// whatever the writer does to other keys, as long as it does not cut off the node at
    /// which the search stands.
    pub proof fn law_a_stored_key_is_found(self, acts: Seq<Act<K, V>>, id: int, key: K, value: V)
        requires
            self.wf(),
            self.allows(acts),
            is_search(acts, id, key),
            self.stays_on_the_list(acts, id),
            forall|t: int|
                1 <= t <= acts.len() ==> #[trigger] self.has_after(acts, t, key, Some(value)),
            self.run(acts).world.threads[id].reader is Done,
        ensures
            self.run(acts).seekers[id].answers == seq![Some(value)],
    {
        self.law_runs_keep_the_searches_right(acts);
        self.lemma_what_a_search_has_noted(acts, id, key);
        self.run(acts).law_a_search_answers_once(id);
        let answers = self.run(acts).seekers[id].answers;
        assert(answers.contains(answers[0]));
        match answers[0] {
            Some(found) => {
                self.law_a_value_found_was_stored_meanwhile(acts, id, key, found);
                let t = choose|t: int| #[trigger] self.has_after(acts, t, key, Some(found));
                assert(self.has_after(acts, t, key, Some(value)));
            },
            None => {
                self.law_a_key_that_is_missed_was_absent_meanwhile(acts, id, key);
                let t = choose|t: int| #[trigger] self.has_after(acts, t, key, None);
                assert(self.has_after(acts, t, key, Some(value)));
            },
        }
        assert(answers =~= seq![Some(value)]);
    }

    /// The turns that the search of thread `id` takes in the course of a run.
    pub open spec fn turns_of(self, acts: Seq<Act<K, V>>, id: int) -> Seq<Turn>
        decreases acts.len(),
    {
        if acts.len() == 0 {
            Seq::empty()
        } else {
            let before = acts.drop_last();
            match acts.last() {
                Act::Begin { id: other, key } if other == id => Seq::empty(),
                Act::Read { id: other, seen } if other == id => self.turns_of(before, id).push(
                    Turn { action: self.run(before).world.threads[id].reader.wants(), seen },
                ),
                _ => self.turns_of(before, id),
            }
        }
    }

    /// Whatever goes on around it, a search takes the turns of a walk. How far it has come,
    /// what is in its hazard slots, and how many answers it has given, these turns tell.
    pub proof fn law_a_search_is_a_walk(self, acts: Seq<Act<K, V>>, id: int, key: K)
        requires
            self.wf(),
            self.allows(acts),
            is_search(acts, id, key),
        ensures
            is_walk(self.turns_of(acts, id)),
            self.run(acts).world.threads.contains_key(id),
            self.run(acts).world.threads[id] == (Thread {
                reader: reader_after(self.turns_of(acts, id)),
                pre_slot: held_after(self.turns_of(acts, id), PRE_SLOT),
                cur_slot: held_after(self.turns_of(acts, id), CUR_SLOT),
            }),
            self.run(acts).seekers[id].key == key,
            self.run(acts).seekers[id].answers.len() == answers_in(self.turns_of(acts, id)),
        decreases acts.len(),
    {
        let before = acts.drop_last();
        self.law_runs_keep_the_searches_right(before);
        if before.len() > 0 {
            self.law_a_search_is_a_walk(before, id, key);
            let there = self.run(before);
            assert(there.world.threads.contains_key(id));
            assert(acts[acts.len() - 1] == acts.last());
            if acts.last() is Read && acts.last()->Read_id == id {
                assert(self.turns_of(acts, id).drop_last() =~= self.turns_of(before, id));
            }
        }
    }

    /// A walk that sees what is there is a search of this memory: its turns are the
    /// reads of the search, one by one, and what the walk has put into the hazard slots
    /// is what the search protects. It changes nothing else.
    pub proof fn law_a_walk_is_a_search(self, id: int, key: K, turns: Seq<Turn>)
        requires
            self.wf(),
            !self.world.threads.contains_key(id),
            is_walk(turns),
            forall|t: int|
                0 <= t < turns.len() ==> self.shows(
                    (#[trigger] turns[t]).action,
                    key,
                    turns[t].seen,
                ),
        ensures
            is_search(acts_of_a_walk::<K, V>(id, key, turns), id, key),
            self.allows(acts_of_a_walk(id, key, turns)),
            self.run(acts_of_a_walk(id, key, turns)).world.threads.contains_key(id),
            self.run(acts_of_a_walk(id, key, turns)).world.threads[id] == (Thread {
                reader: reader_after(turns),
                pre_slot: held_after(turns, PRE_SLOT),
                cur_slot: held_after(turns, CUR_SLOT),
            }),
            self.run(acts_of_a_walk(id, key, turns)).seekers[id].key == key,
            self.turns_of(acts_of_a_walk(id, key, turns), id) == turns,
            self.run(acts_of_a_walk(id, key, turns)).covers(self),
            self.run(acts_of_a_walk(id, key, turns)).world.next == self.world.next,
            self.run(acts_of_a_walk(id, key, turns)).entries == self.entries,
        decreases turns.len(),
    {
        let acts = acts_of_a_walk::<K, V>(id, key, turns);
        if turns.len() == 0 {
            let none = Seq::<Act<K, V>>::empty();
            assert(acts =~= none.push(Act::Begin { id, key }));
            self.lemma_run_act(none, Act::Begin { id, key });
            self.law_readers_leave_the_writer_alone(self, Act::Begin { id, key });
        } else {
            let before = turns.drop_last();
            let act = Act::<K, V>::Read { id, seen: turns.last().seen };
            assert(turns[turns.len() - 1] == turns.last());
            assert(forall|t: int| 0 <= t < before.len() ==> #[trigger] before[t] == turns[t]);
            self.law_a_walk_is_a_search(id, key, before);
            let there = self.run(acts_of_a_walk(id, key, before));
            self.law_runs_keep_the_searches_right(acts_of_a_walk(id, key, before));
            self.lemma_run_act(acts_of_a_walk(id, key, before), act);
            assert(acts.drop_last() =~= acts_of_a_walk(id, key, before));
            assert(self.turns_of(acts, id) =~= turns);
            there.law_readers_leave_the_writer_alone(self, act);
        }
    }
}

} // verus!
