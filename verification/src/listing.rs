//! The lists of shared memory: which nodes follow upon the sentinel of each bucket, in
//! which order, at every moment of the interleaving of [`shared`].
//!
//! [`shared`]: crate::shared

use crate::layout::link;
use crate::node::NodePtr;
use crate::protocol::Writer;
use crate::shared::Act;
use crate::shared::Store;
use vstd::prelude::*;

verus! {

/// The nodes of each bucket, in the order in which the links lead to them.
pub type Lists = Map<int, Seq<NodePtr>>;

impl<K, V> Store<K, V> {
    /// The split order key of the node at `ptr`.
    pub open spec fn order_of(self, ptr: NodePtr) -> u64 {
        (self.order)(self.entries[ptr].key)
    }

    /// The bucket of the node at `ptr`.
    pub open spec fn bucket_of(self, ptr: NodePtr) -> int {
        (self.bucket)(self.entries[ptr].key)
    }

    /// Behind `pre` is a place for `key`: `pre` is in the bucket of the key, and what
    /// comes before and behind the place is in split order with it.
    pub open spec fn fits(self, pre: NodePtr, key: K) -> bool {
        &&& if self.world.sentinels.contains(pre) {
            self.heads.contains_key((self.bucket)(key)) && self.heads[(self.bucket)(key)] == pre
        } else {
            self.bucket_of(pre) == (self.bucket)(key) && self.order_of(pre) <= (self.order)(key)
        }
        &&& match self.world.next[pre] {
            Some(next) => (self.order)(key) <= self.order_of(next),
            None => true,
        }
    }

    /// Node `i` of `list` is a node of bucket `b`, and its link leads to the next one.
    pub open spec fn is_member(self, list: Seq<NodePtr>, b: int, i: int) -> bool {
        &&& self.listed(list[i])
        &&& self.bucket_of(list[i]) == b
        &&& self.world.next[list[i]] == link(list, i + 1)
    }

    /// The links lead from the sentinel of bucket `b` along `list` to its end. The nodes
    /// belong to the bucket, are in split order, and occur once.
    pub open spec fn is_list(self, list: Seq<NodePtr>, b: int) -> bool {
        &&& self.world.next[self.heads[b]] == link(list, 0)
        &&& forall|i: int| 0 <= i < list.len() ==> #[trigger] self.is_member(list, b, i)
        &&& forall|i: int, j: int|
            0 <= i < j < list.len() ==> self.order_of(#[trigger] list[i]) <= self.order_of(
                #[trigger] list[j],
            ) && list[i] != list[j]
    }

    /// A link leads to a node that comes no earlier in split order, also where it leads
    /// from a node that the writer holds outside of the lists.
    pub open spec fn links_are_in_order(self) -> bool {
        forall|ptr: NodePtr| #[trigger]
            self.entries.contains_key(ptr) ==> match self.world.next[ptr] {
                Some(next) => self.order_of(ptr) <= self.order_of(next),
                None => true,
            }
    }

    /// `lists` are the lists of the buckets, and every node of a list is in the one of
    /// its bucket.
    pub open spec fn is_listing(self, lists: Lists) -> bool {
        &&& lists.dom() == self.heads.dom()
        &&& forall|b: int, c: int|
            #![trigger self.heads[b], self.heads[c]]
            self.heads.contains_key(b) && self.heads.contains_key(c) && b != c ==> self.heads[b]
                != self.heads[c]
        &&& forall|b: int| #[trigger] lists.contains_key(b) ==> self.is_list(lists[b], b)
        &&& forall|ptr: NodePtr| #[trigger]
            self.listed(ptr) ==> lists.contains_key(self.bucket_of(ptr)) && lists[self.bucket_of(
                ptr,
            )].contains(ptr)
    }

    /// Every node of a list can be reached from the sentinel of its bucket, in split
    /// order.
    pub open spec fn in_order(self) -> bool {
        &&& self.links_are_in_order()
        &&& exists|lists: Lists| self.is_listing(lists)
    }

    /// The node before place `i` of the list of bucket `b`.
    pub open spec fn before(self, list: Seq<NodePtr>, b: int, i: int) -> NodePtr {
        if i == 0 {
            self.heads[b]
        } else {
            list[i - 1]
        }
    }

    /// Place `i` of the list is behind `pre`.
    pub open spec fn is_behind(self, list: Seq<NodePtr>, b: int, pre: NodePtr, i: int) -> bool {
        0 <= i <= list.len() && self.before(list, b, i) == pre
    }

    /// The lists after an act. They change when a link to a new node is stored, and when
    /// the link to a node is taken away.
    pub open spec fn lists_after(self, lists: Lists, act: Act<K, V>) -> Lists {
        match (act, self.world.writer) {
            (Act::MakeSentinel { bucket, ptr }, _) => lists.insert(bucket, Seq::empty()),
            (Act::Link, Writer::Prepared { pre, new, replaced: None }) => {
                let b = self.bucket_of(new);
                let i = choose|i: int| self.is_behind(lists[b], b, pre, i);
                lists.insert(b, lists[b].insert(i, new))
            },
            (Act::Link, Writer::Prepared { pre, new, replaced: Some(cur) }) => {
                let b = self.bucket_of(cur);
                lists.insert(b, lists[b].update(lists[b].index_of(cur), new))
            },
            (Act::Unlink { pre, cur }, _) => {
                let b = self.bucket_of(cur);
                lists.insert(b, lists[b].remove(lists[b].index_of(cur)))
            },
            _ => lists,
        }
    }

    /// The place of a node in the list of its bucket.
    pub proof fn lemma_place(self, lists: Lists, ptr: NodePtr) -> (i: int)
        requires
            self.is_listing(lists),
            self.listed(ptr),
        ensures
            lists.contains_key(self.bucket_of(ptr)),
            self.heads.contains_key(self.bucket_of(ptr)),
            i == lists[self.bucket_of(ptr)].index_of(ptr),
            0 <= i < lists[self.bucket_of(ptr)].len(),
            lists[self.bucket_of(ptr)][i] == ptr,
    {
        let b = self.bucket_of(ptr);
        assert(self.heads.dom().contains(b));
        lists[b].index_of(ptr)
    }

    /// The one link that leads to a node comes from the node before it.
    pub proof fn lemma_link_to_a_node(self, lists: Lists, pre: NodePtr, cur: NodePtr)
        requires
            self.wf(),
            self.is_listing(lists),
            self.listed(cur),
            self.world.live(pre),
            !self.world.outside(pre),
            self.world.next[pre] == Some(cur),
        ensures
            self.is_behind(
                lists[self.bucket_of(cur)],
                self.bucket_of(cur),
                pre,
                lists[self.bucket_of(cur)].index_of(cur),
            ),
    {
        let b = self.bucket_of(cur);
        let i = self.lemma_place(lists, cur);
        let q = self.before(lists[b], b, i);
        assert(self.is_list(lists[b], b));
        assert(self.world.sentinels.contains(self.heads[b]));
        if i > 0 {
            assert(self.is_member(lists[b], b, i - 1));
        }
        assert(self.world.next.contains_key(q));
        assert(self.world.next.contains_key(pre));
        assert(self.world.next[q] == Some(cur));
    }

    /// The node that a new node comes behind, and its place.
    pub proof fn lemma_place_behind(self, lists: Lists) -> (i: int)
        requires
            self.wf(),
            self.is_listing(lists),
            self.world.writer is Prepared,
            self.world.writer->replaced is None,
        ensures
            ({
                let b = self.bucket_of(self.world.writer->new);
                &&& lists.contains_key(b)
                &&& self.heads.contains_key(b)
                &&& i == choose|i: int| self.is_behind(lists[b], b, self.world.writer->pre, i)
                &&& self.is_behind(lists[b], b, self.world.writer->pre, i)
            }),
    {
        let pre = self.world.writer->pre;
        let b = self.bucket_of(self.world.writer->new);
        if self.world.sentinels.contains(pre) {
            assert(lists.dom().contains(b));
            assert(self.is_behind(lists[b], b, pre, 0));
        } else {
            assert(self.listed(pre));
            let i = self.lemma_place(lists, pre);
            assert(self.is_behind(lists[b], b, pre, i + 1));
        }
        choose|i: int| self.is_behind(lists[b], b, pre, i)
    }

    /// An act that does not concern a list leaves it a list.
    proof fn lemma_other_list(self, act: Act<K, V>, list: Seq<NodePtr>, b: int)
        requires
            self.wf(),
            self.enables(act),
            self.heads.contains_key(b),
            self.is_list(list, b),
            self.after(act).world.next[self.heads[b]] == self.world.next[self.heads[b]],
            forall|i: int|
                0 <= i < list.len() ==> self.listed_after(act, #[trigger] list[i])
                    && self.after(act).world.next[list[i]] == self.world.next[list[i]],
        ensures
            self.after(act).is_list(list, b),
    {
        let new = self.after(act);
        assert(self.world.sentinels.contains(self.heads[b]));
        assert(new.heads[b] == self.heads[b]);
        assert forall|i: int| 0 <= i < list.len() implies new.listed(#[trigger] list[i])
            && new.entries[list[i]] == self.entries[list[i]] by {
            self.lemma_listed_after(act, list[i]);
        }
        assert forall|i: int| 0 <= i < list.len() implies #[trigger] new.is_member(
            list,
            b,
            i,
        ) by {
            assert(self.is_member(list, b, i));
        }
    }

    /// The lists after an act that stores no link that leads into a list.
    proof fn lemma_lists_stay(self, lists: Lists, act: Act<K, V>)
        requires
            self.wf(),
            self.enables(act),
            self.is_listing(lists),
            !(act is Link) && !(act is Unlink),
        ensures
            self.after(act).is_listing(self.lists_after(lists, act)),
    {
        let new = self.after(act);
        let there = self.lists_after(lists, act);
        assert(there.dom() =~= new.heads.dom());
        assert forall|b: int, c: int|
            #![trigger new.heads[b], new.heads[c]]
            new.heads.contains_key(b) && new.heads.contains_key(c) && b != c implies new.heads[b]
            != new.heads[c] by {
            if self.heads.contains_key(b) {
                assert(self.world.sentinels.contains(self.heads[b]));
            }
            if self.heads.contains_key(c) {
                assert(self.world.sentinels.contains(self.heads[c]));
            }
        }
        assert forall|b: int| #[trigger] there.contains_key(b) implies new.is_list(there[b], b) by {
            if act is MakeSentinel && act->bucket == b {
            } else {
                assert(lists.contains_key(b));
                assert(self.heads.dom().contains(b));
                assert(self.world.sentinels.contains(self.heads[b]));
                assert forall|i: int| 0 <= i < lists[b].len() implies self.listed_after(
                    act,
                    #[trigger] lists[b][i],
                ) && new.world.next[lists[b][i]] == self.world.next[lists[b][i]] by {
                    assert(self.is_member(lists[b], b, i));
                }
                self.lemma_other_list(act, lists[b], b);
            }
        }
        assert forall|ptr: NodePtr| #[trigger] new.listed(ptr) implies there.contains_key(
            new.bucket_of(ptr),
        ) && there[new.bucket_of(ptr)].contains(ptr) by {
            self.lemma_listed_after(act, ptr);
            assert(self.listed(ptr));
        }
    }

    /// The nodes of a list, and what follows upon its sentinel, are the same in `new`.
    spec fn agrees_on(self, new: Self, list: Seq<NodePtr>, b: int) -> bool {
        &&& new.order == self.order
        &&& new.bucket == self.bucket
        &&& new.heads[b] == self.heads[b]
        &&& forall|k: int|
            0 <= k < list.len() ==> new.entries[#[trigger] list[k]] == self.entries[list[k]]
                && list[k] != self.heads[b]
    }

    /// A list with another node in place `i` is a list.
    proof fn lemma_longer_list(self, new: Self, list: Seq<NodePtr>, b: int, i: int, made: NodePtr)
        requires
            self.is_list(list, b),
            self.agrees_on(new, list, b),
            0 <= i <= list.len(),
            forall|k: int| 0 <= k < list.len() ==> new.listed(#[trigger] list[k]) && list[k] != made,
            made != self.heads[b],
            new.listed(made),
            new.bucket_of(made) == b,
            i > 0 ==> self.order_of(list[i - 1]) <= new.order_of(made),
            i < list.len() ==> new.order_of(made) <= self.order_of(list[i]),
            self.world.next[made] == link(list, i),
            new.world.next == self.world.next.insert(self.before(list, b, i), Some(made)),
        ensures
            new.is_list(list.insert(i, made), b),
    {
        let longer = list.insert(i, made);
        assert forall|k: int| 0 <= k < longer.len() implies #[trigger] new.is_member(
            longer,
            b,
            k,
        ) by {
            if k < i {
                assert(self.is_member(list, b, k));
                assert(longer[k] == list[k]);
                if k + 1 < i {
                    assert(longer[k + 1] == list[k + 1]);
                    assert(list[k] != list[i - 1]);
                }
            } else if k > i {
                assert(self.is_member(list, b, k - 1));
                assert(longer[k] == list[k - 1]);
                if i > 0 {
                    assert(list[k - 1] != list[i - 1]);
                }
                if k + 1 < longer.len() {
                    assert(longer[k + 1] == list[k]);
                }
            } else if i < list.len() {
                assert(longer[i + 1] == list[i]);
            }
        }
        assert forall|j: int, k: int| 0 <= j < k < longer.len() implies new.order_of(
            #[trigger] longer[j],
        ) <= new.order_of(#[trigger] longer[k]) && longer[j] != longer[k] by {
            if j == i {
                assert(longer[k] == list[k - 1]);
                if k - 1 > i {
                    assert(self.order_of(list[i]) <= self.order_of(list[k - 1]));
                }
            } else if k == i {
                assert(longer[j] == list[j]);
                if j < i - 1 {
                    assert(self.order_of(list[j]) <= self.order_of(list[i - 1]));
                }
            } else {
                let from = if j < i {
                    j
                } else {
                    j - 1
                };
                let to = if k < i {
                    k
                } else {
                    k - 1
                };
                assert(longer[j] == list[from] && longer[k] == list[to]);
            }
        }
    }

    /// A list with another node in place of node `i` is a list.
    proof fn lemma_list_like(self, new: Self, list: Seq<NodePtr>, b: int, i: int, made: NodePtr)
        requires
            self.is_list(list, b),
            self.agrees_on(new, list, b),
            0 <= i < list.len(),
            forall|k: int|
                0 <= k < list.len() ==> (k != i ==> new.listed(#[trigger] list[k])) && list[k]
                    != made,
            made != self.heads[b],
            new.listed(made),
            new.bucket_of(made) == b,
            new.order_of(made) == self.order_of(list[i]),
            self.world.next[made] == link(list, i + 1),
            new.world.next == self.world.next.insert(self.before(list, b, i), Some(made)),
        ensures
            new.is_list(list.update(i, made), b),
    {
        let other = list.update(i, made);
        assert forall|k: int| 0 <= k < other.len() implies #[trigger] new.is_member(
            other,
            b,
            k,
        ) by {
            assert(self.is_member(list, b, k));
            if k != i {
                assert(other[k] == list[k]);
                if i > 0 && k != i - 1 {
                    assert(list[k] != list[i - 1]);
                }
            }
            if k + 1 < list.len() && k + 1 != i {
                assert(other[k + 1] == list[k + 1]);
            }
        }
        assert forall|j: int, k: int| 0 <= j < k < other.len() implies new.order_of(
            #[trigger] other[j],
        ) <= new.order_of(#[trigger] other[k]) && other[j] != other[k] by {
            assert(self.order_of(list[j]) <= self.order_of(list[k]) && list[j] != list[k]);
        }
    }

    /// A list without its node `i` is a list.
    proof fn lemma_shorter_list(self, new: Self, list: Seq<NodePtr>, b: int, i: int)
        requires
            self.is_list(list, b),
            self.agrees_on(new, list, b),
            0 <= i < list.len(),
            forall|k: int| 0 <= k < list.len() && k != i ==> new.listed(#[trigger] list[k]),
            new.world.next == self.world.next.insert(
                self.before(list, b, i),
                self.world.next[list[i]],
            ),
        ensures
            new.is_list(list.remove(i), b),
    {
        let shorter = list.remove(i);
        assert(self.is_member(list, b, i));
        assert forall|k: int| 0 <= k < shorter.len() implies #[trigger] new.is_member(
            shorter,
            b,
            k,
        ) by {
            assert(self.is_member(list, b, i));
            if k < i {
                assert(self.is_member(list, b, k));
                assert(shorter[k] == list[k]);
                if k + 1 < i {
                    assert(shorter[k + 1] == list[k + 1]);
                    assert(list[k] != list[i - 1]);
                } else if i < shorter.len() {
                    assert(shorter[i] == list[i + 1]);
                }
            } else {
                assert(self.is_member(list, b, k + 1));
                assert(shorter[k] == list[k + 1]);
                if i > 0 {
                    assert(list[k + 1] != list[i - 1]);
                }
                if k + 1 < shorter.len() {
                    assert(shorter[k + 1] == list[k + 2]);
                }
            }
        }
        assert forall|j: int, k: int| 0 <= j < k < shorter.len() implies new.order_of(
            #[trigger] shorter[j],
        ) <= new.order_of(#[trigger] shorter[k]) && shorter[j] != shorter[k] by {
            let from = if j < i {
                j
            } else {
                j + 1
            };
            let to = if k < i {
                k
            } else {
                k + 1
            };
            assert(self.order_of(list[from]) <= self.order_of(list[to]) && list[from] != list[to]);
        }
    }

    /// A link that is stored behind `pre`, in the list of bucket `b`, concerns this list
    /// alone.
    proof fn lemma_one_list(self, lists: Lists, act: Act<K, V>, b: int, pre: NodePtr, i: int)
        requires
            self.wf(),
            self.enables(act),
            self.is_listing(lists),
            lists.contains_key(b),
            self.is_behind(lists[b], b, pre, i),
            self.after(act).heads == self.heads,
            self.after(act).world.next == self.world.next.insert(
                pre,
                self.after(act).world.next[pre],
            ),
            forall|ptr: NodePtr| #[trigger]
                self.listed(ptr) && self.bucket_of(ptr) != b ==> self.listed_after(act, ptr),
        ensures
            forall|c: int| #[trigger]
                lists.contains_key(c) && c != b ==> self.after(act).is_list(lists[c], c),
            forall|k: int|
                0 <= k < lists[b].len() ==> self.listed(#[trigger] lists[b][k]) && lists[b][k]
                    != self.heads[b],
    {
        let new = self.after(act);
        assert(self.is_list(lists[b], b));
        assert(self.heads.dom().contains(b));
        assert(self.world.sentinels.contains(self.heads[b]));
        assert forall|k: int| 0 <= k < lists[b].len() implies self.listed(
            #[trigger] lists[b][k],
        ) && self.bucket_of(lists[b][k]) == b && lists[b][k] != self.heads[b] by {
            assert(self.is_member(lists[b], b, k));
        }
        assert forall|c: int| #[trigger] lists.contains_key(c) && c != b implies new.is_list(
            lists[c],
            c,
        ) by {
            assert(self.heads.dom().contains(c));
            assert(self.heads[c] != self.heads[b]);
            assert(self.world.sentinels.contains(self.heads[c]));
            assert(self.is_list(lists[c], c));
            assert forall|k: int| 0 <= k < lists[c].len() implies self.listed_after(
                act,
                #[trigger] lists[c][k],
            ) && new.world.next[lists[c][k]] == self.world.next[lists[c][k]] by {
                assert(self.is_member(lists[c], c, k));
            }
            self.lemma_other_list(act, lists[c], c);
        }
    }

    /// The lists after the link to a new node is stored.
    proof fn lemma_lists_with(self, lists: Lists)
        requires
            self.wf(),
            self.is_listing(lists),
            self.world.writer is Prepared,
            self.world.writer->replaced is None,
        ensures
            self.after(Act::Link).is_listing(self.lists_after(lists, Act::Link)),
    {
        let act = Act::<K, V>::Link;
        let new = self.after(act);
        let pre = self.world.writer->pre;
        let made = self.world.writer->new;
        let b = self.bucket_of(made);
        let i = self.lemma_place_behind(lists);
        let list = lists[b];
        let there = self.lists_after(lists, act);
        assert(there == lists.insert(b, list.insert(i, made)));
        assert(there.dom() =~= new.heads.dom());
        self.lemma_one_list(lists, act, b, pre, i);
        assert forall|k: int| 0 <= k < list.len() implies new.listed(#[trigger] list[k]) && list[k]
            != made && new.entries[list[k]] == self.entries[list[k]] by {
            self.lemma_listed_after(act, list[k]);
        }
        self.lemma_listed_after(act, made);
        assert(self.world.sentinels.contains(self.heads[b]));
        assert(self.is_list(list, b));
        if i > 0 {
            assert(self.is_member(list, b, i - 1));
        }
        self.lemma_longer_list(new, list, b, i, made);
        assert forall|ptr: NodePtr| #[trigger] new.listed(ptr) implies there.contains_key(
            new.bucket_of(ptr),
        ) && there[new.bucket_of(ptr)].contains(ptr) by {
            self.lemma_listed_after(act, ptr);
            if ptr == made {
                assert(list.insert(i, made)[i] == made);
            } else {
                let k = self.lemma_place(lists, ptr);
                if self.bucket_of(ptr) == b {
                    assert(list.insert(i, made)[if k < i {
                        k
                    } else {
                        k + 1
                    }] == ptr);
                }
            }
        }
    }

    /// The lists after a node has been replaced.
    proof fn lemma_lists_with_replacement(self, lists: Lists)
        requires
            self.wf(),
            self.is_listing(lists),
            self.world.writer is Prepared,
            self.world.writer->replaced is Some,
        ensures
            self.after(Act::Link).is_listing(self.lists_after(lists, Act::Link)),
    {
        let act = Act::<K, V>::Link;
        let new = self.after(act);
        let pre = self.world.writer->pre;
        let made = self.world.writer->new;
        let cur = self.world.writer->replaced.unwrap();
        self.lemma_going_node_is_listed(act);
        let b = self.bucket_of(cur);
        let i = self.lemma_place(lists, cur);
        let list = lists[b];
        let there = self.lists_after(lists, act);
        self.lemma_link_to_a_node(lists, pre, cur);
        assert(there == lists.insert(b, list.update(i, made)));
        assert(there.dom() =~= new.heads.dom());
        self.lemma_one_list(lists, act, b, pre, i);
        assert(self.is_list(list, b));
        assert forall|k: int| 0 <= k < list.len() implies (k != i ==> new.listed(
            #[trigger] list[k],
        )) && list[k] != made && new.entries[list[k]] == self.entries[list[k]] by {
            self.lemma_listed_after(act, list[k]);
            if k != i {
                assert(list[k] != list[i]);
            }
        }
        self.lemma_listed_after(act, made);
        assert(self.world.sentinels.contains(self.heads[b]));
        assert(self.is_member(list, b, i));
        self.lemma_list_like(new, list, b, i, made);
        assert forall|ptr: NodePtr| #[trigger] new.listed(ptr) implies there.contains_key(
            new.bucket_of(ptr),
        ) && there[new.bucket_of(ptr)].contains(ptr) by {
            self.lemma_listed_after(act, ptr);
            if ptr == made {
                assert(list.update(i, made)[i] == made);
            } else {
                let k = self.lemma_place(lists, ptr);
                if self.bucket_of(ptr) == b {
                    assert(list.update(i, made)[k] == ptr);
                }
            }
        }
    }

    /// The lists after the link to a node has been taken away.
    proof fn lemma_lists_without(self, lists: Lists, pre: NodePtr, cur: NodePtr)
        requires
            self.wf(),
            self.is_listing(lists),
            self.enables(Act::Unlink { pre, cur }),
        ensures
            self.after(Act::Unlink { pre, cur }).is_listing(
                self.lists_after(lists, Act::Unlink { pre, cur }),
            ),
    {
        let act = Act::<K, V>::Unlink { pre, cur };
        let new = self.after(act);
        self.lemma_going_node_is_listed(act);
        let b = self.bucket_of(cur);
        let i = self.lemma_place(lists, cur);
        let list = lists[b];
        let there = self.lists_after(lists, act);
        self.lemma_link_to_a_node(lists, pre, cur);
        assert(there == lists.insert(b, list.remove(i)));
        assert(there.dom() =~= new.heads.dom());
        self.lemma_one_list(lists, act, b, pre, i);
        assert(self.is_list(list, b));
        assert forall|k: int| 0 <= k < list.len() implies (k != i ==> new.listed(
            #[trigger] list[k],
        )) && new.entries[list[k]] == self.entries[list[k]] by {
            self.lemma_listed_after(act, list[k]);
            if k != i {
                assert(list[k] != list[i]);
            }
        }
        self.lemma_shorter_list(new, list, b, i);
        assert forall|ptr: NodePtr| #[trigger] new.listed(ptr) implies there.contains_key(
            new.bucket_of(ptr),
        ) && there[new.bucket_of(ptr)].contains(ptr) by {
            self.lemma_listed_after(act, ptr);
            let k = self.lemma_place(lists, ptr);
            if self.bucket_of(ptr) == b {
                assert(list.remove(i)[if k < i {
                    k
                } else {
                    k - 1
                }] == ptr);
            }
        }
    }

    /// Every act leads from lists to lists.
    pub proof fn lemma_lists_after(self, lists: Lists, act: Act<K, V>)
        requires
            self.wf(),
            self.enables(act),
            self.is_listing(lists),
        ensures
            self.after(act).is_listing(self.lists_after(lists, act)),
    {
        match act {
            Act::Link => {
                if self.world.writer->replaced is None {
                    self.lemma_lists_with(lists);
                } else {
                    self.lemma_lists_with_replacement(lists);
                }
            },
            Act::Unlink { pre, cur } => {
                self.lemma_lists_without(lists, pre, cur);
            },
            _ => {
                self.lemma_lists_stay(lists, act);
            },
        }
    }

    /// Every act leaves the nodes in split order, within reach of their sentinels.
    pub proof fn lemma_stays_in_order(self, act: Act<K, V>)
        requires
            self.wf(),
            self.enables(act),
        ensures
            self.after(act).in_order(),
    {
        let new = self.after(act);
        let lists = choose|lists: Lists| self.is_listing(lists);
        self.lemma_lists_after(lists, act);
        self.lemma_going_node_is_listed(act);
        assert forall|ptr: NodePtr| #[trigger] new.entries.contains_key(ptr) implies match new.world.next[ptr] {
            Some(next) => new.order_of(ptr) <= new.order_of(next),
            None => true,
        } by {
            self.world.law_every_step_keeps_memory_safe(act.step());
            assert(new.world.next.contains_key(ptr));
            if self.entries.contains_key(ptr) {
                assert(self.world.next.contains_key(ptr));
            }
            match act {
                Act::Unlink { pre, cur } => {
                    assert(self.entries.contains_key(cur));
                    assert(self.world.next.contains_key(cur));
                },
                Act::PrepareReplacement { pre, new: made, cur, entry } => {
                    assert(self.world.next.contains_key(pre));
                    assert(self.entries.contains_key(cur));
                    assert(self.world.next.contains_key(cur));
                },
                Act::Prepare { pre, new: made, entry } => {
                    assert(self.world.next.contains_key(pre));
                },
                _ => {},
            }
        }
    }
}

} // verus!
