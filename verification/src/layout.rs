//! How the buckets lie in node memory, and what every change of them keeps.

use crate::bits::is_power_of_two;
use crate::bits::law_reversed_is_its_own_inverse;
use crate::bits::law_split_order_tells_nodes_from_sentinels;
use crate::bits::reversed;
use crate::bits::split_order;
use crate::bits::MASK;
use crate::hash_key::HashKey;
use crate::node::Node;
use crate::node::NodePtr;
use std::collections::hash_map::RandomState;
use vstd::prelude::*;

verus! {

/// The successor that the list `chain` gives to its place `i`.
pub open spec fn link(chain: Seq<NodePtr>, i: int) -> Option<NodePtr> {
    if 0 <= i < chain.len() {
        Some(chain[i])
    } else {
        None
    }
}

/// What a write does to a list.
pub enum Change {
    /// Nothing.
    Nothing,
    /// A node comes in.
    Addition,
    /// A node gives way to another.
    Replacement,
    /// A node goes.
    Removal,
}

/// How many nodes the lists hold together.
pub open spec fn nodes_in(chains: Seq<Seq<NodePtr>>) -> nat
    decreases chains.len(),
{
    if chains.len() == 0 {
        0
    } else {
        nodes_in(chains.drop_last()) + chains.last().len()
    }
}

/// Exchanging one list for another changes the number of nodes by the difference of
/// their lengths.
pub proof fn lemma_nodes_in_update(chains: Seq<Seq<NodePtr>>, b: int, chain: Seq<NodePtr>)
    requires
        0 <= b < chains.len(),
    ensures
        nodes_in(chains.update(b, chain)) == nodes_in(chains) - chains[b].len() + chain.len(),
    decreases chains.len(),
{
    let updated = chains.update(b, chain);
    if b == chains.len() - 1 {
        assert(updated.drop_last() =~= chains.drop_last());
    } else {
        assert(updated.drop_last() =~= chains.drop_last().update(b, chain));
        lemma_nodes_in_update(chains.drop_last(), b, chain);
    }
}

/// Empty lists hold no node.
pub proof fn lemma_nodes_in_empty(chains: Seq<Seq<NodePtr>>)
    requires
        forall|b: int| 0 <= b < chains.len() ==> (#[trigger] chains[b]).len() == 0,
    ensures
        nodes_in(chains) == 0,
    decreases chains.len(),
{
    if chains.len() > 0 {
        lemma_nodes_in_empty(chains.drop_last());
    }
}

/// A table: the node memory, the sentinel of each bucket, the nodes that follow
/// each sentinel, in order, and the builder that hashes the keys.
pub struct Layout<K, V> {
    pub mem: Map<NodePtr, Node<K, V>>,
    pub heads: Seq<Option<NodePtr>>,
    pub chains: Seq<Seq<NodePtr>>,
    pub builder: RandomState,
}

impl<K: HashKey, V> Layout<K, V> {
    pub open spec fn hash(self, key: K::V) -> u64 {
        K::hash_code(self.builder, key)
    }

    /// The bucket to which `key` belongs.
    pub open spec fn home(self, key: K::V) -> int {
        self.hash(key) as int % self.heads.len() as int
    }

    /// The node at place `i` of bucket `b`.
    pub open spec fn node(self, b: int, i: int) -> Node<K, V> {
        self.mem[self.chains[b][i]]
    }

    /// The node whose successor is at place `i` of bucket `b`.
    pub open spec fn before(self, b: int, i: int) -> NodePtr {
        if i == 0 {
            self.heads[b].unwrap()
        } else {
            self.chains[b][i - 1]
        }
    }

    /// `key` is stored at place `i` of its bucket.
    pub open spec fn holds(self, key: K::V, i: int) -> bool {
        0 <= i < self.chains[self.home(key)].len() && self.node(self.home(key), i).key@ == key
    }

    /// The keys that are stored, each with its value.
    pub open spec fn contents(self) -> Map<K::V, V> {
        Map::new(
            |key: K::V| exists|i: int| self.holds(key, i),
            |key: K::V| self.node(self.home(key), choose|i: int| self.holds(key, i)).value,
        )
    }

    /// The sentinel of bucket `b`, where there is one, starts the list.
    pub open spec fn sentinel_wf(self, b: int) -> bool {
        match self.heads[b] {
            Some(head) => {
                &&& self.mem.contains_key(head)
                &&& self.mem[head].split_order_key == reversed(b as u64)
                &&& self.mem[head].next == link(self.chains[b], 0)
            },
            None => self.chains[b].len() == 0,
        }
    }

    /// The node at place `i` of bucket `b` belongs there, carries the split order
    /// key of its key, and is followed by the next place.
    pub open spec fn member_wf(self, b: int, i: int) -> bool {
        &&& self.mem.contains_key(self.chains[b][i])
        &&& self.node(b, i).next == link(self.chains[b], i + 1)
        &&& self.node(b, i).split_order_key == split_order(self.hash(self.node(b, i).key@))
        &&& self.home(self.node(b, i).key@) == b
    }

    /// The nodes of a bucket stand in split order, and no key occurs twice.
    pub open spec fn chain_wf(self, b: int) -> bool {
        &&& forall|i: int| 0 <= i < self.chains[b].len() ==> #[trigger] self.member_wf(b, i)
        &&& forall|i: int, j: int|
            #![trigger self.node(b, i), self.node(b, j)]
            0 <= i < j < self.chains[b].len() ==> self.node(b, i).split_order_key <= self.node(
                b,
                j,
            ).split_order_key && self.node(b, i).key@ != self.node(b, j).key@
    }

    pub open spec fn bucket_wf(self, b: int) -> bool {
        self.sentinel_wf(b) && self.chain_wf(b)
    }

    pub open spec fn wf(self) -> bool {
        &&& is_power_of_two(self.heads.len() as int)
        &&& 0 < self.heads.len() <= MASK
        &&& self.chains.len() == self.heads.len()
        &&& forall|b: int| 0 <= b < self.heads.len() ==> #[trigger] self.bucket_wf(b)
        &&& forall|p: NodePtr| #[trigger] self.mem.contains_key(p) ==> self.owned(p)
    }

    /// `p` is the sentinel of bucket `b`, or follows it.
    pub open spec fn owns(self, b: int, p: NodePtr) -> bool {
        self.heads[b] == Some(p) || self.chains[b].contains(p)
    }

    /// `p` is in some bucket: memory holds no node that has left its list.
    pub open spec fn owned(self, p: NodePtr) -> bool {
        exists|b: int| 0 <= b < self.heads.len() && #[trigger] self.owns(b, p)
    }

    /// Bucket `b` has its sentinel in `after`: the one that it had, or else a new one
    /// with the default key and value. Nothing else differs.
    pub open spec fn readies_to(self, after: Self, b: int) -> bool where V: Default {
        if self.heads[b] is Some {
            after == self
        } else {
            exists|p: NodePtr, node: Node<K, V>|
                {
                    &&& after == #[trigger] self.with_sentinel(b, p, node)
                    &&& !self.mem.contains_key(p)
                    &&& node.next is None
                    &&& node.split_order_key == reversed(b as u64)
                    &&& call_ensures(K::default, (), node.key)
                    &&& call_ensures(V::default, (), node.value)
                }
        }
    }

    /// `after` is this table but for one change in bucket `b`.
    pub open spec fn changes_by(self, after: Self, b: int, change: Change) -> bool {
        match change {
            Change::Nothing => after == self,
            Change::Addition => exists|i: int, p: NodePtr, node: Node<K, V>|
                0 <= i <= self.chains[b].len() && !self.mem.contains_key(p) && after
                    == #[trigger] self.with_link(b, i, p, node),
            Change::Replacement => exists|i: int, p: NodePtr, node: Node<K, V>|
                0 <= i < self.chains[b].len() && !self.mem.contains_key(p) && after
                    == #[trigger] self.with_replacement(b, i, p, node),
            Change::Removal => exists|i: int|
                0 <= i < self.chains[b].len() && after == #[trigger] self.without(b, i),
        }
    }

    /// Every bucket but `b` has the same sentinel and the same nodes in `after`, and
    /// `b` keeps its sentinel if it has one.
    pub open spec fn differs_only_in(self, after: Self, b: int) -> bool {
        &&& after.heads.len() == self.heads.len()
        &&& after.chains.len() == self.chains.len()
        &&& self.heads[b] is Some ==> after.heads[b] == self.heads[b]
        &&& forall|c: int|
            #![trigger after.heads[c]]
            #![trigger after.chains[c]]
            0 <= c < self.heads.len() && c != b ==> after.heads[c] == self.heads[c]
                && after.chains[c] == self.chains[c]
        &&& forall|c: int, p: NodePtr|
            0 <= c < self.heads.len() && c != b && #[trigger] self.owns(c, p) ==> after.mem[p]
                == self.mem[p]
    }

    /// The bucket of a key is one of the table.
    pub proof fn lemma_home(self, key: K::V)
        requires
            self.heads.len() > 0,
        ensures
            0 <= self.home(key) < self.heads.len(),
    {
        vstd::arithmetic::div_mod::lemma_mod_bound(
            self.hash(key) as int,
            self.heads.len() as int,
        );
    }

    /// A node is at one place only.
    pub proof fn lemma_owner_is_unique(self, b: int, c: int, p: NodePtr)
        requires
            self.wf(),
            0 <= b < self.heads.len(),
            0 <= c < self.heads.len(),
            self.owns(b, p),
            self.owns(c, p),
        ensures
            b == c,
            self.heads[b] == Some(p) ==> !self.chains[c].contains(p),
    {
        assert(self.bucket_wf(b));
        assert(self.bucket_wf(c));
        if self.chains[b].contains(p) {
            let i = choose|i: int| 0 <= i < self.chains[b].len() && self.chains[b][i] == p;
            assert(self.member_wf(b, i));
            law_split_order_tells_nodes_from_sentinels(self.hash(self.mem[p].key@), c as u64);
        }
        if self.chains[c].contains(p) {
            let j = choose|j: int| 0 <= j < self.chains[c].len() && self.chains[c][j] == p;
            assert(self.member_wf(c, j));
            law_split_order_tells_nodes_from_sentinels(self.hash(self.mem[p].key@), b as u64);
        }
        law_reversed_is_its_own_inverse(b as u64);
        law_reversed_is_its_own_inverse(c as u64);
    }

    /// No node occurs twice in a bucket.
    pub proof fn lemma_chain_has_no_duplicates(self, b: int)
        requires
            self.wf(),
            0 <= b < self.heads.len(),
        ensures
            self.chains[b].no_duplicates(),
    {
        assert(self.bucket_wf(b));
        let chain = self.chains[b];
        assert forall|i: int, j: int| 0 <= i < chain.len() && 0 <= j < chain.len() && i
            != j implies chain[i] != chain[j] by {
            if i < j {
                assert(self.node(b, i).key@ != self.node(b, j).key@);
            } else {
                assert(self.node(b, j).key@ != self.node(b, i).key@);
            }
        }
    }

    /// What is stored at a place is what the contents say.
    pub proof fn lemma_held(self, key: K::V, i: int)
        requires
            self.wf(),
            self.holds(key, i),
        ensures
            self.contents().contains_key(key),
            self.contents()[key] == self.node(self.home(key), i).value,
            forall|j: int| self.holds(key, j) ==> j == i,
    {
        self.lemma_home(key);
        let b = self.home(key);
        assert(self.bucket_wf(b));
        assert forall|j: int| self.holds(key, j) implies j == i by {
            if i < j {
                assert(self.node(b, i).key@ != self.node(b, j).key@);
            }
            if j < i {
                assert(self.node(b, j).key@ != self.node(b, i).key@);
            }
        }
    }

    /// A bucket whose list and nodes are left alone stays as it is.
    proof fn lemma_untouched_bucket(self, new: Self, c: int)
        requires
            self.wf(),
            0 <= c < self.heads.len(),
            new.builder == self.builder,
            new.heads.len() == self.heads.len(),
            new.heads[c] == self.heads[c],
            new.chains[c] == self.chains[c],
            forall|p: NodePtr|
                #[trigger] self.owns(c, p) ==> new.mem.contains_key(p) && new.mem[p] == self.mem[p],
        ensures
            new.bucket_wf(c),
            forall|i: int|
                0 <= i < self.chains[c].len() ==> #[trigger] new.node(c, i) == self.node(c, i),
    {
        assert(self.bucket_wf(c));
        if self.heads[c] is Some {
            assert(self.owns(c, self.heads[c].unwrap()));
        }
        assert forall|i: int| 0 <= i < self.chains[c].len() implies #[trigger] new.node(c, i)
            == self.node(c, i) && new.member_wf(c, i) by {
            assert(self.member_wf(c, i));
            assert(self.owns(c, self.chains[c][i]));
        }
    }

    /// `key` is looked up alike in both tables.
    pub open spec fn agrees_on(self, new: Self, key: K::V) -> bool {
        &&& self.contents().contains_key(key) == new.contents().contains_key(key)
        &&& self.contents().contains_key(key) ==> self.contents()[key] == new.contents()[key]
    }

    /// A key that has its node, and no other, both before and after a change is
    /// looked up alike.
    proof fn lemma_same_lookup(self, new: Self, key: K::V)
        requires
            self.wf(),
            new.wf(),
            new.builder == self.builder,
            new.heads.len() == self.heads.len(),
            forall|i: int|
                self.holds(key, i) ==> exists|j: int|
                    #[trigger] new.holds(key, j) && new.node(self.home(key), j).value == self.node(
                        self.home(key),
                        i,
                    ).value,
            forall|j: int| new.holds(key, j) ==> exists|i: int| self.holds(key, i),
        ensures
            self.agrees_on(new, key),
    {
        if exists|i: int| self.holds(key, i) {
            let i = choose|i: int| self.holds(key, i);
            let j = choose|j: int|
                #[trigger] new.holds(key, j) && new.node(self.home(key), j).value == self.node(
                    self.home(key),
                    i,
                ).value;
            self.lemma_held(key, i);
            new.lemma_held(key, j);
        }
    }

    /// A change that leaves every node outside of bucket `b` as it is leaves the other
    /// buckets as they are.
    proof fn lemma_other_buckets(self, new: Self, b: int)
        requires
            self.wf(),
            0 <= b < self.heads.len(),
            new.builder == self.builder,
            new.heads.len() == self.heads.len(),
            new.chains.len() == self.chains.len(),
            self.heads[b] is Some ==> new.heads[b] == self.heads[b],
            forall|c: int|
                #![trigger new.heads[c]]
                #![trigger new.chains[c]]
                0 <= c < self.heads.len() && c != b ==> new.heads[c] == self.heads[c]
                    && new.chains[c] == self.chains[c],
            forall|p: NodePtr| #[trigger]
                self.mem.contains_key(p) && !self.owns(b, p) ==> new.mem.contains_key(p)
                    && new.mem[p] == self.mem[p],
        ensures
            self.differs_only_in(new, b),
            forall|c: int|
                0 <= c < self.heads.len() && c != b ==> {
                    &&& #[trigger] new.bucket_wf(c)
                    &&& forall|j: int|
                        0 <= j < self.chains[c].len() ==> #[trigger] new.node(c, j) == self.node(
                            c,
                            j,
                        )
                },
    {
        assert forall|c: int, q: NodePtr|
            0 <= c < self.heads.len() && c != b && #[trigger] self.owns(
                c,
                q,
            ) implies new.mem.contains_key(q) && new.mem[q] == self.mem[q] by {
            self.lemma_owned_nodes_exist(c);
            if self.owns(b, q) {
                self.lemma_owner_is_unique(b, c, q);
            }
        }
        assert forall|c: int| 0 <= c < self.heads.len() && c != b implies {
            &&& #[trigger] new.bucket_wf(c)
            &&& forall|j: int|
                0 <= j < self.chains[c].len() ==> #[trigger] new.node(c, j) == self.node(c, j)
        } by {
            assert(new.heads[c] == self.heads[c]);
            self.lemma_untouched_bucket(new, c);
        }
    }

    /// Tables that agree on every key but `key` have the same contents but for it.
    proof fn lemma_contents_but_one(self, new: Self, key: K::V)
        requires
            forall|other: K::V| other != key ==> #[trigger] self.agrees_on(new, other),
        ensures
            new.contents() == (if new.contents().contains_key(key) {
                self.contents().insert(key, new.contents()[key])
            } else {
                self.contents().remove(key)
            }),
    {
        assert forall|other: K::V|
            #![trigger self.contents().dom().contains(other)]
            #![trigger new.contents().dom().contains(other)]
            other != key implies self.agrees_on(new, other) by {}
        assert(new.contents() =~= (if new.contents().contains_key(key) {
            self.contents().insert(key, new.contents()[key])
        } else {
            self.contents().remove(key)
        }));
    }

    /// The table in which bucket `b` has got the sentinel `node`, kept at `p`.
    pub open spec fn with_sentinel(self, b: int, p: NodePtr, node: Node<K, V>) -> Self {
        Layout { mem: self.mem.insert(p, node), heads: self.heads.update(b, Some(p)), ..self }
    }

    /// Making a sentinel changes nothing of what is stored.
    pub proof fn lemma_with_sentinel(self, b: int, p: NodePtr, node: Node<K, V>)
        requires
            self.wf(),
            0 <= b < self.heads.len(),
            self.heads[b] is None,
            !self.mem.contains_key(p),
            node.next is None,
            node.split_order_key == reversed(b as u64),
        ensures
            self.with_sentinel(b, p, node).wf(),
            self.with_sentinel(b, p, node).contents() == self.contents(),
            self.differs_only_in(self.with_sentinel(b, p, node), b),
    {
        let new = self.with_sentinel(b, p, node);
        assert(self.bucket_wf(b));
        self.lemma_other_buckets(new, b);
        assert forall|q: NodePtr| #[trigger] new.mem.contains_key(q) implies new.owned(q) by {
            if q == p {
                assert(new.owns(b, q));
            } else {
                let c = choose|c: int| 0 <= c < self.heads.len() && #[trigger] self.owns(c, q);
                assert(new.owns(c, q));
            }
        }
        assert forall|key: K::V| #[trigger] self.agrees_on(new, key) by {
            self.lemma_home(key);
            let c = self.home(key);
            assert(new.bucket_wf(c));
            assert forall|i: int| self.holds(key, i) implies new.holds(key, i) && new.node(
                c,
                i,
            ).value == self.node(c, i).value by {}
            assert forall|i: int| new.holds(key, i) implies self.holds(key, i) by {}
            self.lemma_same_lookup(new, key);
        }
        assert forall|key: K::V|
            #![trigger self.contents().dom().contains(key)]
            #![trigger new.contents().dom().contains(key)]
            self.agrees_on(new, key) by {}
        assert(new.contents() =~= self.contents());
    }

    /// The nodes of a bucket are in memory.
    proof fn lemma_owned_nodes_exist(self, c: int)
        requires
            self.wf(),
            0 <= c < self.heads.len(),
        ensures
            forall|p: NodePtr| #[trigger] self.owns(c, p) ==> self.mem.contains_key(p),
    {
        assert(self.bucket_wf(c));
        assert forall|p: NodePtr| #[trigger] self.owns(c, p) implies self.mem.contains_key(p) by {
            if self.chains[c].contains(p) {
                let i = choose|i: int| 0 <= i < self.chains[c].len() && self.chains[c][i] == p;
                assert(self.member_wf(c, i));
            }
        }
    }

    /// Two changes of one bucket are a change of that bucket.
    pub proof fn lemma_differs_through(self, middle: Self, after: Self, b: int)
        requires
            self.differs_only_in(middle, b),
            middle.differs_only_in(after, b),
        ensures
            self.differs_only_in(after, b),
    {
        assert forall|c: int, q: NodePtr|
            0 <= c < self.heads.len() && c != b && #[trigger] self.owns(c, q) implies after.mem[q]
            == self.mem[q] by {
            assert(middle.heads[c] == self.heads[c]);
            assert(middle.owns(c, q));
        }
        assert forall|c: int|
            #![trigger after.heads[c]]
            #![trigger after.chains[c]]
            0 <= c < self.heads.len() && c != b implies after.heads[c] == self.heads[c]
            && after.chains[c] == self.chains[c] by {
            assert(middle.heads[c] == self.heads[c]);
        }
    }

    /// The node before a place of bucket `b` is the bucket's own, and no other
    /// place of it.
    pub proof fn lemma_before(self, b: int, i: int)
        requires
            self.wf(),
            0 <= b < self.heads.len(),
            self.heads[b] is Some,
            0 <= i <= self.chains[b].len(),
        ensures
            self.owns(b, self.before(b, i)),
            self.mem.contains_key(self.before(b, i)),
            self.mem[self.before(b, i)].next == link(self.chains[b], i),
            forall|j: int|
                0 <= j < self.chains[b].len() && j != i - 1 ==> #[trigger] self.chains[b][j]
                    != self.before(b, i),
            i > 0 ==> self.heads[b] != Some(self.before(b, i)),
    {
        let pre = self.before(b, i);
        assert(self.bucket_wf(b));
        self.lemma_chain_has_no_duplicates(b);
        if i == 0 {
            self.lemma_owner_is_unique(b, b, pre);
        } else {
            assert(self.member_wf(b, i - 1));
            if self.heads[b] == Some(pre) {
                self.lemma_owner_is_unique(b, b, pre);
            }
        }
    }

    /// The node at a place is not the one before it.
    pub proof fn lemma_place_is_not_before(self, b: int, i: int)
        requires
            self.wf(),
            0 <= b < self.heads.len(),
            0 <= i < self.chains[b].len(),
        ensures
            self.chains[b][i] != self.before(b, i),
    {
        assert(self.bucket_wf(b));
        self.lemma_before(b, i);
    }

    /// The table in which `node`, kept at `p`, has come to place `i` of bucket `b`
    /// and has moved what was there back by one.
    pub open spec fn with_link(self, b: int, i: int, p: NodePtr, node: Node<K, V>) -> Self {
        let pre = self.before(b, i);
        Layout {
            mem: self.mem.insert(p, node).insert(pre, self.mem[pre].with_next(Some(p))),
            chains: self.chains.update(b, self.chains[b].insert(i, p)),
            ..self
        }
    }

    /// Linking in a node for a key that was not there adds the key, provided the
    /// place keeps the split order.
    pub proof fn lemma_with_link(self, b: int, i: int, p: NodePtr, node: Node<K, V>)
        requires
            self.wf(),
            0 <= b < self.heads.len(),
            self.heads[b] is Some,
            0 <= i <= self.chains[b].len(),
            !self.mem.contains_key(p),
            node.next == link(self.chains[b], i),
            node.split_order_key == split_order(self.hash(node.key@)),
            self.home(node.key@) == b,
            !self.contents().contains_key(node.key@),
            forall|j: int|
                0 <= j < i ==> (#[trigger] self.node(b, j)).split_order_key
                    <= node.split_order_key,
            forall|j: int|
                i <= j < self.chains[b].len() ==> node.split_order_key <= (#[trigger] self.node(
                    b,
                    j,
                )).split_order_key,
        ensures
            self.with_link(b, i, p, node).wf(),
            self.with_link(b, i, p, node).contents() == self.contents().insert(
                node.key@,
                node.value,
            ),
            self.differs_only_in(self.with_link(b, i, p, node), b),
    {
        let new = self.with_link(b, i, p, node);
        let pre = self.before(b, i);
        let old_chain = self.chains[b];
        let chain = new.chains[b];
        assert(self.bucket_wf(b));
        self.lemma_before(b, i);
        self.lemma_owned_nodes_exist(b);
        assert(p != pre);
        assert forall|j: int| 0 <= j < old_chain.len() implies {
            let n = #[trigger] self.node(b, j);
            let m = new.node(b, if j < i { j } else { j + 1 });
            &&& m.key == n.key
            &&& m.value == n.value
            &&& m.split_order_key == n.split_order_key
            &&& m.next == (if j == i - 1 { Some(p) } else { n.next })
            &&& new.mem.contains_key(old_chain[j])
            &&& n.key@ != node.key@
        } by {
            assert(self.owns(b, old_chain[j]));
            if self.node(b, j).key@ == node.key@ {
                assert(self.holds(node.key@, j));
            }
        }
        assert(new.node(b, i) == node);
        assert(new.chain_wf(b)) by {
            assert forall|j: int| 0 <= j < chain.len() implies #[trigger] new.member_wf(b, j) by {
                if j < i {
                    assert(self.member_wf(b, j));
                } else if j > i {
                    assert(self.member_wf(b, j - 1));
                }
            }
            assert forall|j: int, k: int|
                #![trigger new.node(b, j), new.node(b, k)]
                0 <= j < k < chain.len() implies new.node(b, j).split_order_key <= new.node(
                b,
                k,
            ).split_order_key && new.node(b, j).key@ != new.node(b, k).key@ by {
                let oj = if j < i { j } else { j - 1 };
                let ok = if k < i { k } else { k - 1 };
                let nj = self.node(b, oj);
                let nk = self.node(b, ok);
            }
        }
        assert(new.sentinel_wf(b));
        self.lemma_other_buckets(new, b);
        assert forall|q: NodePtr| #[trigger] new.mem.contains_key(q) implies new.owned(q) by {
            if q == p {
                assert(chain[i] == p);
                assert(new.owns(b, q));
            } else {
                let c = choose|c: int| 0 <= c < self.heads.len() && #[trigger] self.owns(c, q);
                if c == b && old_chain.contains(q) {
                    let j = choose|j: int| 0 <= j < old_chain.len() && old_chain[j] == q;
                    assert(chain[if j < i { j } else { j + 1 }] == q);
                }
                assert(new.owns(c, q));
            }
        }
        assert(new.wf());
        assert forall|key: K::V| key != node.key@ implies #[trigger] self.agrees_on(new, key) by {
            self.lemma_home(key);
            let c = self.home(key);
            assert(new.bucket_wf(c));
            assert forall|j: int| self.holds(key, j) implies exists|k: int| #[trigger]
                new.holds(key, k) && new.node(c, k).value == self.node(c, j).value by {
                let k = if c != b || j < i { j } else { j + 1 };
                assert(new.holds(key, k));
            }
            assert forall|k: int| new.holds(key, k) implies exists|j: int| self.holds(key, j) by {
                let j = if c != b || k < i { k } else { k - 1 };
                assert(self.holds(key, j));
            }
            self.lemma_same_lookup(new, key);
        }
        new.lemma_held(node.key@, i);
        self.lemma_contents_but_one(new, node.key@);
    }

    /// The table in which the node at place `i` of bucket `b` has given way to
    /// `node`, kept at `p`.
    pub open spec fn with_replacement(self, b: int, i: int, p: NodePtr, node: Node<K, V>) -> Self {
        let pre = self.before(b, i);
        Layout {
            mem: self.mem.insert(p, node).insert(pre, self.mem[pre].with_next(Some(p))).remove(
                self.chains[b][i],
            ),
            chains: self.chains.update(b, self.chains[b].update(i, p)),
            ..self
        }
    }

    /// Replacing the node of a key by another node for it changes the value of
    /// that key, and nothing else.
    pub proof fn lemma_with_replacement(self, b: int, i: int, p: NodePtr, node: Node<K, V>)
        requires
            self.wf(),
            0 <= b < self.heads.len(),
            0 <= i < self.chains[b].len(),
            !self.mem.contains_key(p),
            node.next == link(self.chains[b], i + 1),
            node.split_order_key == self.node(b, i).split_order_key,
            node.key@ == self.node(b, i).key@,
        ensures
            self.with_replacement(b, i, p, node).wf(),
            self.with_replacement(b, i, p, node).contents() == self.contents().insert(
                node.key@,
                node.value,
            ),
            self.differs_only_in(self.with_replacement(b, i, p, node), b),
    {
        let new = self.with_replacement(b, i, p, node);
        let pre = self.before(b, i);
        let cur = self.chains[b][i];
        let old_chain = self.chains[b];
        let chain = new.chains[b];
        assert(self.bucket_wf(b));
        self.lemma_before(b, i);
        self.lemma_owned_nodes_exist(b);
        self.lemma_chain_has_no_duplicates(b);
        assert(self.member_wf(b, i));
        if self.heads[b] == Some(cur) {
            self.lemma_owner_is_unique(b, b, cur);
        }
        assert(p != pre && p != cur && pre != cur);
        assert forall|j: int| 0 <= j < old_chain.len() && j != i implies {
            let n = #[trigger] self.node(b, j);
            let m = new.node(b, j);
            &&& m.key == n.key
            &&& m.value == n.value
            &&& m.split_order_key == n.split_order_key
            &&& m.next == (if j == i - 1 { Some(p) } else { n.next })
            &&& new.mem.contains_key(old_chain[j])
        } by {
            assert(self.owns(b, old_chain[j]));
        }
        assert(new.node(b, i) == node);
        assert(new.chain_wf(b)) by {
            assert forall|j: int| 0 <= j < chain.len() implies #[trigger] new.member_wf(b, j) by {
                assert(self.member_wf(b, j));
            }
            assert forall|j: int, k: int|
                #![trigger new.node(b, j), new.node(b, k)]
                0 <= j < k < chain.len() implies new.node(b, j).split_order_key <= new.node(
                b,
                k,
            ).split_order_key && new.node(b, j).key@ != new.node(b, k).key@ by {
                let nj = self.node(b, j);
                let nk = self.node(b, k);
            }
        }
        assert(new.sentinel_wf(b));
        self.lemma_other_buckets(new, b);
        assert forall|q: NodePtr| #[trigger] new.mem.contains_key(q) implies new.owned(q) by {
            if q == p {
                assert(chain[i] == p);
                assert(new.owns(b, q));
            } else {
                let c = choose|c: int| 0 <= c < self.heads.len() && #[trigger] self.owns(c, q);
                if c == b && old_chain.contains(q) {
                    let j = choose|j: int| 0 <= j < old_chain.len() && old_chain[j] == q;
                    assert(chain[j] == q);
                }
                assert(new.owns(c, q));
            }
        }
        assert(new.wf());
        assert forall|key: K::V| key != node.key@ implies #[trigger] self.agrees_on(new, key) by {
            self.lemma_home(key);
            let c = self.home(key);
            assert(new.bucket_wf(c));
            assert forall|j: int| #[trigger] self.holds(key, j) implies new.holds(key, j)
                && new.node(c, j).value == self.node(c, j).value by {
            }
            assert forall|j: int| #[trigger] new.holds(key, j) implies self.holds(key, j) by {
            }
            self.lemma_same_lookup(new, key);
        }
        new.lemma_held(node.key@, i);
        self.lemma_contents_but_one(new, node.key@);
    }

    /// The table in which place `i` of bucket `b` has been taken out.
    pub open spec fn without(self, b: int, i: int) -> Self {
        let pre = self.before(b, i);
        Layout {
            mem: self.mem.insert(
                pre,
                self.mem[pre].with_next(link(self.chains[b], i + 1)),
            ).remove(self.chains[b][i]),
            chains: self.chains.update(b, self.chains[b].remove(i)),
            ..self
        }
    }

    /// Taking out the node of a key removes that key, and nothing else.
    pub proof fn lemma_without(self, b: int, i: int)
        requires
            self.wf(),
            0 <= b < self.heads.len(),
            0 <= i < self.chains[b].len(),
        ensures
            self.without(b, i).wf(),
            self.without(b, i).contents() == self.contents().remove(self.node(b, i).key@),
            self.differs_only_in(self.without(b, i), b),
    {
        let new = self.without(b, i);
        let pre = self.before(b, i);
        let cur = self.chains[b][i];
        let gone = self.node(b, i).key@;
        let old_chain = self.chains[b];
        let chain = new.chains[b];
        assert(self.bucket_wf(b));
        self.lemma_before(b, i);
        self.lemma_owned_nodes_exist(b);
        self.lemma_chain_has_no_duplicates(b);
        assert(self.member_wf(b, i));
        if self.heads[b] == Some(cur) {
            self.lemma_owner_is_unique(b, b, cur);
        }
        assert(pre != cur);
        assert forall|j: int| 0 <= j < old_chain.len() && j != i implies {
            let n = #[trigger] self.node(b, j);
            let m = new.node(b, if j < i { j } else { j - 1 });
            &&& m.key == n.key
            &&& m.value == n.value
            &&& m.split_order_key == n.split_order_key
            &&& m.next == (if j == i - 1 { link(old_chain, i + 1) } else { n.next })
            &&& new.mem.contains_key(old_chain[j])
            &&& n.key@ != gone
        } by {
            assert(self.owns(b, old_chain[j]));
        }
        assert(new.chain_wf(b)) by {
            assert forall|j: int| 0 <= j < chain.len() implies #[trigger] new.member_wf(b, j) by {
                let oj = if j < i { j } else { j + 1 };
                assert(self.member_wf(b, oj));
            }
            assert forall|j: int, k: int|
                #![trigger new.node(b, j), new.node(b, k)]
                0 <= j < k < chain.len() implies new.node(b, j).split_order_key <= new.node(
                b,
                k,
            ).split_order_key && new.node(b, j).key@ != new.node(b, k).key@ by {
                let nj = self.node(b, if j < i { j } else { j + 1 });
                let nk = self.node(b, if k < i { k } else { k + 1 });
            }
        }
        assert(new.sentinel_wf(b));
        self.lemma_other_buckets(new, b);
        assert forall|q: NodePtr| #[trigger] new.mem.contains_key(q) implies new.owned(q) by {
            let c = choose|c: int| 0 <= c < self.heads.len() && #[trigger] self.owns(c, q);
            if c == b && old_chain.contains(q) {
                let j = choose|j: int| 0 <= j < old_chain.len() && old_chain[j] == q;
                assert(chain[if j < i { j } else { j - 1 }] == q);
            }
            assert(new.owns(c, q));
        }
        assert(new.wf());
        assert forall|key: K::V| key != gone implies #[trigger] self.agrees_on(new, key) by {
            self.lemma_home(key);
            let c = self.home(key);
            assert(new.bucket_wf(c));
            assert forall|j: int| self.holds(key, j) implies exists|k: int| #[trigger]
                new.holds(key, k) && new.node(c, k).value == self.node(c, j).value by {
                let k = if c != b || j < i { j } else { j - 1 };
                assert(new.holds(key, k));
            }
            assert forall|k: int| new.holds(key, k) implies exists|j: int| self.holds(key, j) by {
                let j = if c != b || k < i { k } else { k + 1 };
                assert(self.holds(key, j));
            }
            self.lemma_same_lookup(new, key);
        }
        assert(!new.contents().contains_key(gone)) by {
            assert forall|k: int| !new.holds(gone, k) by {
                if new.holds(gone, k) {
                    let n = self.node(b, if k < i { k } else { k + 1 });
                }
            }
        }
        self.lemma_contents_but_one(new, gone);
    }
}

} // verus!
