//! The hash map: a table of buckets, each a list of nodes in split order.

use crate::arena::Arena;
use crate::arena::Write;
use crate::bits::is_power_of_two;
use crate::bits::law_sentinel_precedes_its_bucket;
use crate::bits::make_split_order_key;
use crate::bits::reversed;
use crate::bits::split_order;
use crate::bits::table_size_for;
use crate::hash_key::HashKey;
use crate::hazard::HazardPointerManager;
use crate::hazard::OwnedReclaim;
use crate::keeper::Keeper;
use crate::layout::lemma_nodes_in_empty;
use crate::layout::lemma_nodes_in_update;
use crate::layout::link;
use crate::layout::nodes_in;
use crate::layout::Change;
use crate::layout::Layout;
use crate::node::Bucket;
use crate::node::Node;
use crate::node::NodePtr;
use crate::reader::is_walk;
use crate::reader::reader_after;
use crate::reader::Action;
use crate::reader::Observation;
use crate::reader::Reader;
use crate::reader::Turn;
use crate::shared::law_tables_are_stores;
use crate::shared::lemma_acts_of_link;
use crate::shared::lemma_acts_of_removal;
use crate::shared::lemma_acts_of_replacement;
use crate::shared::lemma_acts_of_sentinel;
use crate::shared::lemma_entry_of_a_table;
use crate::shared::store_of;
use crate::trail::was_asked;
use crate::trail::was_retired;
use crate::trail::Trail;
use std::collections::hash_map::RandomState;
use vstd::prelude::*;

verus! {

/// The greatest capacity that is accepted. Up to here the vector of the buckets, which
/// take eight or sixteen bytes each, stays within `isize::MAX` bytes.
pub const MAX_BUCKETS: usize = usize::MAX / 64 + 1;

/// A single writer, multi reader concurrent hash map.
pub struct ConcurrentHashMap<K, V, M = OwnedReclaim<Node<K, V>>> {
    memory_manager: Keeper<M>,
    hasher_builder: RandomState,
    buckets: Vec<Bucket>,
    arena: Arena<K, V>,
    size: usize,
    chains: Ghost<Seq<Seq<NodePtr>>>,
}

impl<K: HashKey, V, M> View for ConcurrentHashMap<K, V, M> {
    type V = Map<K::V, V>;

    closed spec fn view(&self) -> Map<K::V, V> {
        self.layout().contents()
    }
}

impl<K: HashKey, V, M> ConcurrentHashMap<K, V, M> {
    /// The table as it lies in memory.
    pub closed spec fn layout(&self) -> Layout<K, V> {
        Layout {
            mem: self.arena@,
            heads: Seq::new(self.buckets@.len(), |b: int| self.buckets@[b].head),
            chains: self.chains@,
            builder: self.hasher_builder,
        }
    }

    /// The buckets lie in memory as they should, and the size is that of the
    /// contents.
    pub closed spec fn wf(&self) -> bool {
        &&& self.arena.wf()
        &&& self.layout().wf()
        &&& self@.dom().finite()
        &&& self.size == self@.dom().len()
        &&& self.size == nodes_in(self.chains@)
        &&& self.size <= self.arena.in_use()
    }

    /// What has been written to the memory of the nodes, oldest first.
    pub closed spec fn log(&self) -> Seq<Write> {
        self.arena.log()
    }

    /// The memory manager.
    pub closed spec fn manager(&self) -> M {
        self.memory_manager.manager()
    }

    /// How many buckets there are.
    pub closed spec fn bucket_count(&self) -> nat {
        self.buckets@.len()
    }

    /// The builder of the hashers.
    pub closed spec fn builder(&self) -> RandomState {
        self.hasher_builder
    }

    /// The hash code of a key.
    pub open spec fn hash_of(&self, key: K::V) -> u64 {
        K::hash_code(self.builder(), key)
    }

    /// The bucket of a hash code.
    pub open spec fn bucket_index(&self, hash_code: u64) -> int {
        hash_code as int % self.bucket_count() as int
    }

    /// The buckets that have their sentinel.
    pub closed spec fn sentinels(&self) -> Set<int> {
        Set::new(|b: int| 0 <= b < self.buckets@.len() && self.buckets@[b].head is Some)
    }

    /// What is found under a key.
    pub open spec fn lookup(&self, key: K::V) -> Option<&V> {
        if self@.contains_key(key) {
            Some(&self@[key])
        } else {
            None
        }
    }

    /// Place `i` of its bucket is where `key` is, if it is found, or else would
    /// have to be put. `place` is the node before it, and whether it is found.
    spec fn is_place(&self, key: K::V, i: int, place: (NodePtr, bool)) -> bool {
        let (pre, found) = place;
        let table = self.layout();
        let b = table.home(key);
        let order = split_order(table.hash(key));
        &&& table.heads[b] is Some
        &&& 0 <= i <= table.chains[b].len()
        &&& pre == table.before(b, i)
        &&& found ==> table.holds(key, i)
        &&& !found ==> {
            &&& !table.contents().contains_key(key)
            &&& forall|j: int|
                0 <= j < i ==> (#[trigger] table.node(b, j)).split_order_key <= order
            &&& forall|j: int|
                i <= j < table.chains[b].len() ==> order < (#[trigger] table.node(
                    b,
                    j,
                )).split_order_key
        }
    }
}

impl<K: HashKey, V, M> ConcurrentHashMap<K, V, M> {
    /// A map holds finitely many keys.
    pub proof fn lemma_contents_are_finite(&self)
        requires
            self.wf(),
        ensures
            self@.dom().finite(),
    {
    }

    /// Every bucket is in split order: its sentinel comes first, no node comes
    /// before one with a smaller split order key, and no key occurs twice. Each node
    /// has the split order key of its hash code, and is in the bucket of its hash
    /// code.
    pub proof fn law_buckets_are_in_split_order(&self, b: int, i: int, j: int)
        requires
            self.wf(),
            0 <= b < self.bucket_count(),
            0 <= i <= j < self.layout().chains[b].len(),
        ensures
            self.layout().heads[b] is Some,
            self.layout().mem[self.layout().heads[b].unwrap()].split_order_key < self.layout().node(
                b,
                i,
            ).split_order_key <= self.layout().node(b, j).split_order_key,
            self.layout().node(b, i).split_order_key == split_order(
                self.hash_of(self.layout().node(b, i).key@),
            ),
            i < j ==> self.layout().node(b, i).key@ != self.layout().node(b, j).key@,
            self.bucket_index(self.hash_of(self.layout().node(b, i).key@)) == b,
    {
        let table = self.layout();
        assert(table.bucket_wf(b));
        assert(table.member_wf(b, i));
        law_sentinel_precedes_its_bucket(
            table.hash(table.node(b, i).key@),
            self.bucket_count() as u64,
        );
    }

    /// The layout has one bucket for each of the map's, a power of two in all, and the
    /// buckets with a sentinel are those that the map names.
    pub proof fn law_the_layout_has_the_buckets_of_the_map(&self)
        requires
            self.wf(),
        ensures
            self.layout().wf(),
            self.layout().heads.len() == self.bucket_count(),
            self.layout().builder == self.builder(),
            self.layout().contents() == self@,
            is_power_of_two(self.bucket_count() as int),
            forall|b: int|
                #![trigger self.layout().heads[b]]
                #![trigger self.sentinels().contains(b)]
                0 <= b < self.bucket_count() ==> self.sentinels().contains(b)
                    == self.layout().heads[b] is Some,
    {
    }

    /// A hash code belongs to the bucket of its remainder by the number of buckets. So two
    /// hash codes share a bucket exactly when they differ by a multiple of that number, and
    /// every bucket is that of some hash code.
    pub proof fn law_buckets_are_those_of_remainders(&self, a: u64, b: u64, pos: int)
        requires
            self.wf(),
            0 <= pos < self.bucket_count(),
        ensures
            self.bucket_index(a) == a as int % self.bucket_count() as int,
            self.bucket_index(a) == (self.bucket_count() - 1) as u64 & a,
            0 <= self.bucket_index(a) < self.bucket_count(),
            self.bucket_index(a) == self.bucket_index(b) <==> (a - b) % self.bucket_count() as int
                == 0,
            self.bucket_index(pos as u64) == pos,
    {
        let n = self.bucket_count() as int;
        crate::bits::lemma_mask_is_remainder(a, n as u64);
        vstd::arithmetic::div_mod::lemma_mod_bound(a as int, n);
        vstd::arithmetic::div_mod::lemma_small_mod(pos as nat, n as nat);
        vstd::arithmetic::div_mod::lemma_fundamental_div_mod(a as int, n);
        vstd::arithmetic::div_mod::lemma_fundamental_div_mod(b as int, n);
        vstd::arithmetic::div_mod::lemma_mod_equivalence(a as int, b as int, n);
    }

    /// A key is hashed by the builder of the map, whatever the map holds, and the layout has
    /// it in the bucket of the remainder of its hash code.
    pub proof fn law_keys_are_where_their_codes_say(&self, key: K::V)
        requires
            self.wf(),
        ensures
            self.hash_of(key) == K::hash_code(self.builder(), key),
            self.layout().hash(key) == K::hash_code(self.builder(), key),
            self.layout().home(key) == K::hash_code(self.builder(), key) as int
                % self.bucket_count() as int,
    {
    }

    /// The lists hold as many nodes as the map holds keys.
    pub proof fn law_every_key_has_one_node(&self)
        requires
            self.wf(),
        ensures
            self.layout().chains.len() == self.bucket_count(),
            nodes_in(self.layout().chains) == self@.dom().len(),
    {
    }

    /// A map is ready for readers: as shared memory it is in order, and its contents
    /// are those of the map.
    pub proof fn law_maps_are_ready_for_readers(&self)
        requires
            self.wf(),
        ensures
            store_of(self.layout()).wf(),
            store_of(self.layout()).contents() == self@,
    {
        law_tables_are_stores(self.layout());
    }
}

/// What a change under `key` hands over to the memory manager: the node that held the
/// key, if there was one, cut off from its list. The manager has the node in its account,
/// if it keeps one.
pub open spec fn handed_over<K: HashKey, V: Default, M: HazardPointerManager<Node<K, V>>>(
    before: ConcurrentHashMap<K, V, M>,
    after: ConcurrentHashMap<K, V, M>,
    key: K::V,
) -> bool {
    if before@.contains_key(key) {
        exists|node: Node<K, V>|
            {
                &&& node.key@ == key
                &&& node.value == before@[key]
                &&& node.split_order_key == split_order(before.hash_of(key))
                &&& node.next is None
                &&& #[trigger] was_retired(before.manager(), node)
                &&& before.manager().keeps_account() ==> after.manager().keeps_account()
                    && after.manager().retired() == before.manager().retired().push(node)
            }
    } else {
        after.manager() == before.manager()
    }
}

/// What no operation changes: how keys are hashed, and how many buckets there are.
pub open spec fn same_table<K: HashKey, V, M>(
    before: ConcurrentHashMap<K, V, M>,
    after: ConcurrentHashMap<K, V, M>,
) -> bool {
    &&& after.builder() == before.builder()
    &&& after.bucket_count() == before.bucket_count()
}

/// A write to the bucket of `hash_code`. The bucket gets its sentinel, if it has none,
/// and then `change` is done to its list; the other buckets keep their sentinels and
/// nodes. The writes to memory are those of the acts of `change`, in their order, which
/// leave concurrent readers safe.
pub open spec fn writes_to_bucket<K: HashKey, V: Default, M>(
    before: ConcurrentHashMap<K, V, M>,
    after: ConcurrentHashMap<K, V, M>,
    hash_code: u64,
    change: Change,
) -> bool {
    let b = before.bucket_index(hash_code);
    &&& after.sentinels() == before.sentinels().insert(b)
    &&& exists|ready: Layout<K, V>| #[trigger]
        before.layout().readies_to(ready, b) && ready.changes_by(after.layout(), b, change)
    &&& before.layout().differs_only_in(after.layout(), b)
    &&& acts_on_memory(before, after, !before.sentinels().contains(b), change)
}

/// What has been written to memory since `before` is what the acts of `change` write,
/// one after the other, and as shared memory `before` comes to be `after` by these acts.
pub open spec fn acts_on_memory<K: HashKey, V: Default, M>(
    before: ConcurrentHashMap<K, V, M>,
    after: ConcurrentHashMap<K, V, M>,
    made_sentinel: bool,
    change: Change,
) -> bool {
    exists|log: Seq<Write>|
        {
            &&& after.log() == before.log() + log
            &&& #[trigger] store_of(before.layout()).changes_to(
                store_of(after.layout()),
                made_sentinel,
                change,
                log,
            )
        }
}

/// A change can follow upon the making of a sentinel.
proof fn lemma_acts_through<K: HashKey, V: Default, M>(
    before: ConcurrentHashMap<K, V, M>,
    middle: ConcurrentHashMap<K, V, M>,
    after: ConcurrentHashMap<K, V, M>,
    made_sentinel: bool,
    change: Change,
)
    requires
        acts_on_memory(before, middle, made_sentinel, Change::Nothing),
        acts_on_memory(middle, after, false, change),
    ensures
        acts_on_memory(before, after, made_sentinel, change),
{
    let first = choose|log: Seq<Write>|
        {
            &&& middle.log() == before.log() + log
            &&& #[trigger] store_of(before.layout()).changes_to(
                store_of(middle.layout()),
                made_sentinel,
                Change::Nothing,
                log,
            )
        };
    let second = choose|log: Seq<Write>|
        {
            &&& after.log() == middle.log() + log
            &&& #[trigger] store_of(middle.layout()).changes_to(
                store_of(after.layout()),
                false,
                change,
                log,
            )
        };
    store_of(before.layout()).lemma_change_after_sentinel(
        store_of(middle.layout()),
        store_of(after.layout()),
        made_sentinel,
        change,
        first,
        second,
    );
    assert(after.log() =~= before.log() + (first + second));
}

impl<K: HashKey, V: Default, M: HazardPointerManager<Node<K, V>>> ConcurrentHashMap<K, V, M> {
    /// An empty map with room for `capacity` keys, guarded by the manager `m`.
    pub fn new(m: M, capacity: usize) -> (map: ConcurrentHashMap<K, V, M>)
        requires
            0 < capacity <= MAX_BUCKETS,
        ensures
            map.wf(),
            map@ == Map::<K::V, V>::empty(),
            is_power_of_two(map.bucket_count() as int),
            capacity <= map.bucket_count() < 2 * capacity,
            map.sentinels() == Set::<int>::empty(),
            map.manager() == m,
    {
        let table_size: usize = table_size_for(capacity);
        let mut buckets: Vec<Bucket> = Vec::new();
        for i in 0..table_size
            invariant
                buckets@.len() == i,
                forall|b: int| 0 <= b < i ==> (#[trigger] buckets@[b]).head is None,
        {
            buckets.push(Bucket::new());
        }
        let map = ConcurrentHashMap {
            memory_manager: Keeper::new(m),
            hasher_builder: RandomState::new(),
            buckets,
            arena: Arena::new(),
            size: 0,
            chains: Ghost(Seq::new(table_size as nat, |b: int| Seq::empty())),
        };
        proof {
            let table = map.layout();
            assert forall|b: int| 0 <= b < table.heads.len() implies #[trigger] table.bucket_wf(
                b,
            ) by {
                assert(table.heads[b] is None);
            }
            assert forall|key: K::V| !table.contents().contains_key(key) by {
                table.lemma_home(key);
            }
            assert(table.contents() =~= Map::<K::V, V>::empty());
            assert(map.sentinels() =~= Set::<int>::empty());
            lemma_nodes_in_empty(map.chains@);
        }
        map
    }

    /// How many keys are stored.
    pub fn get_size(&self) -> (size: usize)
        requires
            self.wf(),
        ensures
            size == self@.dom().len(),
    {
        self.size
    }

    /// How many buckets there are.
    pub fn get_bucket_size(&self) -> (n: usize)
        requires
            self.wf(),
        ensures
            n == self.bucket_count(),
    {
        self.buckets.len()
    }

    /// The position of the bucket of `hash_code`.
    pub fn get_bucket_pos(&self, hash_code: u64) -> (pos: usize)
        requires
            self.wf(),
        ensures
            pos == self.bucket_index(hash_code),
            pos < self.bucket_count(),
            pos == hash_code as int % self.bucket_count() as int,
            pos as u64 == (self.bucket_count() - 1) as u64 & hash_code,
    {
        let mask: u64 = self.get_bucket_size() as u64 - 1;
        let pos: u64 = mask & hash_code;
        proof {
            crate::bits::lemma_mask_is_remainder(hash_code, self.bucket_count() as u64);
            vstd::arithmetic::div_mod::lemma_mod_bound(
                hash_code as int,
                self.bucket_count() as int,
            );
        }
        pos as usize
    }

    /// The hash code of `key`.
    pub fn make_hash(&self, key: &K) -> (code: u64)
        ensures
            code == self.hash_of(key@),
            code == K::hash_code(self.builder(), key@),
    {
        key.hash_with(&self.hasher_builder)
    }

    /// The bucket of `hash_code`.
    fn bucket_of(&self, hash_code: u64) -> (bucket: &Bucket)
        requires
            self.wf(),
        ensures
            bucket.head == self.layout().heads[self.bucket_index(hash_code)],
    {
        &self.buckets[self.get_bucket_pos(hash_code)]
    }

    /// The sentinel of the bucket of `buck_pos`, if it has been made.
    pub fn get_sentinel_node(&self, buck_pos: usize) -> (node: Option<&Node<K, V>>)
        requires
            self.wf(),
        ensures
            node is Some == self.sentinels().contains(self.bucket_index(buck_pos as u64)),
            node is Some ==> *node.unwrap() == self.layout().mem[self.layout().heads[self.bucket_index(
                buck_pos as u64,
            )].unwrap()],
            node is Some ==> node.unwrap().split_order_key == reversed(
                self.bucket_index(buck_pos as u64) as u64,
            ),
    {
        let pos: usize = self.get_bucket_pos(buck_pos as u64);
        assert(self.layout().bucket_wf(pos as int));
        match self.bucket_of(buck_pos as u64).head {
            Some(head) => Some(self.arena.get(head)),
            None => None,
        }
    }

    /// Makes the sentinel of the bucket of `hash_code`, unless it is there.
    pub fn insert_sentinel_node(&mut self, hash_code: u64)
        requires
            old(self).wf(),
        ensures
            final(self).wf(),
            final(self)@ == old(self)@,
            same_table(*old(self), *final(self)),
            old(self).layout().readies_to(
                final(self).layout(),
                old(self).bucket_index(hash_code),
            ),
            writes_to_bucket(*old(self), *final(self), hash_code, Change::Nothing),
            final(self).manager() == old(self).manager(),
    {
        let ghost before = *self;
        let bucket_pos: usize = self.get_bucket_pos(hash_code);
        if self.bucket_of(hash_code).head.is_none() {
            let node = Node::make_sentinel_node(bucket_pos);
            let ptr: NodePtr = self.arena.store_node(node);
            self.buckets[bucket_pos].head = Some(ptr);
            proof {
                let table = before.layout();
                table.lemma_with_sentinel(bucket_pos as int, ptr, node);
                assert(self.layout().heads =~= table.heads.update(bucket_pos as int, Some(ptr)));
                assert(self.layout() == table.with_sentinel(bucket_pos as int, ptr, node));
                lemma_acts_of_sentinel(table, bucket_pos as int, ptr, node);
                assert(self.log() =~= before.log() + seq![Write::Make { ptr, next: None }]);
                assert(acts_on_memory(before, *self, true, Change::Nothing));
            }
        } else {
            proof {
                store_of(before.layout()).lemma_no_change();
                assert(self.log() =~= before.log() + Seq::<Write>::empty());
                assert(acts_on_memory(before, *self, false, Change::Nothing));
            }
        }
        assert(self.sentinels() =~= before.sentinels().insert(before.bucket_index(hash_code)));
    }

    /// A key that is none of the first `i` nodes of its bucket is not stored if
    /// the other nodes come after it in split order.
    proof fn lemma_absent(&self, key: K::V, i: int)
        requires
            self.wf(),
            0 <= i <= self.layout().chains[self.layout().home(key)].len(),
            forall|j: int|
                0 <= j < i ==> (#[trigger] self.layout().node(self.layout().home(key), j)).key@
                    != key,
            forall|j: int|
                i <= j < self.layout().chains[self.layout().home(key)].len() ==> split_order(
                    self.layout().hash(key),
                ) < (#[trigger] self.layout().node(self.layout().home(key), j)).split_order_key,
        ensures
            !self@.contains_key(key),
    {
        let table = self.layout();
        let b = table.home(key);
        table.lemma_home(key);
        assert(table.bucket_wf(b));
        assert forall|j: int| !table.holds(key, j) by {
            if table.holds(key, j) {
                assert(table.member_wf(b, j));
            }
        }
    }

    /// `place` is a place for `key`.
    spec fn finds(&self, key: K::V, place: (NodePtr, bool)) -> bool {
        exists|i: int| self.is_place(key, i, place)
    }

    /// Walks the list that starts at `head` to the place of `key`.
    fn find_from_node(&self, key: &K, split_order_key: u64, head: NodePtr) -> (place: (
        NodePtr,
        bool,
    ))
        requires
            self.wf(),
            split_order_key == split_order(self.hash_of(key@)),
            self.layout().heads[self.bucket_index(self.hash_of(key@))] == Some(head),
        ensures
            self.finds(key@, place),
    {
        let ghost table = self.layout();
        let ghost b = table.home(key@);
        let ghost mut i: int = 0;
        let mut pre: NodePtr = head;
        proof {
            table.lemma_home(key@);
        }
        loop
            invariant
                self.wf(),
                table == self.layout(),
                b == table.home(key@),
                0 <= b < table.heads.len(),
                split_order_key == split_order(table.hash(key@)),
                table.heads[b] is Some,
                0 <= i <= table.chains[b].len(),
                pre == table.before(b, i),
                forall|j: int|
                    0 <= j < i ==> (#[trigger] table.node(b, j)).split_order_key <= split_order_key
                        && table.node(b, j).key@ != key@,
            decreases table.chains[b].len() - i,
        {
            proof {
                assert(table.bucket_wf(b));
                table.lemma_before(b, i);
            }
            match self.arena.get(pre).next {
                Some(cur_ptr) => {
                    assert(table.member_wf(b, i));
                    let cur = self.arena.get(cur_ptr);
                    if cur.split_order_key > split_order_key {
                        proof {
                            self.lemma_absent(key@, i);
                            assert(self.is_place(key@, i, (pre, false)));
                        }
                        return (pre, false);
                    }
                    if split_order_key == cur.split_order_key && key.same_key(&cur.key) {
                        assert(self.is_place(key@, i, (pre, true)));
                        return (pre, true);
                    }
                    pre = cur_ptr;
                    proof {
                        i = i + 1;
                    }
                },
                None => {
                    proof {
                        self.lemma_absent(key@, i);
                        assert(self.is_place(key@, i, (pre, false)));
                    }
                    return (pre, false);
                },
            }
        }
    }

    /// Finds the place of `key`, in a bucket that has its sentinel afterwards.
    fn find(&mut self, key: &K, hash_code: u64, split_order_key: u64) -> (place: (NodePtr, bool))
        requires
            old(self).wf(),
            hash_code == old(self).hash_of(key@),
            split_order_key == split_order(hash_code),
        ensures
            final(self).wf(),
            final(self)@ == old(self)@,
            same_table(*old(self), *final(self)),
            old(self).layout().readies_to(
                final(self).layout(),
                old(self).bucket_index(hash_code),
            ),
            writes_to_bucket(*old(self), *final(self), hash_code, Change::Nothing),
            final(self).manager() == old(self).manager(),
            final(self).finds(key@, place),
    {
        self.insert_sentinel_node(hash_code);
        assert(self.sentinels().contains(self.bucket_index(hash_code)));
        let head: NodePtr = self.bucket_of(hash_code).head.unwrap();
        self.find_from_node(key, split_order_key, head)
    }

    /// Stores under `key` the value that `func` makes of what is stored there, and
    /// returns what else `func` returns.
    pub fn insert<F, R>(&mut self, key: K, func: F) -> (result: R) where
        F: for <'a>FnOnce(Option<&'a V>) -> (V, R),

        requires
            old(self).wf(),
            call_requires(func, (old(self).lookup(key@),)),
        ensures
            final(self).wf(),
            exists|value: V|
                {
                    &&& #[trigger] call_ensures(
                        func,
                        (old(self).lookup(key@),),
                        (value, result),
                    )
                    &&& final(self)@ == old(self)@.insert(key@, value)
                },
            same_table(*old(self), *final(self)),
            writes_to_bucket(
                *old(self),
                *final(self),
                old(self).hash_of(key@),
                if old(self)@.contains_key(key@) {
                    Change::Replacement
                } else {
                    Change::Addition
                },
            ),
            handed_over(*old(self), *final(self), key@),
    {
        let hash_code: u64 = self.make_hash(&key);
        let split_order_key: u64 = make_split_order_key(hash_code);
        self.insert_sentinel_node(hash_code);
        let ghost started = *self;
        assert(started.sentinels().contains(started.bucket_index(hash_code)));
        let (pre, found) = self.find(&key, hash_code, split_order_key);
        assert(self.sentinels() =~= old(self).sentinels().insert(
            old(self).bucket_index(hash_code),
        ));
        let ghost view = key@;
        let ghost made_sentinel = !old(self).sentinels().contains(
            old(self).bucket_index(hash_code),
        );
        let ghost ready = *self;
        let ghost table = self.layout();
        let ghost b = table.home(view);
        let ghost i = choose|i: int| self.is_place(view, i, (pre, found));
        proof {
            old(self).layout().lemma_differs_through(started.layout(), table, b);
            lemma_acts_through(*old(self), started, ready, made_sentinel, Change::Nothing);
            table.lemma_home(view);
            assert(table.bucket_wf(b));
            table.lemma_before(b, i);
        }
        let cur_ptr: Option<NodePtr> = self.arena.get(pre).next;
        if !found {
            let (value, result) = func(None);
            let node = Node { next: cur_ptr, split_order_key, key, value };
            let new_ptr: NodePtr = self.arena.store_node(node);
            self.arena.store_next(pre, Some(new_ptr));
            self.size = self.size + 1;
            proof {
                table.lemma_with_link(b, i, new_ptr, node);
                lemma_nodes_in_update(table.chains, b, table.chains[b].insert(i, new_ptr));
                self.chains@ = table.chains.update(b, table.chains[b].insert(i, new_ptr));
                assert(self.layout().heads =~= table.heads);
                assert(self.layout().mem =~= table.with_link(b, i, new_ptr, node).mem);
                assert(self.layout() == table.with_link(b, i, new_ptr, node));
                old(self).layout().lemma_differs_through(table, self.layout(), b);
                lemma_acts_of_link(table, b, i, new_ptr, node);
                assert(self.log() =~= ready.log() + seq![
                    Write::Make { ptr: new_ptr, next: node.next },
                    Write::Store { ptr: pre, next: Some(new_ptr) },
                ]);
                assert(acts_on_memory(ready, *self, false, Change::Addition));
                lemma_acts_through(*old(self), ready, *self, made_sentinel, Change::Addition);
            }
            result
        } else {
            proof {
                table.lemma_held(view, i);
                assert(table.member_wf(b, i));
            }
            let cur: NodePtr = cur_ptr.unwrap();
            let (value, result) = func(Some(&self.arena.get(cur).value));
            let next: Option<NodePtr> = self.arena.get(cur).next;
            let node = Node { next, split_order_key, key, value };
            let new_ptr: NodePtr = self.arena.store_node(node);
            proof {
                table.lemma_place_is_not_before(b, i);
            }
            self.arena.store_next(pre, Some(new_ptr));
            self.arena.store_next(cur, None);
            self.memory_manager.hand_over(&mut self.arena, cur);
            proof {
                table.lemma_with_replacement(b, i, new_ptr, node);
                lemma_nodes_in_update(table.chains, b, table.chains[b].update(i, new_ptr));
                self.chains@ = table.chains.update(b, table.chains[b].update(i, new_ptr));
                assert(self.layout().heads =~= table.heads);
                assert(self.layout().mem =~= table.with_replacement(b, i, new_ptr, node).mem);
                assert(self.layout() == table.with_replacement(b, i, new_ptr, node));
                old(self).layout().lemma_differs_through(table, self.layout(), b);
                lemma_acts_of_replacement(table, b, i, new_ptr, node);
                assert(self.log() =~= ready.log() + seq![
                    Write::Make { ptr: new_ptr, next: node.next },
                    Write::Store { ptr: pre, next: Some(new_ptr) },
                    Write::Store { ptr: cur, next: None },
                    Write::HandOver { ptr: cur },
                ]);
                assert(acts_on_memory(ready, *self, false, Change::Replacement));
                lemma_acts_through(*old(self), ready, *self, made_sentinel, Change::Replacement);
            }
            result
        }
    }

    /// Stores `value` under `key`.
    pub fn put(&mut self, key: K, value: V)
        requires
            old(self).wf(),
        ensures
            final(self).wf(),
            final(self)@ == old(self)@.insert(key@, value),
            same_table(*old(self), *final(self)),
            writes_to_bucket(
                *old(self),
                *final(self),
                old(self).hash_of(key@),
                if old(self)@.contains_key(key@) {
                    Change::Replacement
                } else {
                    Change::Addition
                },
            ),
            handed_over(*old(self), *final(self), key@),
    {
        let store = move |stored: Option<&V>| -> (made: (V, ()))
            ensures made.0 == value
        {
            (value, ())
        };
        self.insert(key, store)
    }

    /// Removes `key`, and returns what `func` makes of what was stored under it. `func` is
    /// given up for its one call.
    pub fn remove<F, R>(&mut self, key: &K, func: F) -> (result: R) where
        F: for <'a>FnOnce(Option<&'a V>) -> R,

        requires
            old(self).wf(),
            call_requires(func, (old(self).lookup(key@),)),
        ensures
            final(self).wf(),
            call_ensures(func, (old(self).lookup(key@),), result),
            final(self)@ == old(self)@.remove(key@),
            same_table(*old(self), *final(self)),
            writes_to_bucket(
                *old(self),
                *final(self),
                old(self).hash_of(key@),
                if old(self)@.contains_key(key@) {
                    Change::Removal
                } else {
                    Change::Nothing
                },
            ),
            handed_over(*old(self), *final(self), key@),
    {
        let hash_code: u64 = self.make_hash(key);
        let split_order_key: u64 = make_split_order_key(hash_code);
        let (pre, found) = self.find(key, hash_code, split_order_key);
        let ghost made_sentinel = !old(self).sentinels().contains(
            old(self).bucket_index(hash_code),
        );
        let ghost ready = *self;
        let ghost table = self.layout();
        let ghost b = table.home(key@);
        let ghost i = choose|i: int| self.is_place(key@, i, (pre, found));
        proof {
            table.lemma_home(key@);
            assert(table.bucket_wf(b));
            table.lemma_before(b, i);
        }
        let cur_ptr: Option<NodePtr> = self.arena.get(pre).next;
        if !found {
            assert(self@ =~= old(self)@.remove(key@));
            func(None)
        } else {
            proof {
                table.lemma_held(key@, i);
                assert(table.member_wf(b, i));
                table.lemma_place_is_not_before(b, i);
            }
            let cur: NodePtr = cur_ptr.unwrap();
            let result = func(Some(&self.arena.get(cur).value));
            let next: Option<NodePtr> = self.arena.get(cur).next;
            self.arena.store_next(pre, next);
            self.arena.store_next(cur, None);
            self.memory_manager.hand_over(&mut self.arena, cur);
            self.size = self.size - 1;
            proof {
                table.lemma_without(b, i);
                lemma_nodes_in_update(table.chains, b, table.chains[b].remove(i));
                self.chains@ = table.chains.update(b, table.chains[b].remove(i));
                assert(self.layout().heads =~= table.heads);
                assert(self.layout().mem =~= table.without(b, i).mem);
                assert(self.layout() == table.without(b, i));
                old(self).layout().lemma_differs_through(table, self.layout(), b);
                lemma_acts_of_removal(table, b, i);
                assert(self.log() =~= ready.log() + seq![
                    Write::Store { ptr: pre, next },
                    Write::Store { ptr: cur, next: None },
                    Write::HandOver { ptr: cur },
                ]);
                assert(acts_on_memory(ready, *self, false, Change::Removal));
                lemma_acts_through(*old(self), ready, *self, made_sentinel, Change::Removal);
            }
            result
        }
    }

    /// Removes `key`, and returns whether it was stored.
    pub fn delete(&mut self, key: &K) -> (deleted: bool)
        requires
            old(self).wf(),
        ensures
            final(self).wf(),
            deleted == old(self)@.contains_key(key@),
            final(self)@ == old(self)@.remove(key@),
            same_table(*old(self), *final(self)),
            writes_to_bucket(
                *old(self),
                *final(self),
                old(self).hash_of(key@),
                if old(self)@.contains_key(key@) {
                    Change::Removal
                } else {
                    Change::Nothing
                },
            ),
            handed_over(*old(self), *final(self), key@),
    {
        let is_stored = |stored: Option<&V>| -> (some: bool)
            ensures some == (stored is Some)
        {
            stored.is_some()
        };
        self.remove(key, is_stored)
    }

    /// How a reader that looks for `key` and has passed `i` nodes has to stand.
    pub(crate) closed spec fn on_the_way(&self, key: K::V, i: int, reader: Reader) -> bool {
        let table = self.layout();
        let b = table.home(key);
        let chain = table.chains[b];
        &&& 0 <= i <= chain.len()
        &&& forall|j: int| 0 <= j < i ==> (#[trigger] table.node(b, j)).key@ != key
        &&& match reader {
            Reader::Enter => i == 0,
            Reader::Load { pre } => table.heads[b] is Some && pre == table.before(b, i),
            Reader::Publish { pre, link: next } => table.heads[b] is Some && pre == table.before(
                b,
                i,
            ) && next == link(chain, i),
            Reader::Confirm { pre, link: next } => table.heads[b] is Some && pre == table.before(
                b,
                i,
            ) && next == link(chain, i),
            Reader::Visit { pre, cur } => i < chain.len() && cur == chain[i],
            Reader::Keep { cur } => i < chain.len() && cur == chain[i] && table.node(b, i).key@
                != key,
            Reader::LetGo { cur } => i < chain.len() && cur == chain[i] && table.node(b, i).key@
                != key,
            Reader::AtEnd => !self@.contains_key(key),
            Reader::Miss => !self@.contains_key(key),
            Reader::Past => !self@.contains_key(key),
            Reader::Hit { cur } => {
                &&& self.arena@.contains_key(cur)
                &&& self@.contains_key(key)
                &&& self.arena@[cur].value == self@[key]
            },
            Reader::Retry => false,
            Reader::RetryLast => false,
            Reader::Leave => true,
            Reader::LeaveLast => true,
            Reader::Done => true,
        }
    }

    /// How many actions a reader is away from its next node or its end, at most.
    spec fn stage(reader: Reader) -> int {
        match reader {
            Reader::Enter => 9,
            Reader::Load { .. } => 8,
            Reader::Publish { .. } => 7,
            Reader::Confirm { .. } => 6,
            Reader::Visit { .. } => 5,
            Reader::Keep { .. } | Reader::AtEnd => 4,
            Reader::LetGo { .. } | Reader::Miss | Reader::Past | Reader::Hit { .. } => 3,
            Reader::Leave => 2,
            Reader::LeaveLast => 1,
            _ => 0,
        }
    }

    /// How many turns a search for `key` still takes, at most.
    pub(crate) closed spec fn turns_left(&self, key: K::V, i: int, reader: Reader) -> int {
        10 * (self.layout().chains[self.layout().home(key)].len() - i) + Self::stage(reader)
    }

    /// What the turns of a search for `key` have brought is what is there.
    pub open spec fn shows(&self, key: K::V, turns: Seq<Turn>) -> bool {
        forall|t: int|
            0 <= t < turns.len() ==> store_of(self.layout()).shows(
                (#[trigger] turns[t]).action,
                key,
                turns[t].seen,
            )
    }

    /// The memory manager was called for each of the turns that speak of a hazard slot.
    pub open spec fn asked(&self, turns: Seq<Turn>) -> bool {
        forall|t: int|
            0 <= t < turns.len() ==> was_asked::<Node<K, V>, M>(
                self.manager(),
                #[trigger] turns[t],
            )
    }

    /// What is stored in the node that was found.
    pub open spec fn value_of(&self, found: Option<NodePtr>) -> Option<&V> {
        match found {
            Some(ptr) => Some(&self.layout().mem[ptr].value),
            None => None,
        }
    }

    /// In the turn that answers, `fun` was called with what is stored in the node that was
    /// found, and `result` is what it returned.
    pub open spec fn answered<F, R>(&self, turns: Seq<Turn>, fun: F, result: R) -> bool where
        F: for <'a>FnOnce(Option<&'a V>) -> R,
     {
        forall|t: int|
            0 <= t < turns.len() ==> match (#[trigger] turns[t]).action {
                Action::Answer(found) => call_ensures(fun, (self.value_of(found),), result),
                _ => true,
            }
    }

    /// A search for `key` took these turns: it is a walk of a [`Reader`], from its beginning
    /// to its end, that saw what is there and had the memory manager do what it says of the
    /// hazard slots.
    pub open spec fn searched(&self, key: K::V, turns: Seq<Turn>) -> bool {
        &&& is_walk(turns)
        &&& reader_after(turns) is Done
        &&& self.shows(key, turns)
        &&& self.asked(turns)
    }

    /// Takes the next turn of a search for `key`, where it is not the one that answers.
    /// `i` nodes have been passed.
    pub(crate) fn turn(
        &self,
        key: &K,
        hash_code: u64,
        split_order_key: u64,
        reader: Reader,
        trail: &mut Trail,
        Ghost(i): Ghost<int>,
    ) -> (next: (Reader, Ghost<int>))
        requires
            self.wf(),
            hash_code == self.hash_of(key@),
            split_order_key == split_order(hash_code),
            is_walk(old(trail)@),
            reader == reader_after(old(trail)@),
            self.shows(key@, old(trail)@),
            self.asked(old(trail)@),
            self.on_the_way(key@, i, reader),
            !(reader.wants() is Answer),
            !(reader.wants() is Finish),
        ensures
            final(trail)@.len() == old(trail)@.len() + 1,
            final(trail)@.drop_last() == old(trail)@,
            final(trail)@.last().action == reader.wants(),
            is_walk(final(trail)@),
            next.0 == reader_after(final(trail)@),
            self.shows(key@, final(trail)@),
            self.asked(final(trail)@),
            self.on_the_way(key@, next.1@, next.0),
            0 <= self.turns_left(key@, next.1@, next.0) < self.turns_left(key@, i, reader),
    {
        let ghost table = self.layout();
        let ghost b = table.home(key@);
        let ghost turns = trail@;
        let ghost mut at: int = i;
        proof {
            table.lemma_home(key@);
            assert(table.bucket_wf(b));
        }
        let next: Reader = match reader.action() {
            Action::FindSentinel => {
                let head: Option<NodePtr> = trail.find_sentinel(self.bucket_of(hash_code));
                proof {
                    if head is None {
                        self.lemma_absent(key@, i);
                    }
                }
                reader.advance(Observation::Sentinel(head))
            },
            Action::LoadNext(ptr) => {
                proof {
                    table.lemma_before(b, i);
                }
                let link: Option<NodePtr> = trail.load_next(&self.arena, ptr);
                proof {
                    if link is None {
                        self.lemma_absent(key@, i);
                    }
                }
                reader.advance(Observation::Link(link))
            },
            Action::Inspect(ptr) => {
                proof {
                    assert(table.member_wf(b, i));
                    lemma_entry_of_a_table(table, b, i);
                }
                let placement = trail.inspect(&self.arena, ptr, key, split_order_key);
                proof {
                    if placement is Match {
                        assert(table.holds(key@, i));
                        table.lemma_held(key@, i);
                    } else if placement is Beyond {
                        self.lemma_absent(key@, i);
                    }
                }
                reader.advance(Observation::Compared(placement))
            },
            _ => {
                self.memory_manager.serve(reader, trail);
                proof {
                    if reader is LetGo {
                        at = i + 1;
                    }
                }
                reader.advance(Observation::Done)
            },
        };
        assert(trail@.drop_last() =~= turns);
        assert(forall|t: int| 0 <= t < turns.len() ==> #[trigger] trail@[t] == turns[t]);
        (next, Ghost(at))
    }

    /// Takes the turn of a search for `key` that answers: calls `fun` with what is stored in
    /// the node that was found.
    pub(crate) fn answer<F, R>(
        &self,
        key: &K,
        fun: F,
        reader: Reader,
        trail: &mut Trail,
        Ghost(i): Ghost<int>,
    ) -> (result: R) where F: for <'a>FnOnce(Option<&'a V>) -> R
        requires
            self.wf(),
            call_requires(fun, (self.lookup(key@),)),
            is_walk(old(trail)@),
            reader == reader_after(old(trail)@),
            self.shows(key@, old(trail)@),
            self.asked(old(trail)@),
            self.on_the_way(key@, i, reader),
            reader.wants() is Answer,
        ensures
            call_ensures(fun, (self.lookup(key@),), result),
            call_ensures(fun, (self.value_of(reader.wants()->Answer_0),), result),
            final(trail)@ == old(trail)@.push(
                Turn { action: reader.wants(), seen: Observation::Done },
            ),
            is_walk(final(trail)@),
            reader_after(final(trail)@) == reader.after(Observation::Done),
            self.shows(key@, final(trail)@),
            self.asked(final(trail)@),
            self.on_the_way(key@, i, reader.after(Observation::Done)),
            0 <= self.turns_left(key@, i, reader.after(Observation::Done)) < self.turns_left(
                key@,
                i,
                reader,
            ),
    {
        let ghost turns = trail@;
        let found: Option<NodePtr> = match reader.action() {
            Action::Answer(found) => found,
            _ => None,
        };
        let result: R = trail.answer(&self.arena, found, fun);
        assert(trail@.drop_last() =~= turns);
        assert(forall|t: int| 0 <= t < turns.len() ==> #[trigger] trail@[t] == turns[t]);
        result
    }

    /// A search that has not taken a turn is on its way.
    pub(crate) proof fn lemma_searches_begin(&self, key: K::V)
        requires
            self.wf(),
        ensures
            self.on_the_way(key, 0, Reader::Enter),
    {
        self.layout().lemma_home(key);
        assert(self.layout().bucket_wf(self.layout().home(key)));
    }
}

} // verus!
