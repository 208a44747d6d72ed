//! What holds of a map across calls. `before` and `after` stand for one map before
//! and after a call, related as the contracts of the operations relate them.

use crate::arena::Write;
use crate::bits::split_order;
use crate::hash_key::HashKey;
use crate::hazard::HazardPointerManager;
use crate::hazard::CUR_SLOT;
use crate::layout::Change;
use crate::layout::Layout;
use crate::map::handed_over;
use crate::map::same_table;
use crate::map::writes_to_bucket;
use crate::map::ConcurrentHashMap;
use crate::node::Node;
use crate::node::NodePtr;
use crate::pursuit::acts_of_a_walk;
use crate::reader::answers_in;
use crate::reader::holds_since;
use crate::reader::is_walk;
use crate::reader::law_a_hit_is_held_until_it_is_answered;
use crate::reader::law_a_walk_answers_in_one_turn;
use crate::reader::law_a_walk_answers_once;
use crate::reader::law_turns_of_a_walk;
use crate::reader::reader_after;
use crate::reader::Action;
use crate::reader::Observation;
use crate::reader::Placement;
use crate::reader::Turn;
use crate::shared::is_log_of;
use crate::shared::is_search;
use crate::shared::log_of_addition;
use crate::shared::log_of_removal;
use crate::shared::log_of_replacement;
use crate::shared::store_of;
use crate::shared::Act;
use crate::shared::Links;
use crate::shared::Store;
use crate::trail::was_retired;
use vstd::prelude::*;

verus! {

/// A search finds the value that was stored last under its key, and storing a
/// value does not change what is found under any other key.
pub proof fn law_a_read_gives_back_the_write<K: HashKey, V, M>(
    before: ConcurrentHashMap<K, V, M>,
    after: ConcurrentHashMap<K, V, M>,
    key: K::V,
    value: V,
    other: K::V,
)
    requires
        after@ == before@.insert(key, value),
    ensures
        after.lookup(key) == Some(&value),
        other != key ==> after.lookup(other) == before.lookup(other),
{
}

/// A search does not find a key that was removed, and removing a key does not
/// change what is found under any other key.
pub proof fn law_a_removed_key_is_not_found<K: HashKey, V, M>(
    before: ConcurrentHashMap<K, V, M>,
    after: ConcurrentHashMap<K, V, M>,
    key: K::V,
    other: K::V,
)
    requires
        after@ == before@.remove(key),
    ensures
        after.lookup(key) is None,
        other != key ==> after.lookup(other) == before.lookup(other),
{
}

/// Storing under a new key makes the size greater by one, storing under a key that
/// is there leaves it as it is.
pub proof fn law_storing_counts_new_keys<K: HashKey, V, M>(
    before: ConcurrentHashMap<K, V, M>,
    after: ConcurrentHashMap<K, V, M>,
    key: K::V,
    value: V,
)
    requires
        before.wf(),
        after@ == before@.insert(key, value),
    ensures
        after@.dom().len() == before@.dom().len() + (if before@.contains_key(key) {
            0nat
        } else {
            1nat
        }),
{
    before.lemma_contents_are_finite();
    if before@.contains_key(key) {
        assert(after@.dom() =~= before@.dom());
    }
}

/// Removing a key that is there makes the size smaller by one, removing another
/// key leaves it as it is.
pub proof fn law_removing_counts_stored_keys<K: HashKey, V, M>(
    before: ConcurrentHashMap<K, V, M>,
    after: ConcurrentHashMap<K, V, M>,
    key: K::V,
)
    requires
        before.wf(),
        after@ == before@.remove(key),
    ensures
        before@.dom().len() == after@.dom().len() + (if before@.contains_key(key) {
            1nat
        } else {
            0nat
        }),
{
    before.lemma_contents_are_finite();
    if !before@.contains_key(key) {
        assert(after@.dom() =~= before@.dom());
    }
}

/// Storing twice under one key is storing the second value.
pub proof fn law_the_last_write_wins<K: HashKey, V, M>(
    before: ConcurrentHashMap<K, V, M>,
    middle: ConcurrentHashMap<K, V, M>,
    after: ConcurrentHashMap<K, V, M>,
    key: K::V,
    first: V,
    second: V,
)
    requires
        middle@ == before@.insert(key, first),
        after@ == middle@.insert(key, second),
    ensures
        after@ == before@.insert(key, second),
{
    assert(after@ =~= before@.insert(key, second));
}

/// Removing a key that was new when it was stored brings the contents back.
pub proof fn law_removing_undoes_storing<K: HashKey, V, M>(
    before: ConcurrentHashMap<K, V, M>,
    middle: ConcurrentHashMap<K, V, M>,
    after: ConcurrentHashMap<K, V, M>,
    key: K::V,
    value: V,
)
    requires
        !before@.contains_key(key),
        middle@ == before@.insert(key, value),
        after@ == middle@.remove(key),
    ensures
        after@ == before@,
{
    assert(after@ =~= before@);
}

/// Removing a key twice is removing it once.
pub proof fn law_removing_again_changes_nothing<K: HashKey, V, M>(
    before: ConcurrentHashMap<K, V, M>,
    middle: ConcurrentHashMap<K, V, M>,
    after: ConcurrentHashMap<K, V, M>,
    key: K::V,
)
    requires
        middle@ == before@.remove(key),
        after@ == middle@.remove(key),
    ensures
        after@ == middle@,
{
    assert(after@ =~= middle@);
}

/// Making the sentinel of a bucket twice is making it once: the second time the
/// table stays as it is, node by node.
pub proof fn law_a_sentinel_is_made_once<K: HashKey, V: Default>(
    before: Layout<K, V>,
    middle: Layout<K, V>,
    after: Layout<K, V>,
    b: int,
)
    requires
        0 <= b < before.heads.len(),
        before.readies_to(middle, b),
        middle.readies_to(after, b),
    ensures
        middle.heads[b] is Some,
        after == middle,
        before.heads[b] is Some ==> middle == before,
        forall|c: int|
            0 <= c < before.heads.len() && c != b ==> #[trigger] middle.heads[c] == before.heads[c],
        middle.chains == before.chains,
{
}

/// A map hashes a key alike, and keeps it in the same bucket, for as long as it
/// lives.
pub proof fn law_hashing_does_not_change<K: HashKey, V, M>(
    before: ConcurrentHashMap<K, V, M>,
    after: ConcurrentHashMap<K, V, M>,
    key: K::V,
)
    requires
        same_table(before, after),
    ensures
        after.builder() == before.builder(),
        after.bucket_count() == before.bucket_count(),
        after.hash_of(key) == before.hash_of(key),
        after.bucket_index(after.hash_of(key)) == before.bucket_index(before.hash_of(key)),
{
}

/// The links of the nodes of a map.
pub open spec fn links_of<K: HashKey, V, M>(map: ConcurrentHashMap<K, V, M>) -> Links {
    store_of(map.layout()).world.next
}

/// A write to a map changes memory in a fixed order, after its bucket has got a sentinel
/// if it had none: a node is complete before a link leads to it, and a node is handed over
/// only after the link that led to it has been changed, and it has been cut off.
pub proof fn law_writes_come_in_order<K: HashKey, V: Default, M>(
    before: ConcurrentHashMap<K, V, M>,
    after: ConcurrentHashMap<K, V, M>,
    hash_code: u64,
    change: Change,
) -> (log: Seq<Write>)
    requires
        writes_to_bucket(before, after, hash_code, change),
    ensures
        after.log() == before.log() + log,
        if before.sentinels().contains(before.bucket_index(hash_code)) {
            is_log_of(links_of(before), change, log)
        } else {
            &&& log.len() > 0
            &&& log[0] matches Write::Make { ptr, next: None }
            &&& is_log_of(links_of(before).insert(ptr, None), change, log.skip(1))
        },
{
    let made_sentinel = !before.sentinels().contains(before.bucket_index(hash_code));
    let log = choose|log: Seq<Write>|
        {
            &&& after.log() == before.log() + log
            &&& #[trigger] store_of(before.layout()).changes_to(
                store_of(after.layout()),
                made_sentinel,
                change,
                log,
            )
        };
    store_of(before.layout()).law_order_of_writes(
        store_of(after.layout()),
        made_sentinel,
        change,
        log,
    );
    log
}

/// A search of a map is a search of the map as shared memory, turn by turn.
pub proof fn law_searches_are_those_of_shared_memory<
    K: HashKey,
    V: Default,
    M: HazardPointerManager<Node<K, V>>,
>(map: ConcurrentHashMap<K, V, M>, key: K::V, turns: Seq<Turn>, id: int)
    requires
        map.wf(),
        map.searched(key, turns),
    ensures
        is_search(acts_of_a_walk::<K::V, V>(id, key, turns), id, key),
        store_of(map.layout()).allows(acts_of_a_walk(id, key, turns)),
        store_of(map.layout()).turns_of(acts_of_a_walk(id, key, turns), id) == turns,
{
    map.law_maps_are_ready_for_readers();
    store_of(map.layout()).law_a_walk_is_a_search(id, key, turns);
}

/// Among writes, and other searches, a search still takes the turns of a walk, and answers
/// once, however often the walk starts over. If it answers with a value, its key had this
/// value at some moment between its beginning and its end. `earlier` is what went on before
/// the search, and `acts` goes from its beginning to its end.
pub proof fn law_a_search_among_writes_finds_what_its_key_had<K: HashKey, V, M>(
    map: ConcurrentHashMap<K, V, M>,
    earlier: Seq<Act<K::V, V>>,
    acts: Seq<Act<K::V, V>>,
    id: int,
    key: K::V,
)
    requires
        map.wf(),
        store_of(map.layout()).allows(earlier + acts),
        is_search(acts, id, key),
        reader_after(store_of(map.layout()).run(earlier).turns_of(acts, id)) is Done,
    ensures
        ({
            let begun = store_of(map.layout()).run(earlier);
            let answers = begun.run(acts).seekers[id].answers;
            &&& is_walk(begun.turns_of(acts, id))
            &&& answers_in(begun.turns_of(acts, id)) == 1
            &&& answers.len() == 1
            &&& match answers[0] {
                Some(value) => exists|t: int| #[trigger]
                    begun.has_after(acts, t, key, Some(value)),
                None => true,
            }
        }),
{
    let store = store_of(map.layout());
    let begun = store.run(earlier);
    map.law_maps_are_ready_for_readers();
    store.lemma_run_on(earlier, acts);
    store.law_runs_keep_the_searches_right(earlier);
    begun.law_a_search_is_a_walk(acts, id, key);
    law_a_walk_answers_once(begun.turns_of(acts, id));
    let answers = begun.run(acts).seekers[id].answers;
    assert(answers.contains(answers[0]));
    if answers[0] is Some {
        begun.law_a_value_found_was_stored_meanwhile(acts, id, key, answers[0].unwrap());
    }
}

/// If every value stored in a map suits its key, and only such values are written, a search
/// among the writes answers with a value that suits its key, or with none: never with the
/// value of another key.
pub proof fn law_a_search_among_writes_finds_no_other_value<K: HashKey, V, M>(
    map: ConcurrentHashMap<K, V, M>,
    earlier: Seq<Act<K::V, V>>,
    acts: Seq<Act<K::V, V>>,
    id: int,
    key: K::V,
    good: spec_fn(K::V, V) -> bool,
)
    requires
        map.wf(),
        forall|stored: K::V| #[trigger] map@.contains_key(stored) ==> good(stored, map@[stored]),
        store_of(map.layout()).allows(earlier + acts),
        forall|t: int|
            0 <= t < (earlier + acts).len() ==> Store::writes_only(
                #[trigger] (earlier + acts)[t],
                good,
            ),
        is_search(acts, id, key),
        reader_after(store_of(map.layout()).run(earlier).turns_of(acts, id)) is Done,
    ensures
        match store_of(map.layout()).run(earlier).run(acts).seekers[id].answers[0] {
            Some(value) => good(key, value),
            None => true,
        },
{
    let store = store_of(map.layout());
    let begun = store.run(earlier);
    map.law_maps_are_ready_for_readers();
    store.lemma_run_on(earlier, acts);
    store.law_runs_keep_the_searches_right(earlier);
    store.law_runs_keep_the_searches_right(earlier + acts);
    assert forall|ptr: NodePtr| #[trigger] store.entries.contains_key(ptr) implies good(
        store.entries[ptr].key,
        store.entries[ptr].value,
    ) by {
        assert(store.listed(ptr));
        store.lemma_listed(ptr);
        assert(map@.contains_key(store.entries[ptr].key));
    }
    store.law_runs_give_only_values_that_suit_their_keys(earlier + acts, good);
    begun.law_a_search_is_a_walk(acts, id, key);
    let ended = begun.run(acts);
    ended.law_a_search_answers_once(id);
    assert(ended.seekers.contains_key(id));
    if ended.seekers[id].answers[0] is Some {
        assert(ended.seekers[id].had.contains(Some(ended.seekers[id].answers[0].unwrap())));
    }
}

/// What a write to the bucket of `hash_code` leaves alone: the sentinels and the nodes of
/// every other bucket. This bucket has its sentinel afterwards.
pub proof fn law_a_write_touches_one_bucket<K: HashKey, V: Default, M>(
    before: ConcurrentHashMap<K, V, M>,
    after: ConcurrentHashMap<K, V, M>,
    hash_code: u64,
    change: Change,
    other: int,
    i: int,
)
    requires
        before.wf(),
        writes_to_bucket(before, after, hash_code, change),
        0 <= other < before.bucket_count(),
        other != hash_code as int % before.bucket_count() as int,
    ensures
        after.sentinels() == before.sentinels().insert(
            hash_code as int % before.bucket_count() as int,
        ),
        after.layout().heads[other] == before.layout().heads[other],
        after.layout().chains[other] == before.layout().chains[other],
        0 <= i < before.layout().chains[other].len() ==> after.layout().mem[before.layout().chains[other][i]]
            == before.layout().mem[before.layout().chains[other][i]],
        before.layout().heads[other] is Some
            ==> after.layout().mem[before.layout().heads[other].unwrap()]
            == before.layout().mem[before.layout().heads[other].unwrap()],
{
    before.law_the_layout_has_the_buckets_of_the_map();
    let table = before.layout();
    assert(after.layout().heads[other] == table.heads[other]);
    if 0 <= i < table.chains[other].len() {
        assert(table.owns(other, table.chains[other][i]));
    }
    if table.heads[other] is Some {
        assert(table.owns(other, table.heads[other].unwrap()));
    }
}

/// Storing under a new key, in a bucket that has its sentinel, makes one node with the
/// successor of its predecessor, and then links it in.
pub proof fn law_an_addition_writes_twice<K: HashKey, V: Default, M>(
    before: ConcurrentHashMap<K, V, M>,
    after: ConcurrentHashMap<K, V, M>,
    hash_code: u64,
) -> (at: (NodePtr, NodePtr))
    requires
        writes_to_bucket(before, after, hash_code, Change::Addition),
        before.sentinels().contains(before.bucket_index(hash_code)),
    ensures
        after.log() == before.log() + seq![
            Write::Make { ptr: at.1, next: links_of(before)[at.0] },
            Write::Store { ptr: at.0, next: Some(at.1) },
        ],
{
    let log = law_writes_come_in_order(before, after, hash_code, Change::Addition);
    choose|pre: NodePtr, new: NodePtr| log == #[trigger] log_of_addition(links_of(before), pre, new)
}

/// Storing under a key that is there makes one node with the successor of the old one, and
/// links it in where the old one was; only then is the old one cut off and handed over.
pub proof fn law_a_replacement_hands_over_last<K: HashKey, V: Default, M>(
    before: ConcurrentHashMap<K, V, M>,
    after: ConcurrentHashMap<K, V, M>,
    hash_code: u64,
) -> (at: (NodePtr, NodePtr, NodePtr))
    requires
        writes_to_bucket(before, after, hash_code, Change::Replacement),
        before.sentinels().contains(before.bucket_index(hash_code)),
    ensures
        links_of(before)[at.0] == Some(at.1),
        after.log() == before.log() + seq![
            Write::Make { ptr: at.2, next: links_of(before)[at.1] },
            Write::Store { ptr: at.0, next: Some(at.2) },
            Write::Store { ptr: at.1, next: None },
            Write::HandOver { ptr: at.1 },
        ],
{
    let log = law_writes_come_in_order(before, after, hash_code, Change::Replacement);
    choose|pre: NodePtr, cur: NodePtr, new: NodePtr|
        log == #[trigger] log_of_replacement(links_of(before), pre, cur, new) && links_of(
            before,
        )[pre] == Some(cur)
}

/// Removing a key leads the link of the predecessor past its node; only then is the node cut
/// off and handed over.
pub proof fn law_a_removal_hands_over_last<K: HashKey, V: Default, M>(
    before: ConcurrentHashMap<K, V, M>,
    after: ConcurrentHashMap<K, V, M>,
    hash_code: u64,
) -> (at: (NodePtr, NodePtr))
    requires
        writes_to_bucket(before, after, hash_code, Change::Removal),
        before.sentinels().contains(before.bucket_index(hash_code)),
    ensures
        links_of(before)[at.0] == Some(at.1),
        after.log() == before.log() + seq![
            Write::Store { ptr: at.0, next: links_of(before)[at.1] },
            Write::Store { ptr: at.1, next: None },
            Write::HandOver { ptr: at.1 },
        ],
{
    let log = law_writes_come_in_order(before, after, hash_code, Change::Removal);
    choose|pre: NodePtr, cur: NodePtr|
        log == #[trigger] log_of_removal(links_of(before), pre, cur) && links_of(before)[pre]
            == Some(cur)
}

/// A key that goes, or whose value goes, has its node handed over: with this key, this value
/// and no successor, to the manager as it was before. A key that is not there has nothing
/// handed over.
pub proof fn law_the_node_of_a_key_is_handed_over<
    K: HashKey,
    V: Default,
    M: HazardPointerManager<Node<K, V>>,
>(before: ConcurrentHashMap<K, V, M>, after: ConcurrentHashMap<K, V, M>, key: K::V) -> (node: Node<
    K,
    V,
>)
    requires
        handed_over(before, after, key),
    ensures
        before@.contains_key(key) ==> {
            &&& node.key@ == key
            &&& node.value == before@[key]
            &&& node.next is None
            &&& exists|manager: &mut M|
                *manager == before.manager() && #[trigger] call_ensures(
                    M::retire_ptr,
                    (manager, node),
                    (),
                )
            &&& before.manager().keeps_account() ==> after.manager().retired()
                == before.manager().retired().push(node)
        },
        !before@.contains_key(key) ==> after.manager() == before.manager(),
{
    choose|node: Node<K, V>|
        {
            &&& node.key@ == key
            &&& node.value == before@[key]
            &&& node.split_order_key == split_order(before.hash_of(key))
            &&& node.next is None
            &&& #[trigger] was_retired(before.manager(), node)
            &&& before.manager().keeps_account() ==> after.manager().keeps_account()
                && after.manager().retired() == before.manager().retired().push(node)
        }
}

/// `ptr` is a node of the map, and no sentinel.
pub open spec fn is_stored_node<K: HashKey, V, M>(
    map: ConcurrentHashMap<K, V, M>,
    ptr: NodePtr,
) -> bool {
    &&& map.layout().mem.contains_key(ptr)
    &&& forall|b: int|
        0 <= b < map.layout().heads.len() ==> #[trigger] map.layout().heads[b] != Some(ptr)
}

/// What a search has seen is what is in memory, and what it says of the hazard slots it has
/// called the memory manager for.
pub proof fn law_a_search_sees_and_asks<
    K: HashKey,
    V: Default,
    M: HazardPointerManager<Node<K, V>>,
>(map: ConcurrentHashMap<K, V, M>, key: K::V, turns: Seq<Turn>, t: int)
    requires
        map.wf(),
        map.searched(key, turns),
        0 <= t < turns.len(),
    ensures
        match turns[t].action {
            Action::FindSentinel => turns[t].seen == Observation::Sentinel(
                map.layout().heads[K::hash_code(map.builder(), key) as int
                    % map.bucket_count() as int],
            ),
            Action::LoadNext(ptr) => map.layout().mem.contains_key(ptr) ==> turns[t].seen
                == Observation::Link(map.layout().mem[ptr].next),
            Action::Acquire(slot, ptr) => call_ensures(
                M::acquire_ptr,
                (&map.manager(), slot, ptr),
                (),
            ),
            Action::Release(slot) => call_ensures(M::release, (&map.manager(), slot), ()),
            Action::Inspect(ptr) => {
                let held = map.layout().mem[ptr].key@;
                is_stored_node(map, ptr) ==> turns[t].seen == Observation::Compared(
                    if held == key {
                        Placement::Match
                    } else if split_order(K::hash_code(map.builder(), held)) > split_order(
                        K::hash_code(map.builder(), key),
                    ) {
                        Placement::Beyond
                    } else {
                        Placement::Before
                    },
                )
            },
            Action::Answer(_) => turns[t].seen == Observation::Done,
            Action::Finish => false,
        },
{
    map.law_the_layout_has_the_buckets_of_the_map();
    map.layout().lemma_home(key);
    law_turns_of_a_walk(turns, t);
}

/// A search calls its function in one turn, and in no other. The node that it is then given
/// the value of was published in slot 1 before, with nothing else asked of this slot in
/// between; then slot 0 and slot 1 are emptied.
pub proof fn law_a_search_answers_once_under_protection<
    K: HashKey,
    V: Default,
    M: HazardPointerManager<Node<K, V>>,
>(map: ConcurrentHashMap<K, V, M>, key: K::V, turns: Seq<Turn>) -> (t: int)
    requires
        map.wf(),
        map.searched(key, turns),
    ensures
        0 <= t < turns.len(),
        turns[t].action is Answer,
        forall|u: int| 0 <= u < turns.len() && u != t ==> !(#[trigger] turns[u].action is Answer),
        match turns[t].action->Answer_0 {
            None => true,
            Some(ptr) => {
                &&& turns.len() == t + 3
                &&& turns[t + 1].action == Action::Release(0)
                &&& turns[t + 2].action == Action::Release(1)
                &&& exists|s: int|
                    {
                        &&& 0 <= s < t
                        &&& #[trigger] turns[s].action == Action::Acquire(1, Some(ptr))
                        &&& forall|u: int|
                            s < u < t ==> match (#[trigger] turns[u]).action {
                                Action::Acquire(slot, _) => slot != 1,
                                Action::Release(slot) => slot != 1,
                                _ => true,
                            }
                    }
            },
        },
{
    let t = law_a_walk_answers_in_one_turn(turns);
    if turns[t].action->Answer_0 is Some {
        let ptr = turns[t].action->Answer_0.unwrap();
        law_a_hit_is_held_until_it_is_answered(turns, t, ptr);
        let s = choose|s: int| holds_since(turns.take(t), CUR_SLOT, ptr, s);
        assert(turns.take(t)[s] == turns[s]);
        assert forall|u: int| s < u < t implies match (#[trigger] turns[u]).action {
            Action::Acquire(slot, _) => slot != 1,
            Action::Release(slot) => slot != 1,
            _ => true,
        } by {
            assert(turns.take(t)[u] == turns[u]);
        }
    }
    t
}

} // verus!
