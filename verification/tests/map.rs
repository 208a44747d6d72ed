use std::cell::Cell;
use std::cell::RefCell;
use std::rc::Rc;

use concurrent_hash_map::hash_key::HashKey;
use concurrent_hash_map::hazard::HazardPointerManager;
use concurrent_hash_map::hazard::OwnedReclaim;
use concurrent_hash_map::map::ConcurrentHashMap;
use concurrent_hash_map::node::Node;
use concurrent_hash_map::trail::Trail;

type Str = Box<[u8]>;
type BytesMap = ConcurrentHashMap<Str, u32>;

fn make_map(init_capacity: usize) -> BytesMap {
    BytesMap::new(OwnedReclaim::new(), init_capacity)
}

fn make_key(raw_key: &str) -> Str {
    raw_key.to_string().into_bytes().into_boxed_slice()
}

#[test]
fn test_make_hash() {
    let map = make_map(1024);

    let raw_key = "abcdefg";
    let hash1 = map.make_hash(&make_key(raw_key));
    let hash2 = map.make_hash(&make_key(raw_key));

    assert_eq!(hash1, hash2);
}

#[test]
fn test_insert() {
    let mut map = make_map(1024);

    let raw_key = "abcdefg";

    let key1 = make_key(raw_key);
    let key2 = make_key(raw_key);

    map.put(key1, 1);
    assert_eq!(1, map.get_size());

    let value = map.search(&key2, |opt_value| match opt_value {
        Some(&v) => v,
        None => 0,
    });
    assert_eq!(1, value);

    let value = map.insert(key2, |opt_value| match opt_value {
        Some(&v) => (v + 1, v),
        None => (1, 0),
    });
    assert_eq!(1, value);
    assert_eq!(1, map.get_size());

    let value = map.search(&make_key(raw_key), |opt_value| match opt_value {
        Some(&v) => v,
        None => 0,
    });
    assert_eq!(2, value);
}

#[test]
fn test_remove() {
    let mut map = make_map(1024);

    let raw_key = "abcdefg";

    let key1 = make_key(raw_key);
    let key2 = make_key(raw_key);

    let result = map.delete(&key1);
    assert_eq!(false, result);
    assert_eq!(0, map.get_size());

    map.put(key1, 1);
    let result = map.remove(&key2, |opt_value| match opt_value {
        Some(&v) => v,
        None => 0,
    });
    assert_eq!(1, result);
    assert_eq!(0, map.get_size());

    let result = map.delete(&key2);
    assert_eq!(false, result);
    assert_eq!(0, map.get_size());
}

#[test]
fn test_get() {
    let mut map = make_map(32);
    assert_eq!(32, map.get_bucket_size());

    let key_size = 40;
    let mut keys = Vec::new();
    for i in 0..key_size {
        keys.push(make_key(&i.to_string()));
        map.put(make_key(&i.to_string()), i as u32);
    }

    for i in 0..key_size {
        assert_eq!(i as u32, map.get(&keys[i]));
    }

    for i in 0..key_size {
        assert!(map.delete(&keys[i]));
    }

    for i in 0..key_size {
        assert!(!map.contains(&keys[i]));
    }
}

#[test]
fn test_insert_sentinel_node() {
    let map_size = 1024 * 16;
    let mut map = make_map(map_size);

    for i in 0..map_size {
        map.insert_sentinel_node(i as u64);
    }

    for i in 0..map_size {
        assert!(map.get_sentinel_node(i).is_some());
    }
}

#[test]
fn reads_follow_a_put_and_a_delete() {
    let mut map = make_map(1024);
    let value_or_zero = |r: Option<&u32>| match r {
        Some(x) => *x,
        None => 0,
    };
    map.put(make_key("abcdefg"), 1);
    assert_eq!(1, map.search(&make_key("abcdefg"), value_or_zero));
    map.delete(&make_key("abcdefg"));
    assert_eq!(0, map.search(&make_key("abcdefg"), value_or_zero));
}

#[test]
fn one_bucket_holds_every_key() {
    let mut map = make_map(1);
    assert_eq!(1, map.get_bucket_size());
    for i in 0..200u32 {
        map.put(make_key(&i.to_string()), i);
    }
    assert_eq!(200, map.get_size());
    for i in 0..200u32 {
        assert_eq!(0, map.get_bucket_pos(map.make_hash(&make_key(&i.to_string()))));
        assert_eq!(i, map.get(&make_key(&i.to_string())));
    }
    for i in (0..200u32).step_by(2) {
        assert!(map.delete(&make_key(&i.to_string())));
    }
    assert_eq!(100, map.get_size());
    for i in 0..200u32 {
        assert_eq!(i % 2 == 1, map.contains(&make_key(&i.to_string())));
    }
}

#[test]
fn the_last_write_wins() {
    let mut map = make_map(8);
    map.put(make_key("a"), 1);
    map.put(make_key("b"), 2);
    map.put(make_key("a"), 3);
    assert_eq!(2, map.get_size());
    assert_eq!(3, map.get(&make_key("a")));
    assert_eq!(2, map.get(&make_key("b")));
}

#[test]
fn removing_undoes_storing() {
    let mut map = make_map(8);
    map.put(make_key("a"), 1);
    map.put(make_key("b"), 2);
    assert!(map.delete(&make_key("b")));
    assert!(!map.delete(&make_key("b")));
    assert_eq!(1, map.get_size());
    assert_eq!(1, map.get(&make_key("a")));
    assert!(!map.contains(&make_key("b")));
}

#[test]
fn functions_see_what_is_stored() {
    let mut map = make_map(8);
    assert_eq!(None, map.insert(make_key("a"), |v| (7, v.copied())));
    assert_eq!(Some(7), map.insert(make_key("a"), |v| (8, v.copied())));
    assert_eq!(Some(8), map.search(&make_key("a"), |v| v.copied()));
    assert_eq!(None, map.remove(&make_key("b"), |v| v.copied()));
    assert_eq!(Some(8), map.remove(&make_key("a"), |v| v.copied()));
    assert_eq!(None, map.search(&make_key("a"), |v| v.copied()));
}

#[test]
fn a_search_calls_its_function_once() {
    let mut map = make_map(8);
    map.put(make_key("a"), 1);
    let mut calls = 0;
    map.search(&make_key("a"), |_| calls += 1);
    assert_eq!(1, calls);
    map.search(&make_key("b"), |_| calls += 1);
    assert_eq!(2, calls);
}

#[test]
fn sentinels_are_made_on_demand() {
    let mut map = make_map(16);
    let key = make_key("abcdefg");
    let pos = map.get_bucket_pos(map.make_hash(&key));
    assert!(map.get_sentinel_node(pos).is_none());
    assert!(!map.contains(&key));
    assert!(map.get_sentinel_node(pos).is_none());
    assert!(!map.delete(&key));
    for i in 0..16 {
        assert_eq!(i == pos, map.get_sentinel_node(i).is_some());
    }
    // Positions are taken modulo the number of buckets.
    assert!(map.get_sentinel_node(pos + 16).is_some());
    let sentinel = map.get_sentinel_node(pos).unwrap();
    assert_eq!((pos as u64).reverse_bits(), sentinel.split_order_key);
    assert_eq!(None, sentinel.next);
    assert_eq!(0, map.get_size());
}

#[test]
fn a_sentinel_is_made_once() {
    let mut map = make_map(4);
    for i in 0..20u32 {
        map.put(make_key(&i.to_string()), i);
    }
    let before: Vec<(Option<usize>, u64)> = (0..4)
        .map(|b| map.get_sentinel_node(b).map_or((None, 0), |n| (n.next, n.split_order_key)))
        .collect();
    for h in 0..8u64 {
        if map.get_sentinel_node(h as usize).is_some() {
            map.insert_sentinel_node(h);
            map.insert_sentinel_node(h);
        }
    }
    let after: Vec<(Option<usize>, u64)> = (0..4)
        .map(|b| map.get_sentinel_node(b).map_or((None, 0), |n| (n.next, n.split_order_key)))
        .collect();
    assert_eq!(before, after);
    assert_eq!(20, map.get_size());

    let mut empty = make_map(4);
    empty.insert_sentinel_node(2);
    let sentinel = empty.get_sentinel_node(2).unwrap();
    assert_eq!(Str::default(), sentinel.key);
    assert_eq!(0, sentinel.value);
    assert!(empty.get_sentinel_node(1).is_none());
    assert_eq!(0, empty.get_size());
}

#[test]
fn bucket_positions_are_remainders() {
    let map = make_map(1024);
    for h in [0u64, 1, 1023, 1024, 1025, u64::MAX, 0x1234_5678_9ABC_DEF0] {
        assert_eq!((h % 1024) as usize, map.get_bucket_pos(h));
    }
}

#[test]
fn hash_codes_depend_on_the_key() {
    let map = make_map(8);
    let codes: Vec<u64> = (0..64u32)
        .map(|i| map.make_hash(&make_key(&i.to_string())))
        .collect();
    assert!(codes.iter().any(|c| *c != codes[0]));

    let numbers: ConcurrentHashMap<u64, u32> = ConcurrentHashMap::new(OwnedReclaim::new(), 8);
    assert_eq!(numbers.make_hash(&7), numbers.make_hash(&7));
    assert!((0..64u64).any(|n| numbers.make_hash(&n) != n));
    assert!((1..64u64).any(|n| numbers.make_hash(&n) != numbers.make_hash(&0)));

    let texts: ConcurrentHashMap<String, u32> = ConcurrentHashMap::new(OwnedReclaim::new(), 8);
    assert_eq!(texts.make_hash(&"x".to_string()), texts.make_hash(&"x".to_string()));
    assert!((0..64u32).any(|n| texts.make_hash(&n.to_string()) != texts.make_hash(&String::new())));
}

#[test]
fn hashing_does_not_change() {
    let mut map = make_map(16);
    let key = make_key("abcdefg");
    let code = map.make_hash(&key);
    let pos = map.get_bucket_pos(code);
    for i in 0..100u32 {
        map.put(make_key(&i.to_string()), i);
    }
    map.put(make_key("abcdefg"), 1);
    map.delete(&make_key("7"));
    assert_eq!(code, map.make_hash(&key));
    assert_eq!(pos, map.get_bucket_pos(map.make_hash(&key)));
    assert_eq!(16, map.get_bucket_size());
}

#[test]
fn builders_are_seeded_apart() {
    let one = make_map(8);
    let differs = (0..8).any(|_| {
        let other = make_map(8);
        one.make_hash(&make_key("abcdefg")) != other.make_hash(&make_key("abcdefg"))
    });
    assert!(differs);
}

#[test]
fn numbers_and_strings_are_keys() {
    let mut numbers: ConcurrentHashMap<u64, u32> = ConcurrentHashMap::new(OwnedReclaim::new(), 4);
    let mut texts: ConcurrentHashMap<String, u32> = ConcurrentHashMap::new(OwnedReclaim::new(), 4);
    for i in 0..50u32 {
        numbers.put(i as u64, i);
        texts.put(i.to_string(), i);
    }
    for i in 0..50u32 {
        assert_eq!(i, numbers.get(&(i as u64)));
        assert_eq!(i, texts.get(&i.to_string()));
    }
    assert!(!numbers.contains(&50));
    assert!(!texts.contains(&"50".to_string()));
    // The default key is a key like any other.
    assert!(numbers.delete(&0));
    assert!(!texts.contains(&String::new()));
}

/// Stores the number of each key under it, and reads it back. Some hash code is not the
/// number itself.
fn holds_keys<K: HashKey + Clone>(keys: Vec<K>, absent: K) {
    let mut map: ConcurrentHashMap<K, u32> = ConcurrentHashMap::new(OwnedReclaim::new(), 4);
    for (i, key) in keys.iter().enumerate() {
        map.put(key.clone(), i as u32);
    }
    assert_eq!(keys.len(), map.get_size());
    for (i, key) in keys.iter().enumerate() {
        assert_eq!(i as u32, map.get(key));
        assert_eq!(map.make_hash(key), map.make_hash(&key.clone()));
    }
    assert!(!map.contains(&absent));
    assert!((0..keys.len()).any(|i| map.make_hash(&keys[i]) != i as u64));
    assert!((1..keys.len()).any(|i| map.make_hash(&keys[i]) != map.make_hash(&keys[0])));
    assert!(map.delete(&keys[0]));
    assert!(!map.contains(&keys[0]));
}

#[test]
fn other_types_are_keys() {
    holds_keys((0..50u8).collect(), 50);
    holds_keys((0..50u16).collect(), 50);
    holds_keys((0..50u32).collect(), 50);
    holds_keys((0..50u64).collect(), 50);
    holds_keys((0..50usize).collect(), 50);
    holds_keys((0..50i32).map(|i| -i).collect(), 1);
    holds_keys((0..50i64).map(|i| -i).collect(), 1);
    holds_keys(('\0'..'Z').collect(), 'Z');
    holds_keys((0..50u8).map(|i| vec![i, 0]).collect(), vec![0]);
    holds_keys((0..50u8).map(|i| vec![i, 0].into_boxed_slice()).collect(), make_key(""));
    holds_keys((0..50u8).map(|i| i.to_string()).collect(), String::new());
}

#[test]
fn both_truth_values_are_keys() {
    let mut map: ConcurrentHashMap<bool, u32> = ConcurrentHashMap::new(OwnedReclaim::new(), 4);
    map.put(true, 1);
    assert!(!map.contains(&false));
    map.put(false, 2);
    assert_eq!(1, map.get(&true));
    assert_eq!(2, map.get(&false));
    assert!(map.make_hash(&false) != 0 || map.make_hash(&true) != 1);
}

#[test]
fn a_walk_consumes_its_function() {
    let mut map = make_map(8);
    map.put(make_key("a"), 1);
    let text = String::from("found ");
    let answer = map.walk(
        &make_key("a"),
        move |stored| text + &stored.unwrap().to_string(),
        &mut Trail::new(),
    );
    assert_eq!("found 1", answer);
    assert!(map.walk(&make_key("b"), |stored| stored.is_none(), &mut Trail::new()));
}

/// Follows what a map asks of its manager.
struct Recorder {
    slots: Rc<RefCell<[Option<usize>; 2]>>,
    log: Rc<RefCell<Vec<String>>>,
    retired: Rc<RefCell<Vec<(u64, u32, Option<usize>)>>>,
    dropped: Rc<Cell<usize>>,
}

impl HazardPointerManager<Node<u64, u32>> for Recorder {
    fn acquire_ptr(&self, slot: usize, ptr: Option<usize>) {
        self.slots.borrow_mut()[slot] = ptr;
        let what = if ptr.is_some() { "node" } else { "null" };
        self.log.borrow_mut().push(format!("acquire {} {}", slot, what));
    }

    fn release(&self, slot: usize) {
        self.slots.borrow_mut()[slot] = None;
        self.log.borrow_mut().push(format!("release {}", slot));
    }

    fn retire_ptr(&mut self, node: Node<u64, u32>) {
        self.retired
            .borrow_mut()
            .push((node.key, node.value, node.next));
        self.dropped.set(self.dropped.get() + 1);
    }
}

#[test]
fn replaced_and_removed_nodes_are_handed_over() {
    let retired = Rc::new(RefCell::new(Vec::new()));
    let dropped = Rc::new(Cell::new(0));
    let recorder = Recorder {
        slots: Rc::new(RefCell::new([None, None])),
        log: Rc::new(RefCell::new(Vec::new())),
        retired: retired.clone(),
        dropped: dropped.clone(),
    };
    let mut map: ConcurrentHashMap<u64, u32, Recorder> = ConcurrentHashMap::new(recorder, 1);
    map.put(1, 10);
    map.put(2, 20);
    assert_eq!(0, dropped.get());
    map.put(1, 11);
    assert_eq!(vec![(1, 10, None)], *retired.borrow());
    assert!(map.delete(&2));
    assert!(!map.delete(&2));
    assert_eq!(vec![(1, 10, None), (2, 20, None)], *retired.borrow());
    assert_eq!(2, dropped.get());
    assert_eq!(11, map.get(&1));
}

#[test]
fn searches_publish_what_they_look_at() {
    let slots = Rc::new(RefCell::new([None, None]));
    let log = Rc::new(RefCell::new(Vec::new()));
    let recorder = Recorder {
        slots: slots.clone(),
        log: log.clone(),
        retired: Rc::new(RefCell::new(Vec::new())),
        dropped: Rc::new(Cell::new(0)),
    };
    let mut map: ConcurrentHashMap<u64, u32, Recorder> = ConcurrentHashMap::new(recorder, 1);

    // Without a sentinel there is nothing to protect.
    assert!(!map.contains(&1));
    assert!(log.borrow().is_empty());

    map.put(1, 10);
    assert!(log.borrow().is_empty());

    // The node is protected while the function runs, and let go afterwards.
    let seen = slots.clone();
    assert!(map.search(&1, move |_| seen.borrow()[1].is_some()));
    assert_eq!(
        vec!["acquire 1 node", "release 0", "release 1"],
        *log.borrow()
    );
    assert_eq!([None, None], *slots.borrow());

    for i in 2..40 {
        map.put(i, 0);
    }
    for i in 0..60 {
        log.borrow_mut().clear();
        assert_eq!(i >= 1 && i < 40, map.contains(&i));
        assert_eq!([None, None], *slots.borrow());
        assert_eq!(Some(&"acquire 1 node".to_string()), log.borrow().first());
    }
}
