use std::cell::RefCell;
use std::rc::Rc;

use concurrent_hash_map::arena::Arena;
use concurrent_hash_map::hazard::HazardPointerManager;
use concurrent_hash_map::node::Bucket;
use concurrent_hash_map::node::Node;
use concurrent_hash_map::reader::Placement;
use concurrent_hash_map::trail::Guard;
use concurrent_hash_map::trail::Trail;

/// Keeps the keys of the nodes handed over, and what is asked of the hazard slots.
#[derive(Clone)]
struct Ledger {
    keys: Rc<RefCell<Vec<u64>>>,
    calls: Rc<RefCell<Vec<(usize, Option<usize>)>>>,
}

impl Ledger {
    fn new() -> Ledger {
        Ledger {
            keys: Rc::new(RefCell::new(Vec::new())),
            calls: Rc::new(RefCell::new(Vec::new())),
        }
    }
}

impl HazardPointerManager<Node<u64, u32>> for Ledger {
    fn acquire_ptr(&self, slot: usize, ptr: Option<usize>) {
        self.calls.borrow_mut().push((slot, ptr));
    }

    fn release(&self, slot: usize) {
        self.calls.borrow_mut().push((slot, None));
    }

    fn retire_ptr(&mut self, node: Node<u64, u32>) {
        self.keys.borrow_mut().push(node.key);
    }
}

fn node(key: u64, next: Option<usize>) -> Node<u64, u32> {
    Node {
        next,
        split_order_key: key,
        key,
        value: 0,
    }
}

#[test]
fn nodes_keep_their_places() {
    let mut arena: Arena<u64, u32> = Arena::new();
    let a = arena.store_node(node(1, None));
    let b = arena.store_node(node(2, Some(a)));
    assert_ne!(a, b);
    assert_eq!(1, arena.get(a).key);
    assert_eq!(Some(a), arena.get(b).next);
    arena.store_next(b, None);
    assert_eq!(None, arena.get(b).next);
    assert_eq!(2, arena.get(b).key);
}

#[test]
fn places_are_used_again() {
    let mut arena: Arena<u64, u32> = Arena::new();
    let a = arena.store_node(node(1, None));
    let b = arena.store_node(node(2, None));
    let ledger = Ledger::new();
    let mut guard = Guard::new(ledger.clone());
    arena.hand_over(a, &mut guard);
    assert_eq!(vec![1], *ledger.keys.borrow());
    let c = arena.store_node(node(3, None));
    assert_eq!(a, c);
    assert_eq!(3, arena.get(c).key);
    assert_eq!(2, arena.get(b).key);
}

#[test]
fn sentinels_carry_their_position() {
    let sentinel: Node<u64, u32> = Node::make_sentinel_node(3);
    assert_eq!(0xC000_0000_0000_0000, sentinel.split_order_key);
    assert_eq!(None, sentinel.next);
    assert_eq!(0, sentinel.key);
    assert_eq!(0, sentinel.value);
    assert_eq!(None, Bucket::new().head);
}

#[test]
fn a_trail_does_what_it_notes() {
    let mut arena: Arena<u64, u32> = Arena::new();
    let b = arena.store_node(node(9, None));
    let a = arena.store_node(node(5, Some(b)));
    let ledger = Ledger::new();
    let guard = Guard::new(ledger.clone());
    let mut trail = Trail::new();
    assert_eq!(Some(a), trail.find_sentinel(&Bucket { head: Some(a) }));
    assert_eq!(None, trail.find_sentinel(&Bucket::new()));
    assert_eq!(Some(b), trail.load_next(&arena, a));
    assert_eq!(None, trail.load_next(&arena, b));
    assert_eq!(Placement::Match, trail.inspect(&arena, a, &5, 5));
    assert_eq!(Placement::Before, trail.inspect(&arena, a, &7, 7));
    assert_eq!(Placement::Beyond, trail.inspect(&arena, b, &7, 7));
    // Keys with one split order key are told apart.
    assert_eq!(Placement::Before, trail.inspect(&arena, a, &6, 5));
    trail.acquire(&guard, 1, Some(a));
    trail.acquire(&guard, 0, None);
    trail.release(&guard, 1);
    assert_eq!(vec![(1, Some(a)), (0, None), (1, None)], *ledger.calls.borrow());
    assert_eq!(0, trail.answer(&arena, Some(a), |found| *found.unwrap()));
    assert!(trail.answer(&arena, None, |found| found.is_none()));
}
