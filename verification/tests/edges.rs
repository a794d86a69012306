use spartacus::arena::VecArena;
use spartacus::tree::{
    cmp_key, BoxLink, BoxNodes, Edge, Indirect, Node, Noop, RevTreap, VecLink, VecNodes,
};
use std::cmp::Ordering;

type Boxes = BoxNodes<i64, i64, Noop>;
type BoxEdge = BoxLink<i64, i64, Noop>;
type Slots = VecNodes<i64, i64, Noop>;
type SlotEdge = VecLink<i64, i64, Noop>;

fn put<I: Edge<i64, i64, Noop>>(
    edge: &mut I,
    arena: &mut I::Arena,
    key: i64,
    value: i64,
) -> Option<i64> {
    let node = I::new(Node::new(key, value), arena);
    edge.insert(arena, node)
}

fn depth<K, V, R, I: Indirect<K, V, R>>(edge: &I, arena: &I::Arena) -> usize {
    if edge.is_none() {
        0
    } else {
        let node = edge.deref(arena);
        1 + depth(&node.left, arena).max(depth(&node.right, arena))
    }
}

fn live(arena: &Slots) -> usize {
    (0..arena.slots()).filter(|&s| arena.is_live(s)).count()
}

#[test]
fn cmp_key_of_the_empty_edge_is_none() {
    let arena = Boxes::default();
    let edge = BoxEdge::none();
    assert_eq!(cmp_key(&edge, &arena, &1), None);
}

#[test]
fn cmp_key_calls_a_greater_key_less() {
    let mut arena = Boxes::default();
    let mut edge = BoxEdge::none();
    put(&mut edge, &mut arena, 10, 0);
    assert_eq!(cmp_key(&edge, &arena, &10), Some(Ordering::Equal));
    assert_eq!(cmp_key(&edge, &arena, &11), Some(Ordering::Less));
    assert_eq!(cmp_key(&edge, &arena, &9), Some(Ordering::Greater));
}

#[test]
fn greater_keys_go_left_and_smaller_keys_right() {
    let mut arena = Slots::default();
    let mut edge = SlotEdge::none();
    put(&mut edge, &mut arena, 10, 0);
    put(&mut edge, &mut arena, 20, 0);
    put(&mut edge, &mut arena, 5, 0);
    let root = edge.deref(&arena);
    assert_eq!(root.key, 10);
    assert_eq!(root.left.deref(&arena).key, 20);
    assert_eq!(root.right.deref(&arena).key, 5);
}

#[test]
fn edge_len_counts_nodes() {
    let mut arena = Boxes::default();
    let mut edge = BoxEdge::none();
    assert_eq!(edge.len(&arena), 0);
    put(&mut edge, &mut arena, 2, 0);
    assert_eq!(edge.len(&arena), 1);
    put(&mut edge, &mut arena, 1, 0);
    put(&mut edge, &mut arena, 3, 0);
    assert_eq!(edge.len(&arena), 3);
    put(&mut edge, &mut arena, 3, 1);
    assert_eq!(edge.len(&arena), 3);
}

#[test]
fn edge_insert_keeps_the_place_of_an_existing_key() {
    let mut arena = Boxes::default();
    let mut edge = BoxEdge::none();
    put(&mut edge, &mut arena, 2, 20);
    put(&mut edge, &mut arena, 1, 10);
    put(&mut edge, &mut arena, 3, 30);
    assert_eq!(put(&mut edge, &mut arena, 2, 21), Some(20));
    let root = edge.deref(&arena);
    assert_eq!(root.key, 2);
    assert_eq!(root.value, 21);
    assert_eq!(root.left.deref(&arena).key, 3);
    assert_eq!(root.right.deref(&arena).key, 1);
}

#[test]
fn edge_get_and_get_mut() {
    let mut arena = Slots::default();
    let mut edge = SlotEdge::none();
    assert_eq!(edge.get(&arena, &1), None);
    assert!(edge.get_mut(&mut arena, &1).is_none());
    put(&mut edge, &mut arena, 2, 20);
    put(&mut edge, &mut arena, 1, 10);
    assert_eq!(edge.get(&arena, &1), Some(&10));
    *edge.get_mut(&mut arena, &1).unwrap() += 5;
    assert_eq!(edge.get(&arena, &1), Some(&15));
    assert_eq!(edge.get(&arena, &2), Some(&20));
}

#[test]
fn edge_remove_takes_the_subtree() {
    let mut arena = Boxes::default();
    let mut edge = BoxEdge::none();
    for k in [50, 30, 70, 20, 40, 60, 80] {
        put(&mut edge, &mut arena, k, k);
    }
    assert_eq!(edge.len(&arena), 7);
    assert_eq!(edge.remove(&mut arena, &30), Some(30));
    assert_eq!(edge.len(&arena), 4);
    assert_eq!(edge.get(&arena, &20), None);
    assert_eq!(edge.get(&arena, &40), None);
    assert_eq!(edge.remove(&mut arena, &30), None);
    assert_eq!(edge.remove(&mut arena, &50), Some(50));
    assert!(edge.is_none());
}

#[test]
fn a_slab_holds_the_nodes_of_the_tree_and_no_others() {
    let mut arena = Slots::default();
    let mut edge = SlotEdge::none();
    for k in [50, 30, 70, 20, 40, 60, 80] {
        put(&mut edge, &mut arena, k, k);
        assert_eq!(live(&arena), edge.len(&arena));
    }
    assert_eq!(arena.slots(), 7);
    assert_eq!(put(&mut edge, &mut arena, 40, 41), Some(40));
    assert_eq!(live(&arena), 7);
    assert_eq!(arena.slots(), 8);
    assert_eq!(edge.remove(&mut arena, &30), Some(30));
    assert_eq!(edge.len(&arena), 4);
    assert_eq!(live(&arena), 4);
    for k in [31, 32, 33, 34] {
        put(&mut edge, &mut arena, k, k);
    }
    assert_eq!(arena.slots(), 8);
    assert_eq!(live(&arena), 8);
    assert_eq!(edge.remove(&mut arena, &50), Some(50));
    assert!(edge.is_none());
    assert_eq!(live(&arena), 0);
    assert_eq!(arena.slots(), 8);
}

#[test]
fn update_under_noop_changes_nothing() {
    let mut arena = Boxes::default();
    let mut edge = BoxEdge::none();
    put(&mut edge, &mut arena, 2, 0);
    put(&mut edge, &mut arena, 1, 0);
    put(&mut edge, &mut arena, 3, 0);
    edge.update(&mut arena);
    assert_eq!(edge.deref(&arena).key, 2);
    assert_eq!(depth(&edge, &arena), 2);
    let mut empty = BoxEdge::none();
    empty.update(&mut arena);
    assert!(empty.is_none());
}

#[test]
fn ascending_keys_make_a_chain_without_balancing() {
    let mut arena = Slots::default();
    let mut edge = SlotEdge::none();
    for k in 0..300 {
        put(&mut edge, &mut arena, k, k);
    }
    assert_eq!(depth(&edge, &arena), 300);
    assert_eq!(edge.len(&arena), 300);
}

fn shallow<I: Edge<u32, u32, RevTreap>>(mut arena: I::Arena) {
    for _ in 0..5 {
        let mut edge = I::none();
        let n: u32 = 4096;
        for k in 0..n {
            let node = I::new(Node::new(k, k), &mut arena);
            assert_eq!(edge.insert(&mut arena, node), None);
        }
        assert_eq!(edge.len(&arena), n as usize);
        let d = depth(&edge, &arena);
        assert!(d >= 12);
        assert!(d <= 120, "depth {} for {} keys", d, n);
        for k in 0..n {
            assert_eq!(edge.get(&arena, &k), Some(&k));
        }
        let top = edge.deref(&arena).key;
        assert_eq!(edge.remove(&mut arena, &top), Some(top));
        assert!(edge.is_none());
    }
}

#[test]
fn ascending_keys_stay_shallow_under_the_randomized_rule() {
    shallow::<BoxLink<u32, u32, RevTreap>>(BoxNodes::<u32, u32, RevTreap>::default());
}

#[test]
fn ascending_keys_stay_shallow_under_the_randomized_rule_in_a_slab() {
    shallow::<VecLink<u32, u32, RevTreap>>(VecArena::new());
}

#[test]
fn randomized_rule_keeps_the_keys() {
    let mut arena = VecArena::new();
    let mut edge: VecLink<u32, u32, RevTreap> = VecLink::none();
    for k in [8u32, 4, 12, 2, 6, 10, 14, 1, 3] {
        let node = VecLink::new(Node::new(k, k), &mut arena);
        edge.insert(&mut arena, node);
    }
    let before = edge.len(&arena);
    assert_eq!(before, 9);
    for k in [8u32, 4, 12, 2, 6, 10, 14, 1, 3] {
        assert_eq!(edge.get(&arena, &k), Some(&k));
    }
    let removed = edge.remove(&mut arena, &1);
    assert_eq!(removed, Some(1));
    assert!(edge.len(&arena) < before);
    assert_eq!(edge.get(&arena, &1), None);
}
