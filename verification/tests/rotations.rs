use spartacus::arena::VecArena;
use spartacus::tree::{
    rotate_left, rotate_right, BoxLink, BoxNodes, Edge, Indirect, Node, Noop, VecLink,
};

fn fork<I: Indirect<i32, (), Noop>>(key: i32, left: I, right: I, arena: &mut I::Arena) -> I {
    let mut node = Node::new(key, ());
    node.left = left;
    node.right = right;
    I::new(node, arena)
}

fn leaf<I: Indirect<i32, (), Noop>>(key: i32, arena: &mut I::Arena) -> I {
    fork(key, I::none(), I::none(), arena)
}

fn in_order<I: Indirect<i32, (), Noop>>(edge: &I, arena: &I::Arena, out: &mut Vec<i32>) {
    if !edge.is_none() {
        let node = edge.deref(arena);
        in_order(&node.left, arena, out);
        out.push(node.key);
        in_order(&node.right, arena, out);
    }
}

fn keys<I: Indirect<i32, (), Noop>>(edge: &I, arena: &I::Arena) -> Vec<i32> {
    let mut out = Vec::new();
    in_order(edge, arena, &mut out);
    out
}

// Greater keys to the left: the tree 50 (70 (80, 60), 30 (40, 20)).
fn sample<I: Indirect<i32, (), Noop>>(arena: &mut I::Arena) -> I {
    let l80 = leaf(80, arena);
    let l60 = leaf(60, arena);
    let high = fork(70, l80, l60, arena);
    let l40 = leaf(40, arena);
    let l20 = leaf(20, arena);
    let low = fork(30, l40, l20, arena);
    fork(50, high, low, arena)
}

fn key_of<I: Indirect<i32, (), Noop>>(edge: &I, arena: &I::Arena) -> i32 {
    edge.deref(arena).key
}

fn lifts_the_right_child<I: Indirect<i32, (), Noop>>(mut arena: I::Arena) {
    let mut root: I = sample(&mut arena);
    assert!(rotate_left(&mut root, &mut arena).is_ok());
    assert_eq!(key_of(&root, &arena), 30);
    let low = &root.deref(&arena).left;
    assert_eq!(key_of(low, &arena), 50);
    assert_eq!(key_of(&low.deref(&arena).left, &arena), 70);
    assert_eq!(key_of(&low.deref(&arena).right, &arena), 40);
    assert_eq!(key_of(&root.deref(&arena).right, &arena), 20);
}

fn lifts_the_left_child<I: Indirect<i32, (), Noop>>(mut arena: I::Arena) {
    let mut root: I = sample(&mut arena);
    assert!(rotate_right(&mut root, &mut arena).is_ok());
    assert_eq!(key_of(&root, &arena), 70);
    assert_eq!(key_of(&root.deref(&arena).left, &arena), 80);
    let high = &root.deref(&arena).right;
    assert_eq!(key_of(high, &arena), 50);
    assert_eq!(key_of(&high.deref(&arena).left, &arena), 60);
    assert_eq!(key_of(&high.deref(&arena).right, &arena), 30);
}

#[test]
fn rotate_left_lifts_the_right_child() {
    lifts_the_right_child::<BoxLink<i32, (), Noop>>(BoxNodes::<i32, (), Noop>::default());
    lifts_the_right_child::<VecLink<i32, (), Noop>>(VecArena::new());
}

#[test]
fn rotate_right_lifts_the_left_child() {
    lifts_the_left_child::<BoxLink<i32, (), Noop>>(BoxNodes::<i32, (), Noop>::default());
    lifts_the_left_child::<VecLink<i32, (), Noop>>(VecArena::new());
}

#[test]
fn rotations_keep_the_keys_and_their_order() {
    let mut arena = VecArena::new();
    let mut root: VecLink<i32, (), Noop> = sample(&mut arena);
    let before = keys(&root, &arena);
    assert_eq!(before, vec![80, 70, 60, 50, 40, 30, 20]);
    rotate_left(&mut root, &mut arena).unwrap();
    assert_eq!(keys(&root, &arena), before);
    rotate_right(&mut root, &mut arena).unwrap();
    assert_eq!(keys(&root, &arena), before);
    rotate_right(&mut root, &mut arena).unwrap();
    assert_eq!(keys(&root, &arena), before);
    assert_eq!(arena.slots(), 7);
}

#[test]
fn rotate_left_then_right_gives_the_tree_back() {
    let mut arena = BoxNodes::<i32, (), Noop>::default();
    let mut root: BoxLink<i32, (), Noop> = sample(&mut arena);
    rotate_left(&mut root, &mut arena).unwrap();
    rotate_right(&mut root, &mut arena).unwrap();
    assert_eq!(key_of(&root, &arena), 50);
    assert_eq!(key_of(&root.deref(&arena).left, &arena), 70);
    assert_eq!(key_of(&root.deref(&arena).right, &arena), 30);
}

#[test]
fn rotate_left_without_a_right_child_fails() {
    let mut arena = VecArena::new();
    let nine = leaf(9, &mut arena);
    let mut root: VecLink<i32, (), Noop> = fork(5, nine, VecLink::none(), &mut arena);
    assert!(rotate_left(&mut root, &mut arena).is_err());
    assert_eq!(key_of(&root, &arena), 5);
    assert_eq!(key_of(&root.deref(&arena).left, &arena), 9);
    assert!(root.deref(&arena).right.is_none());
}

#[test]
fn rotate_right_without_a_left_child_fails() {
    let mut arena = BoxNodes::<i32, (), Noop>::default();
    let one = leaf(1, &mut arena);
    let mut root: BoxLink<i32, (), Noop> = fork(5, BoxLink::none(), one, &mut arena);
    assert!(rotate_right(&mut root, &mut arena).is_err());
    assert_eq!(key_of(&root, &arena), 5);
    assert!(root.deref(&arena).left.is_none());
    assert_eq!(key_of(&root.deref(&arena).right, &arena), 1);
}

#[test]
fn rotating_a_link_to_no_node_fails() {
    let mut arena = VecArena::new();
    let mut root: VecLink<i32, (), Noop> = VecLink::none();
    assert!(rotate_left(&mut root, &mut arena).is_err());
    assert!(rotate_right(&mut root, &mut arena).is_err());
    assert!(root.is_none());
}

#[test]
fn searches_find_the_same_after_a_rotation() {
    let mut arena = VecArena::new();
    let mut edge: VecLink<i32, (), Noop> = sample(&mut arena);
    for k in [80, 70, 60, 50, 40, 30, 20] {
        assert!(edge.get(&arena, &k).is_some());
    }
    rotate_left(&mut edge, &mut arena).unwrap();
    for k in [80, 70, 60, 50, 40, 30, 20] {
        assert!(edge.get(&arena, &k).is_some());
    }
    assert_eq!(edge.get(&arena, &55), None);
    assert_eq!(edge.len(&arena), 7);
}
