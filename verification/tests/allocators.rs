use spartacus::allocator::{Alloc, BoxAlloc, Boxed};
use spartacus::arena::{Arena, BoxArena};

#[test]
fn box_alloc_boxes_the_value() {
    let alloc: BoxAlloc<String> = Default::default();
    let mut boxed = alloc.allocate(String::from("one"));
    assert_eq!(boxed.get(), "one");
    boxed.get_mut().push_str("two");
    assert_eq!(*boxed, "onetwo");
    assert_eq!(boxed.unbox(), "onetwo");
}

#[test]
fn box_alloc_handles_are_independent() {
    let alloc: BoxAlloc<u32> = Default::default();
    let mut a = alloc.allocate(1);
    let b = alloc.allocate(2);
    *a.get_mut() = 10;
    assert_eq!(*a.get(), 10);
    assert_eq!(*b.get(), 2);
}

#[test]
fn box_arena_boxes_the_value() {
    let mut arena: BoxArena<Vec<u8>> = Default::default();
    let mut boxed = arena.allocate(vec![1]);
    let other = arena.allocate(vec![7]);
    assert_eq!(spartacus::arena::Boxed::get(&boxed, &arena), &vec![1]);
    spartacus::arena::Boxed::get_mut(&mut boxed, &mut arena).push(2);
    assert_eq!(spartacus::arena::Boxed::get(&other, &arena), &vec![7]);
    assert_eq!(spartacus::arena::Boxed::unbox(boxed, &mut arena), vec![1, 2]);
}

fn juggle<A: Arena<String, B>, B: spartacus::arena::Boxed<String, Arena = A>>(arena: &mut A) {
    let mut first = arena.allocate(String::from("a"));
    let second = arena.allocate(String::from("b"));
    let mut third = arena.allocate(String::from("c"));
    first.get_mut(arena).push('1');
    assert_eq!(B::unbox(second, arena), "b");
    third.get_mut(arena).push('3');
    let fourth = arena.allocate(String::from("d"));
    assert_eq!(first.get(arena), "a1");
    assert_eq!(third.get(arena), "c3");
    assert_eq!(fourth.get(arena), "d");
    assert_eq!(B::unbox(first, arena), "a1");
    assert_eq!(B::unbox(fourth, arena), "d");
    assert_eq!(B::unbox(third, arena), "c3");
}

#[test]
fn one_client_runs_on_both_arenas() {
    let mut boxes: BoxArena<String> = Default::default();
    juggle(&mut boxes);
    let mut slots: spartacus::arena::VecArena<String> = Default::default();
    juggle(&mut slots);
    assert_eq!(slots.slots(), 3);
}
