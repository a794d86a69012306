use spartacus::arena::vec_arena::{ArenaData, Slot, VecArena};
use spartacus::arena::{Arena, Boxed, UnsafeBoxed};

#[test]
fn new_arena_has_no_slots() {
    let arena: VecArena<u32> = VecArena::new();
    assert_eq!(arena.slots(), 0);
    assert!(!arena.is_live(0));
    let other: VecArena<String> = Default::default();
    assert_eq!(other.slots(), 0);
}

#[test]
fn handles_get_distinct_slots() {
    let mut arena = VecArena::new();
    let a = arena.allocate(10u32);
    let b = arena.allocate(20u32);
    let c = arena.allocate(30u32);
    assert_eq!(a.slot(), 0);
    assert_eq!(b.slot(), 1);
    assert_eq!(c.slot(), 2);
    assert_eq!(arena.slots(), 3);
    assert_eq!(*a.get(&arena), 10);
    assert_eq!(*b.get(&arena), 20);
    assert_eq!(*c.get(&arena), 30);
}

#[test]
fn unbox_hands_the_value_back_and_frees_the_slot() {
    let mut arena = VecArena::new();
    let a = arena.allocate(String::from("a"));
    let b = arena.allocate(String::from("b"));
    assert!(arena.is_live(0));
    assert_eq!(Boxed::unbox(a, &mut arena), "a");
    assert!(!arena.is_live(0));
    assert!(arena.is_live(1));
    assert_eq!(arena.slots(), 2);
    assert_eq!(b.get(&arena), "b");
}

#[test]
fn the_slot_released_last_is_used_first() {
    let mut arena = VecArena::new();
    let a = arena.allocate(1u8);
    let b = arena.allocate(2u8);
    let c = arena.allocate(3u8);
    assert_eq!(Boxed::unbox(a, &mut arena), 1);
    assert_eq!(Boxed::unbox(c, &mut arena), 3);
    let d = arena.allocate(4u8);
    assert_eq!(d.slot(), 2);
    let e = arena.allocate(5u8);
    assert_eq!(e.slot(), 0);
    let f = arena.allocate(6u8);
    assert_eq!(f.slot(), 3);
    assert_eq!(arena.slots(), 4);
    assert_eq!(*b.get(&arena), 2);
    assert_eq!(*d.get(&arena), 4);
    assert_eq!(*e.get(&arena), 5);
    assert_eq!(*f.get(&arena), 6);
}

#[test]
fn releasing_and_allocating_as_many_keeps_the_length() {
    let mut arena = VecArena::new();
    let mut handles = Vec::new();
    for i in 0..64u64 {
        handles.push(arena.allocate(i));
    }
    assert_eq!(arena.slots(), 64);
    for round in 0..10u64 {
        let mut taken = Vec::new();
        for _ in 0..20 {
            let h = handles.pop().unwrap();
            taken.push(Boxed::unbox(h, &mut arena));
        }
        assert_eq!(taken.len(), 20);
        for i in 0..20u64 {
            handles.push(arena.allocate(round * 100 + i));
        }
        assert_eq!(arena.slots(), 64);
    }
    let mut seen = vec![false; 64];
    for h in handles.iter() {
        assert!(!seen[h.slot()]);
        seen[h.slot()] = true;
        assert!(arena.is_live(h.slot()));
    }
    assert!(seen.iter().all(|s| *s));
}

#[test]
fn live_values_are_allocations_less_releases() {
    let mut arena = VecArena::new();
    let mut handles = Vec::new();
    let mut live = 0usize;
    let script = [true, true, true, false, true, false, false, true, true, false, false, false];
    for (i, alloc) in script.iter().enumerate() {
        if *alloc {
            handles.push(arena.allocate(i));
            live += 1;
        } else {
            let h = handles.remove(0);
            Boxed::unbox(h, &mut arena);
            live -= 1;
        }
        let counted = (0..arena.slots()).filter(|&s| arena.is_live(s)).count();
        assert_eq!(counted, live);
        assert_eq!(handles.len(), live);
    }
    assert_eq!(live, 0);
    assert_eq!(arena.slots(), 3);
}

#[test]
fn get_mut_writes_into_the_slot() {
    let mut arena = VecArena::new();
    let mut a = arena.allocate(vec![1, 2]);
    let b = arena.allocate(vec![3]);
    a.get_mut(&mut arena).push(9);
    assert_eq!(a.get(&arena), &vec![1, 2, 9]);
    assert_eq!(b.get(&arena), &vec![3]);
    assert_eq!(Boxed::unbox(a, &mut arena), vec![1, 2, 9]);
}

#[test]
fn raw_handle_reads_and_writes_the_same_slot() {
    let mut arena = VecArena::new();
    let _first = arena.allocate(5i32);
    let mut owner = arena.allocate(7i32);
    let mut raw = spartacus::arena::vec_arena::Boxed::to_unsafe(&mut owner);
    assert_eq!(raw.slot(), owner.slot());
    assert_eq!(raw.slot(), 1);
    let copy = raw;
    assert_eq!(*UnsafeBoxed::get(&copy, &arena), 7);
    *UnsafeBoxed::get_mut(&mut raw, &mut arena) = 8;
    assert_eq!(*owner.get(&arena), 8);
    assert_eq!(*UnsafeBoxed::get(&copy, &arena), 8);
}

#[test]
fn values_without_size_take_no_slot() {
    let mut arena: VecArena<()> = VecArena::new();
    let a = arena.allocate(());
    let mut b = arena.allocate(());
    assert_eq!(a.slot(), 0);
    assert_eq!(b.slot(), 0);
    assert_eq!(arena.slots(), 0);
    assert_eq!(*a.get(&arena), ());
    *b.get_mut(&mut arena) = ();
    Boxed::unbox(a, &mut arena);
    Boxed::unbox(b, &mut arena);
    assert_eq!(arena.slots(), 0);
}

#[test]
fn arena_data_chains_the_free_slots() {
    let mut data: ArenaData<char> = ArenaData::new();
    assert_eq!(data.slots(), 0);
    assert_eq!(data.allocate('a'), 0);
    assert_eq!(data.allocate('b'), 1);
    assert_eq!(data.allocate('c'), 2);
    assert_eq!(data.free(1), 'b');
    assert_eq!(data.free(0), 'a');
    assert!(data.is_live(2));
    assert!(!data.is_live(0));
    assert!(!data.is_live(3));
    assert!(matches!(data.slot(0), Slot::Empty(1)));
    assert!(matches!(data.slot(1), Slot::Empty(usize::MAX)));
    assert!(matches!(data.slot(2), Slot::Data('c')));
    *data.data_mut(2) = 'z';
    assert_eq!(data.allocate('d'), 0);
    assert_eq!(data.allocate('e'), 1);
    assert_eq!(data.allocate('f'), 3);
    assert_eq!(data.free(2), 'z');
    assert_eq!(data.slots(), 4);
}

#[test]
fn slot_moves_values_in_and_out() {
    let mut slot: Slot<String> = Slot::default();
    assert!(matches!(slot, Slot::Empty(usize::MAX)));
    assert_eq!(slot.set_data(String::from("x")), usize::MAX);
    assert_eq!(slot.to_ref(), "x");
    slot.to_mut().push('y');
    assert_eq!(slot.set_empty(4), "xy");
    assert!(matches!(slot, Slot::Empty(4)));
}

#[test]
fn store_takes_a_slot_whatever_the_size() {
    let mut arena: VecArena<()> = VecArena::new();
    let a = arena.store(());
    let b = arena.store(());
    assert_eq!(a.slot(), 0);
    assert_eq!(b.slot(), 1);
    assert_eq!(arena.slots(), 2);
    assert!(arena.is_live(1));
    Boxed::unbox(b, &mut arena);
    assert!(!arena.is_live(1));
    let c = arena.store(());
    assert_eq!(c.slot(), 1);
    assert_eq!(a.slot(), 0);
}

#[test]
fn value_and_value_mut_go_by_the_index() {
    let mut arena = VecArena::new();
    let a = arena.allocate(3u16);
    let b = arena.allocate(4u16);
    assert_eq!(*arena.value(a.slot()), 3);
    *arena.value_mut(b.slot()) += 10;
    assert_eq!(*b.get(&arena), 14);
    assert_eq!(*a.get(&arena), 3);
}
