use spartacus::tree::{BoxTreeMap, Noop, RevTreap, VecTreeMap};

type Plain = BoxTreeMap<u64, u64, Noop>;
type Treap = BoxTreeMap<u64, u64, RevTreap>;
type SlabPlain = VecTreeMap<u64, u64, Noop>;
type SlabTreap = VecTreeMap<u64, u64, RevTreap>;

fn plain(keys: &[u64]) -> Plain {
    let mut map = Plain::new();
    for &k in keys {
        assert_eq!(map.insert(k, k), None);
    }
    map
}

fn slab(keys: &[u64]) -> SlabPlain {
    let mut map = SlabPlain::new();
    for &k in keys {
        assert_eq!(map.insert(k, k), None);
    }
    map
}

#[test]
fn new_map_is_empty() {
    let map = Plain::new();
    assert_eq!(map.len(), 0);
    assert!(map.is_empty());
    assert_eq!(map.get(&1), None);
    assert!(!map.contains_key(&1));
    let map = SlabPlain::new();
    assert_eq!(map.len(), 0);
    assert!(map.is_empty());
    assert_eq!(map.get(&1), None);
    assert!(!map.contains_key(&1));
}

#[test]
fn default_map_is_empty() {
    let map: Treap = Default::default();
    assert_eq!(map.len(), 0);
    assert!(map.is_empty());
    let map: SlabTreap = Default::default();
    assert_eq!(map.len(), 0);
    assert!(map.is_empty());
}

#[test]
fn is_empty_turns_false_with_the_first_entry() {
    let mut map = Plain::new();
    map.insert(1, 10);
    assert!(!map.is_empty());
    assert_eq!(map.len(), 1);
    let mut map = SlabPlain::new();
    map.insert(1, 10);
    assert!(!map.is_empty());
    assert_eq!(map.len(), 1);
}

#[test]
fn five_keys_are_found_and_counted() {
    let map = plain(&[5, 3, 8, 1, 4]);
    assert_eq!(map.get(&3), Some(&3));
    assert_eq!(map.len(), 5);
    for k in [5u64, 3, 8, 1, 4] {
        assert_eq!(map.get(&k), Some(&k));
        assert!(map.contains_key(&k));
    }
}

#[test]
fn five_keys_are_found_and_counted_in_a_slab() {
    let map = slab(&[5, 3, 8, 1, 4]);
    assert_eq!(map.get(&3), Some(&3));
    assert_eq!(map.len(), 5);
    for k in [5u64, 3, 8, 1, 4] {
        assert_eq!(map.get(&k), Some(&k));
        assert!(map.contains_key(&k));
    }
}

// 1 and 4 were inserted after 3 and lie between it and its neighbours, so they hang below
// 3; removing 3 cuts them off with it.
#[test]
fn removing_an_inner_key_cuts_off_what_hangs_below_it() {
    let mut map = plain(&[5, 3, 8, 1, 4]);
    assert_eq!(map.get(&3), Some(&3));
    assert_eq!(map.len(), 5);
    assert_eq!(map.remove(&3), Some(3));
    assert_eq!(map.get(&3), None);
    assert_eq!(map.get(&1), None);
    assert_eq!(map.get(&4), None);
    assert_eq!(map.get(&5), Some(&5));
    assert_eq!(map.get(&8), Some(&8));
    assert_eq!(map.len(), 2);
}

#[test]
fn removing_an_inner_key_cuts_off_what_hangs_below_it_in_a_slab() {
    let mut map = slab(&[5, 3, 8, 1, 4]);
    assert_eq!(map.remove(&3), Some(3));
    assert_eq!(map.get(&3), None);
    assert_eq!(map.get(&1), None);
    assert_eq!(map.get(&4), None);
    assert_eq!(map.get(&5), Some(&5));
    assert_eq!(map.get(&8), Some(&8));
    assert_eq!(map.len(), 2);
}

#[test]
fn removing_a_key_without_children_takes_one_entry() {
    let mut map = plain(&[5, 3, 8, 1, 4]);
    assert_eq!(map.remove(&1), Some(1));
    assert_eq!(map.get(&1), None);
    assert_eq!(map.len(), 4);
    assert_eq!(map.remove(&4), Some(4));
    assert_eq!(map.len(), 3);
    assert_eq!(map.remove(&3), Some(3));
    assert_eq!(map.len(), 2);
    assert_eq!(map.get(&5), Some(&5));
    assert_eq!(map.get(&8), Some(&8));
}

#[test]
fn removing_a_key_without_children_takes_one_entry_in_a_slab() {
    let mut map = slab(&[5, 3, 8, 1, 4]);
    assert_eq!(map.remove(&1), Some(1));
    assert_eq!(map.get(&1), None);
    assert_eq!(map.len(), 4);
    assert_eq!(map.remove(&4), Some(4));
    assert_eq!(map.len(), 3);
    assert_eq!(map.remove(&3), Some(3));
    assert_eq!(map.len(), 2);
}

#[test]
fn removing_the_root_empties_the_map() {
    let mut map = plain(&[5, 3, 8]);
    assert_eq!(map.remove(&5), Some(5));
    assert!(map.is_empty());
    assert_eq!(map.len(), 0);
    assert_eq!(map.get(&3), None);
    assert_eq!(map.get(&8), None);
    let mut map = slab(&[5, 3, 8]);
    assert_eq!(map.remove(&5), Some(5));
    assert!(map.is_empty());
    assert_eq!(map.get(&3), None);
}

#[test]
fn removing_an_absent_key_changes_nothing() {
    let mut map = plain(&[5, 3, 8]);
    assert_eq!(map.remove(&7), None);
    assert_eq!(map.len(), 3);
    let mut empty = Plain::new();
    assert_eq!(empty.remove(&7), None);
    let mut map = slab(&[5, 3, 8]);
    assert_eq!(map.remove(&7), None);
    assert_eq!(map.len(), 3);
    for k in [5u64, 3, 8] {
        assert_eq!(map.get(&k), Some(&k));
    }
}

#[test]
fn inserting_an_existing_key_returns_the_old_value() {
    let mut map = plain(&[5, 3, 8]);
    assert_eq!(map.insert(3, 30), Some(3));
    assert_eq!(map.get(&3), Some(&30));
    assert_eq!(map.len(), 3);
    assert_eq!(map.insert(3, 31), Some(30));
    assert_eq!(map.get(&3), Some(&31));
    assert_eq!(map.len(), 3);
}

#[test]
fn inserting_an_existing_key_returns_the_old_value_in_a_slab() {
    let mut map = slab(&[5, 3, 8]);
    assert_eq!(map.insert(3, 30), Some(3));
    assert_eq!(map.get(&3), Some(&30));
    assert_eq!(map.len(), 3);
    assert_eq!(map.insert(5, 50), Some(5));
    assert_eq!(map.get(&5), Some(&50));
    assert_eq!(map.get(&8), Some(&8));
    assert_eq!(map.len(), 3);
}

#[test]
fn keys_never_inserted_are_not_found() {
    let map = plain(&[10, 20, 30]);
    for k in [0u64, 15, 25, 31, u64::MAX] {
        assert_eq!(map.get(&k), None);
        assert!(!map.contains_key(&k));
    }
    let map = slab(&[10, 20, 30]);
    for k in [0u64, 15, 25, 31, u64::MAX] {
        assert_eq!(map.get(&k), None);
        assert!(!map.contains_key(&k));
    }
}

#[test]
fn get_mut_writes_through() {
    let mut map = plain(&[5, 3, 8]);
    match map.get_mut(&8) {
        Some(v) => *v = 80,
        None => panic!("8 is in the map"),
    }
    assert_eq!(map.get(&8), Some(&80));
    assert_eq!(map.get(&5), Some(&5));
    assert!(map.get_mut(&9).is_none());
    assert_eq!(map.len(), 3);
}

#[test]
fn get_mut_writes_through_in_a_slab() {
    let mut map = slab(&[5, 3, 8, 1]);
    match map.get_mut(&1) {
        Some(v) => *v = 11,
        None => panic!("1 is in the map"),
    }
    match map.get_mut(&5) {
        Some(v) => *v += 50,
        None => panic!("5 is in the map"),
    }
    assert_eq!(map.get(&1), Some(&11));
    assert_eq!(map.get(&5), Some(&55));
    assert_eq!(map.get(&3), Some(&3));
    assert_eq!(map.get(&8), Some(&8));
    assert!(map.get_mut(&9).is_none());
    assert_eq!(map.len(), 4);
}

#[test]
fn clear_drops_every_entry() {
    let mut map = plain(&[5, 3, 8, 1, 4]);
    map.clear();
    assert!(map.is_empty());
    assert_eq!(map.len(), 0);
    assert_eq!(map.get(&5), None);
    assert_eq!(map.insert(5, 50), None);
    assert_eq!(map.len(), 1);
    let mut map = slab(&[5, 3, 8, 1, 4]);
    map.clear();
    assert!(map.is_empty());
    assert_eq!(map.get(&5), None);
    assert_eq!(map.insert(5, 50), None);
    assert_eq!(map.len(), 1);
}

#[test]
fn len_counts_distinct_keys() {
    let mut map = Plain::new();
    let mut other = SlabTreap::new();
    let keys = [7u64, 3, 7, 9, 3, 3, 1, 9, 12];
    let mut distinct: Vec<u64> = Vec::new();
    for &k in keys.iter() {
        let had = distinct.contains(&k);
        assert_eq!(map.insert(k, k + 100).is_some(), had);
        assert_eq!(other.insert(k, k + 100).is_some(), had);
        if !had {
            distinct.push(k);
        }
        assert_eq!(map.len(), distinct.len());
        assert_eq!(other.len(), distinct.len());
    }
    assert_eq!(map.len(), 5);
}

#[test]
fn removed_value_is_the_latest_one() {
    let mut map = Plain::new();
    map.insert(2, 20);
    map.insert(2, 21);
    map.insert(2, 22);
    assert_eq!(map.remove(&2), Some(22));
    assert_eq!(map.get(&2), None);
    assert_eq!(map.remove(&2), None);
}

#[test]
fn treap_finds_what_was_inserted() {
    let mut map = Treap::new();
    for k in 0..500u64 {
        assert_eq!(map.insert(k, k * 2), None);
    }
    assert_eq!(map.len(), 500);
    for k in 0..500u64 {
        assert_eq!(map.get(&k), Some(&(k * 2)));
    }
    assert_eq!(map.get(&500), None);
    assert_eq!(map.insert(17, 0), Some(34));
    assert_eq!(map.get(&17), Some(&0));
    assert_eq!(map.len(), 500);
}

#[test]
fn slab_treap_finds_what_was_inserted() {
    let mut map = SlabTreap::new();
    for k in 0..500u64 {
        assert_eq!(map.insert(k * 7 % 501, k), None);
    }
    assert_eq!(map.len(), 500);
    for k in 0..500u64 {
        assert_eq!(map.get(&(k * 7 % 501)), Some(&k));
    }
    assert_eq!(map.insert(7, 0), Some(1));
    assert_eq!(map.get(&7), Some(&0));
    assert_eq!(map.len(), 500);
}

#[test]
fn treap_remove_then_lookup() {
    let mut map = Treap::new();
    for k in [40u64, 10, 30, 20, 50] {
        map.insert(k, k + 1);
    }
    let before = map.len();
    assert_eq!(map.remove(&30), Some(31));
    assert_eq!(map.get(&30), None);
    assert!(map.len() < before);
    assert_eq!(map.remove(&30), None);
}

#[test]
fn both_arenas_give_the_same_map() {
    let mut boxed = Plain::new();
    let mut slabbed = SlabPlain::new();
    let script: [(bool, u64); 14] = [
        (true, 50),
        (true, 30),
        (true, 70),
        (true, 20),
        (true, 40),
        (false, 30),
        (true, 60),
        (true, 30),
        (false, 99),
        (true, 70),
        (false, 70),
        (true, 10),
        (false, 50),
        (true, 5),
    ];
    for (step, (put, key)) in script.iter().enumerate() {
        if *put {
            assert_eq!(boxed.insert(*key, step as u64), slabbed.insert(*key, step as u64));
        } else {
            assert_eq!(boxed.remove(key), slabbed.remove(key));
        }
        assert_eq!(boxed.len(), slabbed.len());
        for probe in 0..100u64 {
            assert_eq!(boxed.get(&probe), slabbed.get(&probe));
        }
    }
    assert_eq!(boxed.len(), 1);
    assert_eq!(boxed.get(&5), Some(&13));
}

#[test]
fn signed_and_tuple_keys() {
    let mut map: BoxTreeMap<(i32, u8), &str, Noop> = BoxTreeMap::new();
    map.insert((-1, 2), "a");
    map.insert((-1, 1), "b");
    map.insert((3, 0), "c");
    assert_eq!(map.get(&(-1, 1)), Some(&"b"));
    assert_eq!(map.get(&(-1, 2)), Some(&"a"));
    assert_eq!(map.get(&(3, 0)), Some(&"c"));
    assert_eq!(map.get(&(3, 1)), None);
    assert_eq!(map.len(), 3);
}
