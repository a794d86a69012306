//! What holds of the trees of this crate: the order of a search tree is kept by every
//! operation, and on a search tree the operations act as on a map.

use crate::order::{lemma_transitive, lemma_trichotomy, precedes, total_order};
use crate::tree::regulator::{Noop, Regulator};
use crate::tree::shape::Shape;
use vstd::prelude::*;

verus! {

/// In a search tree a key is found exactly if some node carries it, and the search ends
/// at a node with that key.
pub proof fn lemma_find_has<K: Ord, V, R>(s: Shape<K, V, R>, key: K)
    requires
        total_order::<K>(),
        s.ordered(),
    ensures
        s.has(key) <==> s.find(key) is Some,
        s.subtree(key) is Fork ==> s.subtree(key)->key == key,
    decreases s,
{
    match s {
        Shape::Leaf => {},
        Shape::Fork { left, key: k, right, .. } => {
            lemma_trichotomy(k, key);
            if k == key {
            } else if precedes(k, key) {
                lemma_find_has(*left, key);
                assert(right.has(key) ==> precedes(key, k));
            } else {
                lemma_find_has(*right, key);
                assert(left.has(key) ==> precedes(k, key));
            }
        },
    }
}

/// The subtree that a search ends at is a search tree, and each of its keys is a key of
/// the whole tree.
pub proof fn lemma_subtree<K: Ord, V, R>(s: Shape<K, V, R>, key: K, probe: K)
    requires
        s.ordered(),
    ensures
        s.subtree(key).ordered(),
        s.subtree(key).has(probe) ==> s.has(probe),
    decreases s,
{
    match s {
        Shape::Leaf => {},
        Shape::Fork { left, key: k, right, .. } => {
            if k == key {
            } else if precedes(k, key) {
                lemma_subtree(*left, key, probe);
            } else {
                lemma_subtree(*right, key, probe);
            }
        },
    }
}

/// Writing to the value of a key changes no key.
pub proof fn lemma_with_value_has<K: Ord, V, R>(s: Shape<K, V, R>, key: K, value: V, probe: K)
    ensures
        s.with_value(key, value).has(probe) == s.has(probe),
        s.with_value(key, value).len() == s.len(),
    decreases s,
{
    match s {
        Shape::Leaf => {},
        Shape::Fork { left, right, .. } => {
            lemma_with_value_has(*left, key, value, probe);
            lemma_with_value_has(*right, key, value, probe);
        },
    }
}

/// Writing to the value of a key keeps the order of a search tree.
pub proof fn lemma_with_value_ordered<K: Ord, V, R>(s: Shape<K, V, R>, key: K, value: V)
    requires
        s.ordered(),
    ensures
        s.with_value(key, value).ordered(),
    decreases s,
{
    match s {
        Shape::Leaf => {},
        Shape::Fork { left, key: k, right, .. } => {
            let t = s.with_value(key, value);
            lemma_with_value_ordered(*left, key, value);
            lemma_with_value_ordered(*right, key, value);
            assert forall|q: K| #[trigger] t.left().has(q) implies precedes(k, q) by {
                lemma_with_value_has(*left, key, value, q);
                assert(left.has(q));
            }
            assert forall|q: K| #[trigger] t.right().has(q) implies precedes(q, k) by {
                lemma_with_value_has(*right, key, value, q);
                assert(right.has(q));
            }
        },
    }
}

/// Writing to the value of a key changes what a search finds for that key, and for no
/// other.
pub proof fn lemma_with_value_find<K: Ord, V, R>(s: Shape<K, V, R>, key: K, value: V, probe: K)
    requires
        total_order::<K>(),
    ensures
        s.with_value(key, value).find(probe) == if probe == key && s.find(key) is Some {
            Some(value)
        } else {
            s.find(probe)
        },
    decreases s,
{
    match s {
        Shape::Leaf => {},
        Shape::Fork { left, key: k, right, .. } => {
            lemma_with_value_find(*left, key, value, probe);
            lemma_with_value_find(*right, key, value, probe);
            lemma_trichotomy(k, key);
            lemma_trichotomy(k, probe);
        },
    }
}

/// A left rotation keeps the order of a search tree and what a search finds.
pub proof fn lemma_rotated_left<K: Ord, V, R>(s: Shape<K, V, R>, probe: K)
    requires
        total_order::<K>(),
        s.ordered(),
    ensures
        s.rotated_left().ordered(),
        s.rotated_left().find(probe) == s.find(probe),
{
    reveal_with_fuel(Shape::ordered, 2);
    reveal_with_fuel(Shape::subtree, 3);
    let t = s.rotated_left();
    if s is Fork && s.right() is Fork {
        let r_key = s->key;
        let b = s.right();
        let b_key = b->key;
        let a = s.left();
        let c = b.left();
        let d = b.right();
        let low = t.left();
        assert(b.has(b_key));
        assert(precedes(b_key, r_key));
        assert forall|q: K| #[trigger] low.has(q) implies precedes(b_key, q) by {
            if a.has(q) {
                lemma_transitive(b_key, r_key, q);
            }
            if c.has(q) {
            }
        }
        assert forall|q: K| #[trigger] c.has(q) implies precedes(q, r_key) by {
            assert(b.has(q));
        }
        assert(low.ordered());
        assert(t.ordered());
        lemma_trichotomy(r_key, probe);
        lemma_trichotomy(b_key, probe);
        lemma_trichotomy(b_key, r_key);
        if precedes(r_key, probe) {
            lemma_transitive(b_key, r_key, probe);
        }
        if precedes(probe, b_key) {
            lemma_transitive(probe, b_key, r_key);
        }
    }
}

/// A right rotation keeps the order of a search tree and what a search finds.
pub proof fn lemma_rotated_right<K: Ord, V, R>(s: Shape<K, V, R>, probe: K)
    requires
        total_order::<K>(),
        s.ordered(),
    ensures
        s.rotated_right().ordered(),
        s.rotated_right().find(probe) == s.find(probe),
{
    reveal_with_fuel(Shape::ordered, 2);
    reveal_with_fuel(Shape::subtree, 3);
    let t = s.rotated_right();
    if s is Fork && s.left() is Fork {
        let r_key = s->key;
        let a = s.left();
        let a_key = a->key;
        let b = s.right();
        let c = a.left();
        let d = a.right();
        let high = t.right();
        assert(a.has(a_key));
        assert(precedes(r_key, a_key));
        assert forall|q: K| #[trigger] high.has(q) implies precedes(q, a_key) by {
            if b.has(q) {
                lemma_transitive(q, r_key, a_key);
            }
            if d.has(q) {
            }
        }
        assert forall|q: K| #[trigger] d.has(q) implies precedes(r_key, q) by {
            assert(a.has(q));
        }
        assert(high.ordered());
        assert(t.ordered());
        lemma_trichotomy(r_key, probe);
        lemma_trichotomy(a_key, probe);
        lemma_trichotomy(r_key, a_key);
        if precedes(probe, r_key) {
            lemma_transitive(probe, r_key, a_key);
        }
        if precedes(a_key, probe) {
            lemma_transitive(r_key, a_key, probe);
        }
    }
}

/// A rotation moves nodes and neither adds nor drops a key: the keys, each counted as
/// often as it occurs, are those of the tree before, and so is the number of nodes.
pub proof fn lemma_rotation_keeps_keys<K, V, R>(s: Shape<K, V, R>)
    ensures
        s.rotated_left().bag() == s.bag(),
        s.rotated_right().bag() == s.bag(),
        s.rotated_left().len() == s.len(),
        s.rotated_right().len() == s.len(),
{
    reveal_with_fuel(Shape::bag, 3);
    reveal_with_fuel(Shape::len, 3);
    assert(s.rotated_left().bag() =~= s.bag());
    assert(s.rotated_right().bag() =~= s.bag());
}

/// Inserting a fresh node into a search tree gives a search tree in which the new key is
/// found with the new value and every other key as before.
pub proof fn lemma_inserted<K: Ord, V, R: Regulator<K, V>>(
    s: Shape<K, V, R>,
    key: K,
    value: V,
    rule: R,
    probe: K,
)
    requires
        total_order::<K>(),
        s.ordered(),
    ensures
        s.inserted(Shape::leaf(key, value, rule)).ordered(),
        s.inserted(Shape::leaf(key, value, rule)).find(probe) == if probe == key {
            Some(value)
        } else {
            s.find(probe)
        },
    decreases s,
{
    let newbie = Shape::leaf(key, value, rule);
    let t = s.inserted(newbie);
    match s {
        Shape::Leaf => {
            assert(t == newbie);
        },
        Shape::Fork { left, key: k, value: v, rule: r, right } => {
            lemma_trichotomy(k, key);
            lemma_trichotomy(k, probe);
            if k == key {
            } else if precedes(k, key) {
                let grown = Shape::Fork {
                    left: Box::new(left.inserted(newbie)),
                    key: k,
                    value: v,
                    rule: r,
                    right,
                };
                lemma_inserted(*left, key, value, rule, probe);
                assert forall|q: K| #[trigger] grown.left().has(q) implies precedes(k, q) by {
                    lemma_inserted(*left, key, value, rule, q);
                    lemma_find_has(grown.left(), q);
                    lemma_find_has(*left, q);
                    if q != key {
                        assert(left.has(q));
                    }
                }
                assert(grown.ordered());
                if left.find(key) is None {
                    R::lemma_updated(grown, probe);
                }
            } else {
                let grown = Shape::Fork {
                    left,
                    key: k,
                    value: v,
                    rule: r,
                    right: Box::new(right.inserted(newbie)),
                };
                lemma_inserted(*right, key, value, rule, probe);
                assert forall|q: K| #[trigger] grown.right().has(q) implies precedes(q, k) by {
                    lemma_inserted(*right, key, value, rule, q);
                    lemma_find_has(grown.right(), q);
                    lemma_find_has(*right, q);
                    if q != key {
                        assert(right.has(q));
                    }
                }
                assert(grown.ordered());
                if right.find(key) is None {
                    R::lemma_updated(grown, probe);
                }
            }
        },
    }
}

/// Removing a key from a search tree gives a search tree in which no key of the subtree
/// that was cut off is found any more, and every other key as before.
pub proof fn lemma_removed<K: Ord, V, R: Regulator<K, V>>(s: Shape<K, V, R>, key: K, probe: K)
    requires
        total_order::<K>(),
        s.ordered(),
    ensures
        s.removed(key).ordered(),
        s.removed(key).find(probe) == if s.subtree(key).has(probe) {
            None
        } else {
            s.find(probe)
        },
    decreases s,
{
    let t = s.removed(key);
    match s {
        Shape::Leaf => {},
        Shape::Fork { left, key: k, value: v, rule: r, right } => {
            lemma_trichotomy(k, key);
            lemma_trichotomy(k, probe);
            lemma_trichotomy(k, k);
            if k == key {
                lemma_find_has(s, probe);
            } else if precedes(k, key) {
                let cut = Shape::Fork {
                    left: Box::new(left.removed(key)),
                    key: k,
                    value: v,
                    rule: r,
                    right,
                };
                lemma_removed(*left, key, probe);
                lemma_subtree(*left, key, probe);
                lemma_subtree(*left, key, k);
                assert forall|q: K| #[trigger] cut.left().has(q) implies precedes(k, q) by {
                    lemma_removed(*left, key, q);
                    lemma_find_has(cut.left(), q);
                    lemma_find_has(*left, q);
                    assert(left.has(q));
                }
                assert(cut.ordered());
                if left.subtree(key).has(probe) {
                    assert(left.has(probe));
                }
                if left.subtree(key).has(k) {
                    assert(left.has(k));
                }
                if left.find(key) is Some {
                    R::lemma_updated(cut, probe);
                }
            } else {
                let cut = Shape::Fork {
                    left,
                    key: k,
                    value: v,
                    rule: r,
                    right: Box::new(right.removed(key)),
                };
                lemma_removed(*right, key, probe);
                lemma_subtree(*right, key, probe);
                lemma_subtree(*right, key, k);
                assert forall|q: K| #[trigger] cut.right().has(q) implies precedes(q, k) by {
                    lemma_removed(*right, key, q);
                    lemma_find_has(cut.right(), q);
                    lemma_find_has(*right, q);
                    assert(right.has(q));
                }
                assert(cut.ordered());
                if right.subtree(key).has(probe) {
                    assert(right.has(probe));
                }
                if right.subtree(key).has(k) {
                    assert(right.has(k));
                }
                if right.find(key) is Some {
                    R::lemma_updated(cut, probe);
                }
            }
        },
    }
}

/// In a search tree no key occurs twice: the keys form a finite set with as many elements
/// as the tree has nodes, and they are the keys that the tree maps.
pub proof fn lemma_keys<K: Ord, V, R>(s: Shape<K, V, R>)
    requires
        total_order::<K>(),
        s.ordered(),
    ensures
        s.keys().finite(),
        s.keys().len() == s.len(),
        s.map().dom() == s.keys(),
    decreases s,
{
    assert forall|q: K| s.map().dom().contains(q) == s.keys().contains(q) by {
        lemma_find_has(s, q);
    }
    assert(s.map().dom() =~= s.keys());
    match s {
        Shape::Leaf => {
            assert(s.keys() =~= Set::empty());
        },
        Shape::Fork { left, key: k, right, .. } => {
            lemma_keys(*left);
            lemma_keys(*right);
            let l = left.keys();
            let r = right.keys();
            lemma_trichotomy(k, k);
            assert forall|q: K| l.contains(q) implies !r.contains(q) by {
                if left.has(q) && right.has(q) {
                    lemma_trichotomy(k, q);
                }
            }
            assert(l.disjoint(r));
            if left.has(k) {
            }
            if right.has(k) {
            }
            assert(!(l + r).contains(k));
            assert(s.keys() =~= (l + r).insert(k));
            vstd::set_lib::lemma_set_disjoint_lens(l, r);
        },
    }
}

/// On a search tree, inserting a fresh node is inserting into the map.
pub proof fn lemma_inserted_map<K: Ord, V, R: Regulator<K, V>>(
    s: Shape<K, V, R>,
    key: K,
    value: V,
    rule: R,
)
    requires
        total_order::<K>(),
        s.ordered(),
    ensures
        s.inserted(Shape::leaf(key, value, rule)).ordered(),
        s.inserted(Shape::leaf(key, value, rule)).map() == s.map().insert(key, value),
{
    let t = s.inserted(Shape::leaf(key, value, rule));
    lemma_inserted(s, key, value, rule, key);
    assert forall|q: K| #[trigger] t.find(q) == s.map().insert(key, value).get(q) by {
        lemma_inserted(s, key, value, rule, q);
    }
    assert(t.map() =~= s.map().insert(key, value));
}

/// On a search tree, removing a key is removing from the map the keys of the subtree that
/// is cut off.
pub proof fn lemma_removed_map<K: Ord, V, R: Regulator<K, V>>(s: Shape<K, V, R>, key: K)
    requires
        total_order::<K>(),
        s.ordered(),
    ensures
        s.removed(key).ordered(),
        s.removed(key).map() == s.map().remove_keys(s.subtree(key).keys()),
        s.find(key) is Some ==> s.subtree(key).has(key),
{
    let t = s.removed(key);
    lemma_removed(s, key, key);
    lemma_find_has(s, key);
    assert forall|q: K| #[trigger]
        t.find(q) == s.map().remove_keys(s.subtree(key).keys()).get(q) by {
        lemma_removed(s, key, q);
    }
    assert(t.map() =~= s.map().remove_keys(s.subtree(key).keys()));
}

/// On a search tree, writing to the value of a key that is there is writing to the map.
pub proof fn lemma_with_value_map<K: Ord, V, R>(s: Shape<K, V, R>, key: K, value: V)
    requires
        total_order::<K>(),
        s.ordered(),
        s.find(key) is Some,
    ensures
        s.with_value(key, value).ordered(),
        s.with_value(key, value).map() == s.map().insert(key, value),
{
    let t = s.with_value(key, value);
    lemma_with_value_ordered(s, key, value);
    assert forall|q: K| #[trigger] t.find(q) == s.map().insert(key, value).get(q) by {
        lemma_with_value_find(s, key, value, q);
    }
    assert(t.map() =~= s.map().insert(key, value));
}

/// An insertion into a search tree adds one node where the key is new, and none where
/// the key is there already; either way a search then finds the key with the new value.
pub proof fn lemma_inserted_len<K: Ord, V, R: Regulator<K, V>>(
    s: Shape<K, V, R>,
    key: K,
    value: V,
    rule: R,
)
    requires
        total_order::<K>(),
        s.ordered(),
    ensures
        s.inserted(Shape::leaf(key, value, rule)).find(key) == Some(value),
        s.inserted(Shape::leaf(key, value, rule)).len() == if s.find(key) is Some {
            s.len()
        } else {
            s.len() + 1
        },
{
    let t = s.inserted(Shape::leaf(key, value, rule));
    lemma_inserted(s, key, value, rule, key);
    lemma_inserted_map(s, key, value, rule);
    lemma_keys(s);
    lemma_keys(t);
    lemma_find_has(s, key);
    assert(t.keys() =~= s.keys().insert(key));
}

/// A removal from a search tree takes away as many nodes as the subtree has that is cut
/// off, and a search then finds the key no more.
pub proof fn lemma_removed_len<K: Ord, V, R: Regulator<K, V>>(s: Shape<K, V, R>, key: K)
    requires
        total_order::<K>(),
        s.ordered(),
    ensures
        s.removed(key).find(key) is None,
        s.removed(key).len() + s.subtree(key).len() == s.len(),
{
    let t = s.removed(key);
    let cut = s.subtree(key);
    lemma_removed(s, key, key);
    lemma_removed_map(s, key);
    lemma_find_has(s, key);
    lemma_subtree(s, key, key);
    lemma_keys(s);
    lemma_keys(t);
    lemma_keys(cut);
    assert forall|q: K| cut.keys().contains(q) implies s.keys().contains(q) by {
        lemma_subtree(s, key, q);
    }
    assert(t.keys() =~= s.keys().difference(cut.keys()));
    assert(s.keys().intersect(cut.keys()) =~= cut.keys());
    vstd::set_lib::lemma_set_difference_len(s.keys(), cut.keys());
}

/// One step in the life of a map.
pub enum Step<K, V, R> {
    /// The key is given the value; the node made for it carries the payload `rule`.
    Insert { key: K, value: V, rule: R },
    /// The key is removed.
    Remove { key: K },
}

impl<K: Ord, V, R: Regulator<K, V>> Shape<K, V, R> {
    /// The tree after one step.
    pub open spec fn step(self, step: Step<K, V, R>) -> Shape<K, V, R> {
        match step {
            Step::Insert { key, value, rule } => self.inserted(Shape::leaf(key, value, rule)),
            Step::Remove { key } => self.removed(key),
        }
    }

    /// The tree after `steps`, taken from first to last.
    pub open spec fn after(self, steps: Seq<Step<K, V, R>>) -> Shape<K, V, R>
        decreases steps.len(),
    {
        if steps.len() == 0 {
            self
        } else {
            self.after(steps.drop_last()).step(steps.last())
        }
    }

    /// Whether every removal among `steps` finds its key, if at all, at a node without
    /// children, so that it cuts off that node alone.
    pub open spec fn cuts_single_nodes(self, steps: Seq<Step<K, V, R>>) -> bool
        decreases steps.len(),
    {
        if steps.len() == 0 {
            true
        } else {
            &&& self.cuts_single_nodes(steps.drop_last())
            &&& match steps.last() {
                Step::Insert { .. } => true,
                Step::Remove { key } => self.after(steps.drop_last()).subtree(key).len() <= 1,
            }
        }
    }
}

/// The entries of a map after `steps`, taken from first to last.
pub open spec fn entries<K, V, R>(start: Map<K, V>, steps: Seq<Step<K, V, R>>) -> Map<K, V>
    decreases steps.len(),
{
    if steps.len() == 0 {
        start
    } else {
        match steps.last() {
            Step::Insert { key, value, .. } => entries(start, steps.drop_last()).insert(key, value),
            Step::Remove { key } => entries(start, steps.drop_last()).remove(key),
        }
    }
}

/// Whatever is inserted and removed, as long as no removal cuts off more than one node
/// the search tree holds the entries that a map would: each key that was inserted and
/// not removed since, with the value that it was given last, and no other key. It has as
/// many nodes as there are such keys.
pub proof fn lemma_history<K: Ord, V, R: Regulator<K, V>>(
    s: Shape<K, V, R>,
    steps: Seq<Step<K, V, R>>,
)
    requires
        total_order::<K>(),
        s.ordered(),
        s.cuts_single_nodes(steps),
    ensures
        s.after(steps).ordered(),
        s.after(steps).map() == entries(s.map(), steps),
        s.after(steps).len() == entries(s.map(), steps).dom().len(),
    decreases steps.len(),
{
    if steps.len() > 0 {
        let before = s.after(steps.drop_last());
        lemma_history(s, steps.drop_last());
        match steps.last() {
            Step::Insert { key, value, rule } => {
                lemma_inserted_map(before, key, value, rule);
            },
            Step::Remove { key } => {
                let cut = before.subtree(key);
                lemma_removed_map(before, key);
                lemma_find_has(before, key);
                assert forall|q: K| cut.keys().contains(q) implies q == key by {
                    if cut is Fork {
                        assert(cut.len() == 1 + cut.left().len() + cut.right().len());
                        assert(cut.left() is Leaf && cut.right() is Leaf);
                        assert(!cut.left().has(q) && !cut.right().has(q));
                    }
                }
                assert(before.map().remove_keys(cut.keys()) =~= before.map().remove(key));
            },
        }
    }
    lemma_keys(s.after(steps));
}

/// Without balancing, keys that come in ascending order make a chain: a key greater than
/// every key of a chain is hung at its lower end, and the tree is then as high as it has
/// nodes.
pub proof fn lemma_ascending_chain<K: Ord, V>(s: Shape<K, V, Noop>, key: K, value: V)
    requires
        total_order::<K>(),
        s.left_chain(),
        forall|k: K| #[trigger] s.has(k) ==> precedes(k, key),
    ensures
        s.inserted(Shape::leaf(key, value, Noop)).left_chain(),
        s.inserted(Shape::leaf(key, value, Noop)).len() == s.len() + 1,
        s.inserted(Shape::leaf(key, value, Noop)).height() == s.len() + 1,
        s.height() == s.len(),
    decreases s,
{
    let fresh = Shape::leaf(key, value, Noop);
    match s {
        Shape::Leaf => {
            assert(fresh.left().height() == 0 && fresh.right().height() == 0);
            assert(fresh.left().len() == 0 && fresh.right().len() == 0);
            assert(fresh.left().left_chain());
        },
        Shape::Fork { left, key: k, right, .. } => {
            assert(s.has(k));
            lemma_trichotomy(k, key);
            assert forall|q: K| #[trigger] left.has(q) implies precedes(q, key) by {
                assert(s.has(q));
            }
            lemma_ascending_chain(*left, key, value);
            assert(right.height() == 0 && right.len() == 0);
        },
    }
}

} // verus!
