//! The ordered map.

use crate::order::total_order;
use crate::tree::edge::{discard, Edge};
use crate::tree::laws::{lemma_inserted_map, lemma_keys, lemma_removed_map, lemma_with_value_map};
use crate::tree::node::{Indirect, Node};
use crate::tree::regulator::Regulator;
use crate::tree::rep::{
    cells, lemma_cells_live, lemma_frame, lemma_shape_of, rep, shape_of, valid,
};
use crate::tree::shape::Shape;
use core::marker::PhantomData;
use core::mem::swap;
use vstd::prelude::*;

verus! {

/// A map from keys to values, kept as a search tree that the rule `R` balances and whose
/// nodes live in an arena `A`, reached by links `I`.
#[verifier::reject_recursive_types(K)]
#[verifier::reject_recursive_types(V)]
#[verifier::reject_recursive_types(R)]
#[verifier::reject_recursive_types(A)]
#[verifier::reject_recursive_types(I)]
pub struct TreeMap<K, V, R, A, I> where
    K: Ord,
    R: Regulator<K, V>,
    A: Default,
    I: Edge<K, V, R, Arena = A>,
 {
    arena: A,
    root: I,
    marker: PhantomData<Node<K, V, R, I>>,
}

impl<K, V, R, A, I> View for TreeMap<K, V, R, A, I> where
    K: Ord,
    R: Regulator<K, V>,
    A: Default,
    I: Edge<K, V, R, Arena = A>,
 {
    type V = Map<K, V>;

    /// The map from each key to its value.
    open spec fn view(&self) -> Map<K, V> {
        self.shape().map()
    }
}

impl<K, V, R, A, I> TreeMap<K, V, R, A, I> where
    K: Ord,
    R: Regulator<K, V>,
    A: Default,
    I: Edge<K, V, R, Arena = A>,
 {
    /// The tree as it stands.
    pub closed spec fn shape(&self) -> Shape<K, V, R> {
        shape_of(self.root, &self.arena)
    }

    /// The arena is sound and holds the nodes of the tree, each in a cell of its own, and
    /// nothing else.
    pub closed spec fn housed(&self) -> bool {
        &&& I::sound(&self.arena)
        &&& valid(self.root, &self.arena)
        &&& I::live(&self.arena) =~= cells(self.root, &self.arena, self.shape())
    }

    /// The map is housed in its arena, and its tree is a search tree. This holds of every
    /// map that this module has made.
    pub open spec fn wf(&self) -> bool {
        self.housed() && self.shape().ordered()
    }

    /// The empty map.
    pub fn new() -> (map: Self)
        ensures
            map.wf(),
            map.shape() == Shape::<K, V, R>::Leaf,
            map@ == Map::<K, V>::empty(),
    {
        let arena = A::default();
        let root = I::none();
        proof {
            I::law_default(arena);
            lemma_shape_of(root, &arena, Shape::Leaf);
        }
        let map = TreeMap { arena, root, marker: PhantomData };
        assert(map@ =~= Map::<K, V>::empty());
        map
    }

    /// Drops every entry, and releases every node.
    pub fn clear(&mut self)
        requires
            old(self).housed(),
        ensures
            final(self).wf(),
            final(self).shape() == Shape::<K, V, R>::Leaf,
            final(self)@ == Map::<K, V>::empty(),
    {
        let mut root = I::none();
        swap(&mut self.root, &mut root);
        discard(root, &mut self.arena);
        proof {
            lemma_shape_of(self.root, &self.arena, Shape::Leaf);
            assert(self@ =~= Map::<K, V>::empty());
        }
    }

    /// The number of entries.
    pub fn len(&self) -> (n: usize)
        requires
            self.housed(),
            self.shape().len() <= usize::MAX,
        ensures
            n == self.shape().len(),
            total_order::<K>() && self.wf() ==> n == self@.dom().len(),
    {
        proof {
            if total_order::<K>() && self.wf() {
                lemma_keys(self.shape());
            }
        }
        self.root.len(&self.arena)
    }

    /// Whether the map has no entry.
    pub fn is_empty(&self) -> (b: bool)
        requires
            self.housed(),
        ensures
            b == (self.shape() is Leaf),
            total_order::<K>() && self.wf() ==> b == (self@.dom().len() == 0),
    {
        proof {
            if total_order::<K>() && self.wf() {
                lemma_keys(self.shape());
            }
            if self.shape() is Fork {
                self.root.law_held(&self.arena);
            }
        }
        self.root.is_none()
    }

    /// The value of `key`, if it has one.
    pub fn get(&self, key: &K) -> (r: Option<&V>)
        requires
            total_order::<K>(),
            self.housed(),
        ensures
            r == (match self@.get(*key) {
                None => None::<&V>,
                Some(v) => Some(&v),
            }),
    {
        self.root.get(&self.arena, key)
    }

    /// Whether `key` has a value.
    pub fn contains_key(&self, key: &K) -> (b: bool)
        requires
            total_order::<K>(),
            self.housed(),
        ensures
            b == self@.contains_key(*key),
    {
        self.root.get(&self.arena, key).is_some()
    }

    /// The value of `key`, if it has one, for writing.
    pub fn get_mut(&mut self, key: &K) -> (r: Option<&mut V>)
        requires
            total_order::<K>(),
            old(self).wf(),
        ensures
            final(self).wf(),
            match old(self)@.get(*key) {
                None => r is None && final(self).shape() == old(self).shape(),
                Some(v) => {
                    &&& r is Some
                    &&& *r.unwrap() == v
                    &&& final(self).shape() == old(self).shape().with_value(
                        *key,
                        *final(r.unwrap()),
                    )
                    &&& final(self)@ == old(self)@.insert(*key, *final(r.unwrap()))
                },
            },
    {
        let ghost before = self.shape();
        let ghost root0 = self.root;
        let ghost arena0 = self.arena;
        proof {
            lemma_cells_live(root0, &arena0, before);
        }
        let r = self.root.get_mut(&mut self.arena, key);
        proof {
            if before.find(*key) is Some {
                let value = *final(r.unwrap());
                lemma_with_value_map(before, *key, value);
                assert forall|root: I, arena: A| #[trigger]
                    rep(root, &arena, before.with_value(*key, value)) implies shape_of(root, &arena)
                    == before.with_value(*key, value) by {
                    lemma_shape_of(root, &arena, before.with_value(*key, value));
                }
            } else {
                assert forall|root: I, arena: A| #[trigger]
                    rep(root, &arena, before) implies shape_of(root, &arena) == before by {
                    lemma_shape_of(root, &arena, before);
                }
            }
        }
        r
    }

    /// Removes `key`, and with it every entry that hangs below it in the tree; returns the
    /// value that `key` had.
    pub fn remove(&mut self, key: &K) -> (r: Option<V>)
        requires
            total_order::<K>(),
            old(self).wf(),
        ensures
            final(self).wf(),
            r == old(self)@.get(*key),
            final(self).shape() == old(self).shape().removed(*key),
            final(self)@ == old(self)@.remove_keys(old(self).shape().subtree(*key).keys()),
            !final(self)@.contains_key(*key),
    {
        let ghost before = self.shape();
        proof {
            lemma_removed_map(before, *key);
            lemma_cells_live(self.root, &self.arena, before);
        }
        let r = self.root.remove(&mut self.arena, key);
        proof {
            lemma_shape_of(self.root, &self.arena, before.removed(*key));
        }
        r
    }

    /// Gives `key` the value `value`, and returns the value that it had before.
    pub fn insert(&mut self, key: K, value: V) -> (r: Option<V>)
        requires
            total_order::<K>(),
            old(self).wf(),
        ensures
            final(self).wf(),
            r == old(self)@.get(key),
            exists|rule: R|
                <R as Default>::default.ensures((), rule) && #[trigger] old(self).shape().inserted(
                    Shape::leaf(key, value, rule),
                ) == final(self).shape(),
            final(self)@ == old(self)@.insert(key, value),
    {
        let ghost before = self.shape();
        let ghost root0 = self.root;
        let ghost arena0 = self.arena;
        let node = I::new(Node::new(key, value), &mut self.arena);
        let ghost rule = node.node(&self.arena).regulator;
        let ghost fresh = Shape::leaf(key, value, rule);
        let ghost arena1 = self.arena;
        proof {
            lemma_inserted_map(before, key, value, rule);
            lemma_cells_live(root0, &arena0, before);
            lemma_frame(root0, &arena0, &arena1, before, node.cell());
            lemma_shape_of(root0, &arena1, before);
            let made = node.node(&arena1);
            assert(rep(made.left, &arena1, Shape::<K, V, R>::Leaf));
            assert(rep(made.right, &arena1, Shape::<K, V, R>::Leaf));
            assert(cells(made.left, &arena1, Shape::<K, V, R>::Leaf) =~= Set::<int>::empty());
            assert(cells(made.right, &arena1, Shape::<K, V, R>::Leaf) =~= Set::<int>::empty());
            assert(rep(node, &arena1, fresh));
            lemma_shape_of(node, &arena1, fresh);
            assert(cells(node, &arena1, fresh) =~= node.cell());
        }
        let r = self.root.insert(&mut self.arena, node);
        proof {
            lemma_shape_of(self.root, &self.arena, before.inserted(fresh));
        }
        r
    }
}

impl<K, V, R, A, I> Default for TreeMap<K, V, R, A, I> where
    K: Ord,
    R: Regulator<K, V>,
    A: Default,
    I: Edge<K, V, R, Arena = A>,
 {
    fn default() -> (map: Self)
        ensures
            map.wf(),
            map.shape() == Shape::<K, V, R>::Leaf,
            map@ == Map::<K, V>::empty(),
    {
        TreeMap::new()
    }
}

} // verus!
