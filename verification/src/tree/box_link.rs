//! Links that are heap boxes.

use crate::arena;
use crate::arena::{Arena, BoxArena};
use crate::order::{at_most, same_key, total_order};
use crate::tree::edge::Edge;
use crate::tree::map::TreeMap;
use crate::tree::node::{Indirect, Node};
use crate::tree::regulator::Regulator;
use crate::tree::rep::{cells, lemma_shape_of, rep, shape_of, valid};
use crate::tree::shape::Shape;
use vstd::prelude::*;

verus! {

/// A link that owns its node in a heap box.
pub struct BoxLink<K, V, R>(pub Option<Box<Node<K, V, R, BoxLink<K, V, R>>>>);

/// The arena of the nodes that heap boxes hold.
pub type BoxNodes<K, V, R> = BoxArena<Node<K, V, R, BoxLink<K, V, R>>>;

/// The map whose nodes live in heap boxes.
pub type BoxTreeMap<K, V, R> = TreeMap<K, V, R, BoxNodes<K, V, R>, BoxLink<K, V, R>>;

impl<K, V, R> Indirect<K, V, R> for BoxLink<K, V, R> {
    type Arena = BoxArena<Node<K, V, R, BoxLink<K, V, R>>>;

    open spec fn vacant(&self) -> bool {
        self.0 is None
    }

    open spec fn cell(&self) -> Set<int> {
        Set::empty()
    }

    open spec fn held(&self, arena: &Self::Arena) -> bool {
        self.0 is Some
    }

    open spec fn node(&self, arena: &Self::Arena) -> Node<K, V, R, Self> {
        *self.0.unwrap()
    }

    open spec fn sound(arena: &Self::Arena) -> bool {
        true
    }

    open spec fn live(arena: &Self::Arena) -> Set<int> {
        Set::empty()
    }

    open spec fn untouched(before: &Self::Arena, after: &Self::Arena, region: Set<int>) -> bool {
        true
    }

    proof fn law_default(arena: Self::Arena) {
    }

    proof fn law_held(&self, arena: &Self::Arena) {
    }

    proof fn law_frame(&self, before: &Self::Arena, after: &Self::Arena, region: Set<int>) {
    }

    proof fn law_untouched_same(arena: &Self::Arena, region: Set<int>) {
    }

    proof fn law_untouched_chain(
        a: &Self::Arena,
        b: &Self::Arena,
        c: &Self::Arena,
        first: Set<int>,
        second: Set<int>,
    ) {
    }

    proof fn law_untouched_wider(
        a: &Self::Arena,
        b: &Self::Arena,
        region: Set<int>,
        wider: Set<int>,
    ) {
    }

    fn none() -> (link: Self) {
        BoxLink(None)
    }

    fn is_none(&self) -> (b: bool) {
        self.0.is_none()
    }

    fn new(node: Node<K, V, R, Self>, arena: &mut Self::Arena) -> (link: Self) {
        BoxLink(Some(arena.allocate(node)))
    }

    fn deref<'a>(&'a self, arena: &'a Self::Arena) -> (node: &'a Node<K, V, R, Self>) {
        match &self.0 {
            Some(boxed) => arena::Boxed::get(boxed, arena),
            None => vstd::pervasive::unreached(),
        }
    }

    fn deref_mut<'a>(&'a mut self, arena: &'a mut Self::Arena) -> (node: &'a mut Node<
        K,
        V,
        R,
        Self,
    >) {
        match &mut self.0 {
            Some(boxed) => arena::Boxed::get_mut(boxed, arena),
            None => vstd::pervasive::unreached(),
        }
    }

    fn unbox(self, arena: &mut Self::Arena) -> (node: Node<K, V, R, Self>) {
        match self.0 {
            Some(boxed) => arena::Boxed::unbox(boxed, arena),
            None => vstd::pervasive::unreached(),
        }
    }
}

impl<K, V, R> BoxLink<K, V, R> {
    /// The tree that the boxes make up.
    pub open spec fn tree(self) -> Shape<K, V, R>
        decreases self,
    {
        match self.0 {
            None => Shape::Leaf,
            Some(node) => Shape::Fork {
                left: Box::new(node.left.tree()),
                key: node.key,
                value: node.value,
                rule: node.regulator,
                right: Box::new(node.right.tree()),
            },
        }
    }

    /// The tree that the boxes make up is the tree that the link leads to, in whatever
    /// arena, and takes up no cell of any.
    pub proof fn lemma_tree(self, arena: &BoxArena<Node<K, V, R, BoxLink<K, V, R>>>)
        ensures
            rep(self, arena, self.tree()),
            cells(self, arena, self.tree()) == Set::<int>::empty(),
            valid(self, arena),
            shape_of(self, arena) == self.tree(),
        decreases self,
    {
        match self.0 {
            None => {},
            Some(node) => {
                node.left.lemma_tree(arena);
                node.right.lemma_tree(arena);
                assert(cells(self, arena, self.tree()) =~= Set::<int>::empty());
            },
        }
        lemma_shape_of(self, arena, self.tree());
    }
}

impl<K: Ord, V, R> BoxLink<K, V, R> {
    /// Looks `key` up, for writing to its value.
    fn seek_mut<'a>(&'a mut self, key: &K) -> (r: Option<&'a mut V>)
        requires
            total_order::<K>(),
        ensures
            match old(self).tree().find(*key) {
                None => r is None && final(self).tree() == old(self).tree(),
                Some(v) => {
                    &&& r is Some
                    &&& *r.unwrap() == v
                    &&& final(self).tree() == old(self).tree().with_value(
                        *key,
                        *final(r.unwrap()),
                    )
                },
            },
        decreases *old(self),
    {
        match &mut self.0 {
            None => None,
            Some(node) => {
                if same_key(&node.key, key) {
                    Some(&mut node.value)
                } else if at_most(&node.key, key) {
                    node.left.seek_mut(key)
                } else {
                    node.right.seek_mut(key)
                }
            },
        }
    }
}

impl<K: Ord, V, R: Regulator<K, V>> Edge<K, V, R> for BoxLink<K, V, R> {
    fn get_mut<'a>(&'a mut self, arena: &'a mut Self::Arena, key: &K) -> (r: Option<&'a mut V>) {
        proof {
            self.lemma_tree(arena);
            assert forall|link: Self, other: Self::Arena| #[trigger]
                rep(link, &other, link.tree()) && cells(link, &other, link.tree()) == Set::<
                    int,
                >::empty() by {
                link.lemma_tree(&other);
            }
        }
        self.seek_mut(key)
    }
}

} // verus!
