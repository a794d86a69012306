//! The mathematical model of a tree: what the contracts of this crate speak of.

use crate::order::precedes;
use crate::tree::regulator::Regulator;
use core::cmp::Ordering;
use vstd::multiset::Multiset;
use vstd::prelude::*;

verus! {

/// A binary tree of keyed values, each node carrying the payload of a balancing rule.
///
/// Keys greater than a node's key live in its `left` subtree and smaller keys in its
/// `right` subtree.
pub enum Shape<K, V, R> {
    Leaf,
    Fork { left: Box<Shape<K, V, R>>, key: K, value: V, rule: R, right: Box<Shape<K, V, R>> },
}

impl<K, V, R> Shape<K, V, R> {
    /// The tree of one node.
    pub open spec fn leaf(key: K, value: V, rule: R) -> Shape<K, V, R> {
        Shape::Fork { left: Box::new(Shape::Leaf), key, value, rule, right: Box::new(Shape::Leaf) }
    }

    /// The number of nodes.
    pub open spec fn len(self) -> nat
        decreases self,
    {
        match self {
            Shape::Leaf => 0,
            Shape::Fork { left, right, .. } => 1 + left.len() + right.len(),
        }
    }

    /// The number of nodes on the longest way from the root down.
    pub open spec fn height(self) -> nat
        decreases self,
    {
        match self {
            Shape::Leaf => 0,
            Shape::Fork { left, right, .. } => if left.height() >= right.height() {
                1 + left.height()
            } else {
                1 + right.height()
            },
        }
    }

    /// Whether the tree is a chain that runs down to the left: no node has a right child.
    pub open spec fn left_chain(self) -> bool
        decreases self,
    {
        match self {
            Shape::Leaf => true,
            Shape::Fork { left, right, .. } => *right is Leaf && left.left_chain(),
        }
    }

    /// Whether some node carries `key`.
    pub open spec fn has(self, key: K) -> bool
        decreases self,
    {
        match self {
            Shape::Leaf => false,
            Shape::Fork { left, key: k, right, .. } => k == key || left.has(key) || right.has(key),
        }
    }

    /// The left subtree, which is empty for the empty tree.
    pub open spec fn left(self) -> Shape<K, V, R> {
        match self {
            Shape::Leaf => Shape::Leaf,
            Shape::Fork { left, .. } => *left,
        }
    }

    /// The right subtree, which is empty for the empty tree.
    pub open spec fn right(self) -> Shape<K, V, R> {
        match self {
            Shape::Leaf => Shape::Leaf,
            Shape::Fork { right, .. } => *right,
        }
    }

    /// The keys of all nodes, each as often as it occurs.
    pub open spec fn bag(self) -> Multiset<K>
        decreases self,
    {
        match self {
            Shape::Leaf => Multiset::empty(),
            Shape::Fork { left, key, right, .. } => left.bag().add(right.bag()).insert(key),
        }
    }

    /// The tree after a left rotation at the root: the right child becomes the root, the
    /// old root its left child, and the right child's former left subtree the old root's
    /// right subtree. A tree without a right child is left as it is.
    pub open spec fn rotated_left(self) -> Shape<K, V, R> {
        match self {
            Shape::Fork { left: a, key, value, rule, right } => match *right {
                Shape::Fork { left: c, key: b_key, value: b_value, rule: b_rule, right: d } => {
                    Shape::Fork {
                        left: Box::new(Shape::Fork { left: a, key, value, rule, right: c }),
                        key: b_key,
                        value: b_value,
                        rule: b_rule,
                        right: d,
                    }
                },
                Shape::Leaf => self,
            },
            Shape::Leaf => self,
        }
    }

    /// The tree after a right rotation at the root, the mirror image of `rotated_left`.
    pub open spec fn rotated_right(self) -> Shape<K, V, R> {
        match self {
            Shape::Fork { left, key, value, rule, right: b } => match *left {
                Shape::Fork { left: c, key: a_key, value: a_value, rule: a_rule, right: d } => {
                    Shape::Fork {
                        left: c,
                        key: a_key,
                        value: a_value,
                        rule: a_rule,
                        right: Box::new(Shape::Fork { left: d, key, value, rule, right: b }),
                    }
                },
                Shape::Leaf => self,
            },
            Shape::Leaf => self,
        }
    }
}

impl<K: Ord, V, R> Shape<K, V, R> {
    /// The order of a search tree: below every node, greater keys to the left and smaller
    /// keys to the right.
    pub open spec fn ordered(self) -> bool
        decreases self,
    {
        match self {
            Shape::Leaf => true,
            Shape::Fork { left, key, right, .. } => {
                &&& left.ordered()
                &&& right.ordered()
                &&& forall|k: K| #[trigger] left.has(k) ==> precedes(key, k)
                &&& forall|k: K| #[trigger] right.has(k) ==> precedes(k, key)
            },
        }
    }

    /// How `key` stands to the root: `Equal` where the root carries it, `Less` where the
    /// root's key precedes it, so that a search goes on to the left, and `Greater` where
    /// it precedes the root's key and the search goes on to the right. The empty tree has
    /// no root to stand to.
    pub open spec fn cmp_key(self, key: K) -> Option<Ordering> {
        match self {
            Shape::Leaf => None,
            Shape::Fork { key: k, .. } => if k == key {
                Some(Ordering::Equal)
            } else if precedes(k, key) {
                Some(Ordering::Less)
            } else {
                Some(Ordering::Greater)
            },
        }
    }

    /// The subtree that a search for `key` ends at: the one whose root carries `key`, or
    /// `Leaf` where the search runs off the tree.
    pub open spec fn subtree(self, key: K) -> Shape<K, V, R>
        decreases self,
    {
        match self {
            Shape::Leaf => Shape::Leaf,
            Shape::Fork { left, key: k, right, .. } => if k == key {
                self
            } else if precedes(k, key) {
                left.subtree(key)
            } else {
                right.subtree(key)
            },
        }
    }

    /// The keys of all nodes.
    pub open spec fn keys(self) -> Set<K> {
        Set::new(|k: K| self.has(k))
    }

    /// The map from each key that a search finds to the value found with it.
    pub open spec fn map(self) -> Map<K, V> {
        Map::new(|k: K| self.find(k) is Some, |k: K| self.find(k).unwrap())
    }

    /// The value that a search for `key` finds.
    pub open spec fn find(self, key: K) -> Option<V> {
        match self.subtree(key) {
            Shape::Leaf => None,
            Shape::Fork { value, .. } => Some(value),
        }
    }

    /// The tree in which the node that a search for `key` finds holds `value` instead.
    pub open spec fn with_value(self, key: K, value: V) -> Shape<K, V, R>
        decreases self,
    {
        match self {
            Shape::Leaf => Shape::Leaf,
            Shape::Fork { left, key: k, value: v, rule, right } => if k == key {
                Shape::Fork { left, key: k, value, rule, right }
            } else if precedes(k, key) {
                Shape::Fork {
                    left: Box::new(left.with_value(key, value)),
                    key: k,
                    value: v,
                    rule,
                    right,
                }
            } else {
                Shape::Fork {
                    left,
                    key: k,
                    value: v,
                    rule,
                    right: Box::new(right.with_value(key, value)),
                }
            },
        }
    }
}

impl<K: Ord, V, R: Regulator<K, V>> Shape<K, V, R> {
    /// The tree after the balancing rule has looked at its root.
    pub open spec fn regulated(self) -> Shape<K, V, R> {
        match self {
            Shape::Leaf => Shape::Leaf,
            Shape::Fork { .. } => R::updated(self),
        }
    }

    /// The tree after the node `newbie` has been inserted.
    ///
    /// Where the search for the new key runs off the tree, `newbie` is hung there, and the
    /// balancing rule then looks at every node on the way back to the root. Where it finds
    /// a node with that key, the node takes over the key and value of `newbie` and nothing
    /// else changes.
    pub open spec fn inserted(self, newbie: Shape<K, V, R>) -> Shape<K, V, R>
        recommends
            newbie is Fork,
        decreases self,
    {
        match self {
            Shape::Leaf => newbie,
            Shape::Fork { left, key, value, rule, right } => if key == newbie->key {
                Shape::Fork { left, key: newbie->key, value: newbie->value, rule, right }
            } else if precedes(key, newbie->key) {
                let grown = Shape::Fork {
                    left: Box::new(left.inserted(newbie)),
                    key,
                    value,
                    rule,
                    right,
                };
                if left.find(newbie->key) is None {
                    grown.regulated()
                } else {
                    grown
                }
            } else {
                let grown = Shape::Fork {
                    left,
                    key,
                    value,
                    rule,
                    right: Box::new(right.inserted(newbie)),
                };
                if right.find(newbie->key) is None {
                    grown.regulated()
                } else {
                    grown
                }
            },
        }
    }

    /// The tree after `key` has been removed.
    ///
    /// The node that a search for `key` finds is cut off together with everything below
    /// it, and the balancing rule then looks at every node on the way back to the root.
    pub open spec fn removed(self, key: K) -> Shape<K, V, R>
        decreases self,
    {
        match self {
            Shape::Leaf => Shape::Leaf,
            Shape::Fork { left, key: k, value, rule, right } => if k == key {
                Shape::Leaf
            } else if precedes(k, key) {
                let cut = Shape::Fork {
                    left: Box::new(left.removed(key)),
                    key: k,
                    value,
                    rule,
                    right,
                };
                if left.find(key) is Some {
                    cut.regulated()
                } else {
                    cut
                }
            } else {
                let cut = Shape::Fork {
                    left,
                    key: k,
                    value,
                    rule,
                    right: Box::new(right.removed(key)),
                };
                if right.find(key) is Some {
                    cut.regulated()
                } else {
                    cut
                }
            },
        }
    }
}

} // verus!
