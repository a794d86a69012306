//! The randomized balancing rule: a treap that is kept in heap order by rotations.

use crate::order::precedes;
use crate::tree::laws::{lemma_rotated_left, lemma_rotated_right};
use crate::tree::node::Indirect;
use crate::tree::regulator::{rotate_left, rotate_right, Regulator};
use crate::tree::rep::{cells, lemma_cells_live, lemma_shape_of, shape_of};
use crate::tree::shape::Shape;
use vstd::prelude::*;

verus! {

/// The priority of one node, drawn at random when the node is made and never changed.
///
/// After a change beneath a node, a child whose priority is greater than the node's is
/// rotated into the node's place.
#[derive(Debug, Clone, Copy)]
pub struct RevTreap(usize);

/// Which child is to be rotated up.
enum Dir {
    Left,
    Right,
    Nope,
}

/// Draws a priority with `rand::random::<usize>()`, the thread-local generator of the
/// `rand` crate. Any `usize` may come back, so nothing is claimed of the result. The
/// generator panics where the operating system cannot seed it.
#[verifier::external_body]
fn random_weight() -> (weight: usize) {
    rand::random()
}

impl RevTreap {
    /// The priority.
    pub closed spec fn weight(self) -> nat {
        self.0 as nat
    }
}

impl Default for RevTreap {
    fn default() -> (r: Self) {
        RevTreap(random_weight())
    }
}

impl<K: Ord, V> Regulator<K, V> for RevTreap {
    /// A right child of greater priority than the root is rotated up to the left; failing
    /// that, a left child of greater priority is rotated up to the right.
    open spec fn updated(shape: Shape<K, V, Self>) -> Shape<K, V, Self> {
        match shape {
            Shape::Leaf => shape,
            Shape::Fork { left, rule, right, .. } => {
                if *right is Fork && right->rule.weight() > rule.weight() {
                    shape.rotated_left()
                } else if *left is Fork && left->rule.weight() > rule.weight() {
                    shape.rotated_right()
                } else {
                    shape
                }
            },
        }
    }

    proof fn lemma_updated(shape: Shape<K, V, Self>, probe: K) {
        lemma_rotated_left(shape, probe);
        lemma_rotated_right(shape, probe);
    }

    fn update<I: Indirect<K, V, Self>>(link: &mut I, arena: &mut I::Arena) {
        let ghost shape = shape_of(*link, arena);
        proof {
            link.law_held(arena);
        }
        let node = link.deref(arena);
        proof {
            lemma_shape_of(node.left, arena, shape.left());
            lemma_shape_of(node.right, arena, shape.right());
        }
        let root = node.regulator.0;
        let mut dir = Dir::Nope;
        if !node.left.is_none() {
            proof {
                if shape.left() is Leaf {
                    node.left.law_held(arena);
                }
            }
            if node.left.deref(arena).regulator.0 > root {
                dir = Dir::Left;
            }
        } else {
            proof {
                if shape.left() is Fork {
                    node.left.law_held(arena);
                }
            }
        }
        if !node.right.is_none() {
            proof {
                if shape.right() is Leaf {
                    node.right.law_held(arena);
                }
            }
            if node.right.deref(arena).regulator.0 > root {
                dir = Dir::Right;
            }
        } else {
            proof {
                if shape.right() is Fork {
                    node.right.law_held(arena);
                }
            }
        }
        match dir {
            Dir::Left => rotate_right(link, arena).unwrap(),
            Dir::Right => rotate_left(link, arena).unwrap(),
            Dir::Nope => {
                proof {
                    let all = cells(*link, arena, shape);
                    lemma_cells_live(*link, arena, shape);
                    I::law_untouched_same(arena, all);
                    assert(I::live(arena).difference(all) + all =~= I::live(arena));
                }
            },
        }
    }
}

impl<K: Ord, V> Shape<K, V, RevTreap> {
    /// Whether no node has a priority greater than `bound`.
    pub open spec fn capped(self, bound: nat) -> bool
        decreases self,
    {
        match self {
            Shape::Leaf => true,
            Shape::Fork { left, rule, right, .. } => {
                &&& rule.weight() <= bound
                &&& left.capped(bound)
                &&& right.capped(bound)
            },
        }
    }

    /// The heap order of a treap: no child has a priority greater than its parent's.
    pub open spec fn heaped(self) -> bool
        decreases self,
    {
        match self {
            Shape::Leaf => true,
            Shape::Fork { left, rule, right, .. } => {
                &&& left.heaped()
                &&& right.heaped()
                &&& left.capped(rule.weight())
                &&& right.capped(rule.weight())
            },
        }
    }
}

/// What is capped by a bound is capped by every greater one.
proof fn lemma_capped_wider<K: Ord, V>(s: Shape<K, V, RevTreap>, bound: nat, wider: nat)
    requires
        s.capped(bound),
        bound <= wider,
    ensures
        s.capped(wider),
    decreases s,
{
    match s {
        Shape::Leaf => {},
        Shape::Fork { left, right, .. } => {
            lemma_capped_wider(*left, bound, wider);
            lemma_capped_wider(*right, bound, wider);
        },
    }
}

/// An insertion keeps the heap order: the new node is rotated up for as long as its
/// priority is greater than that of the node above it. Where its priority is greater
/// than `bound`, which no other priority is, it ends as the root.
proof fn lemma_inserted_heaped<K: Ord, V>(
    s: Shape<K, V, RevTreap>,
    key: K,
    value: V,
    rule: RevTreap,
    bound: nat,
)
    requires
        s.heaped(),
        s.capped(bound),
    ensures
        s.inserted(Shape::leaf(key, value, rule)).heaped(),
        s.inserted(Shape::leaf(key, value, rule)) is Fork,
        rule.weight() <= bound || s.find(key) is Some ==> s.inserted(
            Shape::leaf(key, value, rule)
        ).capped(bound),
        !s.inserted(Shape::leaf(key, value, rule)).capped(bound) ==> {
            &&& s.inserted(Shape::leaf(key, value, rule))->rule == rule
            &&& s.inserted(Shape::leaf(key, value, rule)).left().capped(bound)
            &&& s.inserted(Shape::leaf(key, value, rule)).right().capped(bound)
        },
    decreases s,
{
    let fresh = Shape::leaf(key, value, rule);
    let t = s.inserted(fresh);
    match s {
        Shape::Leaf => {
            assert(t.left().capped(bound) && t.right().capped(bound));
        },
        Shape::Fork { left, key: k, value: v, rule: r, right } => {
            let w = r.weight();
            if k == key {
            } else if precedes(k, key) {
                let child = left.inserted(fresh);
                lemma_inserted_heaped(*left, key, value, rule, w);
                let grown = Shape::Fork { left: Box::new(child), key: k, value: v, rule: r, right };
                if child.capped(w) {
                    lemma_capped_wider(child, w, bound);
                    lemma_capped_wider(*right, w, bound);
                    assert(grown.heaped());
                    assert(grown.regulated() == grown);
                } else {
                    assert(left.find(key) is None);
                    lemma_capped_wider(child.left(), w, bound);
                    lemma_capped_wider(child.right(), w, bound);
                    lemma_capped_wider(*right, w, bound);
                    assert(child->rule.weight() > w);
                    assert(grown.regulated() == grown.rotated_right());
                    let turned = grown.rotated_right();
                    assert(turned.right().heaped());
                    assert(turned.right().capped(bound));
                    lemma_capped_wider(turned.right(), w, child->rule.weight());
                    assert(turned.heaped());
                }
            } else {
                let child = right.inserted(fresh);
                lemma_inserted_heaped(*right, key, value, rule, w);
                let grown = Shape::Fork { left, key: k, value: v, rule: r, right: Box::new(child) };
                if child.capped(w) {
                    lemma_capped_wider(child, w, bound);
                    lemma_capped_wider(*left, w, bound);
                    assert(grown.heaped());
                    assert(grown.regulated() == grown);
                } else {
                    assert(right.find(key) is None);
                    lemma_capped_wider(child.left(), w, bound);
                    lemma_capped_wider(child.right(), w, bound);
                    lemma_capped_wider(*left, w, bound);
                    assert(child->rule.weight() > w);
                    assert(grown.regulated() == grown.rotated_left());
                    let turned = grown.rotated_left();
                    assert(turned.left().heaped());
                    assert(turned.left().capped(bound));
                    lemma_capped_wider(turned.left(), w, child->rule.weight());
                    assert(turned.heaped());
                }
            }
        },
    }
}

/// A removal keeps the heap order: what is left of a treap is a treap, and no rotation
/// is called for.
proof fn lemma_removed_heaped<K: Ord, V>(s: Shape<K, V, RevTreap>, key: K, bound: nat)
    requires
        s.heaped(),
        s.capped(bound),
    ensures
        s.removed(key).heaped(),
        s.removed(key).capped(bound),
    decreases s,
{
    match s {
        Shape::Leaf => {},
        Shape::Fork { left, key: k, value: v, rule: r, right } => {
            let w = r.weight();
            if k == key {
            } else if precedes(k, key) {
                lemma_removed_heaped(*left, key, w);
                lemma_removed_heaped(*left, key, bound);
                let cut = Shape::Fork {
                    left: Box::new(left.removed(key)),
                    key: k,
                    value: v,
                    rule: r,
                    right,
                };
                assert(cut.heaped());
                assert(cut.regulated() == cut);
            } else {
                lemma_removed_heaped(*right, key, w);
                lemma_removed_heaped(*right, key, bound);
                let cut = Shape::Fork {
                    left,
                    key: k,
                    value: v,
                    rule: r,
                    right: Box::new(right.removed(key)),
                };
                assert(cut.heaped());
                assert(cut.regulated() == cut);
            }
        },
    }
}

/// The rule keeps a treap a treap: in the tree after an insertion, and in the tree after
/// a removal, no child has a priority greater than its parent's.
pub proof fn lemma_heap_order_kept<K: Ord, V>(
    s: Shape<K, V, RevTreap>,
    key: K,
    value: V,
    rule: RevTreap,
)
    requires
        s.heaped(),
    ensures
        s.inserted(Shape::leaf(key, value, rule)).heaped(),
        s.removed(key).heaped(),
{
    let bound = match s {
        Shape::Leaf => 0nat,
        Shape::Fork { rule: top, .. } => top.weight(),
    };
    lemma_inserted_heaped(s, key, value, rule, bound);
    lemma_removed_heaped(s, key, bound);
}

} // verus!
