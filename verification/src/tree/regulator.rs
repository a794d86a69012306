//! Balancing rules, and the rotations that they are built from.

use crate::order::total_order;
use crate::tree::node::Indirect;
use crate::tree::rep::{cells, lemma_cells_live, lemma_frame, rep, settled, shape_of, valid};
use crate::tree::shape::Shape;
use core::mem::swap;
use vstd::prelude::*;

verus! {

/// The error of a rotation that needs a child which is not there.
#[derive(Debug)]
pub struct RotateEmptyLeg;

/// Rotates the subtree at `root` to the left: the right child becomes the root.
///
/// Fails, and leaves the tree as it is, where there is no right child.
pub fn rotate_left<K, V, R, I: Indirect<K, V, R>>(root: &mut I, arena: &mut I::Arena) -> (res:
    Result<(), RotateEmptyLeg>)
    requires
        I::sound(old(arena)),
        valid(*old(root), old(arena)),
    ensures
        res is Ok <==> shape_of(*old(root), old(arena)).right() is Fork,
        settled(
            *final(root),
            old(arena),
            final(arena),
            shape_of(*old(root), old(arena)).rotated_left(),
            cells(*old(root), old(arena), shape_of(*old(root), old(arena))),
        ),
        cells(*final(root), final(arena), shape_of(*old(root), old(arena)).rotated_left())
            == cells(*old(root), old(arena), shape_of(*old(root), old(arena))),
{
    let ghost shape = shape_of(*root, arena);
    let ghost a0 = *arena;
    let ghost root0 = *root;
    let ghost all = cells(root0, &a0, shape);
    proof {
        lemma_cells_live(root0, &a0, shape);
        I::law_untouched_same(&a0, all);
    }
    if root.is_none() {
        proof {
            if shape is Fork {
                root.law_held(arena);
            }
            assert(I::live(&a0).difference(all) + all =~= I::live(&a0));
        }
        return Err(RotateEmptyLeg);
    }
    proof {
        root.law_held(arena);
    }
    let ghost r0 = root0.node(&a0);
    let ghost a_shape = shape.left();
    let ghost b_shape = shape.right();
    let ghost r_cell = root0.cell();
    let ghost a_cells = cells(r0.left, &a0, a_shape);
    let ghost b_cells = cells(r0.right, &a0, b_shape);

    // The root gives up its right child, which is to take its place.
    let node_r = root.deref_mut(arena);
    let mut link_b = I::none();
    swap(&mut node_r.right, &mut link_b);
    let ghost a1 = *arena;
    let ghost root1 = *root;
    proof {
        lemma_frame(r0.left, &a0, &a1, a_shape, r_cell);
        lemma_frame(r0.right, &a0, &a1, b_shape, r_cell);
    }
    if link_b.is_none() {
        proof {
            if b_shape is Fork {
                link_b.law_held(&a1);
            }
            let n1 = root1.node(&a1);
            assert(rep(n1.right, &a1, b_shape));
            assert(cells(n1.right, &a1, b_shape) =~= Set::<int>::empty());
            assert(cells(root1, &a1, shape) =~= all);
            I::law_untouched_wider(&a0, &a1, r_cell, all);
            assert(I::live(&a0).difference(all) + all =~= I::live(&a0));
        }
        return Err(RotateEmptyLeg);
    }
    proof {
        if b_shape is Leaf {
            link_b.law_held(&a1);
        }
        link_b.law_held(&a1);
    }
    let ghost b0 = link_b.node(&a1);
    let ghost c_shape = b_shape.left();
    let ghost d_shape = b_shape.right();
    let ghost b_cell = link_b.cell();
    let ghost c_cells = cells(b0.left, &a1, c_shape);
    let ghost d_cells = cells(b0.right, &a1, d_shape);

    // The child gives up its left subtree, which the old root takes in its stead.
    let node_b = link_b.deref_mut(arena);
    let mut link_c = I::none();
    swap(&mut node_b.left, &mut link_c);
    let ghost a2 = *arena;
    proof {
        lemma_frame(r0.left, &a1, &a2, a_shape, b_cell);
        lemma_frame(b0.left, &a1, &a2, c_shape, b_cell);
        lemma_frame(b0.right, &a1, &a2, d_shape, b_cell);
        root1.law_frame(&a1, &a2, b_cell);
    }

    let node_r = root.deref_mut(arena);
    node_r.right = link_c;
    let ghost a3 = *arena;
    let ghost root3 = *root;
    let ghost low_shape = Shape::Fork {
        left: Box::new(a_shape),
        key: r0.key,
        value: r0.value,
        rule: r0.regulator,
        right: Box::new(c_shape),
    };
    proof {
        lemma_frame(r0.left, &a2, &a3, a_shape, r_cell);
        lemma_frame(link_c, &a2, &a3, c_shape, r_cell);
        lemma_frame(b0.right, &a2, &a3, d_shape, r_cell);
        link_b.law_frame(&a2, &a3, r_cell);
        assert(rep(root3, &a3, low_shape));
        assert(cells(root3, &a3, low_shape) =~= r_cell + a_cells + c_cells);
    }

    // The child becomes the root, and the old root its left child.
    swap(root, &mut link_b);
    let node_b = root.deref_mut(arena);
    node_b.left = link_b;
    proof {
        let a4 = *arena;
        let root4 = *root;
        let low_cells = r_cell + a_cells + c_cells;
        lemma_frame(root3, &a3, &a4, low_shape, b_cell);
        lemma_frame(b0.right, &a3, &a4, d_shape, b_cell);
        let rotated = shape.rotated_left();
        assert(rep(root4, &a4, rotated));
        assert(cells(root4, &a4, rotated) =~= all);
        I::law_untouched_chain(&a0, &a1, &a2, r_cell, b_cell);
        I::law_untouched_chain(&a0, &a2, &a3, r_cell + b_cell, r_cell);
        I::law_untouched_chain(&a0, &a3, &a4, r_cell + b_cell + r_cell, b_cell);
        I::law_untouched_wider(&a0, &a4, r_cell + b_cell + r_cell + b_cell, all);
        assert(I::live(&a0).difference(all) + all =~= I::live(&a0));
    }
    Ok(())
}

/// Rotates the subtree at `root` to the right: the left child becomes the root.
///
/// Fails, and leaves the tree as it is, where there is no left child.
pub fn rotate_right<K, V, R, I: Indirect<K, V, R>>(root: &mut I, arena: &mut I::Arena) -> (res:
    Result<(), RotateEmptyLeg>)
    requires
        I::sound(old(arena)),
        valid(*old(root), old(arena)),
    ensures
        res is Ok <==> shape_of(*old(root), old(arena)).left() is Fork,
        settled(
            *final(root),
            old(arena),
            final(arena),
            shape_of(*old(root), old(arena)).rotated_right(),
            cells(*old(root), old(arena), shape_of(*old(root), old(arena))),
        ),
        cells(*final(root), final(arena), shape_of(*old(root), old(arena)).rotated_right())
            == cells(*old(root), old(arena), shape_of(*old(root), old(arena))),
{
    let ghost shape = shape_of(*root, arena);
    let ghost a0 = *arena;
    let ghost root0 = *root;
    let ghost all = cells(root0, &a0, shape);
    proof {
        lemma_cells_live(root0, &a0, shape);
        I::law_untouched_same(&a0, all);
    }
    if root.is_none() {
        proof {
            if shape is Fork {
                root.law_held(arena);
            }
            assert(I::live(&a0).difference(all) + all =~= I::live(&a0));
        }
        return Err(RotateEmptyLeg);
    }
    proof {
        root.law_held(arena);
    }
    let ghost r0 = root0.node(&a0);
    let ghost a_shape = shape.right();
    let ghost b_shape = shape.left();
    let ghost r_cell = root0.cell();
    let ghost a_cells = cells(r0.right, &a0, a_shape);
    let ghost b_cells = cells(r0.left, &a0, b_shape);

    // The root gives up its left child, which is to take its place.
    let node_r = root.deref_mut(arena);
    let mut link_b = I::none();
    swap(&mut node_r.left, &mut link_b);
    let ghost a1 = *arena;
    let ghost root1 = *root;
    proof {
        lemma_frame(r0.right, &a0, &a1, a_shape, r_cell);
        lemma_frame(r0.left, &a0, &a1, b_shape, r_cell);
    }
    if link_b.is_none() {
        proof {
            if b_shape is Fork {
                link_b.law_held(&a1);
            }
            let n1 = root1.node(&a1);
            assert(rep(n1.left, &a1, b_shape));
            assert(cells(n1.left, &a1, b_shape) =~= Set::<int>::empty());
            assert(cells(root1, &a1, shape) =~= all);
            I::law_untouched_wider(&a0, &a1, r_cell, all);
            assert(I::live(&a0).difference(all) + all =~= I::live(&a0));
        }
        return Err(RotateEmptyLeg);
    }
    proof {
        if b_shape is Leaf {
            link_b.law_held(&a1);
        }
        link_b.law_held(&a1);
    }
    let ghost b0 = link_b.node(&a1);
    let ghost c_shape = b_shape.right();
    let ghost d_shape = b_shape.left();
    let ghost b_cell = link_b.cell();
    let ghost c_cells = cells(b0.right, &a1, c_shape);
    let ghost d_cells = cells(b0.left, &a1, d_shape);

    // The child gives up its right subtree, which the old root takes in its stead.
    let node_b = link_b.deref_mut(arena);
    let mut link_c = I::none();
    swap(&mut node_b.right, &mut link_c);
    let ghost a2 = *arena;
    proof {
        lemma_frame(r0.right, &a1, &a2, a_shape, b_cell);
        lemma_frame(b0.right, &a1, &a2, c_shape, b_cell);
        lemma_frame(b0.left, &a1, &a2, d_shape, b_cell);
        root1.law_frame(&a1, &a2, b_cell);
    }

    let node_r = root.deref_mut(arena);
    node_r.left = link_c;
    let ghost a3 = *arena;
    let ghost root3 = *root;
    let ghost low_shape = Shape::Fork {
        right: Box::new(a_shape),
        key: r0.key,
        value: r0.value,
        rule: r0.regulator,
        left: Box::new(c_shape),
    };
    proof {
        lemma_frame(r0.right, &a2, &a3, a_shape, r_cell);
        lemma_frame(link_c, &a2, &a3, c_shape, r_cell);
        lemma_frame(b0.left, &a2, &a3, d_shape, r_cell);
        link_b.law_frame(&a2, &a3, r_cell);
        assert(rep(root3, &a3, low_shape));
        assert(cells(root3, &a3, low_shape) =~= r_cell + a_cells + c_cells);
    }

    // The child becomes the root, and the old root its right child.
    swap(root, &mut link_b);
    let node_b = root.deref_mut(arena);
    node_b.right = link_b;
    proof {
        let a4 = *arena;
        let root4 = *root;
        let low_cells = r_cell + a_cells + c_cells;
        lemma_frame(root3, &a3, &a4, low_shape, b_cell);
        lemma_frame(b0.left, &a3, &a4, d_shape, b_cell);
        let rotated = shape.rotated_right();
        assert(rep(root4, &a4, rotated));
        assert(cells(root4, &a4, rotated) =~= all);
        I::law_untouched_chain(&a0, &a1, &a2, r_cell, b_cell);
        I::law_untouched_chain(&a0, &a2, &a3, r_cell + b_cell, r_cell);
        I::law_untouched_chain(&a0, &a3, &a4, r_cell + b_cell + r_cell, b_cell);
        I::law_untouched_wider(&a0, &a4, r_cell + b_cell + r_cell + b_cell, all);
        assert(I::live(&a0).difference(all) + all =~= I::live(&a0));
    }
    Ok(())
}



/// A balancing rule: what is done to a subtree after something changed beneath its root.
///
/// The payload of the rule, one value of the implementing type, is kept in every node.
pub trait Regulator<K: Ord, V>: Default + Sized {
    /// The subtree as the rule leaves it.
    spec fn updated(shape: Shape<K, V, Self>) -> Shape<K, V, Self>;

    /// The rule turns a search tree into a search tree in which a search for any key,
    /// `probe`, finds what it found before.
    proof fn lemma_updated(shape: Shape<K, V, Self>, probe: K)
        requires
            total_order::<K>(),
            shape is Fork,
            shape.ordered(),
        ensures
            Self::updated(shape).ordered(),
            Self::updated(shape).find(probe) == shape.find(probe),
    ;

    /// Rearranges the subtree at `link`, within the cells that it takes up.
    fn update<I: Indirect<K, V, Self>>(link: &mut I, arena: &mut I::Arena)
        requires
            I::sound(old(arena)),
            valid(*old(link), old(arena)),
            shape_of(*old(link), old(arena)) is Fork,
        ensures
            settled(
                *final(link),
                old(arena),
                final(arena),
                Self::updated(shape_of(*old(link), old(arena))),
                cells(*old(link), old(arena), shape_of(*old(link), old(arena))),
            ),
            cells(*final(link), final(arena), Self::updated(shape_of(*old(link), old(arena))))
                == cells(*old(link), old(arena), shape_of(*old(link), old(arena))),
    ;
}

/// The rule that does nothing: the tree keeps the shape that the insertions gave it.
pub struct Noop;

impl Default for Noop {
    fn default() -> (r: Self) {
        Noop
    }
}

impl<K: Ord, V> Regulator<K, V> for Noop {
    open spec fn updated(shape: Shape<K, V, Self>) -> Shape<K, V, Self> {
        shape
    }

    proof fn lemma_updated(shape: Shape<K, V, Self>, probe: K) {
    }

    fn update<I: Indirect<K, V, Self>>(link: &mut I, arena: &mut I::Arena) {
        proof {
            let shape = shape_of(*link, arena);
            let all = cells(*link, arena, shape);
            lemma_cells_live(*link, arena, shape);
            I::law_untouched_same(arena, all);
            assert(I::live(arena).difference(all) + all =~= I::live(arena));
        }
    }
}

} // verus!
