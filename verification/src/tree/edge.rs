//! The operations on links, written once for every kind of arena.

use crate::order::{at_most, same_key, total_order};
use crate::tree::node::{Indirect, Node};
use crate::tree::regulator::Regulator;
use crate::tree::rep::{
    cells, fork, found, lemma_apart, lemma_cells_live, lemma_fork, lemma_frame, lemma_shape_of,
    settled, shape_of, valid,
};
use core::cmp::Ordering;
use core::mem::swap;
use vstd::prelude::*;

verus! {

/// Counts the nodes.
pub(crate) fn len<K, V, R, I: Indirect<K, V, R>>(link: &I, arena: &I::Arena) -> (n: usize)
    requires
        valid(*link, arena),
        shape_of(*link, arena).len() <= usize::MAX,
    ensures
        n == shape_of(*link, arena).len(),
    decreases shape_of(*link, arena),
{
    let ghost shape = shape_of(*link, arena);
    if link.is_none() {
        proof {
            if shape is Fork {
                link.law_held(arena);
            }
        }
        0
    } else {
        let node = link.deref(arena);
        proof {
            lemma_shape_of(node.left, arena, shape.left());
            lemma_shape_of(node.right, arena, shape.right());
        }
        len(&node.left, arena) + len(&node.right, arena) + 1
    }
}

/// Compares `key` with the key at the root of the tree that `link` leads to.
pub fn cmp_key<K: Ord, V, R, I: Indirect<K, V, R>>(link: &I, arena: &I::Arena, key: &K) -> (r:
    Option<Ordering>)
    requires
        total_order::<K>(),
        valid(*link, arena),
    ensures
        r == shape_of(*link, arena).cmp_key(*key),
{
    if link.is_none() {
        proof {
            if shape_of(*link, arena) is Fork {
                link.law_held(arena);
            }
        }
        None
    } else {
        let node = link.deref(arena);
        if same_key(&node.key, key) {
            Some(Ordering::Equal)
        } else if at_most(&node.key, key) {
            Some(Ordering::Less)
        } else {
            Some(Ordering::Greater)
        }
    }
}

/// Lets the balancing rule look at the root, if there is one.
pub(crate) fn update<K: Ord, V, R: Regulator<K, V>, I: Indirect<K, V, R>>(
    link: &mut I,
    arena: &mut I::Arena,
)
    requires
        I::sound(old(arena)),
        valid(*old(link), old(arena)),
    ensures
        settled(
            *final(link),
            old(arena),
            final(arena),
            shape_of(*old(link), old(arena)).regulated(),
            cells(*old(link), old(arena), shape_of(*old(link), old(arena))),
        ),
{
    if link.is_none() {
        proof {
            let shape = shape_of(*link, arena);
            if shape is Fork {
                link.law_held(arena);
            }
            I::law_untouched_same(arena, Set::empty());
            assert(I::live(arena).difference(Set::empty()) + Set::empty() =~= I::live(arena));
        }
    } else {
        proof {
            let shape = shape_of(*link, arena);
            if shape is Leaf {
                link.law_held(arena);
            }
        }
        R::update(link, arena);
    }
}

/// Looks `key` up.
pub(crate) fn get<'a, K: Ord + 'a, V: 'a, R: 'a, I: Indirect<K, V, R>>(
    link: &'a I,
    arena: &'a I::Arena,
    key: &K,
) -> (r: Option<&'a V>)
    requires
        total_order::<K>(),
        valid(*link, arena),
    ensures
        r == (match shape_of(*link, arena).find(*key) {
            None => None::<&V>,
            Some(v) => Some(&v),
        }),
    decreases shape_of(*link, arena),
{
    let ghost shape = shape_of(*link, arena);
    if link.is_none() {
        proof {
            if shape is Fork {
                link.law_held(arena);
            }
        }
        None
    } else {
        let node = link.deref(arena);
        proof {
            lemma_shape_of(node.left, arena, shape.left());
            lemma_shape_of(node.right, arena, shape.right());
        }
        match cmp_key(link, arena, key) {
            Some(Ordering::Equal) => Some(&node.value),
            Some(Ordering::Less) => get(&node.left, arena, key),
            _ => get(&node.right, arena, key),
        }
    }
}

/// Releases every node of the tree that `link` leads to.
pub(crate) fn discard<K, V, R, I: Indirect<K, V, R>>(link: I, arena: &mut I::Arena)
    requires
        I::sound(old(arena)),
        valid(link, old(arena)),
    ensures
        I::sound(final(arena)),
        I::untouched(
            old(arena),
            final(arena),
            cells(link, old(arena), shape_of(link, old(arena))),
        ),
        I::live(final(arena)) == I::live(old(arena)).difference(
            cells(link, old(arena), shape_of(link, old(arena))),
        ),
    decreases shape_of(link, old(arena)),
{
    let ghost shape = shape_of(link, arena);
    let ghost before = *arena;
    if link.is_none() {
        proof {
            if shape is Fork {
                link.law_held(arena);
            }
            I::law_untouched_same(&before, Set::empty());
            assert(I::live(&before).difference(Set::empty()) =~= I::live(&before));
        }
    } else {
        let ghost own = link.cell();
        let ghost lshape = shape.left();
        let ghost rshape = shape.right();
        proof {
            link.law_held(arena);
        }
        let node = link.unbox(arena);
        let ghost first = *arena;
        let ghost lcells = cells(node.left, &before, lshape);
        let ghost rcells = cells(node.right, &before, rshape);
        proof {
            lemma_frame(node.left, &before, &first, lshape, own);
            lemma_frame(node.right, &before, &first, rshape, own);
            lemma_shape_of(node.left, &first, lshape);
            lemma_shape_of(node.right, &first, rshape);
        }
        let Node { left, right, .. } = node;
        discard(left, arena);
        let ghost second = *arena;
        proof {
            lemma_frame(right, &first, &second, rshape, lcells);
            lemma_shape_of(right, &second, rshape);
        }
        discard(right, arena);
        proof {
            let third = *arena;
            let all = cells(link, &before, shape);
            I::law_untouched_chain(&before, &first, &second, own, lcells);
            I::law_untouched_chain(&before, &second, &third, own + lcells, rcells);
            assert(own + lcells + rcells =~= all);
            assert(I::live(&third) =~= I::live(&before).difference(all));
        }
    }
}

/// Puts the node that `newbie` leads to into the tree, and hands out the value that its
/// key had before.
pub(crate) fn insert<K: Ord, V, R: Regulator<K, V>, I: Indirect<K, V, R>>(
    link: &mut I,
    arena: &mut I::Arena,
    newbie: I,
) -> (res: Option<V>)
    requires
        total_order::<K>(),
        I::sound(old(arena)),
        valid(*old(link), old(arena)),
        valid(newbie, old(arena)),
        shape_of(newbie, old(arena)) is Fork,
        cells(*old(link), old(arena), shape_of(*old(link), old(arena))).disjoint(
            cells(newbie, old(arena), shape_of(newbie, old(arena))),
        ),
    ensures
        res == shape_of(*old(link), old(arena)).find(shape_of(newbie, old(arena))->key),
        settled(
            *final(link),
            old(arena),
            final(arena),
            shape_of(*old(link), old(arena)).inserted(shape_of(newbie, old(arena))),
            cells(*old(link), old(arena), shape_of(*old(link), old(arena))) + cells(
                newbie,
                old(arena),
                shape_of(newbie, old(arena)),
            ),
        ),
    decreases shape_of(*old(link), old(arena)),
{
    let ghost shape = shape_of(*link, arena);
    let ghost fresh_shape = shape_of(newbie, arena);
    let ghost a0 = *arena;
    let ghost link0 = *link;
    let ghost own = cells(link0, &a0, shape);
    let ghost added = cells(newbie, &a0, fresh_shape);
    let ghost region = own + added;
    let ghost target = shape.inserted(fresh_shape);
    proof {
        lemma_cells_live(link0, &a0, shape);
        lemma_cells_live(newbie, &a0, fresh_shape);
        newbie.law_held(&a0);
    }
    if link.is_none() {
        proof {
            if shape is Fork {
                link.law_held(arena);
            }
            I::law_untouched_same(&a0, region);
            assert(I::live(&a0).difference(region) + added =~= I::live(&a0));
        }
        *link = newbie;
        return None;
    }
    proof {
        link.law_held(arena);
    }
    let ghost n0 = link0.node(&a0);
    let ghost f0 = newbie.node(&a0);
    let ghost l_shape = shape.left();
    let ghost r_shape = shape.right();
    let ghost l_cells = cells(n0.left, &a0, l_shape);
    let ghost r_cells = cells(n0.right, &a0, r_shape);
    let ghost l_cell = link0.cell();
    let ghost f_cell = newbie.cell();
    let ghost fl_shape = fresh_shape.left();
    let ghost fr_shape = fresh_shape.right();
    let ghost fl_cells = cells(f0.left, &a0, fl_shape);
    let ghost fr_cells = cells(f0.right, &a0, fr_shape);
    proof {
        assert(own == l_cell + l_cells + r_cells);
        assert(added == f_cell + fl_cells + fr_cells);
        lemma_apart(own, added, l_cell, f_cell);
        lemma_apart(own, added, l_cells, f_cell);
        lemma_apart(own, added, r_cells, f_cell);
        lemma_apart(own, added, l_cell, fl_cells);
        lemma_apart(own, added, l_cell, fr_cells);
        lemma_apart(own, added, own, fl_cells);
        lemma_apart(own, added, own, fr_cells);
    }
    if same_key(&link.deref(arena).key, &newbie.deref(arena).key) {
        // The key is there: its node takes over the new key and value and stays where it
        // is, and the new node is given up.
        let fresh = newbie.unbox(arena);
        let ghost a1 = *arena;
        proof {
            link0.law_frame(&a0, &a1, f_cell);
            lemma_frame(n0.left, &a0, &a1, l_shape, f_cell);
            lemma_frame(n0.right, &a0, &a1, r_shape, f_cell);
            lemma_frame(f0.left, &a0, &a1, fl_shape, f_cell);
            lemma_frame(f0.right, &a0, &a1, fr_shape, f_cell);
        }
        let Node {
            key: mut new_key,
            value: mut new_value,
            left: fresh_left,
            right: fresh_right,
            ..
        } = fresh;
        let node = link.deref_mut(arena);
        swap(&mut node.key, &mut new_key);
        swap(&mut node.value, &mut new_value);
        let ghost a2 = *arena;
        let ghost link2 = *link;
        proof {
            lemma_frame(n0.left, &a1, &a2, l_shape, l_cell);
            lemma_frame(n0.right, &a1, &a2, r_shape, l_cell);
            lemma_frame(fresh_left, &a1, &a2, fl_shape, l_cell);
            lemma_frame(fresh_right, &a1, &a2, fr_shape, l_cell);
            lemma_fork(link2, &a2, l_shape, r_shape);
            assert(fork(link2, &a2, l_shape, r_shape) == target);
            lemma_shape_of(fresh_left, &a2, fl_shape);
        }
        discard(fresh_left, arena);
        let ghost a3 = *arena;
        proof {
            lemma_frame(link2, &a2, &a3, target, fl_cells);
            lemma_frame(fresh_right, &a2, &a3, fr_shape, fl_cells);
            lemma_shape_of(fresh_right, &a3, fr_shape);
        }
        discard(fresh_right, arena);
        proof {
            let a4 = *arena;
            lemma_frame(link2, &a3, &a4, target, fr_cells);
            I::law_untouched_chain(&a0, &a1, &a2, f_cell, l_cell);
            I::law_untouched_chain(&a0, &a2, &a3, f_cell + l_cell, fl_cells);
            I::law_untouched_chain(&a0, &a3, &a4, f_cell + l_cell + fl_cells, fr_cells);
            I::law_untouched_wider(&a0, &a4, f_cell + l_cell + fl_cells + fr_cells, region);
            assert(added =~= f_cell + fl_cells + fr_cells);
            assert(I::live(&a4) =~= I::live(&a0).difference(region) + own);
        }
        return Some(new_value);
    }
    // The search goes on below: the child is taken out of the node, the new node is put
    // into the child's tree, and the child is hung back.
    let go_left = at_most(&link.deref(arena).key, &newbie.deref(arena).key);
    let node = link.deref_mut(arena);
    let mut child = I::none();
    if go_left {
        swap(&mut node.left, &mut child);
    } else {
        swap(&mut node.right, &mut child);
    }
    let ghost a1 = *arena;
    let ghost link1 = *link;
    let ghost c_shape = if go_left { l_shape } else { r_shape };
    let ghost c_cells = if go_left { l_cells } else { r_cells };
    let ghost o_shape = if go_left { r_shape } else { l_shape };
    let ghost o_cells = if go_left { r_cells } else { l_cells };
    let ghost other = if go_left { n0.right } else { n0.left };
    let ghost child1 = child;
    proof {
        lemma_frame(child1, &a0, &a1, c_shape, l_cell);
        lemma_frame(other, &a0, &a1, o_shape, l_cell);
        lemma_frame(newbie, &a0, &a1, fresh_shape, l_cell);
        lemma_shape_of(child1, &a1, c_shape);
        lemma_shape_of(newbie, &a1, fresh_shape);
    }
    let res = insert(&mut child, arena, newbie);
    let ghost a2 = *arena;
    let ghost child2 = child;
    let ghost c_target = c_shape.inserted(fresh_shape);
    let ghost c_region = c_cells + added;
    let ghost c_new = cells(child2, &a2, c_target);
    proof {
        lemma_frame(other, &a1, &a2, o_shape, c_region);
        link1.law_frame(&a1, &a2, c_region);
    }
    let node = link.deref_mut(arena);
    if go_left {
        node.left = child;
    } else {
        node.right = child;
    }
    let ghost a3 = *arena;
    let ghost link3 = *link;
    let ghost grown = if go_left {
        fork(link3, &a3, c_target, o_shape)
    } else {
        fork(link3, &a3, o_shape, c_target)
    };
    proof {
        lemma_frame(child2, &a2, &a3, c_target, l_cell);
        lemma_frame(other, &a2, &a3, o_shape, l_cell);
        if go_left {
            lemma_fork(link3, &a3, c_target, o_shape);
        } else {
            lemma_fork(link3, &a3, o_shape, c_target);
        }
        assert(cells(link3, &a3, grown) =~= l_cell + c_new + o_cells);
        lemma_shape_of(link3, &a3, grown);
        I::law_untouched_chain(&a0, &a1, &a2, l_cell, c_region);
        I::law_untouched_chain(&a0, &a2, &a3, l_cell + c_region, l_cell);
        I::law_untouched_wider(&a0, &a3, l_cell + c_region + l_cell, region);
        assert(I::live(&a3) =~= I::live(&a0).difference(region) + cells(link3, &a3, grown));
    }
    if res.is_none() {
        R::update(link, arena);
        proof {
            let a4 = *arena;
            let grown_cells = cells(link3, &a3, grown);
            I::law_untouched_chain(&a0, &a3, &a4, region, grown_cells);
            I::law_untouched_wider(&a0, &a4, region + grown_cells, region);
            assert(I::live(&a4) =~= I::live(&a0).difference(region) + grown_cells);
        }
    }
    res
}

/// Cuts off the node that carries `key`, with everything below it, releases the nodes
/// that are cut off, and hands out the value of `key`.
pub(crate) fn remove<K: Ord, V, R: Regulator<K, V>, I: Indirect<K, V, R>>(
    link: &mut I,
    arena: &mut I::Arena,
    key: &K,
) -> (res: Option<V>)
    requires
        total_order::<K>(),
        I::sound(old(arena)),
        valid(*old(link), old(arena)),
    ensures
        res == shape_of(*old(link), old(arena)).find(*key),
        settled(
            *final(link),
            old(arena),
            final(arena),
            shape_of(*old(link), old(arena)).removed(*key),
            cells(*old(link), old(arena), shape_of(*old(link), old(arena))),
        ),
    decreases shape_of(*old(link), old(arena)),
{
    let ghost shape = shape_of(*link, arena);
    let ghost a0 = *arena;
    let ghost link0 = *link;
    let ghost own = cells(link0, &a0, shape);
    proof {
        lemma_cells_live(link0, &a0, shape);
    }
    if link.is_none() {
        proof {
            if shape is Fork {
                link.law_held(arena);
            }
            I::law_untouched_same(&a0, own);
            assert(I::live(&a0).difference(own) + own =~= I::live(&a0));
        }
        return None;
    }
    proof {
        link.law_held(arena);
    }
    let ghost n0 = link0.node(&a0);
    let ghost l_shape = shape.left();
    let ghost r_shape = shape.right();
    let ghost l_cells = cells(n0.left, &a0, l_shape);
    let ghost r_cells = cells(n0.right, &a0, r_shape);
    let ghost l_cell = link0.cell();
    proof {
        assert(own == l_cell + l_cells + r_cells);
    }
    let ord = cmp_key(link, arena, key);
    if let Some(Ordering::Equal) = ord {
        // The key is here: the link becomes empty, and the node goes with all that hangs
        // below it.
        let mut taken = I::none();
        swap(link, &mut taken);
        let node = taken.unbox(arena);
        let ghost a1 = *arena;
        proof {
            lemma_frame(n0.left, &a0, &a1, l_shape, l_cell);
            lemma_frame(n0.right, &a0, &a1, r_shape, l_cell);
            lemma_shape_of(n0.left, &a1, l_shape);
        }
        let Node { value, left, right, .. } = node;
        discard(left, arena);
        let ghost a2 = *arena;
        proof {
            lemma_frame(n0.right, &a1, &a2, r_shape, l_cells);
            lemma_shape_of(n0.right, &a2, r_shape);
        }
        discard(right, arena);
        proof {
            let a3 = *arena;
            I::law_untouched_chain(&a0, &a1, &a2, l_cell, l_cells);
            I::law_untouched_chain(&a0, &a2, &a3, l_cell + l_cells, r_cells);
            assert(I::live(&a3) =~= I::live(&a0).difference(own) + Set::<int>::empty());
        }
        return Some(value);
    }
    // The search goes on below: the child is taken out of the node, the key is removed
    // from the child's tree, and the child is hung back.
    let go_left = match ord {
        Some(Ordering::Less) => true,
        _ => false,
    };
    let node = link.deref_mut(arena);
    let mut child = I::none();
    if go_left {
        swap(&mut node.left, &mut child);
    } else {
        swap(&mut node.right, &mut child);
    }
    let ghost a1 = *arena;
    let ghost link1 = *link;
    let ghost c_shape = if go_left { l_shape } else { r_shape };
    let ghost c_cells = if go_left { l_cells } else { r_cells };
    let ghost o_shape = if go_left { r_shape } else { l_shape };
    let ghost o_cells = if go_left { r_cells } else { l_cells };
    let ghost other = if go_left { n0.right } else { n0.left };
    let ghost child1 = child;
    proof {
        lemma_frame(child1, &a0, &a1, c_shape, l_cell);
        lemma_frame(other, &a0, &a1, o_shape, l_cell);
        lemma_shape_of(child1, &a1, c_shape);
    }
    let res = remove(&mut child, arena, key);
    let ghost a2 = *arena;
    let ghost child2 = child;
    let ghost c_target = c_shape.removed(*key);
    let ghost c_new = cells(child2, &a2, c_target);
    proof {
        lemma_frame(other, &a1, &a2, o_shape, c_cells);
        link1.law_frame(&a1, &a2, c_cells);
    }
    let node = link.deref_mut(arena);
    if go_left {
        node.left = child;
    } else {
        node.right = child;
    }
    let ghost a3 = *arena;
    let ghost link3 = *link;
    let ghost cut = if go_left {
        fork(link3, &a3, c_target, o_shape)
    } else {
        fork(link3, &a3, o_shape, c_target)
    };
    proof {
        lemma_apart(c_cells, l_cell, c_new, l_cell);
        lemma_apart(c_cells, o_cells, c_new, o_cells);
        lemma_frame(child2, &a2, &a3, c_target, l_cell);
        lemma_frame(other, &a2, &a3, o_shape, l_cell);
        if go_left {
            lemma_fork(link3, &a3, c_target, o_shape);
        } else {
            lemma_fork(link3, &a3, o_shape, c_target);
        }
        assert(cells(link3, &a3, cut) =~= l_cell + c_new + o_cells);
        lemma_shape_of(link3, &a3, cut);
        I::law_untouched_chain(&a0, &a1, &a2, l_cell, c_cells);
        I::law_untouched_chain(&a0, &a2, &a3, l_cell + c_cells, l_cell);
        I::law_untouched_wider(&a0, &a3, l_cell + c_cells + l_cell, own);
        assert(I::live(&a3) =~= I::live(&a0).difference(own) + cells(link3, &a3, cut));
    }
    if res.is_some() {
        R::update(link, arena);
        proof {
            let a4 = *arena;
            let cut_cells = cells(link3, &a3, cut);
            I::law_untouched_chain(&a0, &a3, &a4, own, cut_cells);
            I::law_untouched_wider(&a0, &a4, own + cut_cells, own);
            assert(I::live(&a4) =~= I::live(&a0).difference(own) + cut_cells);
        }
    }
    res
}

/// Finds the link to the node that carries `key`.
pub(crate) fn locate<'a, K: Ord + 'a, V: 'a, R: 'a, I: Indirect<K, V, R>>(
    link: &'a I,
    arena: &'a I::Arena,
    key: &K,
) -> (r: Option<&'a I>)
    requires
        total_order::<K>(),
        valid(*link, arena),
    ensures
        r == (if shape_of(*link, arena).find(*key) is Some {
            Some(&found(*link, arena, shape_of(*link, arena), *key))
        } else {
            None::<&I>
        }),
    decreases shape_of(*link, arena),
{
    let ghost shape = shape_of(*link, arena);
    if link.is_none() {
        proof {
            if shape is Fork {
                link.law_held(arena);
            }
        }
        None
    } else {
        let node = link.deref(arena);
        proof {
            lemma_shape_of(node.left, arena, shape.left());
            lemma_shape_of(node.right, arena, shape.right());
        }
        match cmp_key(link, arena, key) {
            Some(Ordering::Equal) => Some(link),
            Some(Ordering::Less) => locate(&node.left, arena, key),
            _ => locate(&node.right, arena, key),
        }
    }
}

/// The operations of a link on the tree that it leads to.
///
/// All but one are the same for every kind of link. Opening a value for writing is not:
/// the way to the value is a borrow, and how a link lends its node differs from kind to
/// kind.
pub trait Edge<K: Ord, V, R: Regulator<K, V>>: Indirect<K, V, R> {
    /// Counts the nodes.
    fn len(&self, arena: &Self::Arena) -> (n: usize)
        requires
            valid(*self, arena),
            shape_of(*self, arena).len() <= usize::MAX,
        ensures
            n == shape_of(*self, arena).len(),
    {
        len(self, arena)
    }

    /// Lets the balancing rule look at the root, if there is one.
    fn update(&mut self, arena: &mut Self::Arena)
        requires
            Self::sound(old(arena)),
            valid(*old(self), old(arena)),
        ensures
            settled(
                *final(self),
                old(arena),
                final(arena),
                shape_of(*old(self), old(arena)).regulated(),
                cells(*old(self), old(arena), shape_of(*old(self), old(arena))),
            ),
    {
        update(self, arena)
    }

    /// Looks `key` up.
    fn get<'a>(&'a self, arena: &'a Self::Arena, key: &K) -> (r: Option<&'a V>) where
        K: 'a,
        V: 'a,
        R: 'a,

        requires
            total_order::<K>(),
            valid(*self, arena),
        ensures
            r == (match shape_of(*self, arena).find(*key) {
                None => None::<&V>,
                Some(v) => Some(&v),
            }),
    {
        get(self, arena, key)
    }

    /// Looks `key` up, for writing to its value.
    fn get_mut<'a>(&'a mut self, arena: &'a mut Self::Arena, key: &K) -> (r: Option<&'a mut V>)
        requires
            total_order::<K>(),
            Self::sound(old(arena)),
            valid(*old(self), old(arena)),
        ensures
            match shape_of(*old(self), old(arena)).find(*key) {
                None => r is None && settled(
                    *final(self),
                    old(arena),
                    final(arena),
                    shape_of(*old(self), old(arena)),
                    cells(*old(self), old(arena), shape_of(*old(self), old(arena))),
                ),
                Some(v) => r is Some && *r.unwrap() == v && settled(
                    *final(self),
                    old(arena),
                    final(arena),
                    shape_of(*old(self), old(arena)).with_value(*key, *final(r.unwrap())),
                    cells(*old(self), old(arena), shape_of(*old(self), old(arena))),
                ),
            },
    ;

    /// Cuts off the node that carries `key`, with everything below it, releases the nodes
    /// that are cut off, and hands out the value of `key`.
    fn remove(&mut self, arena: &mut Self::Arena, key: &K) -> (r: Option<V>)
        requires
            total_order::<K>(),
            Self::sound(old(arena)),
            valid(*old(self), old(arena)),
        ensures
            r == shape_of(*old(self), old(arena)).find(*key),
            settled(
                *final(self),
                old(arena),
                final(arena),
                shape_of(*old(self), old(arena)).removed(*key),
                cells(*old(self), old(arena), shape_of(*old(self), old(arena))),
            ),
    {
        remove(self, arena, key)
    }

    /// Puts the node that `node` leads to into the tree, and hands out the value that
    /// its key had before.
    fn insert(&mut self, arena: &mut Self::Arena, node: Self) -> (r: Option<V>)
        requires
            total_order::<K>(),
            Self::sound(old(arena)),
            valid(*old(self), old(arena)),
            valid(node, old(arena)),
            shape_of(node, old(arena)) is Fork,
            cells(*old(self), old(arena), shape_of(*old(self), old(arena))).disjoint(
                cells(node, old(arena), shape_of(node, old(arena))),
            ),
        ensures
            r == shape_of(*old(self), old(arena)).find(shape_of(node, old(arena))->key),
            settled(
                *final(self),
                old(arena),
                final(arena),
                shape_of(*old(self), old(arena)).inserted(shape_of(node, old(arena))),
                cells(*old(self), old(arena), shape_of(*old(self), old(arena))) + cells(
                    node,
                    old(arena),
                    shape_of(node, old(arena)),
                ),
            ),
    {
        insert(self, arena, node)
    }
}

} // verus!
