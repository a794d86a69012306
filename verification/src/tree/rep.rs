//! How a link and an arena make up a tree: what the contracts of the operations on links
//! speak of.

use crate::order::precedes;
use crate::tree::node::Indirect;
use crate::tree::shape::Shape;
use vstd::prelude::*;

verus! {

/// Whether the tree that `link` leads to in `arena` is `shape`, each node in a cell of its
/// own.
pub open spec fn rep<K, V, R, I: Indirect<K, V, R>>(
    link: I,
    arena: &I::Arena,
    shape: Shape<K, V, R>,
) -> bool
    decreases shape,
{
    match shape {
        Shape::Leaf => link.vacant(),
        Shape::Fork { left, key, value, rule, right } => {
            let node = link.node(arena);
            &&& link.held(arena)
            &&& node.key == key
            &&& node.value == value
            &&& node.regulator == rule
            &&& rep(node.left, arena, *left)
            &&& rep(node.right, arena, *right)
            &&& cells(node.left, arena, *left).disjoint(cells(node.right, arena, *right))
            &&& link.cell().disjoint(cells(node.left, arena, *left))
            &&& link.cell().disjoint(cells(node.right, arena, *right))
        },
    }
}

/// The cells that the nodes of the tree take up.
pub open spec fn cells<K, V, R, I: Indirect<K, V, R>>(
    link: I,
    arena: &I::Arena,
    shape: Shape<K, V, R>,
) -> Set<int>
    decreases shape,
{
    match shape {
        Shape::Leaf => Set::empty(),
        Shape::Fork { left, right, .. } => {
            let node = link.node(arena);
            link.cell() + cells(node.left, arena, *left) + cells(node.right, arena, *right)
        },
    }
}

/// What lives outside `region` does not matter to a tree whose cells lie within it.
pub proof fn lemma_frame<K, V, R, I: Indirect<K, V, R>>(
    link: I,
    before: &I::Arena,
    after: &I::Arena,
    shape: Shape<K, V, R>,
    region: Set<int>,
)
    requires
        rep(link, before, shape),
        I::sound(after),
        I::untouched(before, after, region),
        cells(link, before, shape).disjoint(region),
    ensures
        rep(link, after, shape),
        cells(link, after, shape) == cells(link, before, shape),
    decreases shape,
{
    match shape {
        Shape::Leaf => {},
        Shape::Fork { left, right, .. } => {
            let node = link.node(before);
            link.law_frame(before, after, region);
            lemma_frame(node.left, before, after, *left, region);
            lemma_frame(node.right, before, after, *right, region);
        },
    }
}

/// A link leads to one tree only.
pub proof fn lemma_one_shape<K, V, R, I: Indirect<K, V, R>>(
    link: I,
    arena: &I::Arena,
    first: Shape<K, V, R>,
    second: Shape<K, V, R>,
)
    requires
        rep(link, arena, first),
        rep(link, arena, second),
    ensures
        first == second,
    decreases first,
{
    match first {
        Shape::Leaf => {
            if second is Fork {
                link.law_held(arena);
            }
        },
        Shape::Fork { left, right, .. } => {
            link.law_held(arena);
            let node = link.node(arena);
            lemma_one_shape(node.left, arena, *left, second.left());
            lemma_one_shape(node.right, arena, *right, second.right());
        },
    }
}

/// The cells of a tree are taken.
pub proof fn lemma_cells_live<K, V, R, I: Indirect<K, V, R>>(
    link: I,
    arena: &I::Arena,
    shape: Shape<K, V, R>,
)
    requires
        rep(link, arena, shape),
    ensures
        cells(link, arena, shape).subset_of(I::live(arena)),
    decreases shape,
{
    match shape {
        Shape::Leaf => {},
        Shape::Fork { left, right, .. } => {
            link.law_held(arena);
            let node = link.node(arena);
            lemma_cells_live(node.left, arena, *left);
            lemma_cells_live(node.right, arena, *right);
        },
    }
}

/// Whether `link` leads to a tree in `arena`.
pub open spec fn valid<K, V, R, I: Indirect<K, V, R>>(link: I, arena: &I::Arena) -> bool {
    exists|shape: Shape<K, V, R>| rep(link, arena, shape)
}

/// The tree that `link` leads to in `arena`.
pub open spec fn shape_of<K, V, R, I: Indirect<K, V, R>>(link: I, arena: &I::Arena) -> Shape<
    K,
    V,
    R,
> {
    choose|shape: Shape<K, V, R>| rep(link, arena, shape)
}

/// The tree that a link leads to is the one that it is shown to lead to.
pub proof fn lemma_shape_of<K, V, R, I: Indirect<K, V, R>>(
    link: I,
    arena: &I::Arena,
    shape: Shape<K, V, R>,
)
    requires
        rep(link, arena, shape),
    ensures
        valid(link, arena),
        shape_of(link, arena) == shape,
{
    lemma_one_shape(link, arena, shape, shape_of(link, arena));
}

/// Whether an operation that found the arena as `before` has left in `after` the tree
/// `shape` at `link`, has touched nothing outside `region`, and has released every cell
/// of `region` that the tree does not take up.
pub open spec fn settled<K, V, R, I: Indirect<K, V, R>>(
    link: I,
    before: &I::Arena,
    after: &I::Arena,
    shape: Shape<K, V, R>,
    region: Set<int>,
) -> bool {
    &&& I::sound(after)
    &&& rep(link, after, shape)
    &&& cells(link, after, shape).subset_of(region)
    &&& I::untouched(before, after, region)
    &&& I::live(after) =~= I::live(before).difference(region) + cells(link, after, shape)
}

/// Parts of two sets that have nothing in common have nothing in common.
pub proof fn lemma_apart(first: Set<int>, second: Set<int>, part: Set<int>, other: Set<int>)
    requires
        first.disjoint(second),
        part.subset_of(first),
        other.subset_of(second),
    ensures
        part.disjoint(other),
        other.disjoint(part),
{
    assert forall|i: int| part.contains(i) implies !other.contains(i) by {
        if other.contains(i) {
            assert(first.contains(i));
            assert(second.contains(i));
        }
    }
    assert forall|i: int| other.contains(i) implies !part.contains(i) by {
        if part.contains(i) {
            assert(first.contains(i));
            assert(second.contains(i));
        }
    }
}

/// The tree at a link whose node and subtrees are known.
pub open spec fn fork<K, V, R, I: Indirect<K, V, R>>(
    link: I,
    arena: &I::Arena,
    left: Shape<K, V, R>,
    right: Shape<K, V, R>,
) -> Shape<K, V, R> {
    let node = link.node(arena);
    Shape::Fork {
        left: Box::new(left),
        key: node.key,
        value: node.value,
        rule: node.regulator,
        right: Box::new(right),
    }
}

/// A node whose links lead to two trees apart from each other and from the node is the
/// root of a tree.
pub proof fn lemma_fork<K, V, R, I: Indirect<K, V, R>>(
    link: I,
    arena: &I::Arena,
    left: Shape<K, V, R>,
    right: Shape<K, V, R>,
)
    requires
        link.held(arena),
        rep(link.node(arena).left, arena, left),
        rep(link.node(arena).right, arena, right),
        cells(link.node(arena).left, arena, left).disjoint(
            cells(link.node(arena).right, arena, right),
        ),
        link.cell().disjoint(cells(link.node(arena).left, arena, left)),
        link.cell().disjoint(cells(link.node(arena).right, arena, right)),
    ensures
        rep(link, arena, fork(link, arena, left, right)),
        cells(link, arena, fork(link, arena, left, right)) == link.cell() + cells(
            link.node(arena).left,
            arena,
            left,
        ) + cells(link.node(arena).right, arena, right),
{
}

/// The link at which a search for `key` ends: the one to the node that carries `key`, or
/// a link to no node.
pub open spec fn found<K: Ord, V, R, I: Indirect<K, V, R>>(
    link: I,
    arena: &I::Arena,
    shape: Shape<K, V, R>,
    key: K,
) -> I
    decreases shape,
{
    match shape {
        Shape::Leaf => link,
        Shape::Fork { left, key: k, right, .. } => if k == key {
            link
        } else if precedes(k, key) {
            found(link.node(arena).left, arena, *left, key)
        } else {
            found(link.node(arena).right, arena, *right, key)
        },
    }
}

/// The link at which a search ends leads to the subtree at which it ends, and that
/// subtree lies within the tree.
pub proof fn lemma_found<K: Ord, V, R, I: Indirect<K, V, R>>(
    link: I,
    arena: &I::Arena,
    shape: Shape<K, V, R>,
    key: K,
)
    requires
        rep(link, arena, shape),
    ensures
        rep(found(link, arena, shape, key), arena, shape.subtree(key)),
        cells(found(link, arena, shape, key), arena, shape.subtree(key)).subset_of(
            cells(link, arena, shape),
        ),
        shape.find(key) is Some ==> found(link, arena, shape, key).cell().subset_of(
            cells(link, arena, shape),
        ),
    decreases shape,
{
    match shape {
        Shape::Leaf => {},
        Shape::Fork { left, key: k, right, .. } => {
            if k == key {
            } else if precedes(k, key) {
                lemma_found(link.node(arena).left, arena, *left, key);
            } else {
                lemma_found(link.node(arena).right, arena, *right, key);
            }
        },
    }
}

/// Writing a value into the node that a search for `key` finds, and nothing else, writes
/// the value into the tree.
pub proof fn lemma_rewritten<K: Ord, V, R, I: Indirect<K, V, R>>(
    link: I,
    before: &I::Arena,
    after: &I::Arena,
    shape: Shape<K, V, R>,
    key: K,
    value: V,
)
    requires
        rep(link, before, shape),
        shape.find(key) is Some,
        I::sound(after),
        I::untouched(before, after, found(link, before, shape, key).cell()),
        found(link, before, shape, key).held(after),
        found(link, before, shape, key).node(after).key == found(link, before, shape, key).node(
            before,
        ).key,
        found(link, before, shape, key).node(after).value == value,
        found(link, before, shape, key).node(after).left == found(link, before, shape, key).node(
            before,
        ).left,
        found(link, before, shape, key).node(after).right == found(
            link,
            before,
            shape,
            key,
        ).node(before).right,
        found(link, before, shape, key).node(after).regulator == found(
            link,
            before,
            shape,
            key,
        ).node(before).regulator,
    ensures
        rep(link, after, shape.with_value(key, value)),
        cells(link, after, shape.with_value(key, value)) == cells(link, before, shape),
    decreases shape,
{
    match shape {
        Shape::Leaf => {},
        Shape::Fork { left, key: k, right, .. } => {
            let node = link.node(before);
            let target = found(link, before, shape, key);
            let l_cells = cells(node.left, before, *left);
            let r_cells = cells(node.right, before, *right);
            if k == key {
                lemma_frame(node.left, before, after, *left, link.cell());
                lemma_frame(node.right, before, after, *right, link.cell());
            } else if precedes(k, key) {
                lemma_found(node.left, before, *left, key);
                lemma_apart(l_cells, link.cell(), target.cell(), link.cell());
                lemma_apart(l_cells, r_cells, target.cell(), r_cells);
                link.law_frame(before, after, target.cell());
                lemma_rewritten(node.left, before, after, *left, key, value);
                lemma_frame(node.right, before, after, *right, target.cell());
            } else {
                lemma_found(node.right, before, *right, key);
                lemma_apart(r_cells, link.cell(), target.cell(), link.cell());
                lemma_apart(r_cells, l_cells, target.cell(), l_cells);
                link.law_frame(before, after, target.cell());
                lemma_rewritten(node.right, before, after, *right, key, value);
                lemma_frame(node.left, before, after, *left, target.cell());
            }
        },
    }
}

} // verus!
