//! Nodes, and the links that lead to them.

use vstd::prelude::*;

verus! {

/// One node of the tree: a key, its value, the links to the two subtrees and the payload
/// of the balancing rule.
pub struct Node<K, V, R, I> {
    pub key: K,
    pub value: V,
    pub left: I,
    pub right: I,
    pub regulator: R,
}

impl<K, V, R: Default, I: Indirect<K, V, R>> Node<K, V, R, I> {
    /// A node without children, with a payload that the balancing rule has drawn for it.
    pub fn new(key: K, value: V) -> (node: Self)
        ensures
            node.key == key,
            node.value == value,
            node.left.vacant(),
            node.right.vacant(),
            <R as Default>::default.ensures((), node.regulator),
    {
        Node { key, value, left: I::none(), right: I::none(), regulator: R::default() }
    }
}

/// A link to a node that an arena keeps, or to none.
///
/// The contracts of the operations speak of the cells of the arena: what an operation
/// does to one cell it does to no other. A link whose node lives in no cell of an arena,
/// as one in a heap box does, has no cell.
pub trait Indirect<K, V, R>: Sized {
    /// The arena that keeps the nodes.
    type Arena: Default;

    /// Whether the link leads to no node.
    spec fn vacant(&self) -> bool;

    /// The cell of the arena that the link's node takes up; no cell where the node does
    /// not live in the arena.
    spec fn cell(&self) -> Set<int>;

    /// Whether the link leads to a node that lives in `arena`.
    spec fn held(&self, arena: &Self::Arena) -> bool;

    /// The node that the link leads to.
    spec fn node(&self, arena: &Self::Arena) -> Node<K, V, R, Self>;

    /// The arena's bookkeeping is sound.
    spec fn sound(arena: &Self::Arena) -> bool;

    /// The cells of the arena that are taken.
    spec fn live(arena: &Self::Arena) -> Set<int>;

    /// Whatever lived in `before` outside `region` lives unchanged in `after`.
    spec fn untouched(before: &Self::Arena, after: &Self::Arena, region: Set<int>) -> bool;

    /// A new arena is sound, and none of its cells is taken.
    proof fn law_default(arena: Self::Arena)
        requires
            <Self::Arena as Default>::default.ensures((), arena),
        ensures
            Self::sound(&arena),
            Self::live(&arena) == Set::<int>::empty(),
    ;

    /// A link that is held leads to a node, in a sound arena, and its cell is taken.
    proof fn law_held(&self, arena: &Self::Arena)
        requires
            self.held(arena),
        ensures
            !self.vacant(),
            Self::sound(arena),
            self.cell().subset_of(Self::live(arena)),
    ;

    /// A node stays what it is as long as its cell is not touched.
    proof fn law_frame(&self, before: &Self::Arena, after: &Self::Arena, region: Set<int>)
        requires
            self.held(before),
            Self::sound(after),
            Self::untouched(before, after, region),
            self.cell().disjoint(region),
        ensures
            self.held(after),
            self.node(after) == self.node(before),
    ;

    /// An arena is untouched with regard to itself.
    proof fn law_untouched_same(arena: &Self::Arena, region: Set<int>)
        ensures
            Self::untouched(arena, arena, region),
    ;

    /// What two steps leave untouched, one after the other, is untouched by both.
    proof fn law_untouched_chain(
        a: &Self::Arena,
        b: &Self::Arena,
        c: &Self::Arena,
        first: Set<int>,
        second: Set<int>,
    )
        requires
            Self::untouched(a, b, first),
            Self::untouched(b, c, second),
        ensures
            Self::untouched(a, c, first + second),
    ;

    /// What is untouched outside a region is untouched outside a wider one.
    proof fn law_untouched_wider(
        a: &Self::Arena,
        b: &Self::Arena,
        region: Set<int>,
        wider: Set<int>,
    )
        requires
            Self::untouched(a, b, region),
            region.subset_of(wider),
        ensures
            Self::untouched(a, b, wider),
    ;

    /// A link to no node.
    fn none() -> (link: Self)
        ensures
            link.vacant(),
            link.cell() == Set::<int>::empty(),
    ;

    /// Whether the link leads to no node.
    fn is_none(&self) -> (b: bool)
        ensures
            b == self.vacant(),
    ;

    /// Puts `node` into the arena and returns the link to it.
    fn new(node: Node<K, V, R, Self>, arena: &mut Self::Arena) -> (link: Self)
        requires
            Self::sound(old(arena)),
        ensures
            Self::sound(final(arena)),
            link.held(final(arena)),
            link.node(final(arena)) == node,
            link.cell().disjoint(Self::live(old(arena))),
            Self::live(final(arena)) == Self::live(old(arena)) + link.cell(),
            Self::untouched(old(arena), final(arena), link.cell()),
    ;

    /// Reads the node.
    fn deref<'a>(&'a self, arena: &'a Self::Arena) -> (node: &'a Node<K, V, R, Self>)
        requires
            self.held(arena),
        ensures
            *node == self.node(arena),
    ;

    /// Opens the node for writing.
    fn deref_mut<'a>(&'a mut self, arena: &'a mut Self::Arena) -> (node: &'a mut Node<
        K,
        V,
        R,
        Self,
    >)
        requires
            old(self).held(old(arena)),
        ensures
            *node == old(self).node(old(arena)),
            final(self).cell() == old(self).cell(),
            final(self).held(final(arena)),
            final(self).node(final(arena)) == *final(node),
            Self::sound(final(arena)),
            Self::live(final(arena)) == Self::live(old(arena)),
            Self::untouched(old(arena), final(arena), old(self).cell()),
    ;

    /// Gives the link up, moves the node out and releases its cell.
    fn unbox(self, arena: &mut Self::Arena) -> (node: Node<K, V, R, Self>)
        requires
            self.held(old(arena)),
        ensures
            node == self.node(old(arena)),
            Self::sound(final(arena)),
            Self::live(final(arena)) == Self::live(old(arena)).difference(self.cell()),
            Self::untouched(old(arena), final(arena), self.cell()),
    ;
}

} // verus!
