//! Links into a slab arena.

use crate::arena;
use crate::arena::slab::{lemma_allocated, lemma_freed, lemma_written};
use crate::arena::vec_arena::{Boxed, VecArena};
use crate::tree::edge::{locate, Edge};
use crate::tree::map::TreeMap;
use crate::tree::node::{Indirect, Node};
use crate::tree::regulator::Regulator;
use crate::tree::rep::{
    cells, found, lemma_cells_live, lemma_found, lemma_rewritten, settled, shape_of, };
use vstd::prelude::*;

verus! {

/// A link that owns its node in a slot of a slab arena.
pub struct VecLink<K, V, R>(pub Option<Boxed<Node<K, V, R, VecLink<K, V, R>>>>);

/// The slab arena of nodes.
pub type VecNodes<K, V, R> = VecArena<Node<K, V, R, VecLink<K, V, R>>>;

/// The map whose nodes live in a slab arena.
pub type VecTreeMap<K, V, R> = TreeMap<K, V, R, VecNodes<K, V, R>, VecLink<K, V, R>>;

impl<K, V, R> Indirect<K, V, R> for VecLink<K, V, R> {
    type Arena = VecArena<Node<K, V, R, VecLink<K, V, R>>>;

    open spec fn vacant(&self) -> bool {
        self.0 is None
    }

    open spec fn cell(&self) -> Set<int> {
        match self.0 {
            None => Set::empty(),
            Some(boxed) => set![boxed.index()],
        }
    }

    open spec fn held(&self, arena: &Self::Arena) -> bool {
        &&& arena.wf()
        &&& self.0 is Some
        &&& self.0.unwrap().unit() is None
        &&& arena.slab().is_live(self.0.unwrap().index())
    }

    open spec fn node(&self, arena: &Self::Arena) -> Node<K, V, R, Self> {
        arena.slab().value(self.0.unwrap().index())
    }

    open spec fn sound(arena: &Self::Arena) -> bool {
        arena.wf()
    }

    open spec fn live(arena: &Self::Arena) -> Set<int> {
        arena.slab().live()
    }

    open spec fn untouched(before: &Self::Arena, after: &Self::Arena, region: Set<int>) -> bool {
        forall|i: int|
            !region.contains(i) && #[trigger] before.slab().is_live(i) ==> after.slab().is_live(i)
                && after.slab().value(i) == before.slab().value(i)
    }

    proof fn law_default(arena: Self::Arena) {
        assert(arena.slab().live() =~= Set::<int>::empty());
    }

    proof fn law_held(&self, arena: &Self::Arena) {
    }

    proof fn law_frame(&self, before: &Self::Arena, after: &Self::Arena, region: Set<int>) {
        let index = self.0.unwrap().index();
        assert(self.cell().contains(index));
        assert(before.slab().is_live(index));
    }

    proof fn law_untouched_same(arena: &Self::Arena, region: Set<int>) {
    }

    proof fn law_untouched_chain(
        a: &Self::Arena,
        b: &Self::Arena,
        c: &Self::Arena,
        first: Set<int>,
        second: Set<int>,
    ) {
        assert forall|i: int| !(first + second).contains(i) && #[trigger] a.slab().is_live(
            i,
        ) implies c.slab().is_live(i) && c.slab().value(i) == a.slab().value(i) by {
            assert(b.slab().is_live(i));
        }
    }

    proof fn law_untouched_wider(
        a: &Self::Arena,
        b: &Self::Arena,
        region: Set<int>,
        wider: Set<int>,
    ) {
    }

    fn none() -> (link: Self) {
        VecLink(None)
    }

    fn is_none(&self) -> (b: bool) {
        self.0.is_none()
    }

    fn new(node: Node<K, V, R, Self>, arena: &mut Self::Arena) -> (link: Self) {
        proof {
            arena.lemma_sound();
            lemma_allocated(arena.slab(), node);
        }
        let link = VecLink(Some(arena.store(node)));
        proof {
            assert(link.cell() =~= set![old(arena).slab().next_index()]);
            assert(Self::live(arena) =~= Self::live(old(arena)) + link.cell());
        }
        link
    }

    fn deref<'a>(&'a self, arena: &'a Self::Arena) -> (node: &'a Node<K, V, R, Self>) {
        match &self.0 {
            Some(boxed) => arena::Boxed::get(boxed, arena),
            None => vstd::pervasive::unreached(),
        }
    }

    fn deref_mut<'a>(&'a mut self, arena: &'a mut Self::Arena) -> (node: &'a mut Node<
        K,
        V,
        R,
        Self,
    >) {
        let ghost before = *arena;
        let ghost index = self.0.unwrap().index();
        let node = match &mut self.0 {
            Some(boxed) => arena::Boxed::get_mut(boxed, arena),
            None => vstd::pervasive::unreached(),
        };
        proof {
            before.lemma_sound();
            lemma_written(before.slab(), index, *final(node));
        }
        node
    }

    fn unbox(self, arena: &mut Self::Arena) -> (node: Node<K, V, R, Self>) {
        proof {
            arena.lemma_sound();
            lemma_freed(arena.slab(), self.0.unwrap().index());
        }
        let node = match self.0 {
            Some(boxed) => arena::Boxed::unbox(boxed, arena),
            None => vstd::pervasive::unreached(),
        };
        proof {
            assert(Self::live(arena) =~= Self::live(old(arena)).difference(self.cell()));
        }
        node
    }
}

impl<K: Ord, V, R: Regulator<K, V>> Edge<K, V, R> for VecLink<K, V, R> {
    /// The slot of the node is looked for first; the value is then opened in the arena.
    fn get_mut<'a>(&'a mut self, arena: &'a mut Self::Arena, key: &K) -> (r: Option<&'a mut V>) {
        let ghost shape = shape_of(*self, arena);
        let ghost before = *arena;
        let ghost me = *self;
        let ghost own = cells(me, &before, shape);
        let ghost target = found(me, &before, shape, *key);
        proof {
            lemma_cells_live(me, &before, shape);
            lemma_found(me, &before, shape, *key);
            Self::law_untouched_same(&before, own);
            assert(Self::live(&before).difference(own) + own =~= Self::live(&before));
            before.lemma_sound();
        }
        let index = match locate(&*self, &*arena, key) {
            None => {
                return None;
            },
            Some(link) => match &link.0 {
                Some(boxed) => boxed.slot(),
                None => {
                    return None;
                },
            },
        };
        let node = arena.value_mut(index);
        let ghost n0 = *node;
        let r = &mut node.value;
        proof {
            let value = *final(r);
            let written = Node {
                key: n0.key,
                value,
                left: n0.left,
                right: n0.right,
                regulator: n0.regulator,
            };
            lemma_written(before.slab(), index as int, written);
            assert forall|after: Self::Arena|
                after.wf() && #[trigger] after.slab() == before.slab().written(
                    index as int,
                    written,
                ) implies settled(me, &before, &after, shape.with_value(*key, value), own) by {
                Self::law_untouched_wider(&before, &after, target.cell(), own);
                lemma_rewritten(me, &before, &after, shape, *key, value);
                assert(Self::live(&after) =~= Self::live(&before).difference(own) + own);
            }
        }
        Some(r)
    }
}

} // verus!
