//! Typed arenas: allocators whose values are reached with a handle and the arena.

pub mod slab;
pub mod vec_arena;

pub use self::vec_arena::VecArena;

use core::marker::PhantomData;
use vstd::prelude::*;

verus! {

/// A typed arena: it stores values of `T` and gives out an owning handle to each.
pub trait Arena<T, B: Boxed<T, Arena = Self>>: Default + Sized {
    /// The arena's bookkeeping is sound.
    spec fn wf(&self) -> bool;

    /// Stores `value` and returns the handle that owns it. The value gets a cell that no
    /// handle had, and what other handles hold is left as it was.
    fn allocate(&mut self, value: T) -> (boxed: B)
        requires
            old(self).wf(),
        ensures
            final(self).wf(),
            boxed.held(final(self)),
            boxed.value(final(self)) == value,
            forall|other: B| #[trigger]
                other.held(old(self)) ==> other.held(final(self)) && other.value(final(self))
                    == other.value(old(self)) && other.cell().disjoint(boxed.cell()),
    ;
}

/// An owning handle into an arena. The value is reached with the handle and the arena
/// together, and it is given up by `unbox`.
pub trait Boxed<T>: Sized {
    /// The arena that the handle points into.
    type Arena;

    /// The cell of the arena that the handle's value takes up; no cell where the value
    /// does not live in the arena.
    spec fn cell(&self) -> Set<int>;

    /// Whether the handle's value lives in `arena`.
    spec fn held(&self, arena: &Self::Arena) -> bool;

    /// The value that the handle owns in `arena`.
    spec fn value(&self, arena: &Self::Arena) -> T;

    /// Reads the value.
    fn get<'a>(&'a self, arena: &'a Self::Arena) -> (r: &'a T)
        requires
            self.held(arena),
        ensures
            *r == self.value(arena),
    ;

    /// Opens the value for writing. What handles to other cells hold is left as it was.
    fn get_mut<'a>(&'a mut self, arena: &'a mut Self::Arena) -> (r: &'a mut T)
        requires
            old(self).held(old(arena)),
        ensures
            *r == old(self).value(old(arena)),
            final(self).cell() == old(self).cell(),
            final(self).held(final(arena)),
            final(self).value(final(arena)) == *final(r),
            forall|other: Self| #[trigger]
                other.held(old(arena)) && other.cell().disjoint(old(self).cell())
                    ==> other.held(final(arena)) && other.value(final(arena)) == other.value(
                    old(arena),
                ),
    ;

    /// Gives the handle up, moves the value out and releases its cell. What handles to
    /// other cells hold is left as it was.
    fn unbox(boxed: Self, arena: &mut Self::Arena) -> (value: T)
        requires
            boxed.held(old(arena)),
        ensures
            value == boxed.value(old(arena)),
            forall|other: Self| #[trigger]
                other.held(old(arena)) && other.cell().disjoint(boxed.cell()) ==> other.held(
                    final(arena),
                ) && other.value(final(arena)) == other.value(old(arena)),
    ;
}

/// A handle that owns nothing: it names the place of a value and can be copied. Whoever
/// reads through it has to know that a value lives there.
pub trait UnsafeBoxed<T>: Sized {
    /// The arena that the handle points into.
    type Arena;

    /// Whether a value lives in `arena` at the place that the handle names.
    spec fn held(&self, arena: &Self::Arena) -> bool;

    /// The value at the place that the handle names.
    spec fn value(&self, arena: &Self::Arena) -> T;

    /// Reads the value.
    fn get<'a>(&'a self, arena: &'a Self::Arena) -> (r: &'a T)
        requires
            self.held(arena),
        ensures
            *r == self.value(arena),
    ;

    /// Opens the value for writing.
    fn get_mut<'a>(&'a mut self, arena: &'a mut Self::Arena) -> (r: &'a mut T)
        requires
            old(self).held(old(arena)),
        ensures
            *r == old(self).value(old(arena)),
            *final(self) == *old(self),
            final(self).held(final(arena)),
            final(self).value(final(arena)) == *final(r),
    ;
}

/// The arena that keeps nothing itself: every value goes into a heap box of its own, and
/// the box is the handle.
pub struct BoxArena<T>(PhantomData<T>);

impl<T> Default for BoxArena<T> {
    fn default() -> (r: Self) {
        BoxArena(PhantomData)
    }
}

impl<T> Arena<T, Box<T>> for BoxArena<T> {
    open spec fn wf(&self) -> bool {
        true
    }

    fn allocate(&mut self, value: T) -> (boxed: Box<T>) {
        Box::new(value)
    }
}

impl<T> Boxed<T> for Box<T> {
    type Arena = BoxArena<T>;

    open spec fn cell(&self) -> Set<int> {
        Set::empty()
    }

    open spec fn held(&self, arena: &BoxArena<T>) -> bool {
        true
    }

    open spec fn value(&self, arena: &BoxArena<T>) -> T {
        **self
    }

    fn get<'a>(&'a self, arena: &'a BoxArena<T>) -> (r: &'a T) {
        &**self
    }

    fn get_mut<'a>(&'a mut self, arena: &'a mut BoxArena<T>) -> (r: &'a mut T) {
        &mut **self
    }

    fn unbox(boxed: Self, arena: &mut BoxArena<T>) -> (value: T) {
        *boxed
    }
}

} // verus!
