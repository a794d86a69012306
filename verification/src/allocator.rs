//! Typed allocators whose handles own what they point to.

use core::marker::PhantomData;
use vstd::prelude::*;

verus! {

/// An owning handle: a value of `Target` that is kept somewhere, reached through the
/// handle alone and given up when the handle is.
pub trait Boxed: Sized {
    /// The type of the value behind the handle.
    type Target;

    /// The value behind the handle.
    spec fn value(&self) -> Self::Target;

    /// Reads the value.
    fn get(&self) -> (r: &Self::Target)
        ensures
            *r == self.value(),
    ;

    /// Opens the value for writing.
    fn get_mut(&mut self) -> (r: &mut Self::Target)
        ensures
            *r == old(self).value(),
            final(self).value() == *final(r),
    ;

    /// Gives the handle up and moves the value out.
    fn unbox(self) -> (inner: Self::Target)
        ensures
            inner == self.value(),
    ;
}

/// A typed allocator: it turns a value into an owning handle to it.
pub trait Alloc: Default {
    /// The handles that this allocator gives out.
    type Boxed: Boxed;

    /// Stores `value` and returns the handle that owns it.
    fn allocate(&self, value: <Self::Boxed as Boxed>::Target) -> (boxed: Self::Boxed)
        ensures
            boxed.value() == value,
    ;
}

/// The allocator that puts every value into a heap box of its own.
pub struct BoxAlloc<T>(PhantomData<T>);

impl<T> Default for BoxAlloc<T> {
    fn default() -> (r: Self) {
        BoxAlloc(PhantomData)
    }
}

impl<T> Boxed for Box<T> {
    type Target = T;

    open spec fn value(&self) -> T {
        **self
    }

    fn get(&self) -> (r: &T) {
        &**self
    }

    fn get_mut(&mut self) -> (r: &mut T) {
        &mut **self
    }

    fn unbox(self) -> (inner: T) {
        *self
    }
}

impl<T> Alloc for BoxAlloc<T> {
    type Boxed = Box<T>;

    fn allocate(&self, value: T) -> (boxed: Box<T>) {
        Box::new(value)
    }
}

} // verus!
