//! The slab arena: values live side by side in one growing row of slots, and a slot that
//! has been released is the first to be used again.

use crate::arena;
use crate::arena::slab::{lemma_allocated, lemma_freed, lemma_written, Slab};
use core::marker::PhantomData;
use core::mem::swap;
use vstd::prelude::*;

verus! {

/// One slot of the row: a value, or the link to the next free slot.
pub enum Slot<T> {
    /// The slot holds a value.
    Data(T),
    /// The slot is free; it holds the index of the next free slot, or `usize::MAX` where
    /// it is the last of them.
    Empty(usize),
}

impl<T> Default for Slot<T> {
    fn default() -> (slot: Self)
        ensures
            slot == Slot::<T>::Empty(usize::MAX),
    {
        Slot::Empty(usize::MAX)
    }
}

impl<T> Slot<T> {
    /// What the slot holds, as the model sees it.
    pub open spec fn content(self) -> Option<T> {
        match self {
            Slot::Data(value) => Some(value),
            Slot::Empty(_) => None,
        }
    }

    /// The value of a slot that holds one.
    pub fn to_ref(&self) -> (r: &T)
        requires
            self is Data,
        ensures
            *r == self->Data_0,
    {
        match self {
            Slot::Data(data) => data,
            Slot::Empty(_) => vstd::pervasive::unreached(),
        }
    }

    /// The value of a slot that holds one, for writing.
    pub fn to_mut(&mut self) -> (r: &mut T)
        requires
            *old(self) is Data,
        ensures
            *r == old(self)->Data_0,
            *final(self) == Slot::Data(*final(r)),
    {
        match self {
            Slot::Data(data) => data,
            Slot::Empty(_) => vstd::pervasive::unreached(),
        }
    }

    /// Puts `data` into a free slot and returns the link that the slot held.
    pub fn set_data(&mut self, data: T) -> (next: usize)
        requires
            *old(self) is Empty,
        ensures
            *final(self) == Slot::Data(data),
            next == old(self)->Empty_0,
    {
        let mut slot = Slot::Data(data);
        swap(self, &mut slot);
        match slot {
            Slot::Empty(next) => next,
            Slot::Data(_) => vstd::pervasive::unreached(),
        }
    }

    /// Takes the value out of a slot and leaves the link `empty` in it.
    pub fn set_empty(&mut self, empty: usize) -> (data: T)
        requires
            *old(self) is Data,
        ensures
            *final(self) == Slot::<T>::Empty(empty),
            data == old(self)->Data_0,
    {
        let mut slot = Slot::Empty(empty);
        swap(self, &mut slot);
        match slot {
            Slot::Data(data) => data,
            Slot::Empty(_) => vstd::pervasive::unreached(),
        }
    }
}

/// The row of slots and its free list.
pub struct ArenaData<T> {
    storage: Vec<Slot<T>>,
    empty: usize,
    free: Ghost<Seq<int>>,
}

impl<T> View for ArenaData<T> {
    type V = Slab<T>;

    closed spec fn view(&self) -> Slab<T> {
        Slab { slots: contents(self.storage@), free: self.free@ }
    }
}

/// What a row of slots holds, slot by slot.
spec fn contents<T>(storage: Seq<Slot<T>>) -> Seq<Option<T>> {
    Seq::new(storage.len(), |i: int| storage[i].content())
}

/// The link that the free slot at place `j` of the free list holds.
spec fn link(free: Seq<int>, j: int) -> usize {
    if j + 1 < free.len() {
        free[j + 1] as usize
    } else {
        usize::MAX
    }
}

/// The free slots of `storage` are those of `free` and are chained in that order, from
/// `empty` on.
spec fn chained<T>(storage: Seq<Slot<T>>, empty: usize, free: Seq<int>) -> bool {
    &&& (Slab { slots: contents(storage), free }).wf()
    &&& forall|j: int|
        0 <= j < free.len() ==> storage[#[trigger] free[j]] == Slot::<T>::Empty(link(free, j))
    &&& empty == if free.len() > 0 {
        free[0] as usize
    } else {
        usize::MAX
    }
}

/// Writing a value over a value keeps the chain of the free slots.
proof fn lemma_write<T>(storage: Seq<Slot<T>>, empty: usize, free: Seq<int>, index: int, value: T)
    requires
        chained(storage, empty, free),
        0 <= index < storage.len(),
        storage[index] is Data,
    ensures
        chained(storage.update(index, Slot::Data(value)), empty, free),
        contents(storage.update(index, Slot::Data(value))) == contents(storage).update(
            index,
            Some(value),
        ),
{
    let written = storage.update(index, Slot::Data(value));
    let before = Slab { slots: contents(storage), free };
    let after = Slab { slots: contents(written), free };
    assert(contents(written) =~= contents(storage).update(index, Some(value)));
    assert forall|j: int| 0 <= j < free.len() implies written[#[trigger] free[j]] == Slot::<
        T,
    >::Empty(link(free, j)) by {
        assert(before.slots[before.free[j]] is None);
    }
    assert forall|i: int| 0 <= i < after.slots.len() && after.slots[i] is None implies #[trigger]
        after.free.contains(i) by {
        assert(before.slots[i] is None);
    }
    assert forall|j: int| 0 <= j < after.free.len() implies 0 <= #[trigger] after.free[j]
        < after.slots.len() && after.slots[after.free[j]] is None by {
        assert(before.slots[before.free[j]] is None);
    }
}

impl<T> ArenaData<T> {
    /// The free slots are chained in the order of the free list, from `empty` on.
    pub closed spec fn wf(&self) -> bool {
        chained(self.storage@, self.empty, self.free@)
    }

    /// In a sound row the free list holds every free slot once, and no other.
    pub proof fn lemma_sound(&self)
        requires
            self.wf(),
        ensures
            self@.wf(),
    {
    }

    /// A row without slots.
    pub fn new() -> (data: Self)
        ensures
            data.wf(),
            data@ == Slab::<T>::empty(),
    {
        let data = ArenaData { storage: Vec::new(), empty: usize::MAX, free: Ghost(Seq::empty()) };
        assert(data@.slots =~= Seq::empty());
        data
    }

    /// The number of slots, live and free.
    pub fn slots(&self) -> (n: usize)
        ensures
            n == self@.slots.len(),
    {
        self.storage.len()
    }

    /// Whether a value lives in the slot with this index.
    pub fn is_live(&self, index: usize) -> (live: bool)
        ensures
            live == self@.is_live(index as int),
    {
        if index < self.storage.len() {
            match &self.storage[index] {
                Slot::Data(_) => true,
                Slot::Empty(_) => false,
            }
        } else {
            false
        }
    }

    /// The slot with this index.
    pub fn slot(&self, index: usize) -> (slot: &Slot<T>)
        requires
            index < self@.slots.len(),
        ensures
            slot.content() == self@.slots[index as int],
    {
        &self.storage[index]
    }

    /// Stores `data` in the next slot and returns the slot's index.
    pub fn allocate(&mut self, data: T) -> (index: usize)
        requires
            old(self).wf(),
        ensures
            final(self).wf(),
            index == old(self)@.next_index(),
            final(self)@ == old(self)@.allocated(data),
    {
        let ghost before = self@;
        if self.empty == usize::MAX {
            assert(self.free@.len() == 0) by {
                if self.free@.len() > 0 {
                    assert(0 <= self@.free[0] < self@.slots.len());
                    assert(self.storage.len() == self.storage@.len());
                }
            }
            self.empty = self.storage.len();
            self.storage.push(Slot::default());
            proof {
                self.free@ = seq![self.empty as int];
            }
            assert(self.storage.len() == self.empty + 1);
        }
        let index = self.empty;
        proof {
            assert(self.storage.len() == self.storage@.len());
            assert(0 <= self@.free[0] < self@.slots.len());
            assert(self.storage@[self.free@[0]] == Slot::<T>::Empty(link(self.free@, 0)));
            assert(index as int == self.free@[0]);
        }
        let ghost chain = self.free@;
        let ghost linked = *self;
        let next = self.storage[index].set_data(data);
        self.empty = next;
        proof {
            self.free@ = chain.drop_first();
        }
        proof {
            lemma_allocated(before, data);
            assert(self@.slots =~= before.allocated(data).slots);
            assert(self@.free =~= before.allocated(data).free);
            assert forall|j: int|
                0 <= j < self.free@.len() implies self.storage@[#[trigger] self.free@[j]]
                == Slot::<T>::Empty(link(self.free@, j)) by {
                assert(self.free@[j] == chain[j + 1]);
                assert(chain[j + 1] != chain[0]);
                assert(linked.storage@[chain[j + 1]] == Slot::<T>::Empty(
                    link(linked.free@, j + 1),
                ));
            }
        }
        index
    }

    /// The value in the slot with this index, for writing.
    pub fn data_mut(&mut self, index: usize) -> (r: &mut T)
        requires
            old(self).wf(),
            old(self)@.is_live(index as int),
        ensures
            final(self).wf(),
            *r == old(self)@.value(index as int),
            final(self)@ == old(self)@.written(index as int, *final(r)),
    {
        let ghost storage = self.storage@;
        let ghost empty = self.empty;
        let ghost free = self.free@;
        let r = self.storage[index].to_mut();
        proof {
            lemma_write(storage, empty, free, index as int, *final(r));
        }
        r
    }

    /// Takes the value out of the slot with this index and puts the slot at the head of
    /// the free list.
    pub fn free(&mut self, index: usize) -> (data: T)
        requires
            old(self).wf(),
            old(self)@.is_live(index as int),
        ensures
            final(self).wf(),
            data == old(self)@.value(index as int),
            final(self)@ == old(self)@.freed(index as int),
    {
        let ghost before = *self;
        let prev_empty = self.empty;
        self.empty = index;
        let data = self.storage[index].set_empty(prev_empty);
        proof {
            self.free@ = seq![index as int] + before.free@;
        }
        proof {
            lemma_freed(before@, index as int);
            assert(self@.slots =~= before@.freed(index as int).slots);
            assert forall|j: int|
                0 <= j < self.free@.len() implies self.storage@[#[trigger] self.free@[j]]
                == Slot::<T>::Empty(link(self.free@, j)) by {
                if j > 0 {
                    assert(self.free@[j] == before.free@[j - 1]);
                    assert(before.storage@[before.free@[j - 1]] == Slot::<T>::Empty(
                        link(before.free@, j - 1),
                    ));
                    assert(before@.slots[before.free@[j - 1]] is None);
                    if j + 1 < self.free@.len() {
                        assert(self.free@[j + 1] == before.free@[j]);
                    }
                } else {
                    if before.free@.len() > 0 {
                        assert(self.free@[1] == before.free@[0]);
                    }
                }
            }
        }
        data
    }
}

/// Whether values of `T` take no room at all.
pub open spec fn zero_sized<T>() -> bool {
    vstd::layout::size_of::<T>() == 0
}

/// The slab arena.
///
/// A value of a type that takes no room is given no slot: its handle keeps it, at no
/// cost, and has the index 0.
pub struct VecArena<T> {
    data: ArenaData<T>,
}

/// The owning handle to a value in a `VecArena`.
pub struct Boxed<T> {
    index: usize,
    unit: Option<Box<T>>,
}

/// The handle that owns nothing: the index of a slot in a `VecArena`, to be followed only
/// while a value lives there.
pub struct UnsafeBoxed<T> {
    index: usize,
    marker: PhantomData<T>,
}

impl<T> VecArena<T> {
    /// The slots and the free list.
    pub closed spec fn slab(&self) -> Slab<T> {
        self.data@
    }

    /// The free list is sound.
    pub closed spec fn wf(&self) -> bool {
        self.data.wf()
    }

    /// In a sound arena the free list holds every free slot once, and no other.
    pub proof fn lemma_sound(&self)
        requires
            self.wf(),
        ensures
            self.slab().wf(),
    {
    }

    /// An arena without slots.
    pub fn new() -> (arena: Self)
        ensures
            arena.wf(),
            arena.slab() == Slab::<T>::empty(),
    {
        VecArena { data: ArenaData::new() }
    }

    /// The number of slots, live and free.
    pub fn slots(&self) -> (n: usize)
        ensures
            n == self.slab().slots.len(),
    {
        self.data.slots()
    }

    /// Whether `boxed` leads to a value: it keeps the value itself, or a value lives in
    /// its slot.
    pub fn holds(&self, boxed: &Boxed<T>) -> (b: bool)
        ensures
            b == (boxed.unit() is Some || self.slab().is_live(boxed.index())),
    {
        boxed.unit.is_some() || self.data.is_live(boxed.index)
    }

    /// The value in the slot with this index.
    pub fn value(&self, index: usize) -> (r: &T)
        requires
            self.wf(),
            self.slab().is_live(index as int),
        ensures
            *r == self.slab().value(index as int),
    {
        self.data.slot(index).to_ref()
    }

    /// The value in the slot with this index, for writing.
    pub fn value_mut(&mut self, index: usize) -> (r: &mut T)
        requires
            old(self).wf(),
            old(self).slab().is_live(index as int),
        ensures
            *r == old(self).slab().value(index as int),
            final(self).wf(),
            final(self).slab() == old(self).slab().written(index as int, *final(r)),
    {
        self.data.data_mut(index)
    }

    /// Stores `value` in a slot, whatever room it takes: in the slot that the free list
    /// names, or in a new one where no slot is free.
    pub fn store(&mut self, value: T) -> (boxed: Boxed<T>)
        requires
            old(self).wf(),
        ensures
            final(self).wf(),
            boxed.index() == old(self).slab().next_index(),
            boxed.unit() is None,
            final(self).slab() == old(self).slab().allocated(value),
    {
        let index = self.data.allocate(value);
        Boxed { index, unit: None }
    }

    /// Whether a value lives in the slot with this index.
    pub fn is_live(&self, index: usize) -> (live: bool)
        ensures
            live == self.slab().is_live(index as int),
    {
        self.data.is_live(index)
    }
}

impl<T> Default for VecArena<T> {
    fn default() -> (arena: Self)
        ensures
            arena.wf(),
            arena.slab() == Slab::<T>::empty(),
    {
        VecArena::new()
    }
}

impl<T> arena::Arena<T, Boxed<T>> for VecArena<T> {
    open spec fn wf(&self) -> bool {
        VecArena::wf(self)
    }

    /// A value that takes room goes into the slot that the free list names, or into a
    /// new one where no slot is free; one that takes none stays with its handle.
    fn allocate(&mut self, value: T) -> (boxed: Boxed<T>)
        ensures
            zero_sized::<T>() ==> boxed.index() == 0 && boxed.unit() == Some(value) && final(
                self
            ).slab() == old(self).slab(),
            !zero_sized::<T>() ==> boxed.index() == old(self).slab().next_index() && boxed.unit()
                is None && final(self).slab() == old(self).slab().allocated(value),
    {
        proof {
            lemma_allocated(self.slab(), value);
            assert forall|other: Boxed<T>| #[trigger]
                arena::Boxed::held(&other, self) && other.unit() is None implies other.index()
                != self.slab().next_index() by {
                if other.index() == self.slab().next_index() {
                    assert(self.slab().is_live(other.index()));
                }
            }
        }
        if core::mem::size_of::<T>() == 0 {
            Boxed { index: 0, unit: Some(Box::new(value)) }
        } else {
            self.store(value)
        }
    }
}

impl<T> Boxed<T> {
    /// The index of the slot that the handle leads to.
    pub closed spec fn index(&self) -> int {
        self.index as int
    }

    /// The value that the handle keeps itself, which it does for a value that takes no
    /// room.
    pub closed spec fn unit(&self) -> Option<T> {
        match self.unit {
            Some(unit) => Some(*unit),
            None => None,
        }
    }

    /// The index of the slot that the handle leads to.
    pub fn slot(&self) -> (index: usize)
        ensures
            index == self.index(),
    {
        self.index
    }

    /// A handle to the same slot that owns nothing.
    pub fn to_unsafe(boxed: &mut Self) -> (raw: UnsafeBoxed<T>)
        ensures
            *final(boxed) == *old(boxed),
            raw.index() == old(boxed).index(),
    {
        UnsafeBoxed { index: boxed.index, marker: PhantomData }
    }
}

impl<T> arena::Boxed<T> for Boxed<T> {
    type Arena = VecArena<T>;

    open spec fn cell(&self) -> Set<int> {
        if self.unit() is Some {
            Set::empty()
        } else {
            set![self.index()]
        }
    }

    open spec fn held(&self, arena: &VecArena<T>) -> bool {
        arena.wf() && (self.unit() is Some || arena.slab().is_live(self.index()))
    }

    open spec fn value(&self, arena: &VecArena<T>) -> T {
        match self.unit() {
            Some(unit) => unit,
            None => arena.slab().value(self.index()),
        }
    }

    fn get<'a>(&'a self, arena: &'a VecArena<T>) -> (r: &'a T) {
        match &self.unit {
            Some(unit) => &**unit,
            None => arena.value(self.index),
        }
    }

    /// The handle stays where it is; the value of a slot is written in the arena.
    fn get_mut<'a>(&'a mut self, arena: &'a mut VecArena<T>) -> (r: &'a mut T)
        ensures
            final(self).index() == old(self).index(),
            old(self).unit() is Some ==> final(self).unit() == Some(*final(r)) && *final(arena)
                == *old(arena),
            old(self).unit() is None ==> final(self).unit() is None && final(arena).slab()
                == old(arena).slab().written(old(self).index(), *final(r)),
    {
        let index = self.index;
        proof {
            let slab = arena.slab();
            if self.unit is None {
                assert forall|value: T, i: int| #[trigger]
                    slab.written(index as int, value).is_live(i) == slab.is_live(i) by {
                    lemma_written(slab, index as int, value);
                }
                assert forall|value: T, i: int|
                    i != index && slab.is_live(i) implies #[trigger] slab.written(
                        index as int,
                        value,
                    ).value(i) == slab.value(i) by {
                    lemma_written(slab, index as int, value);
                }
                assert forall|other: Self| #[trigger]
                    other.cell().disjoint(self.cell()) && other.unit() is None
                        implies other.index() != index by {
                    assert(self.cell().contains(index as int));
                    assert(other.cell().contains(other.index()));
                }
            }
        }
        match &mut self.unit {
            Some(unit) => &mut **unit,
            None => arena.value_mut(index),
        }
    }

    /// The slot of a value that takes room becomes the head of the free list.
    fn unbox(boxed: Self, arena: &mut VecArena<T>) -> (value: T)
        ensures
            final(arena).wf(),
            boxed.unit() is Some ==> *final(arena) == *old(arena),
            boxed.unit() is None ==> final(arena).slab() == old(arena).slab().freed(boxed.index()),
    {
        proof {
            if boxed.unit is None {
                lemma_freed(arena.slab(), boxed.index());
                assert forall|other: Self| #[trigger]
                    other.cell().disjoint(boxed.cell()) && other.unit() is None
                        implies other.index() != boxed.index() by {
                    assert(boxed.cell().contains(boxed.index()));
                    assert(other.cell().contains(other.index()));
                }
            }
        }
        match boxed.unit {
            Some(unit) => *unit,
            None => arena.data.free(boxed.index),
        }
    }
}

impl<T> UnsafeBoxed<T> {
    /// The index of the slot that the handle names.
    pub closed spec fn index(&self) -> int {
        self.index as int
    }

    /// The index of the slot that the handle names.
    pub fn slot(&self) -> (index: usize)
        ensures
            index == self.index(),
    {
        self.index
    }
}

impl<T> Clone for UnsafeBoxed<T> {
    fn clone(&self) -> (raw: Self)
        ensures
            raw == *self,
    {
        UnsafeBoxed { index: self.index, marker: PhantomData }
    }
}

impl<T> Copy for UnsafeBoxed<T> {

}

impl<T> arena::UnsafeBoxed<T> for UnsafeBoxed<T> {
    type Arena = VecArena<T>;

    open spec fn held(&self, arena: &VecArena<T>) -> bool {
        arena.wf() && arena.slab().is_live(self.index())
    }

    open spec fn value(&self, arena: &VecArena<T>) -> T {
        arena.slab().value(self.index())
    }

    fn get<'a>(&'a self, arena: &'a VecArena<T>) -> (r: &'a T) {
        arena.value(self.index)
    }

    fn get_mut<'a>(&'a mut self, arena: &'a mut VecArena<T>) -> (r: &'a mut T)
        ensures
            final(arena).slab() == old(arena).slab().written(old(self).index(), *final(r)),
    {
        arena.value_mut(self.index)
    }
}

} // verus!
