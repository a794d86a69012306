//! The mathematical model of a slab: a row of slots, each holding a value or being free,
//! and the list of the free ones.

use vstd::prelude::*;

verus! {

/// A slab as the contracts of the arena see it.
pub struct Slab<T> {
    /// One entry for each slot: the value that lives there, or `None` for a free slot.
    pub slots: Seq<Option<T>>,
    /// The indices of the free slots, the one that is handed out next first.
    pub free: Seq<int>,
}

impl<T> Slab<T> {
    /// The slab without any slot.
    pub open spec fn empty() -> Slab<T> {
        Slab { slots: Seq::empty(), free: Seq::empty() }
    }

    /// Whether a value lives in slot `index`.
    pub open spec fn is_live(self, index: int) -> bool {
        0 <= index < self.slots.len() && self.slots[index] is Some
    }

    /// The value that lives in slot `index`.
    pub open spec fn value(self, index: int) -> T
        recommends
            self.is_live(index),
    {
        self.slots[index].unwrap()
    }

    /// The indices of the slots in which a value lives.
    pub open spec fn live(self) -> Set<int> {
        Set::new(|i: int| self.is_live(i))
    }

    /// The free list holds every free slot once, and no other.
    pub open spec fn wf(self) -> bool {
        &&& self.free.no_duplicates()
        &&& forall|j: int|
            0 <= j < self.free.len() ==> 0 <= #[trigger] self.free[j] < self.slots.len()
                && self.slots[self.free[j]] is None
        &&& forall|i: int|
            0 <= i < self.slots.len() && self.slots[i] is None ==> #[trigger] self.free.contains(i)
    }

    /// The slot that the next allocation fills: the head of the free list, or a new slot
    /// at the end where no slot is free.
    pub open spec fn next_index(self) -> int {
        if self.free.len() > 0 {
            self.free[0]
        } else {
            self.slots.len() as int
        }
    }

    /// The slab after `value` has been allocated.
    pub open spec fn allocated(self, value: T) -> Slab<T> {
        if self.free.len() > 0 {
            Slab {
                slots: self.slots.update(self.free[0], Some(value)),
                free: self.free.drop_first(),
            }
        } else {
            Slab { slots: self.slots.push(Some(value)), free: self.free }
        }
    }

    /// The slab after slot `index` has been released: the slot becomes the head of the
    /// free list.
    pub open spec fn freed(self, index: int) -> Slab<T>
        recommends
            self.is_live(index),
    {
        Slab { slots: self.slots.update(index, None), free: seq![index] + self.free }
    }

    /// The slab after `value` has been written over the value in slot `index`.
    pub open spec fn written(self, index: int, value: T) -> Slab<T>
        recommends
            self.is_live(index),
    {
        Slab { slots: self.slots.update(index, Some(value)), free: self.free }
    }

    /// The slab after the slots `indices` have been released, one after the other.
    pub open spec fn freed_all(self, indices: Seq<int>) -> Slab<T>
        decreases indices.len(),
    {
        if indices.len() == 0 {
            self
        } else {
            self.freed_all(indices.drop_last()).freed(indices.last())
        }
    }

    /// The slab after `values` have been allocated, one after the other.
    pub open spec fn allocated_all(self, values: Seq<T>) -> Slab<T>
        decreases values.len(),
    {
        if values.len() == 0 {
            self
        } else {
            self.allocated_all(values.drop_last()).allocated(values.last())
        }
    }
}

/// One step in the life of a slab.
pub enum Op<T> {
    /// A value is allocated.
    Alloc(T),
    /// The slot with this index is released.
    Free(int),
}

impl<T> Slab<T> {
    /// The slab after one operation.
    pub open spec fn step(self, op: Op<T>) -> Slab<T> {
        match op {
            Op::Alloc(value) => self.allocated(value),
            Op::Free(index) => self.freed(index),
        }
    }

    /// The slab after `ops`, carried out from first to last.
    pub open spec fn run(self, ops: Seq<Op<T>>) -> Slab<T>
        decreases ops.len(),
    {
        if ops.len() == 0 {
            self
        } else {
            self.run(ops.drop_last()).step(ops.last())
        }
    }

    /// Whether `ops` is a history that can happen: every release names a slot in which a
    /// value lives at that moment.
    pub open spec fn admits(self, ops: Seq<Op<T>>) -> bool
        decreases ops.len(),
    {
        if ops.len() == 0 {
            true
        } else {
            &&& self.admits(ops.drop_last())
            &&& match ops.last() {
                Op::Alloc(_) => true,
                Op::Free(index) => self.run(ops.drop_last()).is_live(index),
            }
        }
    }
}

impl<T> Slab<T> {
    /// The indices of the handles that are out after `ops`: each allocation gives out the
    /// handle of the slot that it fills, and each release takes the handle of its slot
    /// back.
    pub open spec fn handles(self, ops: Seq<Op<T>>) -> Set<int>
        decreases ops.len(),
    {
        if ops.len() == 0 {
            self.live()
        } else {
            match ops.last() {
                Op::Alloc(_) => self.handles(ops.drop_last()).insert(
                    self.run(ops.drop_last()).next_index(),
                ),
                Op::Free(index) => self.handles(ops.drop_last()).remove(index),
            }
        }
    }
}

/// The number of allocations in `ops`.
pub open spec fn allocs<T>(ops: Seq<Op<T>>) -> nat
    decreases ops.len(),
{
    if ops.len() == 0 {
        0
    } else {
        allocs(ops.drop_last()) + if ops.last() is Alloc {
            1nat
        } else {
            0nat
        }
    }
}

/// The number of releases in `ops`.
pub open spec fn frees<T>(ops: Seq<Op<T>>) -> nat
    decreases ops.len(),
{
    if ops.len() == 0 {
        0
    } else {
        frees(ops.drop_last()) + if ops.last() is Free {
            1nat
        } else {
            0nat
        }
    }
}

/// Every slot is live or free, and none is both: the live slots and the free list
/// together are as many as the slots.
pub proof fn lemma_count<T>(s: Slab<T>)
    requires
        s.wf(),
    ensures
        s.live().finite(),
        s.live().len() + s.free.len() == s.slots.len(),
    decreases s.slots.len(),
{
    if s.slots.len() == 0 {
        assert(s.live() =~= Set::empty());
        if s.free.len() > 0 {
            assert(0 <= s.free[0] < s.slots.len());
        }
    } else {
        let last = s.slots.len() - 1;
        if s.slots[last] is Some {
            let t = Slab { slots: s.slots.drop_last(), free: s.free };
            assert forall|i: int| 0 <= i < t.slots.len() && t.slots[i] is None implies #[trigger]
                t.free.contains(i) by {
                assert(s.slots[i] is None);
            }
            assert(t.wf());
            lemma_count(t);
            assert(s.live() =~= t.live().insert(last));
        } else {
            assert(s.free.contains(last));
            let j = choose|j: int| 0 <= j < s.free.len() && s.free[j] == last;
            let rest = s.free.remove(j);
            let t = Slab { slots: s.slots.drop_last(), free: rest };
            assert forall|a: int, b: int|
                0 <= a < rest.len() && 0 <= b < rest.len() && a != b implies rest[a] != rest[b] by {
                let a0 = if a < j { a } else { a + 1 };
                let b0 = if b < j { b } else { b + 1 };
                assert(rest[a] == s.free[a0]);
                assert(rest[b] == s.free[b0]);
            }
            assert forall|k: int| 0 <= k < rest.len() implies 0 <= #[trigger] rest[k]
                < t.slots.len() && t.slots[rest[k]] is None by {
                let k0 = if k < j { k } else { k + 1 };
                assert(rest[k] == s.free[k0]);
                assert(s.free[k0] != s.free[j]);
            }
            assert forall|i: int| 0 <= i < t.slots.len() && t.slots[i] is None implies #[trigger]
                rest.contains(i) by {
                assert(s.free.contains(i));
                let k0 = choose|k0: int| 0 <= k0 < s.free.len() && s.free[k0] == i;
                let k = if k0 < j { k0 } else { k0 - 1 };
                assert(rest[k] == i);
            }
            assert(t.wf());
            lemma_count(t);
            assert(s.live() =~= t.live());
        }
    }
}

/// An allocation fills a slot in which nothing lived, with the value given, and touches
/// no other slot. It takes a free slot where there is one, and only else a new one.
pub proof fn lemma_allocated<T>(s: Slab<T>, value: T)
    requires
        s.wf(),
    ensures
        s.allocated(value).wf(),
        !s.is_live(s.next_index()),
        s.allocated(value).is_live(s.next_index()),
        s.allocated(value).value(s.next_index()) == value,
        forall|i: int|
            i != s.next_index() ==> #[trigger] s.allocated(value).is_live(i) == s.is_live(i),
        forall|i: int|
            i != s.next_index() && s.is_live(i) ==> #[trigger] s.allocated(value).value(i)
                == s.value(i),
        s.allocated(value).live() == s.live().insert(s.next_index()),
        s.allocated(value).slots.len() == if s.free.len() > 0 {
            s.slots.len()
        } else {
            s.slots.len() + 1
        },
        s.allocated(value).free.len() == if s.free.len() > 0 {
            s.free.len() - 1
        } else {
            0
        },
{
    let t = s.allocated(value);
    let next = s.next_index();
    if s.free.len() > 0 {
        assert(0 <= s.free[0] < s.slots.len());
        assert forall|j: int| 0 <= j < t.free.len() implies 0 <= #[trigger] t.free[j]
            < t.slots.len() && t.slots[t.free[j]] is None by {
            assert(t.free[j] == s.free[j + 1]);
        }
        assert forall|i: int| 0 <= i < t.slots.len() && t.slots[i] is None implies #[trigger]
            t.free.contains(i) by {
            assert(s.free.contains(i));
            let j = choose|j: int| 0 <= j < s.free.len() && s.free[j] == i;
            assert(t.free[j - 1] == i);
        }
        assert forall|a: int, b: int|
            0 <= a < t.free.len() && 0 <= b < t.free.len() && a != b implies t.free[a]
            != t.free[b] by {
            assert(t.free[a] == s.free[a + 1]);
            assert(t.free[b] == s.free[b + 1]);
        }
    } else {
        assert forall|i: int| 0 <= i < t.slots.len() && t.slots[i] is None implies #[trigger]
            t.free.contains(i) by {
            assert(s.slots[i] is None);
        }
    }
    assert(t.live() =~= s.live().insert(next));
}

/// A release empties the slot that it names and touches no other slot; the slab keeps
/// its length.
pub proof fn lemma_freed<T>(s: Slab<T>, index: int)
    requires
        s.wf(),
        s.is_live(index),
    ensures
        s.freed(index).wf(),
        !s.freed(index).is_live(index),
        forall|i: int| i != index ==> #[trigger] s.freed(index).is_live(i) == s.is_live(i),
        forall|i: int|
            i != index && s.is_live(i) ==> #[trigger] s.freed(index).value(i) == s.value(i),
        s.freed(index).live() == s.live().remove(index),
        s.freed(index).slots.len() == s.slots.len(),
        s.freed(index).free.len() == s.free.len() + 1,
        s.freed(index).next_index() == index,
{
    let t = s.freed(index);
    assert forall|j: int| 0 <= j < t.free.len() implies 0 <= #[trigger] t.free[j] < t.slots.len()
        && t.slots[t.free[j]] is None by {
        if j > 0 {
            assert(t.free[j] == s.free[j - 1]);
        }
    }
    assert forall|i: int| 0 <= i < t.slots.len() && t.slots[i] is None implies #[trigger]
        t.free.contains(i) by {
        if i == index {
            assert(t.free[0] == i);
        } else {
            assert(s.free.contains(i));
            let j = choose|j: int| 0 <= j < s.free.len() && s.free[j] == i;
            assert(t.free[j + 1] == i);
        }
    }
    assert forall|a: int, b: int|
        0 <= a < t.free.len() && 0 <= b < t.free.len() && a != b implies t.free[a] != t.free[b] by {
        if a > 0 {
            assert(t.free[a] == s.free[a - 1]);
        }
        if b > 0 {
            assert(t.free[b] == s.free[b - 1]);
        }
    }
    assert(t.live() =~= s.live().remove(index));
}

/// A write changes the value of the slot that it names and nothing else.
pub proof fn lemma_written<T>(s: Slab<T>, index: int, value: T)
    requires
        s.wf(),
        s.is_live(index),
    ensures
        s.written(index, value).wf(),
        s.written(index, value).is_live(index),
        s.written(index, value).value(index) == value,
        forall|i: int| #[trigger] s.written(index, value).is_live(i) == s.is_live(i),
        forall|i: int|
            i != index && s.is_live(i) ==> #[trigger] s.written(index, value).value(i) == s.value(
                i,
            ),
        s.written(index, value).live() == s.live(),
{
    let t = s.written(index, value);
    assert forall|i: int| 0 <= i < t.slots.len() && t.slots[i] is None implies #[trigger]
        t.free.contains(i) by {
        assert(s.slots[i] is None);
    }
    assert forall|j: int| 0 <= j < t.free.len() implies 0 <= #[trigger] t.free[j] < t.slots.len()
        && t.slots[t.free[j]] is None by {
        assert(s.slots[s.free[j]] is None);
    }
    assert(t.live() =~= s.live());
}

/// Whatever has been allocated and released since the slab was empty, the handles that
/// are out are those of the slots in which a value lives, and they are as many as
/// allocations have not been matched by a release. The handle that the next allocation
/// gives out is none of them: no two handles that are out at one time share a slot.
pub proof fn lemma_live_count<T>(ops: Seq<Op<T>>)
    requires
        Slab::<T>::empty().admits(ops),
    ensures
        Slab::<T>::empty().run(ops).wf(),
        Slab::<T>::empty().handles(ops) == Slab::<T>::empty().run(ops).live(),
        Slab::<T>::empty().handles(ops).finite(),
        Slab::<T>::empty().handles(ops).len() == allocs(ops) - frees(ops),
        !Slab::<T>::empty().handles(ops).contains(Slab::<T>::empty().run(ops).next_index()),
    decreases ops.len(),
{
    let start = Slab::<T>::empty();
    if ops.len() == 0 {
        assert(start.live() =~= Set::empty());
    } else {
        let before = start.run(ops.drop_last());
        lemma_live_count(ops.drop_last());
        match ops.last() {
            Op::Alloc(value) => {
                lemma_allocated(before, value);
            },
            Op::Free(index) => {
                lemma_freed(before, index);
            },
        }
    }
    let after = start.run(ops);
    if after.free.len() > 0 {
        assert(after.slots[after.free[0]] is None);
    }
}

/// Releasing slots keeps the slab's length and puts each of them on the free list.
pub proof fn lemma_freed_all<T>(s: Slab<T>, indices: Seq<int>)
    requires
        s.wf(),
        indices.no_duplicates(),
        forall|j: int| 0 <= j < indices.len() ==> s.is_live(#[trigger] indices[j]),
    ensures
        s.freed_all(indices).wf(),
        s.freed_all(indices).slots.len() == s.slots.len(),
        s.freed_all(indices).free.len() == s.free.len() + indices.len(),
        forall|i: int|
            !indices.contains(i) ==> #[trigger] s.freed_all(indices).is_live(i) == s.is_live(i),
    decreases indices.len(),
{
    if indices.len() > 0 {
        let front = indices.drop_last();
        let last = indices.last();
        assert forall|j: int| 0 <= j < front.len() implies s.is_live(#[trigger] front[j]) by {
            assert(front[j] == indices[j]);
        }
        assert(front.no_duplicates());
        lemma_freed_all(s, front);
        let mid = s.freed_all(front);
        assert(!front.contains(last)) by {
            if front.contains(last) {
                let j = choose|j: int| 0 <= j < front.len() && front[j] == last;
                assert(indices[j] == indices[indices.len() - 1]);
            }
        }
        assert(s.is_live(indices[indices.len() - 1]));
        assert(mid.is_live(last));
        lemma_freed(mid, last);
        assert forall|i: int| !indices.contains(i) implies #[trigger] s.freed_all(indices).is_live(
            i,
        ) == s.is_live(i) by {
            if front.contains(i) {
                let j = choose|j: int| 0 <= j < front.len() && front[j] == i;
                assert(indices[j] == i);
            }
            assert(indices[indices.len() - 1] == last);
        }
    }
}

/// Allocating no more values than slots are free takes no new slot.
pub proof fn lemma_allocated_all<T>(s: Slab<T>, values: Seq<T>)
    requires
        s.wf(),
        values.len() <= s.free.len(),
    ensures
        s.allocated_all(values).wf(),
        s.allocated_all(values).slots.len() == s.slots.len(),
        s.allocated_all(values).free.len() == s.free.len() - values.len(),
    decreases values.len(),
{
    if values.len() > 0 {
        lemma_allocated_all(s, values.drop_last());
        lemma_allocated(s.allocated_all(values.drop_last()), values.last());
    }
}

/// Slots are used again: after some slots have been released and as many values
/// allocated, the slab has as many slots as before.
pub proof fn lemma_slot_reuse<T>(s: Slab<T>, indices: Seq<int>, values: Seq<T>)
    requires
        s.wf(),
        indices.no_duplicates(),
        forall|j: int| 0 <= j < indices.len() ==> s.is_live(#[trigger] indices[j]),
        values.len() == indices.len(),
    ensures
        s.freed_all(indices).allocated_all(values).slots.len() == s.slots.len(),
{
    lemma_freed_all(s, indices);
    lemma_allocated_all(s.freed_all(indices), values);
}

} // verus!
