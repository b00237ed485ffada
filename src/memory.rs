use vstd::prelude::*;

verus! {

/// A backend that allocates values on the heap and hands out opaque handles
/// to them.
///
/// A handle is a nonzero `usize`; `0` is the null handle and never refers to
/// an allocation.
pub trait Memory<T>: Sized {
    /// The live allocations: each handle with the value it holds.
    spec fn allocated(&self) -> Map<usize, T>;

    /// Takes ownership of `value` and returns a fresh, nonnull handle to it.
    fn allocate(&mut self, value: T) -> (pointer: usize)
        ensures
            pointer != 0,
            !old(self).allocated().contains_key(pointer),
            final(self).allocated() == old(self).allocated().insert(pointer, value),
    ;

    /// Reclaims the storage behind a live, nonnull handle.
    fn deallocate(&mut self, pointer: usize)
        requires
            pointer != 0,
            old(self).allocated().contains_key(pointer),
        ensures
            final(self).allocated() == old(self).allocated().remove(pointer),
    ;

    /// Whether `pointer` refers to a live allocation.
    fn is_allocated(&self, pointer: usize) -> (r: bool)
        ensures
            r == self.allocated().contains_key(pointer),
    ;
}

/// A backend that keeps each value in its own `Box`.
///
/// Handles are never reused: the `n`-th allocation gets handle `n`.
#[derive(Debug)]
pub struct BoxMemory<T> {
    boxes: Vec<Option<Box<T>>>,
}

impl<T> BoxMemory<T> {
    /// An empty backend with no live allocations.
    pub fn new() -> (r: Self)
        ensures
            r.allocated() == Map::<usize, T>::empty(),
    {
        let r = BoxMemory { boxes: Vec::new() };
        assert(r.allocated() =~= Map::<usize, T>::empty());
        r
    }
}

impl<T> Memory<T> for BoxMemory<T> {
    closed spec fn allocated(&self) -> Map<usize, T> {
        Map::new(
            |h: usize| 1 <= h <= self.boxes@.len() && self.boxes@[h - 1] is Some,
            |h: usize| *self.boxes@[h - 1]->Some_0,
        )
    }

    fn allocate(&mut self, value: T) -> (pointer: usize) {
        let ghost before = self.allocated();
        self.boxes.push(Some(Box::new(value)));
        let pointer = self.boxes.len();
        assert(self.allocated() =~= before.insert(pointer, value));
        pointer
    }

    fn deallocate(&mut self, pointer: usize) {
        let ghost before = self.allocated();
        self.boxes.set(pointer - 1, None);
        assert(self.allocated() =~= before.remove(pointer));
    }

    fn is_allocated(&self, pointer: usize) -> (r: bool) {
        1 <= pointer && pointer <= self.boxes.len() && self.boxes[pointer - 1].is_some()
    }
}

/// A backend that keeps each value in a one-element `Vec` of its own.
///
/// Handles are never reused: the `n`-th allocation gets handle `n`.
#[derive(Debug)]
pub struct VecMemory<T> {
    cells: Vec<Vec<T>>,
}

impl<T> VecMemory<T> {
    /// An empty backend with no live allocations.
    pub fn new() -> (r: Self)
        ensures
            r.allocated() == Map::<usize, T>::empty(),
    {
        let r = VecMemory { cells: Vec::new() };
        assert(r.allocated() =~= Map::<usize, T>::empty());
        r
    }
}

impl<T> Memory<T> for VecMemory<T> {
    closed spec fn allocated(&self) -> Map<usize, T> {
        Map::new(
            |h: usize| 1 <= h <= self.cells@.len() && self.cells@[h - 1]@.len() == 1,
            |h: usize| self.cells@[h - 1]@[0],
        )
    }

    fn allocate(&mut self, value: T) -> (pointer: usize) {
        let ghost before = self.allocated();
        let mut cell: Vec<T> = Vec::with_capacity(1);
        cell.push(value);
        self.cells.push(cell);
        let pointer = self.cells.len();
        assert(self.allocated() =~= before.insert(pointer, value));
        pointer
    }

    fn deallocate(&mut self, pointer: usize) {
        let ghost before = self.allocated();
        self.cells.set(pointer - 1, Vec::new());
        assert(self.allocated() =~= before.remove(pointer));
    }

    fn is_allocated(&self, pointer: usize) -> (r: bool) {
        1 <= pointer && pointer <= self.cells.len() && self.cells[pointer - 1].len() == 1
    }
}

} // verus!
