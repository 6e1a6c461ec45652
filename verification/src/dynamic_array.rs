use vstd::prelude::*;

verus! {

/// A growable array that never holds more than `CAPACITY` elements.
pub struct DynamicArray<T, const CAPACITY: usize> {
    array: Vec<T>,
}

impl<T, const CAPACITY: usize> View for DynamicArray<T, CAPACITY> {
    type V = Seq<T>;

    closed spec fn view(&self) -> Seq<T> {
        self.array@
    }
}

impl<T, const CAPACITY: usize> DynamicArray<T, CAPACITY> {
    /// The elements never outnumber the capacity.
    pub closed spec fn wf(&self) -> bool {
        self.array@.len() <= CAPACITY
    }

    /// An empty array.
    pub fn new() -> (r: Self)
        ensures
            r.wf(),
            r@ == Seq::<T>::empty(),
    {
        DynamicArray { array: Vec::new() }
    }

    /// The number of elements.
    pub fn len(&self) -> (r: usize)
        ensures
            r == self@.len(),
    {
        self.array.len()
    }

    /// Appends `value`; the array must not be full.
    pub fn push(&mut self, value: T)
        requires
            old(self).wf(),
            old(self)@.len() < CAPACITY,
        ensures
            final(self).wf(),
            final(self)@ == old(self)@.push(value),
    {
        self.array.push(value);
    }

    /// Drops every element.
    pub fn clear(&mut self)
        ensures
            final(self).wf(),
            final(self)@ == Seq::<T>::empty(),
    {
        self.array.clear();
    }

    /// The last element; the array must not be empty.
    pub fn back(&self) -> (r: &T)
        requires
            self@.len() > 0,
        ensures
            *r == self@.last(),
    {
        let n = self.array.len();
        &self.array[n - 1]
    }

    /// The last element, writable; the array must not be empty.
    pub fn back_mut(&mut self) -> (r: &mut T)
        requires
            old(self).wf(),
            old(self)@.len() > 0,
        ensures
            *r == old(self)@.last(),
            final(self).wf(),
            final(self)@ == old(self)@.update(old(self)@.len() - 1, *final(r)),
    {
        let n = self.array.len();
        &mut self.array[n - 1]
    }

    /// All elements, in order.
    pub fn as_slice(&self) -> (r: &[T])
        ensures
            r@ == self@,
    {
        self.array.as_slice()
    }

    /// The element at `index`, which must be below the length.
    pub fn index(&self, index: usize) -> (r: &T)
        requires
            index < self@.len(),
        ensures
            *r == self@[index as int],
    {
        &self.array[index]
    }

    /// The element at `index`, writable; `index` must be below the length.
    pub fn index_mut(&mut self, index: usize) -> (r: &mut T)
        requires
            old(self).wf(),
            index < old(self)@.len(),
        ensures
            *r == old(self)@[index as int],
            final(self).wf(),
            final(self)@ == old(self)@.update(index as int, *final(r)),
    {
        &mut self.array[index]
    }
}

impl<T: Copy, const CAPACITY: usize> DynamicArray<T, CAPACITY> {
    /// Sets the length to `new_length`, filling new positions with `value`;
    /// `new_length` must stay strictly below the capacity.
    pub fn resize(&mut self, new_length: usize, value: T)
        requires
            old(self).wf(),
            new_length < CAPACITY,
        ensures
            final(self).wf(),
            final(self)@.len() == new_length,
            forall|i: int|
                0 <= i < new_length ==> #[trigger] final(self)@[i] == if i < old(self)@.len() {
                    old(self)@[i]
                } else {
                    value
                },
    {
        if new_length <= self.array.len() {
            self.array.truncate(new_length);
        } else {
            let ghost start = self.array@;
            while self.array.len() < new_length
                invariant
                    start.len() <= self.array@.len() <= new_length,
                    forall|i: int|
                        0 <= i < self.array@.len() ==> #[trigger] self.array@[i] == if i
                            < start.len() {
                            start[i]
                        } else {
                            value
                        },
                decreases new_length - self.array@.len(),
            {
                self.array.push(value);
            }
        }
    }

    /// An array holding a copy of `slice`, which must be shorter than the
    /// capacity.
    pub fn from_slice(slice: &[T]) -> (r: Self)
        requires
            slice@.len() < CAPACITY,
        ensures
            r.wf(),
            r@ == slice@,
    {
        let mut array: Vec<T> = Vec::new();
        let mut i: usize = 0;
        while i < slice.len()
            invariant
                i <= slice@.len(),
                array@ == slice@.subrange(0, i as int),
            decreases slice@.len() - i,
        {
            array.push(slice[i]);
            i = i + 1;
        }
        assert(array@ =~= slice@);
        DynamicArray { array }
    }
}

impl<T, const CAPACITY: usize> Default for DynamicArray<T, CAPACITY> {
    fn default() -> (r: Self)
        ensures
            r.wf(),
            r@ == Seq::<T>::empty(),
    {
        Self::new()
    }
}

} // verus!
