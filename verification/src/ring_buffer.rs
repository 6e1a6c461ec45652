use vstd::prelude::*;
use crate::dynamic_array::DynamicArray;

verus! {

/// The allocation state of a ring buffer that hands out ranges of a mapped
/// memory block of `buffer_size` bytes, frame after frame, remembering where
/// each of the last frames started.
pub struct RingBuffer {
    buffer_size: usize,
    cursor: usize,
    i_frame: usize,
    start_per_frame: DynamicArray<Option<usize>, 8>,
}

/// The smallest multiple of `alignment` that is at least `cursor`.
pub open spec fn aligned_cursor(cursor: int, alignment: int) -> int {
    if cursor % alignment == 0 {
        cursor
    } else {
        cursor + (alignment - cursor % alignment)
    }
}

impl RingBuffer {
    pub closed spec fn spec_buffer_size(&self) -> usize {
        self.buffer_size
    }

    pub closed spec fn spec_cursor(&self) -> usize {
        self.cursor
    }

    pub closed spec fn spec_i_frame(&self) -> usize {
        self.i_frame
    }

    /// Where each slot of the frame queue started, if it did.
    pub closed spec fn frame_starts(&self) -> Seq<Option<usize>> {
        self.start_per_frame@
    }

    pub closed spec fn wf(&self) -> bool {
        self.start_per_frame.wf()
    }

    /// The offset an allocation of `size` bytes aligned to `alignment` gets:
    /// the aligned cursor, or the start of the buffer when the allocation
    /// would run past its end.
    pub open spec fn allocation_offset(&self, size: usize, alignment: usize) -> int {
        let aligned = aligned_cursor(self.spec_cursor() as int, alignment as int);
        if aligned + size > self.spec_buffer_size() {
            0
        } else {
            aligned
        }
    }

    /// The frame-queue slot of the frame before the current one.
    pub open spec fn previous_frame_slot(&self) -> int {
        let n = self.frame_starts().len() as int;
        (self.spec_i_frame() + n - 1) % n
    }

    /// Whether an allocation of `size` bytes aligned to `alignment` can be
    /// served: the alignment is not zero, the range fits in the buffer and
    /// in a `u32` offset, and it does not run over the place where the
    /// previous frame started.
    pub open spec fn can_allocate(&self, size: usize, alignment: usize) -> bool {
        let n = self.frame_starts().len() as int;
        let offset = self.allocation_offset(size, alignment);
        &&& alignment > 0
        &&& self.spec_cursor() + alignment <= usize::MAX
        &&& n > 0
        &&& self.spec_i_frame() + n <= usize::MAX
        &&& size <= self.spec_buffer_size()
        &&& offset < u32::MAX
        &&& match self.frame_starts()[self.previous_frame_slot()] {
            Some(start) => !(offset < start && offset + size > start),
            None => true,
        }
    }

    /// A ring buffer over `buffer_size` bytes with a queue of
    /// `frame_queue_length` frames, none of them started.
    pub fn new(buffer_size: usize, frame_queue_length: usize) -> (r: Self)
        requires
            frame_queue_length < 8,
        ensures
            r.wf(),
            r.spec_buffer_size() == buffer_size,
            r.spec_cursor() == 0,
            r.spec_i_frame() == 0,
            r.frame_starts() == Seq::new(frame_queue_length as nat, |i: int| None::<usize>),
    {
        let mut start_per_frame = DynamicArray::<Option<usize>, 8>::new();
        start_per_frame.resize(frame_queue_length, None);
        let r = RingBuffer { buffer_size, cursor: 0, i_frame: 0, start_per_frame };
        assert(r.frame_starts() =~= Seq::new(frame_queue_length as nat, |i: int| None::<usize>));
        r
    }

    pub fn buffer_size(&self) -> (r: usize)
        ensures
            r == self.spec_buffer_size(),
    {
        self.buffer_size
    }

    /// Starts a new frame, which begins where the cursor stands.
    pub fn start_frame(&mut self)
        requires
            old(self).wf(),
            old(self).spec_i_frame() < usize::MAX,
            old(self).frame_starts().len() > 0,
        ensures
            final(self).wf(),
            final(self).spec_i_frame() == old(self).spec_i_frame() + 1,
            final(self).frame_starts() == old(self).frame_starts().update(
                (final(self).spec_i_frame() as int) % (old(self).frame_starts().len() as int),
                Some(old(self).spec_cursor()),
            ),
            final(self).spec_cursor() == old(self).spec_cursor(),
            final(self).spec_buffer_size() == old(self).spec_buffer_size(),
    {
        self.i_frame += 1;
        let i_start = self.i_frame % self.start_per_frame.len();
        *self.start_per_frame.index_mut(i_start) = Some(self.cursor);
    }

    /// Whether `allocate(size, alignment)` can be served.
    pub fn fits(&self, size: usize, alignment: usize) -> (r: bool)
        requires
            self.wf(),
        ensures
            r == self.can_allocate(size, alignment),
    {
        if alignment == 0 || self.cursor > usize::MAX - alignment {
            return false;
        }
        let frame_size = self.start_per_frame.len();
        if frame_size == 0 || self.i_frame > usize::MAX - frame_size || size > self.buffer_size {
            return false;
        }
        let offset = self.offset_for(size, alignment);
        if offset >= 0xFFFF_FFFF {
            return false;
        }
        let previous_frame_start = *self.start_per_frame.index(
            (self.i_frame + frame_size - 1) % frame_size,
        );
        match previous_frame_start {
            Some(start) => !(offset < start && offset + size > start),
            None => true,
        }
    }

    fn offset_for(&self, size: usize, alignment: usize) -> (r: usize)
        requires
            alignment > 0,
            self.cursor + alignment <= usize::MAX,
            size <= self.buffer_size,
        ensures
            r == self.allocation_offset(size, alignment),
    {
        let dist = self.cursor % alignment;
        let aligned = if dist != 0 {
            self.cursor + (alignment - dist)
        } else {
            self.cursor
        };
        if aligned > self.buffer_size - size {
            0
        } else {
            aligned
        }
    }

    /// Hands out `size` bytes aligned to `alignment` and returns their offset
    /// in the buffer; the cursor moves past them.
    pub fn allocate(&mut self, size: usize, alignment: usize) -> (offset: u32)
        requires
            old(self).wf(),
            old(self).can_allocate(size, alignment),
        ensures
            final(self).wf(),
            offset == old(self).allocation_offset(size, alignment),
            (offset as int) % (alignment as int) == 0,
            offset + size <= old(self).spec_buffer_size(),
            final(self).spec_cursor() == offset + size,
            final(self).spec_i_frame() == old(self).spec_i_frame(),
            final(self).frame_starts() == old(self).frame_starts(),
            final(self).spec_buffer_size() == old(self).spec_buffer_size(),
    {
        let dist = self.cursor % alignment;
        if dist != 0 {
            self.cursor += alignment - dist;
        }
        proof {
            let c = old(self).cursor as int;
            let a = alignment as int;
            if c % a != 0 {
                assert((c + (a - c % a)) % a == 0) by (nonlinear_arith)
                    requires
                        a > 0,
                {
                    vstd::arithmetic::div_mod::lemma_fundamental_div_mod(c, a);
                    vstd::arithmetic::div_mod::lemma_mod_multiples_basic(c / a + 1, a);
                    assert(c + (a - c % a) == (c / a + 1) * a);
                }
            }
        }
        if self.cursor > self.buffer_size - size {
            self.cursor = 0;
        }
        let offset = self.cursor;
        self.cursor += size;
        offset as u32
    }
}

/// The next allocation starts at or after the cursor, unless it wraps around
/// to the start of the buffer: allocations of a frame do not overlap until
/// the buffer wraps.
pub proof fn law_allocation_after_cursor(b: RingBuffer, size: usize, alignment: usize)
    requires
        alignment > 0,
    ensures
        b.allocation_offset(size, alignment) == 0 || b.allocation_offset(size, alignment)
            >= b.spec_cursor(),
{
}

/// An allocation never straddles the offset where the previous frame
/// started: it lies wholly before that offset or begins at or after it. (An
/// allocation that ends exactly there, followed by another, may still reach
/// the previous frame's data; only the crossing of its start is ruled out.)
pub proof fn law_previous_frame_untouched(b: RingBuffer, size: usize, alignment: usize)
    requires
        b.can_allocate(size, alignment),
    ensures
        match b.frame_starts()[b.previous_frame_slot()] {
            Some(start) => b.allocation_offset(size, alignment) >= start || b.allocation_offset(
                size,
                alignment,
            ) + size <= start,
            None => true,
        },
{
}

} // verus!
