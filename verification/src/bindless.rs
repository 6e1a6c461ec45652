use vstd::prelude::*;
use crate::pool::Handle;

verus! {

/// The descriptor array of combined image samplers.
pub const PER_SAMPLER: usize = 0;

/// The descriptor array of storage images.
pub const PER_IMAGE: usize = 1;

/// The descriptor array of storage buffers.
pub const PER_BUFFER: usize = 2;

/// The number of descriptor arrays in the bindless set.
pub const BINDLESS_SETS: usize = 3;

/// The bookkeeping of one descriptor array: the slots free for binding (the
/// next one is the last), and the slots bound and unbound since the
/// descriptors were last written.
pub struct SlotLists {
    free_list: Vec<usize>,
    pending_binds: Vec<usize>,
    pending_unbinds: Vec<usize>,
}

/// The free list a descriptor array of `count` slots starts with: the slots
/// from 1 up, except that the last entry is the end marker `usize::MAX`.
/// Slots are taken from the end of the list, so the first slot a fresh set
/// would hand out is the marker, which is no slot: a fresh set can bind only
/// once a slot has been unbound and pushed on top of it.
pub open spec fn initial_free_list(count: nat) -> Seq<usize> {
    Seq::new(count, |i: int| if i == count - 1 { usize::MAX } else { (i + 1) as usize })
}

/// Which descriptor array elements to rewrite: one write per pending bind,
/// in order, as (array, element).
pub open spec fn set_writes(set: u32, binds: Seq<usize>) -> Seq<(u32, u32)> {
    binds.map_values(|i: usize| (set, i as u32))
}

/// Which descriptor array elements to reset: one copy per pending unbind
/// that was not bound again since, in order, as (array, element).
pub open spec fn set_copies(set: u32, binds: Seq<usize>, unbinds: Seq<usize>) -> Seq<(u32, u32)>
    decreases unbinds.len(),
{
    if unbinds.len() == 0 {
        Seq::empty()
    } else {
        let rest = set_copies(set, binds, unbinds.drop_last());
        if binds.contains(unbinds.last()) {
            rest
        } else {
            rest.push((set, unbinds.last() as u32))
        }
    }
}

/// The writes and copies that bring the descriptor arrays up to date.
pub struct BindlessUpdates {
    /// (array, element) pairs to write with the bound resource.
    pub writes: Vec<(u32, u32)>,
    /// (array, element) pairs to reset by copying element 0 over them.
    pub copies: Vec<(u32, u32)>,
}

impl SlotLists {
    pub closed spec fn free(&self) -> Seq<usize> {
        self.free_list@
    }

    pub closed spec fn binds(&self) -> Seq<usize> {
        self.pending_binds@
    }

    pub closed spec fn unbinds(&self) -> Seq<usize> {
        self.pending_unbinds@
    }

    fn new(count: u32) -> (r: Self)
        requires
            count > 0,
        ensures
            r.free() == initial_free_list(count as nat),
            r.binds() == Seq::<usize>::empty(),
            r.unbinds() == Seq::<usize>::empty(),
    {
        let n = count as usize;
        let mut free_list: Vec<usize> = Vec::new();
        let mut i: usize = 1;
        while i < n
            invariant
                n == count,
                1 <= i <= n,
                free_list@.len() == i - 1,
                forall|j: int| 0 <= j < i - 1 ==> #[trigger] free_list@[j] == j + 1,
            decreases n - i,
        {
            free_list.push(i);
            i = i + 1;
        }
        free_list.push(usize::MAX);
        let r = SlotLists { free_list, pending_binds: Vec::new(), pending_unbinds: Vec::new() };
        assert(r.free() =~= initial_free_list(count as nat));
        r
    }

    /// Appends the writes and copies of this array to `writes` and `copies`
    /// and forgets the pending binds and unbinds.
    fn take_updates(&mut self, set: u32, writes: &mut Vec<(u32, u32)>, copies: &mut Vec<(u32, u32)>)
        requires
            forall|j: int| 0 <= j < old(self).binds().len() ==> #[trigger] old(self).binds()[j] < u32::MAX,
            forall|j: int| 0 <= j < old(self).unbinds().len() ==> #[trigger] old(self).unbinds()[j] < u32::MAX,
        ensures
            final(writes)@ == old(writes)@ + set_writes(set, old(self).binds()),
            final(copies)@ == old(copies)@ + set_copies(set, old(self).binds(), old(self).unbinds()),
            final(self).free() == old(self).free(),
            final(self).binds() == Seq::<usize>::empty(),
            final(self).unbinds() == Seq::<usize>::empty(),
    {
        let ghost w0 = writes@;
        let ghost c0 = copies@;
        proof {
            assert forall|j: int| 0 <= j < self.pending_binds@.len() implies #[trigger] self.pending_binds@[j] < u32::MAX by {
                assert(old(self).binds()[j] == self.pending_binds@[j]);
            }
            assert forall|j: int| 0 <= j < self.pending_unbinds@.len() implies #[trigger] self.pending_unbinds@[j] < u32::MAX by {
                assert(old(self).unbinds()[j] == self.pending_unbinds@[j]);
            }
        }
        let n = self.pending_binds.len();
        let mut i: usize = 0;
        while i < n
            invariant
                n == self.pending_binds@.len(),
                i <= n,
                forall|j: int| 0 <= j < n ==> #[trigger] self.pending_binds@[j] < u32::MAX,
                writes@ == w0 + set_writes(set, self.pending_binds@.take(i as int)),
            decreases n - i,
        {
            let to_bind = self.pending_binds[i];
            writes.push((set, to_bind as u32));
            proof {
                assert(set_writes(set, self.pending_binds@.take(i + 1)) =~= set_writes(set, self.pending_binds@.take(i as int)).push((set, to_bind as u32)));
            }
            i = i + 1;
        }
        proof {
            assert(self.pending_binds@.take(n as int) =~= self.pending_binds@);
        }
        let m = self.pending_unbinds.len();
        let mut k: usize = 0;
        while k < m
            invariant
                m == self.pending_unbinds@.len(),
                k <= m,
                forall|j: int| 0 <= j < m ==> #[trigger] self.pending_unbinds@[j] < u32::MAX,
                copies@ == c0 + set_copies(set, self.pending_binds@, self.pending_unbinds@.take(k as int)),
            decreases m - k,
        {
            let to_unbind = self.pending_unbinds[k];
            proof {
                assert(self.pending_unbinds@.take(k + 1).drop_last() =~= self.pending_unbinds@.take(k as int));
            }
            if !contains(&self.pending_binds, to_unbind) {
                copies.push((set, to_unbind as u32));
                proof {
                    assert(c0 + set_copies(set, self.pending_binds@, self.pending_unbinds@.take(k + 1)) =~= (c0 + set_copies(set, self.pending_binds@, self.pending_unbinds@.take(k as int))).push((set, to_unbind as u32)));
                }
            }
            k = k + 1;
        }
        proof {
            assert(self.pending_unbinds@.take(m as int) =~= self.pending_unbinds@);
        }
        self.pending_binds.clear();
        self.pending_unbinds.clear();
    }
}

/// Whether `x` is in `v`.
fn contains(v: &Vec<usize>, x: usize) -> (r: bool)
    ensures
        r == v@.contains(x),
{
    let n = v.len();
    let mut i: usize = 0;
    while i < n
        invariant
            n == v@.len(),
            i <= n,
            forall|j: int| 0 <= j < i ==> v@[j] != x,
        decreases n - i,
    {
        if v[i] == x {
            return true;
        }
        i = i + 1;
    }
    false
}

/// The slot bookkeeping of the bindless descriptor set: which resource each
/// slot of each descriptor array holds, and the lists of the three arrays.
pub struct BindlessSet<I, B> {
    sampler_images: Vec<Handle<I>>,
    storage_images: Vec<Handle<I>>,
    storage_buffers: Vec<Handle<B>>,
    samplers: SlotLists,
    images: SlotLists,
    buffers: SlotLists,
}

/// Handles by view.
pub open spec fn slot_views<T>(s: Seq<Handle<T>>) -> Seq<(u32, u32)> {
    s.map_values(|h: Handle<T>| h@)
}

/// `count` empty slots.
pub open spec fn empty_slots(count: nat) -> Seq<(u32, u32)> {
    Seq::new(count, |i: int| (u32::MAX, u32::MAX))
}

/// Every index of `s` fits a descriptor array element.
pub open spec fn indices_fit(s: Seq<usize>) -> bool {
    forall|j: int| 0 <= j < s.len() ==> #[trigger] s[j] < u32::MAX
}

impl<I, B> BindlessSet<I, B> {
    /// What each combined-image-sampler slot holds.
    pub closed spec fn sampler_slots(&self) -> Seq<(u32, u32)> {
        slot_views(self.sampler_images@)
    }

    /// What each storage-image slot holds.
    pub closed spec fn storage_image_slots(&self) -> Seq<(u32, u32)> {
        slot_views(self.storage_images@)
    }

    /// What each storage-buffer slot holds.
    pub closed spec fn storage_buffer_slots(&self) -> Seq<(u32, u32)> {
        slot_views(self.storage_buffers@)
    }

    /// The lists of descriptor array `set`.
    pub closed spec fn lists(&self, set: int) -> SlotLists {
        if set == PER_SAMPLER {
            self.samplers
        } else if set == PER_IMAGE {
            self.images
        } else {
            self.buffers
        }
    }

    /// Sets up `sampler_count`, `image_count` and `buffer_count` empty slots.
    pub fn new(sampler_count: u32, image_count: u32, buffer_count: u32) -> (r: Self)
        requires
            sampler_count > 0,
            image_count > 0,
            buffer_count > 0,
        ensures
            r.sampler_slots() == empty_slots(sampler_count as nat),
            r.storage_image_slots() == empty_slots(image_count as nat),
            r.storage_buffer_slots() == empty_slots(buffer_count as nat),
            r.lists(PER_SAMPLER as int).free() == initial_free_list(sampler_count as nat),
            r.lists(PER_IMAGE as int).free() == initial_free_list(image_count as nat),
            r.lists(PER_BUFFER as int).free() == initial_free_list(buffer_count as nat),
            forall|set: int| 0 <= set < BINDLESS_SETS ==> (#[trigger] r.lists(set)).binds() == Seq::<usize>::empty()
                && r.lists(set).unbinds() == Seq::<usize>::empty(),
    {
        let r = BindlessSet {
            sampler_images: invalid_handles(sampler_count as usize),
            storage_images: invalid_handles(image_count as usize),
            storage_buffers: invalid_handles(buffer_count as usize),
            samplers: SlotLists::new(sampler_count),
            images: SlotLists::new(image_count),
            buffers: SlotLists::new(buffer_count),
        };
        r
    }

    /// Puts `image_handle` in the next free sampler slot and returns the
    /// slot. The top of the free list must be a slot: right after `new` it is
    /// the end marker (see `initial_free_list`), so a slot has to be unbound
    /// first.
    pub fn bind_sampler_image(&mut self, image_handle: Handle<I>) -> (r: usize)
        requires
            old(self).lists(PER_SAMPLER as int).free().len() > 0,
            old(self).lists(PER_SAMPLER as int).free().last() < old(self).sampler_slots().len(),
        ensures
            r == old(self).lists(PER_SAMPLER as int).free().last(),
            final(self).sampler_slots() == old(self).sampler_slots().update(r as int, image_handle@),
            final(self).lists(PER_SAMPLER as int).free() == old(self).lists(PER_SAMPLER as int).free().drop_last(),
            final(self).lists(PER_SAMPLER as int).binds() == old(self).lists(PER_SAMPLER as int).binds().push(r),
            final(self).lists(PER_SAMPLER as int).unbinds() == old(self).lists(PER_SAMPLER as int).unbinds(),
            final(self).storage_image_slots() == old(self).storage_image_slots(),
            final(self).storage_buffer_slots() == old(self).storage_buffer_slots(),
            final(self).lists(PER_IMAGE as int) == old(self).lists(PER_IMAGE as int),
            final(self).lists(PER_BUFFER as int) == old(self).lists(PER_BUFFER as int),
    {
        let new_index = self.samplers.free_list.pop().unwrap();
        self.sampler_images.set(new_index, image_handle);
        self.samplers.pending_binds.push(new_index);
        proof {
            assert(self.sampler_slots() =~= old(self).sampler_slots().update(new_index as int, image_handle@));
        }
        new_index
    }

    /// Empties sampler slot `image_index`, which becomes the next free one.
    pub fn unbind_sampler_image(&mut self, image_index: usize)
        requires
            image_index < old(self).sampler_slots().len(),
        ensures
            final(self).sampler_slots() == old(self).sampler_slots().update(image_index as int, (u32::MAX, u32::MAX)),
            final(self).lists(PER_SAMPLER as int).free() == old(self).lists(PER_SAMPLER as int).free().push(image_index),
            final(self).lists(PER_SAMPLER as int).binds() == old(self).lists(PER_SAMPLER as int).binds(),
            final(self).lists(PER_SAMPLER as int).unbinds() == old(self).lists(PER_SAMPLER as int).unbinds().push(image_index),
            final(self).storage_image_slots() == old(self).storage_image_slots(),
            final(self).storage_buffer_slots() == old(self).storage_buffer_slots(),
            final(self).lists(PER_IMAGE as int) == old(self).lists(PER_IMAGE as int),
            final(self).lists(PER_BUFFER as int) == old(self).lists(PER_BUFFER as int),
    {
        self.sampler_images.set(image_index, Handle::invalid());
        self.samplers.free_list.push(image_index);
        self.samplers.pending_unbinds.push(image_index);
        proof {
            assert(self.sampler_slots() =~= old(self).sampler_slots().update(image_index as int, (u32::MAX, u32::MAX)));
        }
    }

    /// What sampler slot `image_index` holds.
    pub fn get_sampler_image(&self, image_index: usize) -> (r: Handle<I>)
        requires
            image_index < self.sampler_slots().len(),
        ensures
            r@ == self.sampler_slots()[image_index as int],
    {
        self.sampler_images[image_index]
    }

    /// The writes and copies the descriptor arrays need since the last
    /// update, array by array; the pending lists are emptied.
    pub fn take_updates(&mut self) -> (u: BindlessUpdates)
        requires
            forall|set: int| 0 <= set < BINDLESS_SETS ==> indices_fit((#[trigger] old(self).lists(set)).binds())
                && indices_fit(old(self).lists(set).unbinds()),
        ensures
            u.writes@ == set_writes(0, old(self).lists(0).binds()) + set_writes(1, old(self).lists(1).binds())
                + set_writes(2, old(self).lists(2).binds()),
            u.copies@ == set_copies(0, old(self).lists(0).binds(), old(self).lists(0).unbinds()) + set_copies(
                1,
                old(self).lists(1).binds(),
                old(self).lists(1).unbinds(),
            ) + set_copies(2, old(self).lists(2).binds(), old(self).lists(2).unbinds()),
            forall|set: int| 0 <= set < BINDLESS_SETS ==> (#[trigger] final(self).lists(set)).binds() == Seq::<usize>::empty()
                && final(self).lists(set).unbinds() == Seq::<usize>::empty()
                && final(self).lists(set).free() == old(self).lists(set).free(),
            final(self).sampler_slots() == old(self).sampler_slots(),
            final(self).storage_image_slots() == old(self).storage_image_slots(),
            final(self).storage_buffer_slots() == old(self).storage_buffer_slots(),
    {
        proof {
            assert(old(self).lists(0) == self.samplers);
            assert(old(self).lists(1) == self.images);
            assert(old(self).lists(2) == self.buffers);
        }
        let total_bind_count = self.samplers.pending_binds.len() as u128 + self.images.pending_binds.len() as u128
            + self.buffers.pending_binds.len() as u128;
        let total_unbind_count = self.samplers.pending_unbinds.len() as u128 + self.images.pending_unbinds.len() as u128
            + self.buffers.pending_unbinds.len() as u128;
        let mut writes: Vec<(u32, u32)> = Vec::new();
        let mut copies: Vec<(u32, u32)> = Vec::new();
        if total_bind_count == 0 && total_unbind_count == 0 {
            proof {
                assert(set_writes(0, self.samplers.binds()) + set_writes(1, self.images.binds()) + set_writes(2, self.buffers.binds()) =~= writes@);
                assert(set_copies(0, self.samplers.binds(), self.samplers.unbinds()) + set_copies(1, self.images.binds(), self.images.unbinds()) + set_copies(2, self.buffers.binds(), self.buffers.unbinds()) =~= copies@);
            }
            return BindlessUpdates { writes, copies };
        }
        self.samplers.take_updates(0, &mut writes, &mut copies);
        self.images.take_updates(1, &mut writes, &mut copies);
        self.buffers.take_updates(2, &mut writes, &mut copies);
        proof {
            assert(writes@ =~= Seq::<(u32, u32)>::empty() + set_writes(0, old(self).lists(0).binds()) + set_writes(1, old(self).lists(1).binds()) + set_writes(2, old(self).lists(2).binds()));
            assert(copies@ =~= Seq::<(u32, u32)>::empty() + set_copies(0, old(self).lists(0).binds(), old(self).lists(0).unbinds()) + set_copies(1, old(self).lists(1).binds(), old(self).lists(1).unbinds()) + set_copies(2, old(self).lists(2).binds(), old(self).lists(2).unbinds()));
        }
        BindlessUpdates { writes, copies }
    }
}

/// `count` invalid handles.
fn invalid_handles<T>(count: usize) -> (r: Vec<Handle<T>>)
    ensures
        slot_views(r@) == empty_slots(count as nat),
{
    let mut r: Vec<Handle<T>> = Vec::new();
    let mut i: usize = 0;
    while i < count
        invariant
            i <= count,
            r@.len() == i,
            forall|j: int| 0 <= j < i ==> (#[trigger] r@[j])@ == (u32::MAX, u32::MAX),
        decreases count - i,
    {
        r.push(Handle::invalid());
        i = i + 1;
    }
    assert(slot_views(r@) =~= empty_slots(count as nat));
    r
}

/// A slot unbound and bound again before the next update is written with its
/// new resource and not reset.
pub proof fn law_rebound_slot_not_reset(set: u32, binds: Seq<usize>, unbinds: Seq<usize>, i: usize)
    requires
        binds.contains(i),
        indices_fit(unbinds),
        i < u32::MAX,
    ensures
        set_writes(set, binds).contains((set, i as u32)),
        !set_copies(set, binds, unbinds).contains((set, i as u32)),
    decreases unbinds.len(),
{
    let j = choose|j: int| 0 <= j < binds.len() && binds[j] == i;
    assert(set_writes(set, binds)[j] == (set, i as u32));
    if unbinds.len() > 0 {
        let rest = unbinds.drop_last();
        assert(indices_fit(rest)) by {
            assert forall|k: int| 0 <= k < rest.len() implies #[trigger] rest[k] < u32::MAX by {
                assert(rest[k] == unbinds[k]);
            }
        }
        law_rebound_slot_not_reset(set, binds, rest, i);
        let last = unbinds.last();
        if !binds.contains(last) {
            assert(last != i);
            assert(last < u32::MAX);
            assert(last as u32 != i as u32);
            let c = set_copies(set, binds, unbinds);
            let r = set_copies(set, binds, rest);
            assert(c == r.push((set, last as u32)));
            if c.contains((set, i as u32)) {
                let k = choose|k: int| 0 <= k < c.len() && c[k] == (set, i as u32);
                if k < r.len() {
                    assert(r[k] == c[k]);
                }
            }
        }
    }
}

/// A slot unbound and not bound again before the next update is reset.
pub proof fn law_unbound_slot_reset(set: u32, binds: Seq<usize>, unbinds: Seq<usize>, i: usize)
    requires
        unbinds.contains(i),
        !binds.contains(i),
    ensures
        set_copies(set, binds, unbinds).contains((set, i as u32)),
    decreases unbinds.len(),
{
    let rest = unbinds.drop_last();
    let c = set_copies(set, binds, unbinds);
    let r = set_copies(set, binds, rest);
    if unbinds.last() == i {
        assert(c == r.push((set, i as u32)));
        assert(c[r.len() as int] == (set, i as u32));
    } else {
        let k = choose|k: int| 0 <= k < unbinds.len() && unbinds[k] == i;
        assert(rest[k] == i);
        law_unbound_slot_reset(set, binds, rest, i);
        let q = choose|q: int| 0 <= q < r.len() && r[q] == (set, i as u32);
        if binds.contains(unbinds.last()) {
            assert(c == r);
        } else {
            assert(c[q] == r[q]);
        }
    }
}

} // verus!
