use vstd::prelude::*;
use std::marker::PhantomData;
use vstd::set_lib::set_int_range;

verus! {

/// The top bit of the metadata flags tells whether a slot holds a value.
pub const OCCUPIED_MASK: u32 = 0x80000000;
/// The low 31 bits of the metadata flags hold the slot's generation.
pub const GENERATION_MASK: u32 = 0x7FFFFFFF;

/// Per-slot bookkeeping: an occupancy bit and a 31-bit generation.
pub struct Metadata {
    pub flags: u32,
}

impl Metadata {
    pub open spec fn occupied(&self) -> bool {
        self.flags & OCCUPIED_MASK != 0
    }

    pub open spec fn generation(&self) -> u32 {
        self.flags & GENERATION_MASK
    }

    pub fn get_is_occupied(&self) -> (r: bool)
        ensures
            r == self.occupied(),
    {
        (self.flags & OCCUPIED_MASK) != 0
    }

    pub fn set_is_occupied(&mut self, is_occupied: bool)
        ensures
            final(self).occupied() == is_occupied,
            final(self).generation() == old(self).generation(),
    {
        let f = self.flags;
        if is_occupied {
            self.flags = f | OCCUPIED_MASK;
            assert((f | 0x80000000u32) & 0x80000000u32 != 0) by (bit_vector);
            assert((f | 0x80000000u32) & 0x7FFFFFFFu32 == f & 0x7FFFFFFFu32) by (bit_vector);
        } else {
            self.flags = f & !OCCUPIED_MASK;
            assert((f & !0x80000000u32) & 0x80000000u32 == 0) by (bit_vector);
            assert((f & !0x80000000u32) & 0x7FFFFFFFu32 == f & 0x7FFFFFFFu32) by (bit_vector);
        }
    }

    pub fn get_generation(&self) -> (r: u32)
        ensures
            r == self.generation(),
            r <= GENERATION_MASK,
    {
        let f = self.flags;
        assert(f & 0x7FFFFFFFu32 <= 0x7FFFFFFFu32) by (bit_vector);
        f & GENERATION_MASK
    }

    pub fn set_generation(&mut self, generation: u32)
        ensures
            final(self).generation() == generation & GENERATION_MASK,
            final(self).occupied() == old(self).occupied(),
    {
        let f = self.flags;
        self.flags = (f & OCCUPIED_MASK) | (generation & GENERATION_MASK);
        assert(((f & 0x80000000u32) | (generation & 0x7FFFFFFFu32)) & 0x7FFFFFFFu32
            == generation & 0x7FFFFFFFu32) by (bit_vector);
        assert((((f & 0x80000000u32) | (generation & 0x7FFFFFFFu32)) & 0x80000000u32 != 0)
            == (f & 0x80000000u32 != 0)) by (bit_vector);
    }
}


/// A pool slot: either a link in the free list or a stored value.
pub enum Entry<T> {
    Empty(Option<u32>),
    Filled(T),
}

impl<T> Entry<T> {
    pub fn as_empty(&self) -> (r: Option<Option<u32>>)
        ensures
            r == (match self {
                Entry::Empty(next) => Some(*next),
                Entry::Filled(_) => None,
            }),
    {
        match self {
            Entry::Empty(next) => Some(*next),
            _ => None,
        }
    }

    pub fn as_filled_mut(&mut self) -> (r: Option<&mut T>)
        ensures
            match *old(self) {
                Entry::Filled(v) => r is Some && *r->0 == v && *final(self) == Entry::Filled(
                    *final(r->0),
                ),
                Entry::Empty(_) => r is None && *final(self) == *old(self),
            },
    {
        match self {
            Entry::Filled(inner) => Some(inner),
            _ => None,
        }
    }

    pub fn as_filled(&self) -> (r: Option<&T>)
        ensures
            r == (match self {
                Entry::Filled(v) => Some(v),
                Entry::Empty(_) => None,
            }),
    {
        match self {
            Entry::Filled(inner) => Some(inner),
            _ => None,
        }
    }
}

/// A typed reference to a value stored in a `Pool`: a slot index and the
/// generation the slot had when the value was stored.
pub struct Handle<T> {
    index: u32,
    generation: u32,
    marker: PhantomData<T>,
}

impl<T> Clone for Handle<T> {
    fn clone(&self) -> (r: Handle<T>)
        ensures
            r == *self,
    {
        Handle { index: self.index, generation: self.generation, marker: PhantomData }
    }
}

impl<T> Copy for Handle<T> {

}

impl<T> View for Handle<T> {
    type V = (u32, u32);

    closed spec fn view(&self) -> (u32, u32) {
        (self.index, self.generation)
    }
}

impl<T> Handle<T> {
    /// A handle that no pool value ever has: its generation is outside the
    /// generation mask.
    pub fn invalid() -> (h: Self)
        ensures
            h@ == (u32::MAX, u32::MAX),
    {
        Handle { index: u32::MAX, generation: u32::MAX, marker: PhantomData }
    }

    /// Whether the handle is not the invalid handle.
    pub fn is_valid(&self) -> (r: bool)
        ensures
            r == (self@ != (u32::MAX, u32::MAX)),
    {
        !(self.index == u32::MAX && self.generation == u32::MAX)
    }

    /// Whether two handles refer to the same slot and generation.
    pub fn same(&self, other: &Self) -> (r: bool)
        ensures
            r == (self@ == other@),
    {
        self.index == other.index && self.generation == other.generation
    }

    /// The handle's slot index.
    pub fn index(&self) -> (r: u32)
        ensures
            r == self@.0,
    {
        self.index
    }

    /// The slot generation the handle was created with.
    pub fn generation(&self) -> (r: u32)
        ensures
            r == self@.1,
    {
        self.generation
    }
}

/// A generational pool: values live in slots that are reused through a free
/// list, and a handle stays valid until its value is removed.
pub struct Pool<T> {
    values: Vec<(Metadata, Entry<T>)>,
    freelist_head: Option<u32>,
    size: u32,
    /// The free list, from its head to its end.
    free: Ghost<Seq<u32>>,
    /// The indices of the occupied slots.
    live: Ghost<Set<int>>,
}

/// The successor of the `k`-th element of a free list.
pub open spec fn next_free(free: Seq<u32>, k: int) -> Option<u32> {
    if k + 1 < free.len() {
        Some(free[k + 1])
    } else {
        None
    }
}

impl<T> Pool<T> {
    pub closed spec fn slot_occupied(&self, i: int) -> bool {
        0 <= i < self.values@.len() && self.values@[i].0.occupied()
    }

    pub closed spec fn slot_value(&self, i: int) -> T {
        match self.values@[i].1 {
            Entry::Filled(v) => v,
            Entry::Empty(_) => arbitrary(),
        }
    }

    /// The generation that slot `i` currently has.
    pub closed spec fn slot_generation(&self, i: int) -> u32 {
        self.values@[i].0.generation()
    }

    /// Number of slots the pool has allocated.
    pub closed spec fn spec_capacity(&self) -> nat {
        self.values@.len()
    }

    /// Number of values stored in the pool.
    pub closed spec fn spec_len(&self) -> nat {
        self.size as nat
    }

    /// The pool's well-formedness: occupancy bits agree with the entries, the
    /// free list is a chain of distinct empty slots that starts at the head,
    /// and the size counts the occupied slots.
    pub closed spec fn wf(&self) -> bool {
        let free = self.free@;
        &&& self.values@.len() < 0x1_0000_0000
        &&& self.values@.len() != 1
        &&& forall|i: int|
            0 <= i < self.values@.len() ==> (#[trigger] self.values@[i].0.occupied()
                <==> self.values@[i].1 is Filled)
        &&& self.freelist_head == (if free.len() == 0 {
            None::<u32>
        } else {
            Some(free[0])
        })
        &&& forall|k: int|
            0 <= k < free.len() ==> {
                &&& (#[trigger] free[k]) < self.values@.len()
                &&& self.values@[free[k] as int].1 == Entry::<T>::Empty(next_free(free, k))
            }
        &&& free.no_duplicates()
        &&& self.live@.finite()
        &&& forall|i: int| #[trigger] self.live@.contains(i) <==> self.slot_occupied(i)
        &&& self.size as nat == self.live@.len()
    }

    /// The stored values, keyed by the view of their handles.
    pub closed spec fn spec_view(&self) -> Map<(u32, u32), T> {
        Map::new(
            |h: (u32, u32)|
                self.slot_occupied(h.0 as int) && self.slot_generation(h.0 as int) == h.1,
            |h: (u32, u32)| self.slot_value(h.0 as int),
        )
    }
}

impl<T> View for Pool<T> {
    type V = Map<(u32, u32), T>;

    open spec fn view(&self) -> Map<(u32, u32), T> {
        self.spec_view()
    }
}

/// Every subset of `[0, n)` has at most `n` elements.
proof fn lemma_live_bounded(live: Set<int>, n: int)
    requires
        0 <= n,
        forall|i: int| #[trigger] live.contains(i) ==> 0 <= i < n,
    ensures
        live.finite(),
        live.len() <= n,
{
    let range = set_int_range(0, n);
    vstd::set_lib::lemma_int_range(0, n);
    assert(live.subset_of(range));
    vstd::set_lib::lemma_set_subset_finite(range, live);
    vstd::set_lib::lemma_len_subset(live, range);
}

impl<T> Pool<T> {
    /// Whether the free list has a slot to hand out.
    pub closed spec fn has_free_slot(&self) -> bool {
        self.freelist_head is Some
    }

    /// The slot the next `add` fills: the head of the free list, or, when
    /// the list is empty, the second of the slots the pool grows by (the
    /// first new slot is left out of the free list).
    pub closed spec fn next_index(&self) -> int {
        match self.freelist_head {
            Some(i) => i as int,
            None => self.values@.len() as int + 1,
        }
    }

    /// An empty pool with no slots.
    pub fn new() -> (pool: Self)
        ensures
            pool.wf(),
            pool@ == Map::<(u32, u32), T>::empty(),
            pool.spec_len() == 0,
            pool.spec_capacity() == 0,
    {
        let pool = Pool {
            values: Vec::new(),
            freelist_head: None,
            size: 0,
            free: Ghost(Seq::empty()),
            live: Ghost(Set::empty()),
        };
        assert(pool@ =~= Map::<(u32, u32), T>::empty());
        pool
    }

    /// Links the slots from `old_capacity` on into a chain of empty entries,
    /// each one pointing to the next, and clears their metadata.
    fn init_freelist(&mut self, old_capacity: usize)
        requires
            old_capacity < old(self).values@.len() < 0x1_0000_0000,
        ensures
            final(self).values@.len() == old(self).values@.len(),
            final(self).freelist_head == old(self).freelist_head,
            final(self).size == old(self).size,
            final(self).free == old(self).free,
            final(self).live == old(self).live,
            forall|i: int| 0 <= i < old_capacity ==> final(self).values@[i] == old(self).values@[i],
            forall|i: int|
                old_capacity <= i < final(self).values@.len() ==> (#[trigger] final(self).values@[i]).0.flags
                    == 0 && final(self).values@[i].1 == Entry::<T>::Empty(
                    if i + 1 < final(self).values@.len() {
                        Some((i + 1) as u32)
                    } else {
                        None
                    },
                ),
    {
        let new_capacity = self.values.len();
        let mut i = old_capacity;
        while i < new_capacity
            invariant
                old_capacity <= i <= new_capacity,
                new_capacity == self.values@.len() == old(self).values@.len(),
                new_capacity < 0x1_0000_0000,
                self.freelist_head == old(self).freelist_head,
                self.size == old(self).size,
                self.free == old(self).free,
                self.live == old(self).live,
                forall|j: int| 0 <= j < old_capacity ==> self.values@[j] == old(self).values@[j],
                forall|j: int|
                    old_capacity <= j < i ==> (#[trigger] self.values@[j]).0.flags == 0
                        && self.values@[j].1 == Entry::<T>::Empty(Some((j + 1) as u32)),
            decreases new_capacity - i,
        {
            self.values[i] = (Metadata { flags: 0 }, Entry::Empty(Some(i as u32 + 1)));
            i = i + 1;
        }
        self.values[new_capacity - 1] = (Metadata { flags: 0 }, Entry::Empty(None));
    }

    /// The number of slots of the pool.
    pub fn capacity(&self) -> (r: usize)
        ensures
            r == self.spec_capacity(),
    {
        self.values.len()
    }

    /// The number of values stored in the pool.
    pub fn len(&self) -> (r: u32)
        requires
            self.wf(),
        ensures
            r == self.spec_len(),
            r == self@.len(),
    {
        proof {
            self.lemma_len_is_view_len();
        }
        self.size
    }

    proof fn lemma_len_is_view_len(&self)
        requires
            self.wf(),
        ensures
            self@.dom().finite(),
            self@.len() == self.spec_len(),
    {
        let live = self.live@;
        let dom = self@.dom();
        let g = |i: int| (i as u32, self.slot_generation(i));
        assert forall|h: (u32, u32)| dom.contains(h) implies #[trigger] live.map(g).contains(h) by {
            assert(live.contains(h.0 as int));
            assert(g(h.0 as int) == h);
        }
        assert forall|h: (u32, u32)| #[trigger] live.map(g).contains(h) implies dom.contains(h) by {
            let i = choose|i: int| live.contains(i) && g(i) == h;
            assert(0 <= i < self.values@.len() < 0x1_0000_0000);
            assert(h.0 as int == i);
        }
        assert(dom =~= live.map(g));
        assert forall|a: int, b: int|
            live.contains(a) && live.contains(b) && #[trigger] g(a) == #[trigger] g(b) implies a
            == b by {
            assert(0 <= a < 0x1_0000_0000);
            assert(0 <= b < 0x1_0000_0000);
        }
        vstd::set_lib::lemma_map_size(live, dom, g);
    }

    /// Stores `value` in a free slot and returns its handle. When the free
    /// list is empty the storage first doubles (to at least two slots) and the
    /// new slots, except the first of them, become the free list. Growing
    /// past `2^31` slots would number a slot beyond `u32::MAX`, so a full pool
    /// of that size takes no more values.
    pub fn add(&mut self, value: T) -> (handle: Handle<T>)
        requires
            old(self).wf(),
            old(self).has_free_slot() || old(self).spec_capacity() < 0x8000_0000,
        ensures
            final(self).wf(),
            !old(self)@.contains_key(handle@),
            handle@.0 == old(self).next_index(),
            forall|k: (u32, u32)| #[trigger] old(self)@.contains_key(k) ==> k.0 != handle@.0,
            final(self)@ == old(self)@.insert(handle@, value),
            final(self).spec_len() == old(self).spec_len() + 1,
            handle@.1 == (if handle@.0 < old(self).spec_capacity() {
                old(self).slot_generation(handle@.0 as int)
            } else {
                0
            }),
            final(self).spec_capacity() == if old(self).has_free_slot() {
                old(self).spec_capacity()
            } else if old(self).spec_capacity() > 1 {
                2 * old(self).spec_capacity()
            } else {
                2
            },
    {
        let ghost old_view = self@;
        if self.freelist_head.is_none() {
            let old_capacity = self.values.len();
            let new_capacity = 2 * if old_capacity > 1 {
                old_capacity
            } else {
                1
            };
            while self.values.len() < new_capacity
                invariant
                    old_capacity <= self.values@.len() <= new_capacity,
                    new_capacity < 0x1_0000_0000,
                    old_capacity < new_capacity,
                    forall|j: int| 0 <= j < old_capacity ==> self.values@[j] == old(self).values@[j],
                    self.freelist_head == old(self).freelist_head,
                    self.size == old(self).size,
                    self.free == old(self).free,
                    self.live == old(self).live,
                decreases new_capacity - self.values@.len(),
            {
                self.values.push((Metadata { flags: 0 }, Entry::Empty(None)));
            }
            self.init_freelist(old_capacity);
            self.freelist_head = self.values[old_capacity].1.as_empty().unwrap();
            proof {
                let n = new_capacity as int;
                let o = old_capacity as int;
                self.free@ = Seq::new((n - o - 1) as nat, |j: int| (o + 1 + j) as u32);
                assert forall|i: int| 0 <= i < n implies (#[trigger] self.values@[i].0.occupied()
                    <==> self.values@[i].1 is Filled) by {
                    if i >= o {
                        assert(0u32 & 0x80000000u32 == 0) by (bit_vector);
                    }
                }
                assert forall|i: int| #[trigger] self.live@.contains(i) <==> self.slot_occupied(
                    i,
                ) by {
                    if i >= o && i < n {
                        assert(0u32 & 0x80000000u32 == 0) by (bit_vector);
                    }
                }
                assert(self@ =~= old_view) by {
                    assert(0u32 & 0x80000000u32 == 0) by (bit_vector);
                }
            }
        }
        let ghost mid_view = self@;
        let ghost free = self.free@;
        let i_element = self.freelist_head.unwrap();
        let i = i_element as usize;
        assert(free[0] == i_element);
        let next = self.values[i].1.as_empty().unwrap();
        let flags = self.values[i].0.flags;
        let mut metadata = Metadata { flags };
        assert(!metadata.occupied()) by {
            assert(self.values@[i as int].1 is Empty);
        }
        metadata.set_is_occupied(true);
        let generation = metadata.get_generation();
        proof {
            lemma_live_bounded(self.live@.insert(i as int), self.values@.len() as int);
        }
        self.values[i] = (metadata, Entry::Filled(value));
        self.freelist_head = next;
        self.size = self.size + 1;
        proof {
            self.free@ = free.drop_first();
            self.live@ = self.live@.insert(i as int);
            assert forall|k: int| 0 <= k < self.free@.len() implies {
                &&& (#[trigger] self.free@[k]) < self.values@.len()
                &&& self.values@[self.free@[k] as int].1 == Entry::<T>::Empty(
                    next_free(self.free@, k),
                )
            } by {
                assert(self.free@[k] == free[k + 1]);
                assert(free[k + 1] != free[0]);
            }
            assert(self@ =~= mid_view.insert((i_element, generation), value));
            assert(0u32 & 0x7FFFFFFFu32 == 0) by (bit_vector);
        }
        Handle { index: i_element, generation, marker: PhantomData }
    }

    /// Whether `handle` refers to a value of the pool.
    pub fn is_live(&self, handle: Handle<T>) -> (r: bool)
        requires
            self.wf(),
        ensures
            r == self@.contains_key(handle@),
    {
        let i = handle.index as usize;
        if i >= self.values.len() {
            return false;
        }
        self.values[i].0.get_is_occupied() && self.values[i].0.get_generation() == handle.generation
    }

    /// The value a live handle refers to, for reading and writing.
    pub fn get_mut(&mut self, handle: Handle<T>) -> (r: &mut T)
        requires
            old(self).wf(),
            old(self)@.contains_key(handle@),
        ensures
            *r == old(self)@[handle@],
            final(self).wf(),
            final(self)@ == old(self)@.insert(handle@, *final(r)),
            final(self).spec_len() == old(self).spec_len(),
            final(self).spec_capacity() == old(self).spec_capacity(),
    {
        let i = handle.index as usize;
        let pair = &mut self.values[i];
        let element = &mut pair.1;
        element.as_filled_mut().unwrap()
    }

    /// The value a live handle refers to.
    pub fn get(&self, handle: Handle<T>) -> (r: &T)
        requires
            self.wf(),
            self@.contains_key(handle@),
        ensures
            *r == self@[handle@],
    {
        let i = handle.index as usize;
        self.values[i].1.as_filled().unwrap()
    }

    /// Removes the value a live handle refers to: the slot's generation moves
    /// on and the slot goes to the front of the free list.
    pub fn remove(&mut self, handle: Handle<T>)
        requires
            old(self).wf(),
            old(self)@.contains_key(handle@),
        ensures
            final(self).wf(),
            final(self)@ == old(self)@.remove(handle@),
            final(self).spec_len() + 1 == old(self).spec_len(),
            final(self).slot_generation(handle@.0 as int) == ((handle@.1 + 1) as u32)
                & GENERATION_MASK,
            final(self).spec_capacity() == old(self).spec_capacity(),
    {
        let ghost old_view = self@;
        let ghost free = self.free@;
        let i = handle.index as usize;
        let flags = self.values[i].0.flags;
        let mut metadata = Metadata { flags };
        metadata.set_is_occupied(false);
        assert(handle.generation <= 0x7FFFFFFF) by {
            let f = flags;
            assert(f & 0x7FFFFFFFu32 <= 0x7FFFFFFFu32) by (bit_vector);
        }
        metadata.set_generation(handle.generation + 1);
        proof {
            assert forall|k: int| 0 <= k < free.len() implies free[k] != handle.index by {
                assert(self.values@[free[k] as int].1 is Empty);
            }
            lemma_live_bounded(self.live@, self.values@.len() as int);
            assert(self.live@.contains(i as int));
        }
        self.values[i] = (metadata, Entry::Empty(self.freelist_head));
        self.freelist_head = Some(handle.index);
        self.size = self.size - 1;
        proof {
            self.free@ = seq![handle.index].add(free);
            self.live@ = self.live@.remove(i as int);
            assert forall|k: int| 0 <= k < self.free@.len() implies {
                &&& (#[trigger] self.free@[k]) < self.values@.len()
                &&& self.values@[self.free@[k] as int].1 == Entry::<T>::Empty(
                    next_free(self.free@, k),
                )
            } by {
                if k > 0 {
                    assert(self.free@[k] == free[k - 1]);
                }
            }
            assert(self@ =~= old_view.remove(handle@));
        }
    }
}

impl<T> Default for Pool<T> {
    fn default() -> (pool: Self)
        ensures
            pool.wf(),
            pool@ == Map::<(u32, u32), T>::empty(),
    {
        Self::new()
    }
}

/// The invalid handle is never live.
pub proof fn law_invalid_never_live<T>(pool: Pool<T>)
    requires
        pool.wf(),
    ensures
        !pool@.contains_key((u32::MAX, u32::MAX)),
{
    if pool@.contains_key((u32::MAX, u32::MAX)) {
        lemma_live_generation_bounded(pool, (u32::MAX, u32::MAX));
    }
}

/// The generation of a live handle is below the generation mask.
pub proof fn lemma_live_generation_bounded<T>(pool: Pool<T>, h: (u32, u32))
    requires
        pool.wf(),
        pool@.contains_key(h),
    ensures
        h.1 <= GENERATION_MASK,
        h.1 == pool.slot_generation(h.0 as int),
{
    let f = pool.values@[h.0 as int].0.flags;
    assert(f & 0x7FFFFFFFu32 <= 0x7FFFFFFFu32) by (bit_vector);
}

/// A handle that was removed stays invalid when the next value is added: the
/// slot it pointed to, if handed out again, comes back with another
/// generation.
pub proof fn law_removed_handle_not_revived<T>(
    before: Pool<T>,
    removed: Pool<T>,
    added: Pool<T>,
    h: (u32, u32),
    new_handle: (u32, u32),
    value: T,
)
    requires
        before.wf(),
        before@.contains_key(h),
        removed@ == before@.remove(h),
        removed.spec_capacity() == before.spec_capacity(),
        removed.slot_generation(h.0 as int) == ((h.1 + 1) as u32) & GENERATION_MASK,
        added@ == removed@.insert(new_handle, value),
        new_handle.1 == (if new_handle.0 < removed.spec_capacity() {
            removed.slot_generation(new_handle.0 as int)
        } else {
            0
        }),
    ensures
        new_handle != h,
        !added@.contains_key(h),
{
    lemma_live_generation_bounded(before, h);
    assert(h.0 < before.spec_capacity());
    let g = h.1;
    assert(g <= 0x7FFFFFFFu32 ==> (((g + 1) as u32) & 0x7FFFFFFFu32) != g) by (bit_vector);
}

/// Removing a handle a second time is refused: once removed, the handle is
/// not live, which `remove` requires.
pub proof fn law_remove_twice_refused<T>(before: Pool<T>, removed: Pool<T>, h: (u32, u32))
    requires
        removed@ == before@.remove(h),
    ensures
        !removed@.contains_key(h),
{
}

/// A value added to the pool sits in a slot no live handle points to.
pub proof fn law_added_slot_is_free<T>(before: Pool<T>, after: Pool<T>, h: (u32, u32), value: T)
    requires
        forall|k: (u32, u32)| #[trigger] before@.contains_key(k) ==> k.0 != h.0,
        after@ == before@.insert(h, value),
    ensures
        forall|k: (u32, u32)|
            #[trigger] after@.contains_key(k) && k != h ==> k.0 != h.0 && before@.contains_key(k)
                && after@[k] == before@[k],
{
}

/// Reading a handle right after adding its value gives the value back, and
/// the values of all other handles are unchanged.
pub proof fn law_add_then_get<T>(before: Pool<T>, after: Pool<T>, h: (u32, u32), value: T)
    requires
        after@ == before@.insert(h, value),
    ensures
        after@.contains_key(h),
        after@[h] == value,
        forall|other: (u32, u32)|
            other != h && #[trigger] before@.contains_key(other) ==> after@.contains_key(other)
                && after@[other] == before@[other],
{
}

/// Adding a value and removing it again gives back the values the pool held.
pub proof fn law_add_then_remove<T>(
    before: Pool<T>,
    added: Pool<T>,
    removed: Pool<T>,
    h: (u32, u32),
    value: T,
)
    requires
        !before@.contains_key(h),
        added@ == before@.insert(h, value),
        removed@ == added@.remove(h),
    ensures
        removed@ == before@,
{
    assert(removed@ =~= before@);
}

} // verus!
