use vstd::prelude::*;
use crate::pool::Handle;

verus! {

/// What the registry knows of a pooled image: the texture description it is
/// bound to this frame (or the invalid handle) and the last frame it was used.
pub struct ImageMetadata<D> {
    pub resolved_desc: Handle<D>,
    pub last_frame_used: u64,
}

impl<D> Clone for ImageMetadata<D> {
    fn clone(&self) -> (r: Self)
        ensures
            r == *self,
    {
        ImageMetadata { resolved_desc: self.resolved_desc, last_frame_used: self.last_frame_used }
    }
}

impl<D> Copy for ImageMetadata<D> {

}

/// The resources to release at the start of a frame, in the order the
/// registry holds them.
pub struct FrameCleanup<I, F> {
    /// Images unused for more than 2 frames, to unbind from the bindless set.
    pub images_to_unbind: Vec<Handle<I>>,
    /// Framebuffers unused for more than 3 frames, to destroy.
    pub framebuffers_to_destroy: Vec<Handle<F>>,
    /// Images unused for more than 19 frames, to destroy.
    pub images_to_destroy: Vec<Handle<I>>,
}

/// Frame-to-frame bookkeeping of the images and framebuffers a render graph
/// uses: when each was last used, and which description an image is bound to.
pub struct ResourceRegistry<I, F, D> {
    image_pool: Vec<(Handle<I>, ImageMetadata<D>)>,
    framebuffers: Vec<Handle<F>>,
    framebuffer_pool: Vec<(Handle<F>, u64)>,
    i_frame: u64,
}

/// The images of a list of entries, by handle: bound description and last
/// frame of use.
pub open spec fn image_map<I, D>(s: Seq<(Handle<I>, ImageMetadata<D>)>) -> Map<
    (u32, u32),
    ((u32, u32), u64),
> {
    Map::new(
        |k: (u32, u32)| exists|i: int| 0 <= i < s.len() && (#[trigger] s[i]).0@ == k,
        |k: (u32, u32)|
            {
                let i = choose|i: int| 0 <= i < s.len() && (#[trigger] s[i]).0@ == k;
                (s[i].1.resolved_desc@, s[i].1.last_frame_used)
            },
    )
}

/// The framebuffers of a list of entries, by handle: last frame of use.
pub open spec fn frame_map<F>(s: Seq<(Handle<F>, u64)>) -> Map<(u32, u32), u64> {
    Map::new(
        |k: (u32, u32)| exists|i: int| 0 <= i < s.len() && (#[trigger] s[i]).0@ == k,
        |k: (u32, u32)|
            {
                let i = choose|i: int| 0 <= i < s.len() && (#[trigger] s[i]).0@ == k;
                s[i].1
            },
    )
}

/// The images of `s`, in order, last used more than `limit` frames before
/// frame `i_frame`.
pub open spec fn stale_images<I, D>(s: Seq<(Handle<I>, ImageMetadata<D>)>, i_frame: u64, limit: int) -> Seq<
    (u32, u32),
>
    decreases s.len(),
{
    if s.len() == 0 {
        Seq::empty()
    } else {
        let rest = stale_images(s.drop_last(), i_frame, limit);
        if s.last().1.last_frame_used + limit < i_frame {
            rest.push(s.last().0@)
        } else {
            rest
        }
    }
}

/// The framebuffers of `s`, in order, last used more than `limit` frames
/// before frame `i_frame`.
pub open spec fn stale_framebuffers<F>(s: Seq<(Handle<F>, u64)>, i_frame: u64, limit: int) -> Seq<
    (u32, u32),
>
    decreases s.len(),
{
    if s.len() == 0 {
        Seq::empty()
    } else {
        let rest = stale_framebuffers(s.drop_last(), i_frame, limit);
        if s.last().1 + limit < i_frame {
            rest.push(s.last().0@)
        } else {
            rest
        }
    }
}

/// The largest frame number the registry accepts, so that its staleness
/// thresholds do not overflow.
pub open spec fn max_frame() -> u64 {
    (u64::MAX - 19) as u64
}

/// The handles of `s`, by view, in order.
pub open spec fn handle_views<T>(s: Seq<Handle<T>>) -> Seq<(u32, u32)> {
    s.map_values(|h: Handle<T>| h@)
}

/// The images of `m` used at most `limit` frames before frame `i_frame`.
pub open spec fn recent_images(m: Map<(u32, u32), ((u32, u32), u64)>, i_frame: u64, limit: int) -> Map<
    (u32, u32),
    ((u32, u32), u64),
> {
    Map::new(|k: (u32, u32)| m.contains_key(k) && i_frame <= m[k].1 + limit, |k: (u32, u32)| m[k])
}

/// The framebuffers of `m` used at most `limit` frames before frame `i_frame`.
pub open spec fn recent_framebuffers(m: Map<(u32, u32), u64>, i_frame: u64, limit: int) -> Map<(u32, u32), u64> {
    Map::new(|k: (u32, u32)| m.contains_key(k) && i_frame <= m[k] + limit, |k: (u32, u32)| m[k])
}

/// No two entries of `s` share a handle.
pub open spec fn unique_keys<K, V>(s: Seq<(Handle<K>, V)>) -> bool {
    forall|i: int, j: int|
        0 <= i < s.len() && 0 <= j < s.len() && i != j ==> (#[trigger] s[i]).0@ != (#[trigger] s[j]).0@
}

impl<I, F, D> ResourceRegistry<I, F, D> {
    pub closed spec fn images(&self) -> Map<(u32, u32), ((u32, u32), u64)> {
        image_map(self.image_pool@)
    }

    pub closed spec fn framebuffer_uses(&self) -> Map<(u32, u32), u64> {
        frame_map(self.framebuffer_pool@)
    }

    /// The framebuffers, in the order `resolve` searches them.
    pub closed spec fn framebuffer_list(&self) -> Seq<(u32, u32)> {
        handle_views(self.framebuffers@)
    }

    pub closed spec fn spec_i_frame(&self) -> u64 {
        self.i_frame
    }

    /// Handles are unique, the framebuffer list holds each tracked
    /// framebuffer once, and frame numbers stay below `max_frame()`.
    pub closed spec fn wf(&self) -> bool {
        &&& unique_keys(self.image_pool@)
        &&& unique_keys(self.framebuffer_pool@)
        &&& self.framebuffer_list().no_duplicates()
        &&& forall|x: (u32, u32)| #[trigger] self.framebuffer_list().contains(x) <==> self.framebuffer_uses().contains_key(x)
        &&& self.i_frame <= max_frame()
        &&& forall|i: int| 0 <= i < self.image_pool@.len() ==> (#[trigger] self.image_pool@[i]).1.last_frame_used <= max_frame()
        &&& forall|i: int| 0 <= i < self.framebuffer_pool@.len() ==> (#[trigger] self.framebuffer_pool@[i]).1 <= max_frame()
    }

    /// An empty registry at frame 0.
    pub fn new() -> (r: Self)
        ensures
            r.wf(),
            r.images() == Map::<(u32, u32), ((u32, u32), u64)>::empty(),
            r.framebuffer_uses() == Map::<(u32, u32), u64>::empty(),
            r.framebuffer_list() == Seq::<(u32, u32)>::empty(),
            r.spec_i_frame() == 0,
    {
        let r = ResourceRegistry {
            image_pool: Vec::new(),
            framebuffers: Vec::new(),
            framebuffer_pool: Vec::new(),
            i_frame: 0,
        };
        assert(r.images() =~= Map::<(u32, u32), ((u32, u32), u64)>::empty());
        assert(r.framebuffer_uses() =~= Map::<(u32, u32), u64>::empty());
        assert(r.framebuffer_list() =~= Seq::<(u32, u32)>::empty());
        r
    }
}

proof fn lemma_image_map_at<I, D>(s: Seq<(Handle<I>, ImageMetadata<D>)>, i: int)
    requires
        unique_keys(s),
        0 <= i < s.len(),
    ensures
        image_map(s).contains_key(s[i].0@),
        image_map(s)[s[i].0@] == (s[i].1.resolved_desc@, s[i].1.last_frame_used),
{
    let k = s[i].0@;
    let j = choose|j: int| 0 <= j < s.len() && (#[trigger] s[j]).0@ == k;
    assert(j == i);
}

proof fn lemma_frame_map_at<F>(s: Seq<(Handle<F>, u64)>, i: int)
    requires
        unique_keys(s),
        0 <= i < s.len(),
    ensures
        frame_map(s).contains_key(s[i].0@),
        frame_map(s)[s[i].0@] == s[i].1,
{
    let k = s[i].0@;
    let j = choose|j: int| 0 <= j < s.len() && (#[trigger] s[j]).0@ == k;
    assert(j == i);
}

/// The position of the entry keyed by `h`.
fn image_position<I, D>(s: &Vec<(Handle<I>, ImageMetadata<D>)>, h: Handle<I>) -> (r: Option<usize>)
    ensures
        match r {
            Some(p) => p < s@.len() && s@[p as int].0@ == h@,
            None => forall|i: int| 0 <= i < s@.len() ==> (#[trigger] s@[i]).0@ != h@,
        },
{
    let n = s.len();
    let mut p: usize = 0;
    while p < n
        invariant
            n == s@.len(),
            p <= n,
            forall|i: int| 0 <= i < p ==> (#[trigger] s@[i]).0@ != h@,
        decreases n - p,
    {
        if s[p].0.same(&h) {
            return Some(p);
        }
        p = p + 1;
    }
    None
}

/// The position of the entry keyed by `h`.
fn frame_position<F>(s: &Vec<(Handle<F>, u64)>, h: Handle<F>) -> (r: Option<usize>)
    ensures
        match r {
            Some(p) => p < s@.len() && s@[p as int].0@ == h@,
            None => forall|i: int| 0 <= i < s@.len() ==> (#[trigger] s@[i]).0@ != h@,
        },
{
    let n = s.len();
    let mut p: usize = 0;
    while p < n
        invariant
            n == s@.len(),
            p <= n,
            forall|i: int| 0 <= i < p ==> (#[trigger] s@[i]).0@ != h@,
        decreases n - p,
    {
        if s[p].0.same(&h) {
            return Some(p);
        }
        p = p + 1;
    }
    None
}

impl<I, F, D> ResourceRegistry<I, F, D> {
    /// Records that `image` is used this frame; an image seen for the first
    /// time is bound to `desc`.
    pub fn update_image_metadata(&mut self, image: Handle<I>, desc: Handle<D>)
        requires
            old(self).wf(),
        ensures
            final(self).wf(),
            final(self).images() == old(self).images().insert(
                image@,
                (
                    if old(self).images().contains_key(image@) {
                        old(self).images()[image@].0
                    } else {
                        desc@
                    },
                    old(self).spec_i_frame(),
                ),
            ),
            final(self).framebuffer_uses() == old(self).framebuffer_uses(),
            final(self).framebuffer_list() == old(self).framebuffer_list(),
            final(self).spec_i_frame() == old(self).spec_i_frame(),
    {
        let ghost before = self.image_pool@;
        let i_frame = self.i_frame;
        match image_position(&self.image_pool, image) {
            Some(p) => {
                let entry = &mut self.image_pool[p];
                entry.1.last_frame_used = i_frame;
                proof {
                    let after = self.image_pool@;
                    lemma_image_map_at(before, p as int);
                    assert(unique_keys(after)) by {
                        assert forall|a: int, b: int| 0 <= a < after.len() && 0 <= b < after.len() && a != b implies (#[trigger] after[a]).0@ != (#[trigger] after[b]).0@ by {
                            assert(after[a].0 == before[a].0 && after[b].0 == before[b].0);
                        }
                    }
                    let m = image_map(after);
                    let e = image_map(before).insert(image@, (before[p as int].1.resolved_desc@, i_frame));
                    assert forall|k: (u32, u32)| #[trigger] m.contains_key(k) <==> e.contains_key(k) by {
                        if m.contains_key(k) {
                            let i = choose|i: int| 0 <= i < after.len() && (#[trigger] after[i]).0@ == k;
                            assert(before[i].0 == after[i].0);
                        }
                        if image_map(before).contains_key(k) {
                            let i = choose|i: int| 0 <= i < before.len() && (#[trigger] before[i]).0@ == k;
                            assert(before[i].0 == after[i].0);
                        }
                    }
                    assert forall|k: (u32, u32)| #[trigger] m.contains_key(k) implies m[k] == e[k] by {
                        let i = choose|i: int| 0 <= i < after.len() && (#[trigger] after[i]).0@ == k;
                        lemma_image_map_at(after, i);
                        if i != p {
                            assert(after[i] == before[i]);
                            lemma_image_map_at(before, i);
                        }
                    }
                    assert(m =~= e);
                }
            },
            None => {
                self.image_pool.push((image, ImageMetadata { resolved_desc: desc, last_frame_used: i_frame }));
                proof {
                    let after = self.image_pool@;
                    assert(!image_map(before).contains_key(image@));
                    assert(unique_keys(after)) by {
                        assert forall|a: int, b: int| 0 <= a < after.len() && 0 <= b < after.len() && a != b implies (#[trigger] after[a]).0@ != (#[trigger] after[b]).0@ by {
                            if a < before.len() && b < before.len() {
                                assert(after[a] == before[a] && after[b] == before[b]);
                            } else if a < before.len() {
                                assert(after[a] == before[a]);
                            } else {
                                assert(after[b] == before[b]);
                            }
                        }
                    }
                    let m = image_map(after);
                    let e = image_map(before).insert(image@, (desc@, i_frame));
                    assert forall|k: (u32, u32)| #[trigger] m.contains_key(k) <==> e.contains_key(k) by {
                        if m.contains_key(k) {
                            let i = choose|i: int| 0 <= i < after.len() && (#[trigger] after[i]).0@ == k;
                            if i < before.len() {
                                assert(before[i] == after[i]);
                            }
                        }
                        if image_map(before).contains_key(k) {
                            let i = choose|i: int| 0 <= i < before.len() && (#[trigger] before[i]).0@ == k;
                            assert(before[i] == after[i]);
                        }
                        if k == image@ {
                            assert(after[before.len() as int].0@ == k);
                        }
                    }
                    assert forall|k: (u32, u32)| #[trigger] m.contains_key(k) implies m[k] == e[k] by {
                        let i = choose|i: int| 0 <= i < after.len() && (#[trigger] after[i]).0@ == k;
                        lemma_image_map_at(after, i);
                        if i < before.len() {
                            assert(after[i] == before[i]);
                            lemma_image_map_at(before, i);
                        }
                    }
                    assert(m =~= e);
                }
            },
        }
    }

    /// Records that `framebuffer` is used this frame.
    fn update_framebuffer_metadata(&mut self, framebuffer: Handle<F>)
        requires
            unique_keys(old(self).framebuffer_pool@),
            old(self).i_frame <= max_frame(),
            forall|i: int| 0 <= i < old(self).framebuffer_pool@.len() ==> (#[trigger] old(self).framebuffer_pool@[i]).1 <= max_frame(),
        ensures
            unique_keys(final(self).framebuffer_pool@),
            forall|i: int| 0 <= i < final(self).framebuffer_pool@.len() ==> (#[trigger] final(self).framebuffer_pool@[i]).1 <= max_frame(),
            final(self).framebuffer_uses() == old(self).framebuffer_uses().insert(framebuffer@, old(self).i_frame),
            final(self).image_pool == old(self).image_pool,
            final(self).framebuffers == old(self).framebuffers,
            final(self).i_frame == old(self).i_frame,
    {
        let ghost before = self.framebuffer_pool@;
        let i_frame = self.i_frame;
        match frame_position(&self.framebuffer_pool, framebuffer) {
            Some(p) => {
                let entry = &mut self.framebuffer_pool[p];
                entry.1 = i_frame;
                proof {
                    let after = self.framebuffer_pool@;
                    assert(unique_keys(after)) by {
                        assert forall|a: int, b: int| 0 <= a < after.len() && 0 <= b < after.len() && a != b implies (#[trigger] after[a]).0@ != (#[trigger] after[b]).0@ by {
                            assert(after[a].0 == before[a].0 && after[b].0 == before[b].0);
                        }
                    }
                    let m = frame_map(after);
                    let e = frame_map(before).insert(framebuffer@, i_frame);
                    assert forall|k: (u32, u32)| #[trigger] m.contains_key(k) <==> e.contains_key(k) by {
                        if m.contains_key(k) {
                            let i = choose|i: int| 0 <= i < after.len() && (#[trigger] after[i]).0@ == k;
                            assert(before[i].0 == after[i].0);
                        }
                        if frame_map(before).contains_key(k) {
                            let i = choose|i: int| 0 <= i < before.len() && (#[trigger] before[i]).0@ == k;
                            assert(before[i].0 == after[i].0);
                        }
                        if k == framebuffer@ {
                            assert(before[p as int].0@ == k);
                        }
                    }
                    assert forall|k: (u32, u32)| #[trigger] m.contains_key(k) implies m[k] == e[k] by {
                        let i = choose|i: int| 0 <= i < after.len() && (#[trigger] after[i]).0@ == k;
                        lemma_frame_map_at(after, i);
                        if i != p {
                            assert(after[i] == before[i]);
                            lemma_frame_map_at(before, i);
                        }
                    }
                    assert(m =~= e);
                }
            },
            None => {
                self.framebuffer_pool.push((framebuffer, i_frame));
                proof {
                    let after = self.framebuffer_pool@;
                    assert(unique_keys(after)) by {
                        assert forall|a: int, b: int| 0 <= a < after.len() && 0 <= b < after.len() && a != b implies (#[trigger] after[a]).0@ != (#[trigger] after[b]).0@ by {
                            if a < before.len() && b < before.len() {
                                assert(after[a] == before[a] && after[b] == before[b]);
                            } else if a < before.len() {
                                assert(after[a] == before[a]);
                            } else {
                                assert(after[b] == before[b]);
                            }
                        }
                    }
                    let m = frame_map(after);
                    let e = frame_map(before).insert(framebuffer@, i_frame);
                    assert forall|k: (u32, u32)| #[trigger] m.contains_key(k) <==> e.contains_key(k) by {
                        if m.contains_key(k) {
                            let i = choose|i: int| 0 <= i < after.len() && (#[trigger] after[i]).0@ == k;
                            if i < before.len() {
                                assert(before[i] == after[i]);
                            }
                        }
                        if frame_map(before).contains_key(k) {
                            let i = choose|i: int| 0 <= i < before.len() && (#[trigger] before[i]).0@ == k;
                            assert(before[i] == after[i]);
                        }
                        if k == framebuffer@ {
                            assert(after[before.len() as int].0@ == k);
                        }
                    }
                    assert forall|k: (u32, u32)| #[trigger] m.contains_key(k) implies m[k] == e[k] by {
                        let i = choose|i: int| 0 <= i < after.len() && (#[trigger] after[i]).0@ == k;
                        lemma_frame_map_at(after, i);
                        if i < before.len() {
                            assert(after[i] == before[i]);
                            lemma_frame_map_at(before, i);
                        }
                    }
                    assert(m =~= e);
                }
            },
        }
    }

    /// Records that a framebuffer the registry already tracks is used this
    /// frame.
    pub fn touch_framebuffer(&mut self, framebuffer: Handle<F>)
        requires
            old(self).wf(),
            old(self).framebuffer_uses().contains_key(framebuffer@),
        ensures
            final(self).wf(),
            final(self).framebuffer_uses() == old(self).framebuffer_uses().insert(framebuffer@, old(self).spec_i_frame()),
            final(self).framebuffer_list() == old(self).framebuffer_list(),
            final(self).images() == old(self).images(),
            final(self).spec_i_frame() == old(self).spec_i_frame(),
    {
        self.update_framebuffer_metadata(framebuffer);
        proof {
            assert(self.framebuffer_uses().dom() =~= old(self).framebuffer_uses().dom());
        }
    }

    /// Starts tracking a new framebuffer, used this frame; it goes last in
    /// the search order.
    pub fn register_framebuffer(&mut self, framebuffer: Handle<F>)
        requires
            old(self).wf(),
            !old(self).framebuffer_uses().contains_key(framebuffer@),
        ensures
            final(self).wf(),
            final(self).framebuffer_uses() == old(self).framebuffer_uses().insert(framebuffer@, old(self).spec_i_frame()),
            final(self).framebuffer_list() == old(self).framebuffer_list().push(framebuffer@),
            final(self).images() == old(self).images(),
            final(self).spec_i_frame() == old(self).spec_i_frame(),
    {
        let ghost list = self.framebuffer_list();
        self.update_framebuffer_metadata(framebuffer);
        self.framebuffers.push(framebuffer);
        proof {
            let l = self.framebuffer_list();
            assert(l =~= list.push(framebuffer@));
            assert(!list.contains(framebuffer@));
            assert forall|a: int, b: int| 0 <= a < l.len() && 0 <= b < l.len() && a != b implies l[a] != l[b] by {
                if a < list.len() && b < list.len() {
                } else if a < list.len() {
                    assert(l[a] == list[a]);
                } else {
                    assert(l[b] == list[b]);
                }
            }
            assert forall|x: (u32, u32)| #[trigger] l.contains(x) <==> self.framebuffer_uses().contains_key(x) by {
                if l.contains(x) {
                    let a = choose|a: int| 0 <= a < l.len() && l[a] == x;
                    if a < list.len() {
                        assert(list[a] == x);
                        assert(list.contains(x));
                    }
                }
                if self.framebuffer_uses().contains_key(x) && x != framebuffer@ {
                    assert(list.contains(x));
                    let a = choose|a: int| 0 <= a < list.len() && list[a] == x;
                    assert(l[a] == x);
                }
                if x == framebuffer@ {
                    assert(l[list.len() as int] == x);
                }
            }
        }
    }
}

proof fn lemma_stale_images<I, D>(s: Seq<(Handle<I>, ImageMetadata<D>)>, i_frame: u64, limit: int)
    ensures
        forall|k: (u32, u32)|
            #[trigger] stale_images(s, i_frame, limit).contains(k) <==> exists|i: int|
                0 <= i < s.len() && (#[trigger] s[i]).0@ == k && s[i].1.last_frame_used + limit < i_frame,
        unique_keys(s) ==> stale_images(s, i_frame, limit).no_duplicates(),
    decreases s.len(),
{
    if s.len() > 0 {
        let t = s.drop_last();
        lemma_stale_images(t, i_frame, limit);
        let rest = stale_images(t, i_frame, limit);
        assert forall|k: (u32, u32)|
            #[trigger] stale_images(s, i_frame, limit).contains(k) <==> exists|i: int|
                0 <= i < s.len() && (#[trigger] s[i]).0@ == k && s[i].1.last_frame_used + limit < i_frame by {
            if stale_images(s, i_frame, limit).contains(k) {
                if rest.contains(k) {
                    let i = choose|i: int| 0 <= i < t.len() && (#[trigger] t[i]).0@ == k && t[i].1.last_frame_used + limit < i_frame;
                    assert(s[i] == t[i]);
                } else {
                    let r = stale_images(s, i_frame, limit);
                    let q = choose|q: int| 0 <= q < r.len() && r[q] == k;
                    if q < rest.len() {
                        assert(r[q] == rest[q]);
                    }
                    assert(s[s.len() - 1].0@ == k);
                }
            }
            if exists|i: int| 0 <= i < s.len() && (#[trigger] s[i]).0@ == k && s[i].1.last_frame_used + limit < i_frame {
                let i = choose|i: int| 0 <= i < s.len() && (#[trigger] s[i]).0@ == k && s[i].1.last_frame_used + limit < i_frame;
                let r = stale_images(s, i_frame, limit);
                if i < t.len() {
                    assert(t[i] == s[i]);
                    assert(rest.contains(k));
                    let q = choose|q: int| 0 <= q < rest.len() && rest[q] == k;
                    assert(r[q] == k);
                } else {
                    assert(r[r.len() - 1] == k);
                }
            }
        }
        if unique_keys(s) {
            assert(unique_keys(t)) by {
                assert forall|a: int, b: int| 0 <= a < t.len() && 0 <= b < t.len() && a != b implies (#[trigger] t[a]).0@ != (#[trigger] t[b]).0@ by {
                    assert(t[a] == s[a] && t[b] == s[b]);
                }
            }
            let r = stale_images(s, i_frame, limit);
            if s.last().1.last_frame_used + limit < i_frame {
                assert(!rest.contains(s.last().0@)) by {
                    if rest.contains(s.last().0@) {
                        let i = choose|i: int| 0 <= i < t.len() && (#[trigger] t[i]).0@ == s.last().0@ && t[i].1.last_frame_used + limit < i_frame;
                        assert(s[i] == t[i]);
                    }
                }
                assert forall|a: int, b: int| 0 <= a < r.len() && 0 <= b < r.len() && a != b implies r[a] != r[b] by {
                    if a < rest.len() && b < rest.len() {
                        assert(r[a] == rest[a] && r[b] == rest[b]);
                    } else if a < rest.len() {
                        assert(r[a] == rest[a]);
                    } else {
                        assert(r[b] == rest[b]);
                    }
                }
            }
        }
    }
}

proof fn lemma_stale_framebuffers<F>(s: Seq<(Handle<F>, u64)>, i_frame: u64, limit: int)
    ensures
        forall|k: (u32, u32)|
            #[trigger] stale_framebuffers(s, i_frame, limit).contains(k) <==> exists|i: int|
                0 <= i < s.len() && (#[trigger] s[i]).0@ == k && s[i].1 + limit < i_frame,
        unique_keys(s) ==> stale_framebuffers(s, i_frame, limit).no_duplicates(),
    decreases s.len(),
{
    if s.len() > 0 {
        let t = s.drop_last();
        lemma_stale_framebuffers(t, i_frame, limit);
        let rest = stale_framebuffers(t, i_frame, limit);
        assert forall|k: (u32, u32)|
            #[trigger] stale_framebuffers(s, i_frame, limit).contains(k) <==> exists|i: int|
                0 <= i < s.len() && (#[trigger] s[i]).0@ == k && s[i].1 + limit < i_frame by {
            if stale_framebuffers(s, i_frame, limit).contains(k) {
                if rest.contains(k) {
                    let i = choose|i: int| 0 <= i < t.len() && (#[trigger] t[i]).0@ == k && t[i].1 + limit < i_frame;
                    assert(s[i] == t[i]);
                } else {
                    let r = stale_framebuffers(s, i_frame, limit);
                    let q = choose|q: int| 0 <= q < r.len() && r[q] == k;
                    if q < rest.len() {
                        assert(r[q] == rest[q]);
                    }
                    assert(s[s.len() - 1].0@ == k);
                }
            }
            if exists|i: int| 0 <= i < s.len() && (#[trigger] s[i]).0@ == k && s[i].1 + limit < i_frame {
                let i = choose|i: int| 0 <= i < s.len() && (#[trigger] s[i]).0@ == k && s[i].1 + limit < i_frame;
                let r = stale_framebuffers(s, i_frame, limit);
                if i < t.len() {
                    assert(t[i] == s[i]);
                    assert(rest.contains(k));
                    let q = choose|q: int| 0 <= q < rest.len() && rest[q] == k;
                    assert(r[q] == k);
                } else {
                    assert(r[r.len() - 1] == k);
                }
            }
        }
        if unique_keys(s) {
            assert(unique_keys(t)) by {
                assert forall|a: int, b: int| 0 <= a < t.len() && 0 <= b < t.len() && a != b implies (#[trigger] t[a]).0@ != (#[trigger] t[b]).0@ by {
                    assert(t[a] == s[a] && t[b] == s[b]);
                }
            }
            let r = stale_framebuffers(s, i_frame, limit);
            if s.last().1 + limit < i_frame {
                assert(!rest.contains(s.last().0@)) by {
                    if rest.contains(s.last().0@) {
                        let i = choose|i: int| 0 <= i < t.len() && (#[trigger] t[i]).0@ == s.last().0@ && t[i].1 + limit < i_frame;
                        assert(s[i] == t[i]);
                    }
                }
                assert forall|a: int, b: int| 0 <= a < r.len() && 0 <= b < r.len() && a != b implies r[a] != r[b] by {
                    if a < rest.len() && b < rest.len() {
                        assert(r[a] == rest[a] && r[b] == rest[b]);
                    } else if a < rest.len() {
                        assert(r[a] == rest[a]);
                    } else {
                        assert(r[b] == rest[b]);
                    }
                }
            }
        }
    }
}

/// Removing position `p` by moving the last element there keeps the others,
/// each once.
proof fn lemma_swap_remove_distinct<A>(s: Seq<A>, p: int)
    requires
        s.no_duplicates(),
        0 <= p < s.len(),
    ensures
        s.update(p, s.last()).drop_last().no_duplicates(),
        forall|x: A| #[trigger] s.update(p, s.last()).drop_last().contains(x) <==> s.contains(x) && x != s[p],
{
    let t = s.update(p, s.last()).drop_last();
    let n = s.len() as int;
    assert forall|a: int, b: int| 0 <= a < t.len() && 0 <= b < t.len() && a != b implies t[a] != t[b] by {
        let ia = if a == p { n - 1 } else { a };
        let ib = if b == p { n - 1 } else { b };
        assert(t[a] == s[ia]);
        assert(t[b] == s[ib]);
    }
    assert forall|x: A| #[trigger] t.contains(x) <==> s.contains(x) && x != s[p] by {
        if t.contains(x) {
            let a = choose|a: int| 0 <= a < t.len() && t[a] == x;
            let ia = if a == p { n - 1 } else { a };
            assert(t[a] == s[ia]);
            assert(s.contains(x));
        }
        if s.contains(x) && x != s[p] {
            let i = choose|i: int| 0 <= i < s.len() && s[i] == x;
            if i == n - 1 {
                assert(t[p] == x);
            } else {
                assert(t[i] == x);
            }
        }
    }
}

/// The entries kept by a sweep describe the recent images of the swept ones.
proof fn lemma_kept_images<I, D>(
    s: Seq<(Handle<I>, ImageMetadata<D>)>,
    kept: Seq<(Handle<I>, ImageMetadata<D>)>,
    i_frame: u64,
    limit: int,
)
    requires
        unique_keys(s),
        unique_keys(kept),
        forall|j: int| 0 <= j < kept.len() ==> s.contains(#[trigger] kept[j]) && i_frame <= kept[j].1.last_frame_used + limit,
        forall|i: int| 0 <= i < s.len() && i_frame <= s[i].1.last_frame_used + limit ==> kept.contains(#[trigger] s[i]),
    ensures
        image_map(kept) == recent_images(image_map(s), i_frame, limit),
{
    let m1 = image_map(kept);
    let m2 = recent_images(image_map(s), i_frame, limit);
    assert forall|k: (u32, u32)| #[trigger] m1.contains_key(k) <==> m2.contains_key(k) by {
        if m1.contains_key(k) {
            let j = choose|j: int| 0 <= j < kept.len() && (#[trigger] kept[j]).0@ == k;
            assert(s.contains(kept[j]));
            let i = choose|i: int| 0 <= i < s.len() && s[i] == kept[j];
            lemma_image_map_at(s, i);
        }
        if m2.contains_key(k) {
            let i = choose|i: int| 0 <= i < s.len() && (#[trigger] s[i]).0@ == k;
            lemma_image_map_at(s, i);
            assert(kept.contains(s[i]));
            let j = choose|j: int| 0 <= j < kept.len() && kept[j] == s[i];
            assert(kept[j].0@ == k);
        }
    }
    assert forall|k: (u32, u32)| #[trigger] m1.contains_key(k) implies m1[k] == m2[k] by {
        let j = choose|j: int| 0 <= j < kept.len() && (#[trigger] kept[j]).0@ == k;
        lemma_image_map_at(kept, j);
        assert(s.contains(kept[j]));
        let i = choose|i: int| 0 <= i < s.len() && s[i] == kept[j];
        lemma_image_map_at(s, i);
    }
    assert(m1 =~= m2);
}

/// The entries kept by a sweep describe the recent framebuffers of the swept
/// ones.
proof fn lemma_kept_framebuffers<F>(s: Seq<(Handle<F>, u64)>, kept: Seq<(Handle<F>, u64)>, i_frame: u64, limit: int)
    requires
        unique_keys(s),
        unique_keys(kept),
        forall|j: int| 0 <= j < kept.len() ==> s.contains(#[trigger] kept[j]) && i_frame <= kept[j].1 + limit,
        forall|i: int| 0 <= i < s.len() && i_frame <= s[i].1 + limit ==> kept.contains(#[trigger] s[i]),
    ensures
        frame_map(kept) == recent_framebuffers(frame_map(s), i_frame, limit),
{
    let m1 = frame_map(kept);
    let m2 = recent_framebuffers(frame_map(s), i_frame, limit);
    assert forall|k: (u32, u32)| #[trigger] m1.contains_key(k) <==> m2.contains_key(k) by {
        if m1.contains_key(k) {
            let j = choose|j: int| 0 <= j < kept.len() && (#[trigger] kept[j]).0@ == k;
            assert(s.contains(kept[j]));
            let i = choose|i: int| 0 <= i < s.len() && s[i] == kept[j];
            lemma_frame_map_at(s, i);
        }
        if m2.contains_key(k) {
            let i = choose|i: int| 0 <= i < s.len() && (#[trigger] s[i]).0@ == k;
            lemma_frame_map_at(s, i);
            assert(kept.contains(s[i]));
            let j = choose|j: int| 0 <= j < kept.len() && kept[j] == s[i];
            assert(kept[j].0@ == k);
        }
    }
    assert forall|k: (u32, u32)| #[trigger] m1.contains_key(k) implies m1[k] == m2[k] by {
        let j = choose|j: int| 0 <= j < kept.len() && (#[trigger] kept[j]).0@ == k;
        lemma_frame_map_at(kept, j);
        assert(s.contains(kept[j]));
        let i = choose|i: int| 0 <= i < s.len() && s[i] == kept[j];
        lemma_frame_map_at(s, i);
    }
    assert(m1 =~= m2);
}

/// Splits the images by age: those to unbind, those to destroy, and the
/// entries that stay.
fn sweep_images<I, D>(pool: &Vec<(Handle<I>, ImageMetadata<D>)>, i_frame: u64) -> (r: (
    Vec<Handle<I>>,
    Vec<Handle<I>>,
    Vec<(Handle<I>, ImageMetadata<D>)>,
))
    requires
        unique_keys(pool@),
        forall|i: int| 0 <= i < pool@.len() ==> (#[trigger] pool@[i]).1.last_frame_used <= max_frame(),
    ensures
        handle_views(r.0@) == stale_images(pool@, i_frame, 2),
        handle_views(r.1@) == stale_images(pool@, i_frame, 19),
        unique_keys(r.2@),
        forall|j: int| 0 <= j < r.2@.len() ==> pool@.contains(#[trigger] r.2@[j]) && i_frame <= r.2@[j].1.last_frame_used + 19,
        forall|i: int| 0 <= i < pool@.len() && i_frame <= pool@[i].1.last_frame_used + 19 ==> r.2@.contains(#[trigger] pool@[i]),
{
    let ghost s = pool@;
    let mut unbind: Vec<Handle<I>> = Vec::new();
    let mut destroy: Vec<Handle<I>> = Vec::new();
    let mut kept: Vec<(Handle<I>, ImageMetadata<D>)> = Vec::new();
    let n = pool.len();
    let mut p: usize = 0;
    while p < n
        invariant
            n == s.len(),
            s == pool@,
            p <= n,
            unique_keys(s),
            forall|i: int| 0 <= i < s.len() ==> (#[trigger] s[i]).1.last_frame_used <= max_frame(),
            handle_views(unbind@) == stale_images(s.take(p as int), i_frame, 2),
            handle_views(destroy@) == stale_images(s.take(p as int), i_frame, 19),
            unique_keys(kept@),
            forall|j: int| 0 <= j < kept@.len() ==> exists|i: int| 0 <= i < p && s[i] == #[trigger] kept@[j],
            forall|j: int| 0 <= j < kept@.len() ==> i_frame <= (#[trigger] kept@[j]).1.last_frame_used + 19,
            forall|i: int| 0 <= i < p && i_frame <= s[i].1.last_frame_used + 19 ==> kept@.contains(#[trigger] s[i]),
        decreases n - p,
    {
        let e = pool[p];
        proof {
            assert(s.take(p + 1).drop_last() =~= s.take(p as int));
            assert(s.take(p + 1).last() == e);
        }
        if e.1.last_frame_used + 2 < i_frame {
            unbind.push(e.0);
        }
        if e.1.last_frame_used + 19 < i_frame {
            destroy.push(e.0);
        } else {
            let ghost before = kept@;
            kept.push(e);
            proof {
                let after = kept@;
                assert forall|a: int, b: int| 0 <= a < after.len() && 0 <= b < after.len() && a != b implies (#[trigger] after[a]).0@ != (#[trigger] after[b]).0@ by {
                    if a < before.len() && b < before.len() {
                        assert(after[a] == before[a] && after[b] == before[b]);
                    } else if a < before.len() {
                        assert(after[a] == before[a]);
                        let i = choose|i: int| 0 <= i < p && s[i] == before[a];
                        assert(after[b] == s[p as int]);
                    } else {
                        assert(after[b] == before[b]);
                        let i = choose|i: int| 0 <= i < p && s[i] == before[b];
                        assert(after[a] == s[p as int]);
                    }
                }
                assert forall|j: int| 0 <= j < after.len() implies exists|i: int| 0 <= i < p + 1 && s[i] == #[trigger] after[j] by {
                    if j < before.len() {
                        assert(after[j] == before[j]);
                    } else {
                        assert(s[p as int] == after[j]);
                    }
                }
                assert forall|i: int| 0 <= i < p + 1 && i_frame <= s[i].1.last_frame_used + 19 implies after.contains(#[trigger] s[i]) by {
                    if i < p {
                        let j = choose|j: int| 0 <= j < before.len() && before[j] == s[i];
                        assert(after[j] == s[i]);
                    } else {
                        assert(after[before.len() as int] == s[i]);
                    }
                }
            }
        }
        proof {
            assert(handle_views(unbind@) =~= stale_images(s.take(p + 1), i_frame, 2));
            assert(handle_views(destroy@) =~= stale_images(s.take(p + 1), i_frame, 19));
        }
        p = p + 1;
    }
    proof {
        assert(s.take(n as int) =~= s);
    }
    (unbind, destroy, kept)
}

/// Splits the framebuffers by age: those to destroy and the entries that
/// stay.
fn sweep_framebuffers<F>(pool: &Vec<(Handle<F>, u64)>, i_frame: u64) -> (r: (Vec<Handle<F>>, Vec<(Handle<F>, u64)>))
    requires
        unique_keys(pool@),
        forall|i: int| 0 <= i < pool@.len() ==> (#[trigger] pool@[i]).1 <= max_frame(),
    ensures
        handle_views(r.0@) == stale_framebuffers(pool@, i_frame, 3),
        unique_keys(r.1@),
        forall|j: int| 0 <= j < r.1@.len() ==> pool@.contains(#[trigger] r.1@[j]) && i_frame <= r.1@[j].1 + 3,
        forall|i: int| 0 <= i < pool@.len() && i_frame <= pool@[i].1 + 3 ==> r.1@.contains(#[trigger] pool@[i]),
{
    let ghost s = pool@;
    let mut destroy: Vec<Handle<F>> = Vec::new();
    let mut kept: Vec<(Handle<F>, u64)> = Vec::new();
    let n = pool.len();
    let mut p: usize = 0;
    while p < n
        invariant
            n == s.len(),
            s == pool@,
            p <= n,
            unique_keys(s),
            forall|i: int| 0 <= i < s.len() ==> (#[trigger] s[i]).1 <= max_frame(),
            handle_views(destroy@) == stale_framebuffers(s.take(p as int), i_frame, 3),
            unique_keys(kept@),
            forall|j: int| 0 <= j < kept@.len() ==> exists|i: int| 0 <= i < p && s[i] == #[trigger] kept@[j],
            forall|j: int| 0 <= j < kept@.len() ==> i_frame <= (#[trigger] kept@[j]).1 + 3,
            forall|i: int| 0 <= i < p && i_frame <= s[i].1 + 3 ==> kept@.contains(#[trigger] s[i]),
        decreases n - p,
    {
        let e = pool[p];
        proof {
            assert(s.take(p + 1).drop_last() =~= s.take(p as int));
            assert(s.take(p + 1).last() == e);
        }
        if e.1 + 3 < i_frame {
            destroy.push(e.0);
        } else {
            let ghost before = kept@;
            kept.push(e);
            proof {
                let after = kept@;
                assert forall|a: int, b: int| 0 <= a < after.len() && 0 <= b < after.len() && a != b implies (#[trigger] after[a]).0@ != (#[trigger] after[b]).0@ by {
                    if a < before.len() && b < before.len() {
                        assert(after[a] == before[a] && after[b] == before[b]);
                    } else if a < before.len() {
                        assert(after[a] == before[a]);
                        let i = choose|i: int| 0 <= i < p && s[i] == before[a];
                        assert(after[b] == s[p as int]);
                    } else {
                        assert(after[b] == before[b]);
                        let i = choose|i: int| 0 <= i < p && s[i] == before[b];
                        assert(after[a] == s[p as int]);
                    }
                }
                assert forall|j: int| 0 <= j < after.len() implies exists|i: int| 0 <= i < p + 1 && s[i] == #[trigger] after[j] by {
                    if j < before.len() {
                        assert(after[j] == before[j]);
                    } else {
                        assert(s[p as int] == after[j]);
                    }
                }
                assert forall|i: int| 0 <= i < p + 1 && i_frame <= s[i].1 + 3 implies after.contains(#[trigger] s[i]) by {
                    if i < p {
                        let j = choose|j: int| 0 <= j < before.len() && before[j] == s[i];
                        assert(after[j] == s[i]);
                    } else {
                        assert(after[before.len() as int] == s[i]);
                    }
                }
            }
        }
        proof {
            assert(handle_views(destroy@) =~= stale_framebuffers(s.take(p + 1), i_frame, 3));
        }
        p = p + 1;
    }
    proof {
        assert(s.take(n as int) =~= s);
    }
    (destroy, kept)
}

/// The position of `h` in `list`.
fn list_position<F>(list: &Vec<Handle<F>>, h: Handle<F>) -> (r: Option<usize>)
    ensures
        match r {
            Some(p) => p < list@.len() && list@[p as int]@ == h@,
            None => !handle_views(list@).contains(h@),
        },
{
    let n = list.len();
    let mut p: usize = 0;
    while p < n
        invariant
            n == list@.len(),
            p <= n,
            forall|i: int| 0 <= i < p ==> (#[trigger] list@[i])@ != h@,
        decreases n - p,
    {
        if list[p].same(&h) {
            return Some(p);
        }
        p = p + 1;
    }
    proof {
        if handle_views(list@).contains(h@) {
            let i = choose|i: int| 0 <= i < handle_views(list@).len() && handle_views(list@)[i] == h@;
            assert(list@[i]@ == h@);
        }
    }
    None
}

/// Takes each handle of `gone` out of `list`, moving the last handle into
/// its place.
fn remove_framebuffers<F>(list: &mut Vec<Handle<F>>, gone: &Vec<Handle<F>>)
    requires
        handle_views(old(list)@).no_duplicates(),
    ensures
        handle_views(final(list)@).no_duplicates(),
        forall|x: (u32, u32)| #[trigger] handle_views(final(list)@).contains(x) <==> handle_views(old(list)@).contains(x) && !handle_views(gone@).contains(x),
{
    let ghost start = handle_views(list@);
    let m = gone.len();
    let mut q: usize = 0;
    while q < m
        invariant
            m == gone@.len(),
            q <= m,
            start == handle_views(old(list)@),
            handle_views(list@).no_duplicates(),
            forall|x: (u32, u32)| #[trigger] handle_views(list@).contains(x) <==> start.contains(x) && !handle_views(gone@.take(q as int)).contains(x),
        decreases m - q,
    {
        let h = gone[q];
        let ghost before = handle_views(list@);
        proof {
            assert(handle_views(gone@.take(q + 1)) =~= handle_views(gone@.take(q as int)).push(h@));
        }
        match list_position(list, h) {
            Some(p) => {
                list.swap_remove(p);
                proof {
                    lemma_swap_remove_distinct(before, p as int);
                    assert(handle_views(list@) =~= before.update(p as int, before.last()).drop_last());
                }
            },
            None => {},
        }
        proof {
            let g = handle_views(gone@.take(q + 1));
            assert forall|x: (u32, u32)| #[trigger] handle_views(list@).contains(x) <==> start.contains(x) && !g.contains(x) by {
                if g.contains(x) && x != h@ {
                    let i = choose|i: int| 0 <= i < g.len() && g[i] == x;
                    assert(handle_views(gone@.take(q as int))[i] == x);
                }
                if handle_views(gone@.take(q as int)).contains(x) {
                    let i = choose|i: int| 0 <= i < q && handle_views(gone@.take(q as int))[i] == x;
                    assert(g[i] == x);
                }
                if x == h@ {
                    assert(g[q as int] == x);
                }
            }
        }
        q = q + 1;
    }
    proof {
        assert(gone@.take(m as int) =~= gone@);
    }
}

/// The stale images of a registry's entries, stated over its image map.
proof fn lemma_stale_image_keys<I, D>(s: Seq<(Handle<I>, ImageMetadata<D>)>, i_frame: u64, limit: int)
    requires
        unique_keys(s),
    ensures
        stale_images(s, i_frame, limit).no_duplicates(),
        forall|k: (u32, u32)| #[trigger] stale_images(s, i_frame, limit).contains(k) <==> image_map(s).contains_key(k) && image_map(s)[k].1 + limit < i_frame,
{
    lemma_stale_images(s, i_frame, limit);
    assert forall|k: (u32, u32)| #[trigger] stale_images(s, i_frame, limit).contains(k) <==> image_map(s).contains_key(k) && image_map(s)[k].1 + limit < i_frame by {
        if stale_images(s, i_frame, limit).contains(k) {
            let i = choose|i: int| 0 <= i < s.len() && (#[trigger] s[i]).0@ == k && s[i].1.last_frame_used + limit < i_frame;
            lemma_image_map_at(s, i);
        }
        if image_map(s).contains_key(k) {
            let i = choose|i: int| 0 <= i < s.len() && (#[trigger] s[i]).0@ == k;
            lemma_image_map_at(s, i);
        }
    }
}

/// The stale framebuffers of a registry's entries, stated over its map of
/// uses.
proof fn lemma_stale_framebuffer_keys<F>(s: Seq<(Handle<F>, u64)>, i_frame: u64, limit: int)
    requires
        unique_keys(s),
    ensures
        stale_framebuffers(s, i_frame, limit).no_duplicates(),
        forall|k: (u32, u32)| #[trigger] stale_framebuffers(s, i_frame, limit).contains(k) <==> frame_map(s).contains_key(k) && frame_map(s)[k] + limit < i_frame,
{
    lemma_stale_framebuffers(s, i_frame, limit);
    assert forall|k: (u32, u32)| #[trigger] stale_framebuffers(s, i_frame, limit).contains(k) <==> frame_map(s).contains_key(k) && frame_map(s)[k] + limit < i_frame by {
        if stale_framebuffers(s, i_frame, limit).contains(k) {
            let i = choose|i: int| 0 <= i < s.len() && (#[trigger] s[i]).0@ == k && s[i].1 + limit < i_frame;
            lemma_frame_map_at(s, i);
        }
        if frame_map(s).contains_key(k) {
            let i = choose|i: int| 0 <= i < s.len() && (#[trigger] s[i]).0@ == k;
            lemma_frame_map_at(s, i);
        }
    }
}

impl<I, F, D> ResourceRegistry<I, F, D> {
    /// Moves to frame `i_frame` and says what to release. Images unused for
    /// 2 frames (last used more than 2 frames before `i_frame`) leave the
    /// bindless set; images unused for more than 19 frames and framebuffers
    /// unused for more than 3 frames are to be destroyed, and the registry
    /// stops tracking them.
    pub fn begin_frame(&mut self, i_frame: u64) -> (c: FrameCleanup<I, F>)
        requires
            old(self).wf(),
            i_frame <= max_frame(),
        ensures
            final(self).wf(),
            final(self).spec_i_frame() == i_frame,
            handle_views(c.images_to_unbind@).no_duplicates(),
            forall|k: (u32, u32)|
                #[trigger] handle_views(c.images_to_unbind@).contains(k) <==> old(self).images().contains_key(k)
                    && old(self).images()[k].1 + 2 < i_frame,
            handle_views(c.images_to_destroy@).no_duplicates(),
            forall|k: (u32, u32)|
                #[trigger] handle_views(c.images_to_destroy@).contains(k) <==> old(self).images().contains_key(k)
                    && old(self).images()[k].1 + 19 < i_frame,
            handle_views(c.framebuffers_to_destroy@).no_duplicates(),
            forall|k: (u32, u32)|
                #[trigger] handle_views(c.framebuffers_to_destroy@).contains(k) <==> old(self).framebuffer_uses().contains_key(k)
                    && old(self).framebuffer_uses()[k] + 3 < i_frame,
            final(self).images() == recent_images(old(self).images(), i_frame, 19),
            final(self).framebuffer_uses() == recent_framebuffers(old(self).framebuffer_uses(), i_frame, 3),
    {
        let ghost images = self.image_pool@;
        let ghost fbs = self.framebuffer_pool@;
        let ghost list = self.framebuffer_list();
        self.i_frame = i_frame;
        let (images_to_unbind, images_to_destroy, kept_images) = sweep_images(&self.image_pool, i_frame);
        let (framebuffers_to_destroy, kept_framebuffers) = sweep_framebuffers(&self.framebuffer_pool, i_frame);
        remove_framebuffers(&mut self.framebuffers, &framebuffers_to_destroy);
        self.framebuffer_pool = kept_framebuffers;
        self.image_pool = kept_images;
        proof {
            lemma_stale_image_keys(images, i_frame, 2);
            lemma_stale_image_keys(images, i_frame, 19);
            lemma_stale_framebuffer_keys(fbs, i_frame, 3);
            lemma_kept_images(images, self.image_pool@, i_frame, 19);
            lemma_kept_framebuffers(fbs, self.framebuffer_pool@, i_frame, 3);
            assert forall|i: int| 0 <= i < self.image_pool@.len() implies (#[trigger] self.image_pool@[i]).1.last_frame_used <= max_frame() by {
                assert(images.contains(self.image_pool@[i]));
            }
            assert forall|i: int| 0 <= i < self.framebuffer_pool@.len() implies (#[trigger] self.framebuffer_pool@[i]).1 <= max_frame() by {
                assert(fbs.contains(self.framebuffer_pool@[i]));
            }
            assert forall|x: (u32, u32)| #[trigger] self.framebuffer_list().contains(x) <==> self.framebuffer_uses().contains_key(x) by {
                assert(list.contains(x) <==> frame_map(fbs).contains_key(x));
            }
        }
        FrameCleanup { images_to_unbind, framebuffers_to_destroy, images_to_destroy }
    }
}

/// The images of `m`, with no description bound any more.
pub open spec fn unbound_images(m: Map<(u32, u32), ((u32, u32), u64)>) -> Map<(u32, u32), ((u32, u32), u64)> {
    Map::new(|k: (u32, u32)| m.contains_key(k), |k: (u32, u32)| ((u32::MAX, u32::MAX), m[k].1))
}

impl<I, F, D> ResourceRegistry<I, F, D> {
    /// Ends the frame: no image stays bound to a description.
    pub fn end_frame(&mut self)
        requires
            old(self).wf(),
        ensures
            final(self).wf(),
            final(self).images() == unbound_images(old(self).images()),
            final(self).framebuffer_uses() == old(self).framebuffer_uses(),
            final(self).framebuffer_list() == old(self).framebuffer_list(),
            final(self).spec_i_frame() == old(self).spec_i_frame(),
    {
        let ghost s = self.image_pool@;
        let n = self.image_pool.len();
        let mut unbound: Vec<(Handle<I>, ImageMetadata<D>)> = Vec::new();
        let mut p: usize = 0;
        while p < n
            invariant
                n == s.len(),
                s == self.image_pool@,
                p <= n,
                unbound@.len() == p,
                forall|i: int| 0 <= i < p ==> (#[trigger] unbound@[i]).0 == s[i].0
                    && unbound@[i].1.resolved_desc@ == (u32::MAX, u32::MAX)
                    && unbound@[i].1.last_frame_used == s[i].1.last_frame_used,
            decreases n - p,
        {
            let e = self.image_pool[p];
            unbound.push((e.0, ImageMetadata { resolved_desc: Handle::invalid(), last_frame_used: e.1.last_frame_used }));
            p = p + 1;
        }
        self.image_pool = unbound;
        proof {
            let t = self.image_pool@;
            assert(unique_keys(t)) by {
                assert forall|a: int, b: int| 0 <= a < t.len() && 0 <= b < t.len() && a != b implies (#[trigger] t[a]).0@ != (#[trigger] t[b]).0@ by {
                    assert(t[a].0 == s[a].0 && t[b].0 == s[b].0);
                }
            }
            assert forall|i: int| 0 <= i < t.len() implies (#[trigger] t[i]).1.last_frame_used <= max_frame() by {
                assert(t[i].1.last_frame_used == s[i].1.last_frame_used);
            }
            let m = image_map(t);
            let e = unbound_images(image_map(s));
            assert forall|k: (u32, u32)| #[trigger] m.contains_key(k) <==> e.contains_key(k) by {
                if m.contains_key(k) {
                    let i = choose|i: int| 0 <= i < t.len() && (#[trigger] t[i]).0@ == k;
                    assert(s[i].0 == t[i].0);
                }
                if e.contains_key(k) {
                    let i = choose|i: int| 0 <= i < s.len() && (#[trigger] s[i]).0@ == k;
                    assert(s[i].0 == t[i].0);
                }
            }
            assert forall|k: (u32, u32)| #[trigger] m.contains_key(k) implies m[k] == e[k] by {
                let i = choose|i: int| 0 <= i < t.len() && (#[trigger] t[i]).0@ == k;
                lemma_image_map_at(t, i);
                assert(s[i].0 == t[i].0);
                lemma_image_map_at(s, i);
            }
            assert(m =~= e);
        }
    }

    /// Stops tracking `image`, which its owner has destroyed.
    pub fn remove_image(&mut self, image: Handle<I>)
        requires
            old(self).wf(),
        ensures
            final(self).wf(),
            final(self).images() == old(self).images().remove(image@),
            final(self).framebuffer_uses() == old(self).framebuffer_uses(),
            final(self).framebuffer_list() == old(self).framebuffer_list(),
            final(self).spec_i_frame() == old(self).spec_i_frame(),
    {
        let ghost before = self.image_pool@;
        match image_position(&self.image_pool, image) {
            Some(p) => {
                self.image_pool.swap_remove(p);
                proof {
                    let after = self.image_pool@;
                    let n = before.len() as int;
                    assert forall|i: int| 0 <= i < after.len() implies #[trigger] after[i] == before[if i == p { n - 1 } else { i }] by {}
                    assert(unique_keys(after)) by {
                        assert forall|a: int, b: int| 0 <= a < after.len() && 0 <= b < after.len() && a != b implies (#[trigger] after[a]).0@ != (#[trigger] after[b]).0@ by {
                            assert(after[a] == before[if a == p { n - 1 } else { a }]);
                            assert(after[b] == before[if b == p { n - 1 } else { b }]);
                        }
                    }
                    assert forall|i: int| 0 <= i < after.len() implies (#[trigger] after[i]).1.last_frame_used <= max_frame() by {
                        assert(after[i] == before[if i == p { n - 1 } else { i }]);
                    }
                    let m = image_map(after);
                    let e = image_map(before).remove(image@);
                    assert forall|k: (u32, u32)| #[trigger] m.contains_key(k) <==> e.contains_key(k) by {
                        if m.contains_key(k) {
                            let i = choose|i: int| 0 <= i < after.len() && (#[trigger] after[i]).0@ == k;
                            let j = if i == p { n - 1 } else { i };
                            assert(after[i] == before[j]);
                            assert(j != p);
                        }
                        if e.contains_key(k) {
                            let i = choose|i: int| 0 <= i < before.len() && (#[trigger] before[i]).0@ == k;
                            assert(i != p);
                            if i == n - 1 {
                                assert(after[p as int] == before[i]);
                            } else {
                                assert(after[i] == before[i]);
                            }
                        }
                    }
                    assert forall|k: (u32, u32)| #[trigger] m.contains_key(k) implies m[k] == e[k] by {
                        let i = choose|i: int| 0 <= i < after.len() && (#[trigger] after[i]).0@ == k;
                        let j = if i == p { n - 1 } else { i };
                        assert(after[i] == before[j]);
                        lemma_image_map_at(after, i);
                        lemma_image_map_at(before, j);
                    }
                    assert(m =~= e);
                }
            },
            None => {
                proof {
                    assert(image_map(before).remove(image@) =~= image_map(before));
                }
            },
        }
    }

    /// The images bound to no description, each once.
    pub fn unresolved_images(&self) -> (r: Vec<Handle<I>>)
        requires
            self.wf(),
        ensures
            handle_views(r@).no_duplicates(),
            forall|k: (u32, u32)|
                #[trigger] handle_views(r@).contains(k) <==> self.images().contains_key(k) && self.images()[k].0 == (
                u32::MAX,
                u32::MAX,
            ),
    {
        let ghost s = self.image_pool@;
        let n = self.image_pool.len();
        let mut r: Vec<Handle<I>> = Vec::new();
        let mut p: usize = 0;
        while p < n
            invariant
                n == s.len(),
                s == self.image_pool@,
                p <= n,
                unique_keys(s),
                handle_views(r@).no_duplicates(),
                forall|k: (u32, u32)|
                    #[trigger] handle_views(r@).contains(k) <==> exists|i: int|
                        0 <= i < p && (#[trigger] s[i]).0@ == k && s[i].1.resolved_desc@ == (u32::MAX, u32::MAX),
            decreases n - p,
        {
            let e = self.image_pool[p];
            if !e.1.resolved_desc.is_valid() {
                let ghost before = handle_views(r@);
                r.push(e.0);
                proof {
                    let after = handle_views(r@);
                    assert(after =~= before.push(e.0@));
                    assert(!before.contains(e.0@)) by {
                        if before.contains(e.0@) {
                            let i = choose|i: int| 0 <= i < p && (#[trigger] s[i]).0@ == e.0@ && s[i].1.resolved_desc@ == (u32::MAX, u32::MAX);
                            assert(s[i].0@ != s[p as int].0@);
                        }
                    }
                    assert forall|a: int, b: int| 0 <= a < after.len() && 0 <= b < after.len() && a != b implies after[a] != after[b] by {
                        if a < before.len() && b < before.len() {
                        } else if a < before.len() {
                            assert(before.contains(after[a]));
                        } else {
                            assert(before.contains(after[b]));
                        }
                    }
                    assert forall|k: (u32, u32)|
                        #[trigger] after.contains(k) <==> exists|i: int|
                            0 <= i < p + 1 && (#[trigger] s[i]).0@ == k && s[i].1.resolved_desc@ == (u32::MAX, u32::MAX) by {
                        if after.contains(k) && k != e.0@ {
                            let a = choose|a: int| 0 <= a < after.len() && after[a] == k;
                            assert(before[a] == k);
                            assert(before.contains(k));
                        }
                        if k == e.0@ {
                            assert(after[before.len() as int] == k);
                        }
                        if exists|i: int| 0 <= i < p + 1 && (#[trigger] s[i]).0@ == k && s[i].1.resolved_desc@ == (u32::MAX, u32::MAX) {
                            if k != e.0@ {
                                assert(before.contains(k));
                                let a = choose|a: int| 0 <= a < before.len() && before[a] == k;
                                assert(after[a] == k);
                            }
                        }
                    }
                }
            } else {
                proof {
                    assert forall|k: (u32, u32)|
                        #[trigger] handle_views(r@).contains(k) <==> exists|i: int|
                            0 <= i < p + 1 && (#[trigger] s[i]).0@ == k && s[i].1.resolved_desc@ == (u32::MAX, u32::MAX) by {
                        if exists|i: int| 0 <= i < p + 1 && (#[trigger] s[i]).0@ == k && s[i].1.resolved_desc@ == (u32::MAX, u32::MAX) {
                            let i = choose|i: int| 0 <= i < p + 1 && (#[trigger] s[i]).0@ == k && s[i].1.resolved_desc@ == (u32::MAX, u32::MAX);
                            assert(i != p);
                        }
                    }
                }
            }
            p = p + 1;
        }
        proof {
            assert forall|k: (u32, u32)|
                #[trigger] handle_views(r@).contains(k) <==> self.images().contains_key(k) && self.images()[k].0 == (u32::MAX, u32::MAX) by {
                if self.images().contains_key(k) {
                    let i = choose|i: int| 0 <= i < s.len() && (#[trigger] s[i]).0@ == k;
                    lemma_image_map_at(s, i);
                }
                if handle_views(r@).contains(k) {
                    let i = choose|i: int| 0 <= i < n && (#[trigger] s[i]).0@ == k && s[i].1.resolved_desc@ == (u32::MAX, u32::MAX);
                    lemma_image_map_at(s, i);
                }
            }
        }
        r
    }

    /// Reuses the first tracked framebuffer, in search order, that the
    /// device found to match (`matches[i]` for the `i`-th of
    /// `framebuffer_list()`): it is used this frame and returned. When none
    /// matches, nothing changes and a new framebuffer is to be created.
    pub fn reuse_framebuffer(&mut self, matches: &[bool]) -> (r: Option<Handle<F>>)
        requires
            old(self).wf(),
            matches@.len() == old(self).framebuffer_list().len(),
        ensures
            final(self).wf(),
            final(self).framebuffer_list() == old(self).framebuffer_list(),
            final(self).images() == old(self).images(),
            final(self).spec_i_frame() == old(self).spec_i_frame(),
            match r {
                Some(h) => exists|i: int|
                    0 <= i < matches@.len() && #[trigger] matches@[i] && (forall|j: int| 0 <= j < i ==> !matches@[j])
                        && h@ == old(self).framebuffer_list()[i] && final(self).framebuffer_uses()
                        == old(self).framebuffer_uses().insert(h@, old(self).spec_i_frame()),
                None => (forall|j: int| 0 <= j < matches@.len() ==> !matches@[j]) && final(self).framebuffer_uses()
                    == old(self).framebuffer_uses(),
            },
    {
        let n = self.framebuffers.len();
        let mut i: usize = 0;
        while i < n
            invariant
                n == self.framebuffers@.len(),
                n == matches@.len(),
                i <= n,
                *self == *old(self),
                self.wf(),
                forall|j: int| 0 <= j < i ==> !matches@[j],
            decreases n - i,
        {
            if matches[i] {
                let h = self.framebuffers[i];
                proof {
                    assert(self.framebuffer_list()[i as int] == h@);
                    assert(self.framebuffer_list().contains(h@));
                }
                self.touch_framebuffer(h);
                assert(matches@[i as int]);
                return Some(h);
            }
            i = i + 1;
        }
        None
    }

    /// The tracked framebuffers, in search order.
    pub fn framebuffer_handles(&self) -> (r: Vec<Handle<F>>)
        ensures
            handle_views(r@) == self.framebuffer_list(),
    {
        let n = self.framebuffers.len();
        let mut r: Vec<Handle<F>> = Vec::new();
        let mut p: usize = 0;
        while p < n
            invariant
                n == self.framebuffers@.len(),
                p <= n,
                r@ == self.framebuffers@.take(p as int),
            decreases n - p,
        {
            r.push(self.framebuffers[p]);
            proof {
                assert(r@ =~= self.framebuffers@.take(p + 1));
            }
            p = p + 1;
        }
        proof {
            assert(r@ =~= self.framebuffers@);
        }
        r
    }
}

/// Starting the same frame twice releases nothing the second time: what the
/// first call keeps is all recent enough to stay.
pub proof fn law_begin_frame_idempotent(
    images: Map<(u32, u32), ((u32, u32), u64)>,
    uses: Map<(u32, u32), u64>,
    i_frame: u64,
)
    ensures
        recent_images(recent_images(images, i_frame, 19), i_frame, 19) == recent_images(images, i_frame, 19),
        recent_framebuffers(recent_framebuffers(uses, i_frame, 3), i_frame, 3) == recent_framebuffers(uses, i_frame, 3),
        forall|k: (u32, u32)|
            #[trigger] recent_images(images, i_frame, 19).contains_key(k) ==> !(recent_images(images, i_frame, 19)[k].1 + 19 < i_frame),
        forall|k: (u32, u32)|
            #[trigger] recent_framebuffers(uses, i_frame, 3).contains_key(k) ==> !(recent_framebuffers(uses, i_frame, 3)[k] + 3 < i_frame),
{
    assert(recent_images(recent_images(images, i_frame, 19), i_frame, 19) =~= recent_images(images, i_frame, 19));
    assert(recent_framebuffers(recent_framebuffers(uses, i_frame, 3), i_frame, 3) =~= recent_framebuffers(uses, i_frame, 3));
}

/// An image used at some frame stays tracked by every frame start up to 19
/// frames later.
pub proof fn law_used_image_kept(
    images: Map<(u32, u32), ((u32, u32), u64)>,
    image: (u32, u32),
    entry: ((u32, u32), u64),
    i_frame: u64,
)
    requires
        i_frame <= entry.1 + 19,
    ensures
        recent_images(images.insert(image, entry), i_frame, 19).contains_key(image),
        recent_images(images.insert(image, entry), i_frame, 19)[image] == entry,
{
}

/// Whether a framebuffer made with the color attachments `fb_colors`, the
/// depth attachment `fb_depth` and the size `fb_size` serves a pass that
/// needs `colors`, `depth` and `size`: the same color attachments in the same
/// order, the same depth attachment and the same size.
pub fn framebuffer_matches<I>(
    fb_colors: &[Handle<I>],
    fb_depth: Handle<I>,
    fb_size: [i32; 3],
    colors: &[Handle<I>],
    depth: Handle<I>,
    size: [i32; 3],
) -> (r: bool)
    ensures
        r == (handle_views(fb_colors@) == handle_views(colors@) && fb_depth@ == depth@ && fb_size@
            == size@),
{
    if !(fb_size[0] == size[0] && fb_size[1] == size[1] && fb_size[2] == size[2]) {
        return false;
    }
    proof {
        assert(fb_size@ =~= size@);
    }
    if !fb_depth.same(&depth) {
        return false;
    }
    let n = fb_colors.len();
    if n != colors.len() {
        assert(handle_views(fb_colors@).len() != handle_views(colors@).len());
        return false;
    }
    let mut i: usize = 0;
    while i < n
        invariant
            n == fb_colors@.len(),
            n == colors@.len(),
            i <= n,
            forall|j: int| 0 <= j < i ==> fb_colors@[j]@ == colors@[j]@,
        decreases n - i,
    {
        if !fb_colors[i].same(&colors[i]) {
            assert(handle_views(fb_colors@)[i as int] != handle_views(colors@)[i as int]);
            return false;
        }
        i = i + 1;
    }
    assert(handle_views(fb_colors@) =~= handle_views(colors@));
    true
}

} // verus!
