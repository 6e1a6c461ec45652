use vstd::prelude::*;
use etagere::{AllocId, BucketedAtlasAllocator};

verus! {

#[verifier::external_type_specification]
#[verifier::external_body]
pub struct ExBucketedAtlasAllocator(etagere::BucketedAtlasAllocator);

/// The allocations an atlas holds: the id of each (`AllocId::serialize`)
/// and its rectangle.
pub uninterp spec fn atlas_allocations(atlas: BucketedAtlasAllocator) -> Map<u32, AtlasRect>;

/// The width and height the atlas was made with.
pub uninterp spec fn atlas_size(atlas: BucketedAtlasAllocator) -> (i32, i32);

/// Whether `allocate(size2(width, height))` finds room in the atlas as it
/// stands.
pub uninterp spec fn atlas_accepts(atlas: BucketedAtlasAllocator, width: i32, height: i32) -> bool;

/// The ids of the allocations an atlas currently holds.
pub open spec fn atlas_live_ids(atlas: BucketedAtlasAllocator) -> Set<u32> {
    atlas_allocations(atlas).dom()
}

/// A rectangle of the atlas, in texels: `min` inclusive, `max` exclusive.
#[derive(Clone, Copy, Debug, PartialEq, Eq, Structural)]
pub struct AtlasRect {
    pub min_x: i32,
    pub min_y: i32,
    pub max_x: i32,
    pub max_y: i32,
}

/// The tallest glyph the atlas takes: the largest multiple of 64 that fits
/// in a `u16`, the rounding step of tall shelves.
pub const MAX_GLYPH_HEIGHT: i32 = 65472;

/// Whether `rect` has room for `width` by `height` texels.
pub open spec fn fits_in(rect: AtlasRect, width: i32, height: i32) -> bool {
    rect.max_x - rect.min_x >= width && rect.max_y - rect.min_y >= height
}

/// Whether `rect` lies within an atlas of `size` texels.
pub open spec fn inside(rect: AtlasRect, size: (i32, i32)) -> bool {
    &&& 0 <= rect.min_x <= rect.max_x <= size.0
    &&& 0 <= rect.min_y <= rect.max_y <= size.1
}

/// Whether two rectangles share no texel.
pub open spec fn disjoint(a: AtlasRect, b: AtlasRect) -> bool {
    a.max_x <= b.min_x || b.max_x <= a.min_x || a.max_y <= b.min_y || b.max_y <= a.min_y
}

/// No allocation at all.
pub open spec fn empty_allocations() -> Map<u32, AtlasRect> {
    Map::empty()
}

/// Whether `atlas` finds room for every non-empty rectangle of at most
/// `width` by `height` texels (and at most `MAX_GLYPH_HEIGHT` tall).
pub open spec fn accepts_every_fit(atlas: BucketedAtlasAllocator, width: i32, height: i32) -> bool {
    forall|w: i32, h: i32|
        0 < w <= width && 0 < h <= height && h <= MAX_GLYPH_HEIGHT ==> #[trigger] atlas_accepts(atlas, w, h)
}

/// `BucketedAtlasAllocator::new(size2(width, height))`: an atlas of that size
/// holding no allocation. The constructor asserts that both sides are below
/// `u16::MAX`; the allocator adds allocated areas up in an `i32`, which the
/// area bound keeps from overflowing. A fresh atlas finds room for any
/// non-empty rectangle that fits in it: its first shelf takes the whole
/// column and is at least as tall as the rectangle, and its first bucket at
/// least as wide.
#[verifier::external_body]
fn atlas_new(width: i32, height: i32) -> (atlas: BucketedAtlasAllocator)
    requires
        0 <= width < 0xFFFF,
        0 <= height < 0xFFFF,
        width * height <= i32::MAX,
    ensures
        atlas_allocations(atlas) == empty_allocations(),
        atlas_size(atlas).0 == width,
        atlas_size(atlas).1 == height,
        accepts_every_fit(atlas, width, height),
{
    BucketedAtlasAllocator::new(etagere::size2(width, height))
}

/// `BucketedAtlasAllocator::allocate(size2(width, height))`. It succeeds
/// exactly when the atlas accepts the size. A refusal changes nothing. A
/// success records a new allocation under an id that no live allocation has
/// (ids are unique within a bucket, and a bucket is only reused once all its
/// items are freed), with a rectangle at least `width` by `height` (the
/// default options align sizes to one texel and give an item the full height
/// of its shelf) that lies in the atlas and shares no texel with another
/// live allocation (shelves split a column's height, buckets split a shelf's
/// width, and an item takes the next free span of its bucket). An empty size
/// is never allocated. A new shelf's height is rounded up in a `u16`, which
/// overflows for heights above `MAX_GLYPH_HEIGHT`; `requires` leaves those
/// out. Which place the packing picks is not stated.
#[verifier::external_body]
fn atlas_allocate(atlas: &mut BucketedAtlasAllocator, width: i32, height: i32) -> (r: Option<
    (u32, AtlasRect),
>)
    requires
        height <= MAX_GLYPH_HEIGHT,
    ensures
        r is Some <==> atlas_accepts(*old(atlas), width, height),
        atlas_size(*final(atlas)) == atlas_size(*old(atlas)),
        match r {
            Some((id, rect)) => {
                &&& !atlas_allocations(*old(atlas)).contains_key(id)
                &&& atlas_allocations(*final(atlas)) == atlas_allocations(*old(atlas)).insert(id, rect)
                &&& fits_in(rect, width, height)
                &&& inside(rect, atlas_size(*old(atlas)))
                &&& forall|other: u32|
                    #[trigger] atlas_allocations(*old(atlas)).contains_key(other) ==> disjoint(
                        rect,
                        atlas_allocations(*old(atlas))[other],
                    )
            },
            None => *final(atlas) == *old(atlas),
        },
        width <= 0 || height <= 0 ==> r is None,
{
    match atlas.allocate(etagere::size2(width, height)) {
        Some(a) => Some(
            (
                a.id.serialize(),
                AtlasRect {
                    min_x: a.rectangle.min.x,
                    min_y: a.rectangle.min.y,
                    max_x: a.rectangle.max.x,
                    max_y: a.rectangle.max.y,
                },
            ),
        ),
        None => None,
    }
}

/// `BucketedAtlasAllocator::deallocate(AllocId::deserialize(id))`: frees a
/// live allocation (it panics on an id that is not live, which `requires`
/// rules out).
#[verifier::external_body]
fn atlas_deallocate(atlas: &mut BucketedAtlasAllocator, id: u32)
    requires
        atlas_allocations(*old(atlas)).contains_key(id),
    ensures
        atlas_allocations(*final(atlas)) == atlas_allocations(*old(atlas)).remove(id),
        atlas_size(*final(atlas)) == atlas_size(*old(atlas)),
{
    atlas.deallocate(AllocId::deserialize(id))
}

/// A rasterized glyph held in the atlas: the face it was rendered from, its
/// id in that face, its atlas allocation and rectangle, and its image.
pub struct GlyphEntry<I> {
    pub face_hash: u64,
    pub id: u16,
    pub alloc_id: u32,
    pub rectangle: AtlasRect,
    pub image: I,
}

/// What happened to the atlas since the events were last processed.
#[derive(Clone, Copy, Debug, PartialEq, Eq, Structural)]
pub enum GlyphEvent {
    /// A glyph (face hash, glyph id) was rendered into this rectangle.
    New(u64, u16, AtlasRect),
    /// The glyph in this rectangle was evicted.
    Evicted(AtlasRect),
}

/// A cache of rendered glyphs packed in a texture atlas; when the atlas is
/// full, the least recently used glyphs are evicted.
pub struct GlyphCache<I> {
    size: [i32; 2],
    atlas: BucketedAtlasAllocator,
    entries: Vec<GlyphEntry<I>>,
    atlas_lru: Vec<u32>,
    events: Vec<GlyphEvent>,
}

pub open spec fn glyph_key<I>(e: GlyphEntry<I>) -> (u64, u16) {
    (e.face_hash, e.id)
}

/// Whether an entry of `s` holds allocation `id`.
pub open spec fn has_alloc<I>(s: Seq<GlyphEntry<I>>, id: u32) -> bool {
    exists|i: int| 0 <= i < s.len() && (#[trigger] s[i]).alloc_id == id
}

/// The glyphs of a list of entries, by (face hash, glyph id).
pub open spec fn entry_map<I>(s: Seq<GlyphEntry<I>>) -> Map<(u64, u16), (u32, AtlasRect)> {
    Map::new(
        |k: (u64, u16)| exists|i: int| 0 <= i < s.len() && glyph_key(#[trigger] s[i]) == k,
        |k: (u64, u16)|
            {
                let i = choose|i: int| 0 <= i < s.len() && glyph_key(#[trigger] s[i]) == k;
                (s[i].alloc_id, s[i].rectangle)
            },
    )
}

/// The images of a list of entries, by (face hash, glyph id).
pub open spec fn image_map<I>(s: Seq<GlyphEntry<I>>) -> Map<(u64, u16), I> {
    Map::new(
        |k: (u64, u16)| exists|i: int| 0 <= i < s.len() && glyph_key(#[trigger] s[i]) == k,
        |k: (u64, u16)|
            {
                let i = choose|i: int| 0 <= i < s.len() && glyph_key(#[trigger] s[i]) == k;
                s[i].image
            },
    )
}

/// No two entries share a key or an allocation.
pub open spec fn entries_unique<I>(s: Seq<GlyphEntry<I>>) -> bool {
    forall|i: int, j: int|
        0 <= i < s.len() && 0 <= j < s.len() && i != j ==> glyph_key(#[trigger] s[i]) != glyph_key(
            #[trigger] s[j],
        ) && s[i].alloc_id != s[j].alloc_id
}

/// The glyphs of `m` whose allocation is not in `ids`.
pub open spec fn without_allocs(m: Map<(u64, u16), (u32, AtlasRect)>, ids: Seq<u32>) -> Map<
    (u64, u16),
    (u32, AtlasRect),
> {
    Map::new(|k: (u64, u16)| m.contains_key(k) && !ids.contains(m[k].0), |k: (u64, u16)| m[k])
}

/// The rectangle of the glyph of `m` that holds allocation `id`.
pub open spec fn alloc_rect(m: Map<(u64, u16), (u32, AtlasRect)>, id: u32) -> AtlasRect {
    let k = choose|k: (u64, u16)| m.contains_key(k) && m[k].0 == id;
    m[k].1
}

proof fn lemma_entry_map_at<I>(s: Seq<GlyphEntry<I>>, i: int)
    requires
        entries_unique(s),
        0 <= i < s.len(),
    ensures
        entry_map(s).contains_key(glyph_key(s[i])),
        entry_map(s)[glyph_key(s[i])] == (s[i].alloc_id, s[i].rectangle),
{
    let k = glyph_key(s[i]);
    let j = choose|j: int| 0 <= j < s.len() && glyph_key(#[trigger] s[j]) == k;
    assert(j == i);
}

proof fn lemma_entry_map_push<I>(s: Seq<GlyphEntry<I>>, e: GlyphEntry<I>)
    requires
        entries_unique(s),
        !entry_map(s).contains_key(glyph_key(e)),
        !has_alloc(s, e.alloc_id),
    ensures
        entries_unique(s.push(e)),
        entry_map(s.push(e)) == entry_map(s).insert(glyph_key(e), (e.alloc_id, e.rectangle)),
{
    let t = s.push(e);
    assert forall|i: int, j: int|
        0 <= i < t.len() && 0 <= j < t.len() && i != j implies glyph_key(#[trigger] t[i])
        != glyph_key(#[trigger] t[j]) && t[i].alloc_id != t[j].alloc_id by {
        if i == s.len() as int {
            assert(t[j] == s[j]);
        } else if j == s.len() as int {
            assert(t[i] == s[i]);
        } else {
            assert(t[i] == s[i] && t[j] == s[j]);
        }
    }
    let a = entry_map(t);
    let b = entry_map(s).insert(glyph_key(e), (e.alloc_id, e.rectangle));
    assert forall|k: (u64, u16)| #[trigger] a.contains_key(k) <==> b.contains_key(k) by {
        if a.contains_key(k) {
            let i = choose|i: int| 0 <= i < t.len() && glyph_key(#[trigger] t[i]) == k;
            if i < s.len() {
                assert(t[i] == s[i]);
            }
        }
        if entry_map(s).contains_key(k) {
            let i = choose|i: int| 0 <= i < s.len() && glyph_key(#[trigger] s[i]) == k;
            assert(t[i] == s[i]);
        }
        if k == glyph_key(e) {
            assert(t[s.len() as int] == e);
        }
    }
    assert forall|k: (u64, u16)| #[trigger] a.contains_key(k) implies a[k] == b[k] by {
        let i = choose|i: int| 0 <= i < t.len() && glyph_key(#[trigger] t[i]) == k;
        lemma_entry_map_at(t, i);
        if i < s.len() {
            assert(t[i] == s[i]);
            lemma_entry_map_at(s, i);
        }
    }
    assert(a =~= b);
}

proof fn lemma_entry_map_swap_remove<I>(s: Seq<GlyphEntry<I>>, j: int)
    requires
        entries_unique(s),
        0 <= j < s.len(),
    ensures
        entries_unique(s.update(j, s.last()).drop_last()),
        entry_map(s.update(j, s.last()).drop_last()) == entry_map(s).remove(glyph_key(s[j])),
        forall|x: u32|
            #[trigger] has_alloc(s.update(j, s.last()).drop_last(), x) <==> (has_alloc(s, x) && x
                != s[j].alloc_id),
{
    let t = s.update(j, s.last()).drop_last();
    let n = s.len() - 1;
    assert forall|i: int| 0 <= i < t.len() implies #[trigger] t[i] == s[if i == j {
        n
    } else {
        i
    }] by {}
    assert forall|a: int, b: int|
        0 <= a < t.len() && 0 <= b < t.len() && a != b implies glyph_key(#[trigger] t[a])
        != glyph_key(#[trigger] t[b]) && t[a].alloc_id != t[b].alloc_id by {
        let sa = if a == j {
            n
        } else {
            a
        };
        let sb = if b == j {
            n
        } else {
            b
        };
        assert(t[a] == s[sa] && t[b] == s[sb]);
    }
    let ma = entry_map(t);
    let mb = entry_map(s).remove(glyph_key(s[j]));
    assert forall|k: (u64, u16)| #[trigger] ma.contains_key(k) <==> mb.contains_key(k) by {
        if ma.contains_key(k) {
            let i = choose|i: int| 0 <= i < t.len() && glyph_key(#[trigger] t[i]) == k;
            let si = if i == j {
                n
            } else {
                i
            };
            assert(t[i] == s[si]);
            assert(si != j);
        }
        if mb.contains_key(k) {
            let i = choose|i: int| 0 <= i < s.len() && glyph_key(#[trigger] s[i]) == k;
            assert(i != j);
            let ti = if i == n {
                j
            } else {
                i
            };
            assert(t[ti] == s[i]);
        }
    }
    assert forall|k: (u64, u16)| #[trigger] ma.contains_key(k) implies ma[k] == mb[k] by {
        let i = choose|i: int| 0 <= i < t.len() && glyph_key(#[trigger] t[i]) == k;
        lemma_entry_map_at(t, i);
        let si = if i == j {
            n
        } else {
            i
        };
        assert(t[i] == s[si]);
        lemma_entry_map_at(s, si);
    }
    assert(ma =~= mb);
    assert forall|x: u32| #[trigger] has_alloc(t, x) <==> (has_alloc(s, x) && x != s[j].alloc_id) by {
        if has_alloc(t, x) {
            let i = choose|i: int| 0 <= i < t.len() && (#[trigger] t[i]).alloc_id == x;
            let si = if i == j {
                n
            } else {
                i
            };
            assert(t[i] == s[si]);
        }
        if has_alloc(s, x) && x != s[j].alloc_id {
            let i = choose|i: int| 0 <= i < s.len() && (#[trigger] s[i]).alloc_id == x;
            let ti = if i == n {
                j
            } else {
                i
            };
            assert(t[ti] == s[i]);
        }
    }
}

/// Within the glyphs of unique entries, an allocation belongs to one key.
proof fn lemma_entry_map_ids_unique<I>(s: Seq<GlyphEntry<I>>, k1: (u64, u16), k2: (u64, u16))
    requires
        entries_unique(s),
        entry_map(s).contains_key(k1),
        entry_map(s).contains_key(k2),
        entry_map(s)[k1].0 == entry_map(s)[k2].0,
    ensures
        k1 == k2,
{
    let i = choose|i: int| 0 <= i < s.len() && glyph_key(#[trigger] s[i]) == k1;
    let j = choose|j: int| 0 <= j < s.len() && glyph_key(#[trigger] s[j]) == k2;
    lemma_entry_map_at(s, i);
    lemma_entry_map_at(s, j);
}

proof fn lemma_image_map_at<I>(s: Seq<GlyphEntry<I>>, i: int)
    requires
        entries_unique(s),
        0 <= i < s.len(),
    ensures
        image_map(s).contains_key(glyph_key(s[i])),
        image_map(s)[glyph_key(s[i])] == s[i].image,
{
    let k = glyph_key(s[i]);
    let j = choose|j: int| 0 <= j < s.len() && glyph_key(#[trigger] s[j]) == k;
    assert(j == i);
}

/// Entries taken from another list keep the images they had there.
proof fn lemma_images_kept<I>(s: Seq<GlyphEntry<I>>, t: Seq<GlyphEntry<I>>)
    requires
        entries_unique(s),
        entries_unique(t),
        forall|i: int| 0 <= i < t.len() ==> s.contains(#[trigger] t[i]),
    ensures
        forall|k: (u64, u16)| #[trigger] entry_map(t).contains_key(k) ==> image_map(t)[k] == image_map(s)[k],
{
    assert forall|k: (u64, u16)| #[trigger] entry_map(t).contains_key(k) implies image_map(t)[k] == image_map(s)[k] by {
        let i = choose|i: int| 0 <= i < t.len() && glyph_key(#[trigger] t[i]) == k;
        lemma_image_map_at(t, i);
        assert(s.contains(t[i]));
        let j = choose|j: int| 0 <= j < s.len() && s[j] == t[i];
        lemma_image_map_at(s, j);
    }
}

/// The atlas records entry `e` under its allocation, inside an atlas of
/// `size` texels.
pub open spec fn recorded<I>(allocs: Map<u32, AtlasRect>, e: GlyphEntry<I>, size: (i32, i32)) -> bool {
    &&& allocs.contains_key(e.alloc_id)
    &&& allocs[e.alloc_id] == e.rectangle
    &&& inside(e.rectangle, size)
}

/// No two entries share a texel.
pub open spec fn rects_disjoint<I>(s: Seq<GlyphEntry<I>>) -> bool {
    forall|i: int, j: int|
        0 <= i < s.len() && 0 <= j < s.len() && i != j ==> disjoint(
            (#[trigger] s[i]).rectangle,
            (#[trigger] s[j]).rectangle,
        )
}

/// What an allocation attempt leaves, for entries the atlas recorded before.
proof fn lemma_after_allocate<I>(
    pre: BucketedAtlasAllocator,
    post: BucketedAtlasAllocator,
    r: Option<(u32, AtlasRect)>,
    entries: Seq<GlyphEntry<I>>,
    size: (i32, i32),
    width: i32,
    height: i32,
)
    requires
        forall|i: int| 0 <= i < entries.len() ==> recorded(atlas_allocations(pre), #[trigger] entries[i], size),
        forall|x: u32| #[trigger] atlas_live_ids(pre).contains(x) <==> has_alloc(entries, x),
        atlas_size(pre) == size,
        r is Some <==> atlas_accepts(pre, width, height),
        atlas_size(post) == atlas_size(pre),
        match r {
            Some((id, rect)) => {
                &&& !atlas_allocations(pre).contains_key(id)
                &&& atlas_allocations(post) == atlas_allocations(pre).insert(id, rect)
                &&& fits_in(rect, width, height)
                &&& inside(rect, atlas_size(pre))
                &&& forall|other: u32|
                    #[trigger] atlas_allocations(pre).contains_key(other) ==> disjoint(rect, atlas_allocations(pre)[other])
            },
            None => post == pre,
        },
        width <= 0 || height <= 0 ==> r is None,
    ensures
        atlas_size(post) == size,
        forall|i: int| 0 <= i < entries.len() ==> recorded(atlas_allocations(post), #[trigger] entries[i], size),
        r is None ==> !atlas_accepts(post, width, height),
        r is None ==> forall|x: u32| #[trigger] atlas_live_ids(post).contains(x) <==> has_alloc(entries, x),
        match r {
            Some((id, rect)) => !has_alloc(entries, id) && fits_in(rect, width, height) && width > 0 && height > 0
                && (forall|x: u32| #[trigger] atlas_live_ids(post).contains(x) <==> (has_alloc(entries, x) || x == id))
                && atlas_allocations(post).contains_key(id) && atlas_allocations(post)[id] == rect
                && inside(rect, size)
                && (forall|i: int| 0 <= i < entries.len() ==> disjoint(rect, (#[trigger] entries[i]).rectangle)),
            None => true,
        },
{
    match r {
        Some((id, rect)) => {
            assert forall|i: int| 0 <= i < entries.len() implies disjoint(rect, (#[trigger] entries[i]).rectangle) by {
                assert(recorded(atlas_allocations(pre), entries[i], size));
                assert(atlas_allocations(pre).contains_key(entries[i].alloc_id));
            }
            assert forall|i: int| 0 <= i < entries.len() implies recorded(atlas_allocations(post), #[trigger] entries[i], size) by {
                assert(recorded(atlas_allocations(pre), entries[i], size));
            }
            if has_alloc(entries, id) {
                assert(atlas_live_ids(pre).contains(id));
            }
            assert forall|x: u32| #[trigger] atlas_live_ids(post).contains(x) <==> (has_alloc(entries, x) || x == id) by {
                assert(atlas_live_ids(pre).contains(x) <==> has_alloc(entries, x));
            }
        },
        None => {},
    }
}

/// How an insertion ended: the `k` least recently used glyphs were evicted
/// (an event for each), and either the new glyph went in as the most recently
/// used, or the queue ran out with no room found.
pub open spec fn insert_outcome<I>(
    before: GlyphCache<I>,
    after: GlyphCache<I>,
    k: int,
    r: Option<AtlasRect>,
    face_hash: u64,
    glyph_id: u16,
) -> bool {
    let evicted = before.lru().take(k);
    let kept = without_allocs(before.glyphs(), evicted);
    let eviction_events = Seq::new(
        k as nat,
        |j: int| GlyphEvent::Evicted(alloc_rect(before.glyphs(), evicted[j])),
    );
    &&& 0 <= k <= before.lru().len()
    &&& match r {
        Some(rect) => {
            let id = after.lru().last();
            &&& after.lru() == before.lru().skip(k).push(id)
            &&& after.glyphs() == kept.insert((face_hash, glyph_id), (id, rect))
            &&& after.events() == before.events() + eviction_events + seq![
                GlyphEvent::New(face_hash, glyph_id, rect),
            ]
        },
        None => {
            &&& k == before.lru().len()
            &&& after.lru() == Seq::<u32>::empty()
            &&& after.glyphs() == kept
            &&& after.events() == before.events() + eviction_events
        },
    }
}

impl<I> GlyphCache<I> {
    /// The cached glyphs: (face hash, glyph id) to allocation id and atlas
    /// rectangle.
    pub closed spec fn glyphs(&self) -> Map<(u64, u16), (u32, AtlasRect)> {
        entry_map(self.entries@)
    }

    /// The images of the cached glyphs.
    pub closed spec fn images(&self) -> Map<(u64, u16), I> {
        image_map(self.entries@)
    }

    /// The allocation ids of the cached glyphs, least recently used first.
    pub closed spec fn lru(&self) -> Seq<u32> {
        self.atlas_lru@
    }

    /// The events not processed yet.
    pub closed spec fn events(&self) -> Seq<GlyphEvent> {
        self.events@
    }

    pub closed spec fn spec_size(&self) -> [i32; 2] {
        self.size
    }

    /// The allocations of the atlas: id to rectangle.
    pub closed spec fn atlas_rects(&self) -> Map<u32, AtlasRect> {
        atlas_allocations(self.atlas)
    }

    /// Whether the atlas, as it stands, has room for `width` by `height`
    /// texels.
    pub closed spec fn accepts(&self, width: i32, height: i32) -> bool {
        atlas_accepts(self.atlas, width, height)
    }

    /// Keys and allocations are unique, the LRU queue lists each cached
    /// allocation once, the atlas holds exactly those allocations, each
    /// under the entry's rectangle, inside the atlas, and no two rectangles
    /// share a texel.
    pub closed spec fn wf(&self) -> bool {
        &&& entries_unique(self.entries@)
        &&& self.atlas_lru@.no_duplicates()
        &&& forall|x: u32| #[trigger] self.atlas_lru@.contains(x) <==> has_alloc(self.entries@, x)
        &&& forall|x: u32| #[trigger] atlas_live_ids(self.atlas).contains(x) <==> has_alloc(self.entries@, x)
        &&& atlas_size(self.atlas) == (self.size[0], self.size[1])
        &&& forall|i: int|
            0 <= i < self.entries@.len() ==> recorded(
                atlas_allocations(self.atlas),
                #[trigger] self.entries@[i],
                (self.size[0], self.size[1]),
            )
        &&& rects_disjoint(self.entries@)
    }

    /// An empty cache over an atlas of `size` texels. The sides are below
    /// `u16::MAX` (etagere asserts it) and the area fits in an `i32` (etagere
    /// sums allocated areas in one).
    pub fn new(size: [i32; 2]) -> (r: Self)
        requires
            0 <= size[0] < 0xFFFF,
            0 <= size[1] < 0xFFFF,
            size[0] * size[1] <= i32::MAX,
        ensures
            r.wf(),
            r.glyphs() == Map::<(u64, u16), (u32, AtlasRect)>::empty(),
            r.atlas_rects() == Map::<u32, AtlasRect>::empty(),
            r.lru() == Seq::<u32>::empty(),
            r.events() == Seq::<GlyphEvent>::empty(),
            r.spec_size() == size,
            forall|w: i32, h: i32|
                0 < w <= size[0] && 0 < h <= size[1] && h <= MAX_GLYPH_HEIGHT ==> #[trigger] r.accepts(w, h),
    {
        let r = GlyphCache {
            size,
            atlas: atlas_new(size[0], size[1]),
            entries: Vec::new(),
            atlas_lru: Vec::new(),
            events: Vec::new(),
        };
        assert(r.glyphs() =~= Map::<(u64, u16), (u32, AtlasRect)>::empty());
        r
    }

    pub fn get_size(&self) -> (r: [i32; 2])
        ensures
            r == self.spec_size(),
    {
        self.size
    }

    /// Looks a glyph up; when it is cached, it becomes the most recently used
    /// and its atlas rectangle is returned.
    pub fn lookup_glyph(&mut self, face_hash: u64, glyph_id: u16) -> (r: Option<AtlasRect>)
        requires
            old(self).wf(),
        ensures
            final(self).wf(),
            final(self).glyphs() == old(self).glyphs(),
            final(self).images() == old(self).images(),
            final(self).events() == old(self).events(),
            final(self).spec_size() == old(self).spec_size(),
            final(self).atlas_rects() == old(self).atlas_rects(),
            forall|w: i32, h: i32| #[trigger] final(self).accepts(w, h) == old(self).accepts(w, h),
            match r {
                Some(rect) => {
                    let id = old(self).glyphs()[(face_hash, glyph_id)].0;
                    &&& old(self).glyphs().contains_key((face_hash, glyph_id))
                    &&& rect == old(self).glyphs()[(face_hash, glyph_id)].1
                    &&& final(self).lru() == old(self).lru().remove(old(self).lru().index_of(id)).push(id)
                },
                None => !old(self).glyphs().contains_key((face_hash, glyph_id)) && final(self).lru()
                    == old(self).lru(),
            },
    {
        let n = self.entries.len();
        let mut i: usize = 0;
        while i < n
            invariant
                n == self.entries@.len(),
                i <= n,
                self.wf(),
                *self == *old(self),
                forall|j: int| 0 <= j < i ==> glyph_key(#[trigger] self.entries@[j]) != (face_hash, glyph_id),
            decreases n - i,
        {
            if self.entries[i].face_hash == face_hash && self.entries[i].id == glyph_id {
                let id = self.entries[i].alloc_id;
                let rect = self.entries[i].rectangle;
                proof {
                    lemma_entry_map_at(self.entries@, i as int);
                    assert(has_alloc(self.entries@, id));
                    assert(self.atlas_lru@.contains(id));
                }
                let ghost old_lru = self.atlas_lru@;
                let p = self.lru_position(id);
                self.atlas_lru.remove(p);
                self.atlas_lru.push(id);
                proof {
                    assert(old_lru.index_of(id) == p as int) by {
                        let q = old_lru.index_of(id);
                        assert(old_lru[q] == id);
                    }
                    let l = self.atlas_lru@;
                    assert(l =~= old_lru.remove(p as int).push(id));
                    assert forall|a: int, b: int|
                        0 <= a < l.len() && 0 <= b < l.len() && a != b implies l[a] != l[b] by {
                        let oa = if a == l.len() - 1 { p as int } else if a < p { a } else { a + 1 };
                        let ob = if b == l.len() - 1 { p as int } else if b < p { b } else { b + 1 };
                        assert(l[a] == old_lru[oa]);
                        assert(l[b] == old_lru[ob]);
                    }
                    assert forall|x: u32| #[trigger] l.contains(x) <==> old_lru.contains(x) by {
                        if l.contains(x) {
                            let a = choose|a: int| 0 <= a < l.len() && l[a] == x;
                            let oa = if a == l.len() - 1 { p as int } else if a < p { a } else { a + 1 };
                            assert(old_lru[oa] == x);
                        }
                        if old_lru.contains(x) {
                            let a = choose|a: int| 0 <= a < old_lru.len() && old_lru[a] == x;
                            let la = if a == p { l.len() - 1 } else if a < p { a } else { a - 1 };
                            assert(l[la] == x);
                        }
                    }
                }
                return Some(rect);
            }
            i = i + 1;
        }
        proof {
            if self.glyphs().contains_key((face_hash, glyph_id)) {
                let j = choose|j: int|
                    0 <= j < self.entries@.len() && glyph_key(#[trigger] self.entries@[j]) == (
                        face_hash,
                        glyph_id,
                    );
                assert(glyph_key(self.entries@[j]) != (face_hash, glyph_id));
            }
        }
        None
    }

    /// The image of a cached glyph, without touching the LRU order.
    pub fn glyph_image(&self, face_hash: u64, glyph_id: u16) -> (r: Option<&I>)
        requires
            self.wf(),
        ensures
            match r {
                Some(image) => self.glyphs().contains_key((face_hash, glyph_id)) && *image == self.images()[(
                    face_hash,
                    glyph_id,
                )],
                None => !self.glyphs().contains_key((face_hash, glyph_id)),
            },
    {
        let n = self.entries.len();
        let mut i: usize = 0;
        while i < n
            invariant
                n == self.entries@.len(),
                i <= n,
                self.wf(),
                forall|j: int| 0 <= j < i ==> glyph_key(#[trigger] self.entries@[j]) != (face_hash, glyph_id),
            decreases n - i,
        {
            if self.entries[i].face_hash == face_hash && self.entries[i].id == glyph_id {
                proof {
                    lemma_entry_map_at(self.entries@, i as int);
                    lemma_image_map_at(self.entries@, i as int);
                }
                return Some(&self.entries[i].image);
            }
            i = i + 1;
        }
        proof {
            if self.glyphs().contains_key((face_hash, glyph_id)) {
                let j = choose|j: int|
                    0 <= j < self.entries@.len() && glyph_key(#[trigger] self.entries@[j]) == (
                        face_hash,
                        glyph_id,
                    );
                assert(glyph_key(self.entries@[j]) != (face_hash, glyph_id));
            }
        }
        None
    }

    /// The position of the entry holding allocation `id`.
    fn entry_position(&self, id: u32) -> (p: usize)
        requires
            has_alloc(self.entries@, id),
        ensures
            p < self.entries@.len(),
            self.entries@[p as int].alloc_id == id,
    {
        let n = self.entries.len();
        let mut p: usize = 0;
        while p < n
            invariant
                n == self.entries@.len(),
                p <= n,
                has_alloc(self.entries@, id),
                forall|j: int| 0 <= j < p ==> (#[trigger] self.entries@[j]).alloc_id != id,
            decreases n - p,
        {
            if self.entries[p].alloc_id == id {
                return p;
            }
            p = p + 1;
        }
        proof {
            let j = choose|j: int| 0 <= j < self.entries@.len() && (#[trigger] self.entries@[j]).alloc_id == id;
            assert(self.entries@[j].alloc_id != id);
        }
        0
    }

    /// Puts a newly rendered glyph of `width` by `height` texels in the atlas,
    /// evicting the least recently used glyphs until there is room. Returns
    /// its rectangle, or `None` when every glyph was evicted and there still
    /// is no room. The glyph is at most `MAX_GLYPH_HEIGHT` texels tall.
    pub fn insert_glyph(
        &mut self,
        face_hash: u64,
        glyph_id: u16,
        width: i32,
        height: i32,
        image: I,
    ) -> (r: Option<AtlasRect>)
        requires
            old(self).wf(),
            !old(self).glyphs().contains_key((face_hash, glyph_id)),
            height <= MAX_GLYPH_HEIGHT,
        ensures
            final(self).wf(),
            final(self).spec_size() == old(self).spec_size(),
            exists|k: int| #[trigger] insert_outcome(*old(self), *final(self), k, r, face_hash, glyph_id),
            r is Some ==> final(self).images()[(face_hash, glyph_id)] == image,
            r matches Some(rect) ==> fits_in(rect, width, height),
            r matches Some(rect) ==> final(self).atlas_rects().contains_key(final(self).lru().last())
                && final(self).atlas_rects()[final(self).lru().last()] == rect && inside(
                rect,
                (final(self).spec_size()[0], final(self).spec_size()[1]),
            ),
            old(self).accepts(width, height) ==> r is Some && insert_outcome(
                *old(self),
                *final(self),
                0,
                r,
                face_hash,
                glyph_id,
            ),
            r is None ==> !final(self).accepts(width, height),
            width <= 0 || height <= 0 ==> r is None,
            forall|key: (u64, u16)|
                #[trigger] final(self).glyphs().contains_key(key) && key != (face_hash, glyph_id)
                    ==> final(self).images()[key] == old(self).images()[key],
    {
        let ghost before = *self;
        let ghost mut k: int = 0;
        let ghost atlas0 = self.atlas;
        let mut alloc = atlas_allocate(&mut self.atlas, width, height);
        proof {
            lemma_after_allocate(atlas0, self.atlas, alloc, self.entries@, (self.size[0], self.size[1]), width, height);
            assert(before.lru().skip(0) =~= before.lru());
            assert(before.lru().take(0) =~= Seq::<u32>::empty());
            assert(without_allocs(before.glyphs(), Seq::<u32>::empty()) =~= before.glyphs());
            assert(before.events() + Seq::new(0, |j: int| GlyphEvent::Evicted(alloc_rect(before.glyphs(), before.lru().take(0)[j]))) =~= before.events());
        }
        while alloc.is_none()
            invariant
                0 <= k <= before.lru().len(),
                before == *old(self),
                self.size == before.size,
                entries_unique(self.entries@),
                self.atlas_lru@.no_duplicates(),
                forall|x: u32| #[trigger] self.atlas_lru@.contains(x) <==> has_alloc(self.entries@, x),
                match alloc {
                    None => true,
                    Some((id, rect)) => !has_alloc(self.entries@, id) && fits_in(rect, width, height) && width > 0 && height > 0
                        && (forall|x: u32| #[trigger] atlas_live_ids(self.atlas).contains(x) <==> (has_alloc(self.entries@, x) || x == id))
                        && atlas_allocations(self.atlas).contains_key(id) && atlas_allocations(self.atlas)[id] == rect
                        && inside(rect, (self.size[0], self.size[1]))
                        && (forall|i: int| 0 <= i < self.entries@.len() ==> disjoint(rect, (#[trigger] self.entries@[i]).rectangle)),
                },
                before.wf(),
                atlas_size(self.atlas) == (self.size[0], self.size[1]),
                forall|i: int|
                    0 <= i < self.entries@.len() ==> recorded(
                        atlas_allocations(self.atlas),
                        #[trigger] self.entries@[i],
                        (self.size[0], self.size[1]),
                    ),
                atlas_accepts(before.atlas, width, height) ==> (k == 0 && alloc is Some),
                alloc is None ==> !atlas_accepts(self.atlas, width, height),
                alloc is None ==> forall|x: u32| #[trigger] atlas_live_ids(self.atlas).contains(x) <==> has_alloc(self.entries@, x),
                self.atlas_lru@ == before.lru().skip(k),
                self.glyphs() == without_allocs(before.glyphs(), before.lru().take(k)),
                self.events@ == before.events() + Seq::new(
                    k as nat,
                    |j: int| GlyphEvent::Evicted(alloc_rect(before.glyphs(), before.lru().take(k)[j])),
                ),
                entries_unique(before.entries@),
                before.glyphs() == entry_map(before.entries@),
                before.lru().no_duplicates(),
                height <= MAX_GLYPH_HEIGHT,
                forall|j: int| 0 <= j < self.entries@.len() ==> before.entries@.contains(#[trigger] self.entries@[j]),
            decreases self.atlas_lru@.len(),
        {
            if self.atlas_lru.len() == 0 {
                proof {
                    assert(k == before.lru().len());
                    assert(self.atlas_lru@ =~= Seq::<u32>::empty());
                    let r: Option<AtlasRect> = None;
                    assert(insert_outcome(before, *self, k, r, face_hash, glyph_id));
                }
                return None;
            }
            let ghost lru = self.atlas_lru@;
            let ghost entries = self.entries@;
            let ghost glyphs = self.glyphs();
            let ghost atlas0_loop = self.atlas;
            let lru_alloc = self.atlas_lru.remove(0);
            proof {
                assert(lru.contains(lru_alloc));
            }
            let i = self.entry_position(lru_alloc);
            let rect = self.entries[i].rectangle;
            let ghost key = glyph_key(entries[i as int]);
            proof {
                lemma_entry_map_at(entries, i as int);
                assert(before.lru()[k] == lru_alloc);
                let ghost kept = without_allocs(before.glyphs(), before.lru().take(k));
                assert(before.glyphs().contains_key(key) && before.glyphs()[key] == (lru_alloc, rect));
                let k2 = choose|k2: (u64, u16)| before.glyphs().contains_key(k2) && before.glyphs()[k2].0 == lru_alloc;
                lemma_entry_map_ids_unique(before.entries@, k2, key);
                assert(alloc_rect(before.glyphs(), lru_alloc) == rect);
            }
            self.events.push(GlyphEvent::Evicted(rect));
            self.entries.swap_remove(i);
            proof {
                lemma_entry_map_swap_remove(entries, i as int);
                let n = entries.len() - 1;
                assert forall|j: int| 0 <= j < self.entries@.len() implies before.entries@.contains(#[trigger] self.entries@[j]) by {
                    assert(self.entries@[j] == entries[if j == i { n } else { j }]);
                    assert(before.entries@.contains(entries[if j == i { n } else { j }]));
                }
            }
            atlas_deallocate(&mut self.atlas, lru_alloc);
            let ghost atlas1 = self.atlas;
            proof {
                let t = self.entries@;
                assert forall|j: int| 0 <= j < t.len() implies recorded(atlas_allocations(atlas1), #[trigger] t[j], (self.size[0], self.size[1])) by {
                    let n = entries.len() - 1;
                    let sj = if j == i { n } else { j };
                    assert(t[j] == entries[sj]);
                    assert(recorded(atlas_allocations(atlas0_loop), entries[sj], (self.size[0], self.size[1])));
                    assert(has_alloc(t, t[j].alloc_id));
                }
                assert forall|x: u32| #[trigger] atlas_live_ids(atlas1).contains(x) <==> has_alloc(t, x) by {
                    assert(atlas_live_ids(atlas0_loop).contains(x) <==> has_alloc(entries, x));
                }
            }
            alloc = atlas_allocate(&mut self.atlas, width, height);
            proof {
                lemma_after_allocate(atlas1, self.atlas, alloc, self.entries@, (self.size[0], self.size[1]), width, height);
            }
            proof {
                let ghost old_k = k;
                k = k + 1;
                let evicted = before.lru().take(k);
                assert(evicted =~= before.lru().take(old_k).push(lru_alloc));
                assert(self.atlas_lru@ =~= before.lru().skip(k));
                let lhs = self.glyphs();
                let rhs = without_allocs(before.glyphs(), evicted);
                assert forall|kk: (u64, u16)| #[trigger] rhs.contains_key(kk) <==> lhs.contains_key(kk) by {
                    if rhs.contains_key(kk) && before.glyphs()[kk].0 == lru_alloc {
                        lemma_entry_map_ids_unique(before.entries@, kk, key);
                    }
                    if before.glyphs().contains_key(kk) && kk == key {
                        assert(evicted[old_k] == lru_alloc);
                        assert(evicted.contains(lru_alloc));
                    }
                    if before.glyphs().contains_key(kk) && evicted.contains(before.glyphs()[kk].0) && !before.lru().take(old_k).contains(before.glyphs()[kk].0) {
                        let q = choose|q: int| 0 <= q < evicted.len() && evicted[q] == before.glyphs()[kk].0;
                        if q < old_k {
                            assert(before.lru().take(old_k)[q] == evicted[q]);
                        }
                    }
                    if before.glyphs().contains_key(kk) && before.lru().take(old_k).contains(before.glyphs()[kk].0) {
                        let q = choose|q: int| 0 <= q < old_k && before.lru().take(old_k)[q] == before.glyphs()[kk].0;
                        assert(evicted[q] == before.glyphs()[kk].0);
                    }
                }
                assert(lhs =~= rhs);
                let ev = Seq::new(k as nat, |j: int| GlyphEvent::Evicted(alloc_rect(before.glyphs(), evicted[j])));
                let ev_old = Seq::new(old_k as nat, |j: int| GlyphEvent::Evicted(alloc_rect(before.glyphs(), before.lru().take(old_k)[j])));
                assert(ev =~= ev_old.push(GlyphEvent::Evicted(rect)));
                assert(self.events@ =~= before.events() + ev);
                assert(self.atlas_lru@.no_duplicates()) by {
                    assert forall|a: int, b: int| 0 <= a < self.atlas_lru@.len() && 0 <= b < self.atlas_lru@.len() && a != b implies self.atlas_lru@[a] != self.atlas_lru@[b] by {
                        assert(self.atlas_lru@[a] == lru[a + 1]);
                        assert(self.atlas_lru@[b] == lru[b + 1]);
                    }
                }
                assert forall|x: u32| #[trigger] self.atlas_lru@.contains(x) <==> has_alloc(self.entries@, x) by {
                    if self.atlas_lru@.contains(x) {
                        let a = choose|a: int| 0 <= a < self.atlas_lru@.len() && self.atlas_lru@[a] == x;
                        assert(lru[a + 1] == x);
                        assert(lru.contains(x));
                    }
                    if has_alloc(self.entries@, x) {
                        assert(lru.contains(x));
                        let a = choose|a: int| 0 <= a < lru.len() && lru[a] == x;
                        assert(a != 0);
                        assert(self.atlas_lru@[a - 1] == x);
                    }
                }
            }
        }
        let (id, rect) = alloc.unwrap();
        let ghost entries = self.entries@;
        let ghost lru = self.atlas_lru@;
        self.atlas_lru.push(id);
        let entry = GlyphEntry { face_hash, id: glyph_id, alloc_id: id, rectangle: rect, image };
        proof {
            assert(!self.glyphs().contains_key((face_hash, glyph_id)));
            lemma_entry_map_push(entries, entry);
        }
        self.entries.push(entry);
        self.events.push(GlyphEvent::New(face_hash, glyph_id, rect));
        proof {
            let l = self.atlas_lru@;
            assert(!lru.contains(id));
            assert forall|a: int, b: int| 0 <= a < l.len() && 0 <= b < l.len() && a != b implies l[a] != l[b] by {
                if a < lru.len() && b < lru.len() {
                    assert(l[a] == lru[a] && l[b] == lru[b]);
                } else if a < lru.len() {
                    assert(l[a] == lru[a]);
                } else if b < lru.len() {
                    assert(l[b] == lru[b]);
                }
            }
            assert forall|x: u32| #[trigger] l.contains(x) <==> has_alloc(self.entries@, x) by {
                if l.contains(x) {
                    let a = choose|a: int| 0 <= a < l.len() && l[a] == x;
                    if a < lru.len() {
                        assert(lru[a] == x);
                        assert(lru.contains(x));
                        let e = choose|e: int| 0 <= e < entries.len() && (#[trigger] entries[e]).alloc_id == x;
                        assert(self.entries@[e] == entries[e]);
                    } else {
                        assert(self.entries@[entries.len() as int].alloc_id == x);
                    }
                }
                if has_alloc(self.entries@, x) {
                    let e = choose|e: int| 0 <= e < self.entries@.len() && (#[trigger] self.entries@[e]).alloc_id == x;
                    if e < entries.len() {
                        assert(entries[e] == self.entries@[e]);
                        assert(has_alloc(entries, x));
                        assert(lru.contains(x));
                        let a = choose|a: int| 0 <= a < lru.len() && lru[a] == x;
                        assert(l[a] == x);
                    } else {
                        assert(l[lru.len() as int] == id);
                    }
                }
            }
            assert forall|x: u32| #[trigger] atlas_live_ids(self.atlas).contains(x) <==> has_alloc(self.entries@, x) by {
                if has_alloc(self.entries@, x) {
                    let e = choose|e: int| 0 <= e < self.entries@.len() && (#[trigger] self.entries@[e]).alloc_id == x;
                    if e < entries.len() {
                        assert(entries[e] == self.entries@[e]);
                        assert(has_alloc(entries, x));
                    }
                }
                if has_alloc(entries, x) {
                    let e = choose|e: int| 0 <= e < entries.len() && (#[trigger] entries[e]).alloc_id == x;
                    assert(self.entries@[e] == entries[e]);
                }
                if x == id {
                    assert(self.entries@[entries.len() as int].alloc_id == x);
                }
            }
            assert(l.last() == id);
            assert(l =~= before.lru().skip(k).push(id));
            let r = Some(rect);
            assert(self.events@ =~= before.events() + Seq::new(
                k as nat,
                |j: int| GlyphEvent::Evicted(alloc_rect(before.glyphs(), before.lru().take(k)[j])),
            ) + seq![GlyphEvent::New(face_hash, glyph_id, rect)]);
            assert(insert_outcome(before, *self, k, r, face_hash, glyph_id));
            lemma_image_map_at(self.entries@, entries.len() as int);
            lemma_images_kept(before.entries@, entries);
            assert forall|j: int| 0 <= j < entries.len() implies self.entries@.contains(#[trigger] entries[j]) by {
                assert(self.entries@[j] == entries[j]);
            }
            lemma_images_kept(self.entries@, entries);
            assert forall|key: (u64, u16)|
                #[trigger] self.glyphs().contains_key(key) && key != (face_hash, glyph_id)
                    implies self.images()[key] == before.images()[key] by {
                assert(entry_map(entries).contains_key(key));
            }
        }
        Some(rect)
    }

    /// Every pending `New` event names a glyph that is still cached.
    pub open spec fn events_resolvable(&self) -> bool {
        forall|i: int|
            0 <= i < self.events().len() ==> match #[trigger] self.events()[i] {
                GlyphEvent::New(face_hash, glyph_id, _) => self.glyphs().contains_key(
                    (face_hash, glyph_id),
                ),
                GlyphEvent::Evicted(_) => true,
            }
    }

    /// Whether every pending `New` event names a glyph that is still cached.
    pub fn can_process_events(&self) -> (r: bool)
        requires
            self.wf(),
        ensures
            r == self.events_resolvable(),
    {
        let n = self.events.len();
        let mut i: usize = 0;
        while i < n
            invariant
                n == self.events@.len(),
                i <= n,
                self.wf(),
                forall|j: int|
                    0 <= j < i ==> match #[trigger] self.events()[j] {
                        GlyphEvent::New(face_hash, glyph_id, _) => self.glyphs().contains_key(
                            (face_hash, glyph_id),
                        ),
                        GlyphEvent::Evicted(_) => true,
                    },
            decreases n - i,
        {
            match self.events[i] {
                GlyphEvent::New(face_hash, glyph_id, _) => {
                    if self.find_entry(face_hash, glyph_id).is_none() {
                        return false;
                    }
                },
                GlyphEvent::Evicted(_) => {},
            }
            i = i + 1;
        }
        true
    }

    /// The position of the entry of a glyph, if it is cached.
    fn find_entry(&self, face_hash: u64, glyph_id: u16) -> (r: Option<usize>)
        requires
            self.wf(),
        ensures
            match r {
                Some(p) => p < self.entries@.len() && glyph_key(self.entries@[p as int]) == (
                    face_hash,
                    glyph_id,
                ),
                None => !self.glyphs().contains_key((face_hash, glyph_id)),
            },
    {
        let n = self.entries.len();
        let mut i: usize = 0;
        while i < n
            invariant
                n == self.entries@.len(),
                i <= n,
                forall|j: int| 0 <= j < i ==> glyph_key(#[trigger] self.entries@[j]) != (face_hash, glyph_id),
            decreases n - i,
        {
            if self.entries[i].face_hash == face_hash && self.entries[i].id == glyph_id {
                return Some(i);
            }
            i = i + 1;
        }
        proof {
            if self.glyphs().contains_key((face_hash, glyph_id)) {
                let j = choose|j: int|
                    0 <= j < self.entries@.len() && glyph_key(#[trigger] self.entries@[j]) == (
                        face_hash,
                        glyph_id,
                    );
                assert(glyph_key(self.entries@[j]) != (face_hash, glyph_id));
            }
        }
        None
    }

    /// The image handed out with event `e`: the cached image of the glyph a
    /// `New` event names, nothing for an `Evicted` event.
    pub open spec fn event_image(&self, e: GlyphEvent) -> Option<&I> {
        match e {
            GlyphEvent::New(face_hash, glyph_id, _) => Some(&self.images()[(face_hash, glyph_id)]),
            GlyphEvent::Evicted(_) => None,
        }
    }

    /// Hands each pending event to `callback`, in order, with the image of
    /// the glyph for a `New` event, then forgets the events.
    pub fn process_events<F: Fn(&GlyphEvent, Option<&I>)>(&mut self, callback: F)
        requires
            old(self).wf(),
            old(self).events_resolvable(),
            forall|e: &GlyphEvent, image: Option<&I>| call_requires(callback, (e, image)),
        ensures
            final(self).wf(),
            final(self).events() == Seq::<GlyphEvent>::empty(),
            final(self).glyphs() == old(self).glyphs(),
            final(self).images() == old(self).images(),
            final(self).lru() == old(self).lru(),
            final(self).spec_size() == old(self).spec_size(),
            final(self).atlas_rects() == old(self).atlas_rects(),
            forall|w: i32, h: i32| #[trigger] final(self).accepts(w, h) == old(self).accepts(w, h),
            forall|j: int|
                0 <= j < old(self).events().len() ==> call_ensures(
                    callback,
                    (&old(self).events()[j], old(self).event_image(#[trigger] old(self).events()[j])),
                    (),
                ),
    {
        let n = self.events.len();
        let mut i: usize = 0;
        while i < n
            invariant
                n == self.events@.len(),
                i <= n,
                self.wf(),
                self.events_resolvable(),
                *self == *old(self),
                forall|e: &GlyphEvent, image: Option<&I>| call_requires(callback, (e, image)),
                forall|j: int|
                    0 <= j < i ==> call_ensures(
                        callback,
                        (&self.events()[j], self.event_image(#[trigger] self.events()[j])),
                        (),
                    ),
            decreases n - i,
        {
            let event = &self.events[i];
            match event {
                GlyphEvent::New(face_hash, glyph_id, _) => {
                    assert(self.glyphs().contains_key((*face_hash, *glyph_id)));
                    let p = self.find_entry(*face_hash, *glyph_id).unwrap();
                    proof {
                        lemma_image_map_at(self.entries@, p as int);
                    }
                    let r = callback(event, Some(&self.entries[p].image));
                    assert(call_ensures(callback, (&self.events()[i as int], self.event_image(self.events()[i as int])), r));
                },
                GlyphEvent::Evicted(_) => {
                    let r = callback(event, None);
                    assert(call_ensures(callback, (&self.events()[i as int], self.event_image(self.events()[i as int])), r));
                },
            }
            i = i + 1;
        }
        self.events.clear();
    }

    /// The position of allocation `id` in the LRU queue.
    fn lru_position(&self, id: u32) -> (p: usize)
        requires
            self.atlas_lru@.contains(id),
        ensures
            p < self.atlas_lru@.len(),
            self.atlas_lru@[p as int] == id,
    {
        let n = self.atlas_lru.len();
        let mut p: usize = 0;
        while p < n
            invariant
                n == self.atlas_lru@.len(),
                p <= n,
                self.atlas_lru@.contains(id),
                forall|j: int| 0 <= j < p ==> self.atlas_lru@[j] != id,
            decreases n - p,
        {
            if self.atlas_lru[p] == id {
                return p;
            }
            p = p + 1;
        }
        proof {
            let j = choose|j: int| 0 <= j < self.atlas_lru@.len() && self.atlas_lru@[j] == id;
            assert(self.atlas_lru@[j] != id);
        }
        0
    }
}

/// A glyph that was just inserted is cached, with the rectangle the insertion
/// returned, as the most recently used glyph.
pub proof fn law_insert_then_cached<I>(
    before: GlyphCache<I>,
    after: GlyphCache<I>,
    k: int,
    rect: AtlasRect,
    face_hash: u64,
    glyph_id: u16,
)
    requires
        insert_outcome(before, after, k, Some(rect), face_hash, glyph_id),
    ensures
        after.glyphs().contains_key((face_hash, glyph_id)),
        after.glyphs()[(face_hash, glyph_id)] == (after.lru().last(), rect),
{
}

/// The glyphs of a cache lie in the atlas, each under its allocation, and no
/// two share a texel.
pub proof fn law_glyphs_disjoint<I>(cache: GlyphCache<I>, k1: (u64, u16), k2: (u64, u16))
    requires
        cache.wf(),
        cache.glyphs().contains_key(k1),
        cache.glyphs().contains_key(k2),
        k1 != k2,
    ensures
        disjoint(cache.glyphs()[k1].1, cache.glyphs()[k2].1),
        inside(cache.glyphs()[k1].1, (cache.spec_size()[0], cache.spec_size()[1])),
        cache.atlas_rects().contains_key(cache.glyphs()[k1].0),
        cache.atlas_rects()[cache.glyphs()[k1].0] == cache.glyphs()[k1].1,
{
    let s = cache.entries@;
    let i = choose|i: int| 0 <= i < s.len() && glyph_key(#[trigger] s[i]) == k1;
    let j = choose|j: int| 0 <= j < s.len() && glyph_key(#[trigger] s[j]) == k2;
    lemma_entry_map_at(s, i);
    lemma_entry_map_at(s, j);
    assert(recorded(atlas_allocations(cache.atlas), s[i], (cache.size[0], cache.size[1])));
    assert(i != j);
    assert(disjoint(s[i].rectangle, s[j].rectangle));
}

/// Glyphs are evicted least recently used first: the evicted ones are a
/// prefix of the LRU queue, and every glyph that was not evicted keeps its
/// allocation and rectangle.
pub proof fn law_eviction_keeps_recent<I>(
    before: GlyphCache<I>,
    after: GlyphCache<I>,
    k: int,
    r: Option<AtlasRect>,
    face_hash: u64,
    glyph_id: u16,
    key: (u64, u16),
)
    requires
        insert_outcome(before, after, k, r, face_hash, glyph_id),
        !before.glyphs().contains_key((face_hash, glyph_id)),
        before.glyphs().contains_key(key),
        !before.lru().take(k).contains(before.glyphs()[key].0),
    ensures
        after.glyphs().contains_key(key),
        after.glyphs()[key] == before.glyphs()[key],
{
    if r is Some {
        assert(without_allocs(before.glyphs(), before.lru().take(k)).contains_key(key));
    }
}

/// In a well-formed cache the LRU queue lists exactly the allocations of the
/// cached glyphs, each once.
pub proof fn law_lru_matches_glyphs<I>(cache: GlyphCache<I>)
    requires
        cache.wf(),
    ensures
        cache.lru().no_duplicates(),
        forall|x: u32|
            cache.lru().contains(x) <==> exists|k: (u64, u16)|
                #[trigger] cache.glyphs().contains_key(k) && cache.glyphs()[k].0 == x,
{
    let s = cache.entries@;
    assert forall|x: u32|
        cache.lru().contains(x) <==> exists|k: (u64, u16)|
            #[trigger] cache.glyphs().contains_key(k) && cache.glyphs()[k].0 == x by {
        if cache.lru().contains(x) {
            assert(has_alloc(s, x));
            let i = choose|i: int| 0 <= i < s.len() && (#[trigger] s[i]).alloc_id == x;
            lemma_entry_map_at(s, i);
            assert(cache.glyphs().contains_key(glyph_key(s[i])));
        }
        if exists|k: (u64, u16)| #[trigger] cache.glyphs().contains_key(k) && cache.glyphs()[k].0 == x {
            let k = choose|k: (u64, u16)| #[trigger] cache.glyphs().contains_key(k) && cache.glyphs()[k].0 == x;
            let i = choose|i: int| 0 <= i < s.len() && glyph_key(#[trigger] s[i]) == k;
            lemma_entry_map_at(s, i);
            assert(has_alloc(s, x));
        }
    }
}

} // verus!
