use vstd::prelude::*;
use swash::{CacheKey, FontRef};

verus! {

#[verifier::external_type_specification]
#[verifier::external_body]
pub struct ExCacheKey(swash::CacheKey);

/// The offset of the table directory of font `index` in the font file
/// `data`, when the file holds a font (or a collection of fonts) with that
/// index, as `FontRef::from_index` finds it.
pub uninterp spec fn font_offset(data: Seq<u8>, index: usize) -> Option<u32>;

/// The largest font index looked up: the table-directory entry of a larger
/// index in a collection would lie beyond a 32-bit `usize`.
pub const MAX_FONT_INDEX: usize = 0x3FFF_FFFC;

/// `FontRef::from_index(data, index)`, keeping the offset and the cache key
/// of the font it finds. It finds one exactly when `font_offset` has one,
/// at that offset. The key is a fresh value drawn from a global counter on
/// each call, so nothing is stated of it. The lookup computes
/// `12 + 4 * index` as a `usize`, which `requires` keeps within 32 bits.
#[verifier::external_body]
fn font_ref_from_index(data: &[u8], index: usize) -> (r: Option<(u32, CacheKey)>)
    requires
        index <= MAX_FONT_INDEX,
    ensures
        r is Some <==> font_offset(data@, index) is Some,
        r matches Some(p) ==> font_offset(data@, index) == Some(p.0),
{
    FontRef::from_index(data, index).map(|f| (f.offset, f.key))
}

/// A font file held in memory, with the offset of the selected font's table
/// directory and the key that identifies it in the font caches.
pub struct Font {
    data: Vec<u8>,
    offset: u32,
    key: CacheKey,
}

impl Font {
    /// The content of the font file.
    pub closed spec fn bytes(&self) -> Seq<u8> {
        self.data@
    }

    /// The offset of the font's table directory in the file.
    pub closed spec fn table_offset(&self) -> u32 {
        self.offset
    }

    /// The font `index` of the font file `data`, or `None` when the data is
    /// no font file or has no font with that index.
    pub fn from_bytes(data: Vec<u8>, index: usize) -> (r: Option<Font>)
        requires
            index <= MAX_FONT_INDEX,
        ensures
            r is Some <==> font_offset(data@, index) is Some,
            r matches Some(f) ==> f.bytes() == data@ && font_offset(data@, index) == Some(
                f.table_offset(),
            ),
    {
        match font_ref_from_index(data.as_slice(), index) {
            Some((offset, key)) => Some(Font { data, offset, key }),
            None => None,
        }
    }

    /// The content of the font file.
    pub fn data(&self) -> (r: &[u8])
        ensures
            r@ == self.bytes(),
    {
        self.data.as_slice()
    }

    /// The offset of the font's table directory in the file.
    pub fn offset(&self) -> (r: u32)
        ensures
            r == self.table_offset(),
    {
        self.offset
    }

    /// The key that identifies the font in the font caches.
    pub fn key(&self) -> CacheKey {
        self.key
    }
}

} // verus!
