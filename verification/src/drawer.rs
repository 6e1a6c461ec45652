use vstd::prelude::*;

verus! {

/// A color packed as `0xAABBGGRR`.
#[derive(Clone, Copy)]
pub struct ColorU32(pub u32);

/// The packed value of the four channels, red in the low byte.
pub open spec fn packed_rgba(r: u8, g: u8, b: u8, a: u8) -> u32 {
    (r as int + 256 * g as int + 65536 * b as int + 16777216 * a as int) as u32
}

impl ColorU32 {
    pub fn from_u8(r: u8, g: u8, b: u8, a: u8) -> (c: Self)
        ensures
            c.0 == packed_rgba(r, g, b, a),
    {
        let r = r as u32;
        let g = g as u32;
        let b = b as u32;
        let a = a as u32;
        let bits = (((((a << 8) | b) << 8) | g) << 8) | r;
        assert(bits == (r + 256 * g + 65536 * b + 16777216 * a) as u32) by (bit_vector)
            requires
                r < 256,
                g < 256,
                b < 256,
                a < 256,
                bits == (((((a << 8) | b) << 8) | g) << 8) | r,
        ;
        Self(bits)
    }

    /// Opaque red.
    pub fn red() -> (c: Self)
        ensures
            c.0 == 0xFF0000FFu32,
    {
        Self::from_u8(255, 0, 0, 255)
    }

    /// Opaque green.
    pub fn green() -> (c: Self)
        ensures
            c.0 == 0xFF00FF00u32,
    {
        Self::from_u8(0, 255, 0, 255)
    }

    /// Opaque blue.
    pub fn blue() -> (c: Self)
        ensures
            c.0 == 0xFFFF0000u32,
    {
        Self::from_u8(0, 0, 255, 255)
    }

    /// Opaque cyan.
    pub fn cyan() -> (c: Self)
        ensures
            c.0 == 0xFFFFFF00u32,
    {
        Self::from_u8(0, 255, 255, 255)
    }

    /// Opaque magenta.
    pub fn magenta() -> (c: Self)
        ensures
            c.0 == 0xFFFF00FFu32,
    {
        Self::from_u8(255, 0, 255, 255)
    }

    /// Opaque yellow.
    pub fn yellow() -> (c: Self)
        ensures
            c.0 == 0xFF00FFFFu32,
    {
        Self::from_u8(255, 255, 0, 255)
    }

    /// Opaque grey with the same intensity on the three channels.
    pub fn greyscale(intensity: u8) -> (c: Self)
        ensures
            c.0 == packed_rgba(intensity, intensity, intensity, 255),
    {
        Self::from_u8(intensity, intensity, intensity, 255)
    }

    /// The red channel, in the low byte.
    pub fn r(self) -> (v: u32)
        ensures
            v == self.0 % 0x100,
    {
        let x = self.0;
        assert(x & 0xFFu32 == x % 0x100) by (bit_vector);
        self.0 & 0x000000FF
    }

    /// The green channel, left in its place (second byte).
    pub fn g(self) -> (v: u32)
        ensures
            v == (self.0 / 0x100 % 0x100) * 0x100,
    {
        let x = self.0;
        assert(x & 0xFF00u32 == (x / 0x100 % 0x100) * 0x100) by (bit_vector);
        self.0 & 0x0000FF00
    }

    /// The blue channel, left in its place (third byte).
    pub fn b(self) -> (v: u32)
        ensures
            v == (self.0 / 0x10000 % 0x100) * 0x10000,
    {
        let x = self.0;
        assert(x & 0xFF0000u32 == (x / 0x10000 % 0x100) * 0x10000) by (bit_vector);
        self.0 & 0x00FF0000
    }

    /// The alpha channel, left in its place (high byte).
    pub fn a(self) -> (v: u32)
        ensures
            v == (self.0 / 0x1000000) * 0x1000000,
    {
        let x = self.0;
        assert(x & 0xFF000000u32 == (x / 0x1000000) * 0x1000000) by (bit_vector);
        self.0 & 0xFF000000
    }
}

/// Packing a color and reading a channel back gives the channel, in its byte.
pub proof fn law_color_channels(r: u8, g: u8, b: u8, a: u8)
    ensures
        packed_rgba(r, g, b, a) % 0x100 == r,
        (packed_rgba(r, g, b, a) / 0x100 % 0x100) * 0x100 == g as int * 0x100,
        (packed_rgba(r, g, b, a) / 0x10000 % 0x100) * 0x10000 == b as int * 0x10000,
        (packed_rgba(r, g, b, a) / 0x1000000) * 0x1000000 == a as int * 0x1000000,
{
    let x = packed_rgba(r, g, b, a);
    assert(x == r as int + 256 * g as int + 65536 * b as int + 16777216 * a as int);
    assert(x % 0x100 == r) by (nonlinear_arith)
        requires
            x == r as int + 256 * g as int + 65536 * b as int + 16777216 * a as int,
            r < 256,
    ;
    assert(x / 0x100 == g as int + 256 * b as int + 65536 * a as int) by (nonlinear_arith)
        requires
            x == r as int + 256 * g as int + 65536 * b as int + 16777216 * a as int,
            r < 256,
    ;
    assert((g as int + 256 * b as int + 65536 * a as int) % 0x100 == g) by (nonlinear_arith)
        requires
            g < 256,
    ;
    assert(x / 0x10000 == b as int + 256 * a as int) by (nonlinear_arith)
        requires
            x == r as int + 256 * g as int + 65536 * b as int + 16777216 * a as int,
            r < 256,
            g < 256,
    ;
    assert((b as int + 256 * a as int) % 0x100 == b) by (nonlinear_arith)
        requires
            b < 256,
    ;
    assert(x / 0x1000000 == a) by (nonlinear_arith)
        requires
            x == r as int + 256 * g as int + 65536 * b as int + 16777216 * a as int,
            r < 256,
            g < 256,
            b < 256,
    ;
}

/// The kind of primitive a vertex index refers to.
#[derive(Clone, Copy)]
pub enum PrimitiveType {
    ColorRect,
    TexturedRect,
    Clip,
    SdfCircle,
}

impl PrimitiveType {
    /// The number that stands for the primitive kind in an index.
    pub open spec fn spec_bits(self) -> u32 {
        match self {
            PrimitiveType::ColorRect => 0,
            PrimitiveType::TexturedRect => 1,
            PrimitiveType::Clip => 2,
            PrimitiveType::SdfCircle => 0b100000,
        }
    }

    pub fn bits(self) -> (r: u32)
        ensures
            r == self.spec_bits(),
    {
        match self {
            PrimitiveType::ColorRect => 0,
            PrimitiveType::TexturedRect => 1,
            PrimitiveType::Clip => 2,
            PrimitiveType::SdfCircle => 0b100000,
        }
    }
}

pub const CRNR_MAX: u32 = 0b0011;
pub const CRNR_OFFSET: u32 = 30;
pub const CRNR_MASK: u32 = 0b11000000_00000000_00000000_00000000;

pub const TYPE_MAX: u32 = 0b0011_1111;
pub const TYPE_OFFSET: u32 = 24;
pub const TYPE_MASK: u32 = 0b00111111_00000000_00000000_00000000;

pub const INDX_MAX: u32 = 0b1111_1111_1111_1111_1111_1111;
pub const INDX_OFFSET: u32 = 0;
pub const INDX_MASK: u32 = 0b00000000_11111111_11111111_11111111;

/// A vertex index of the 2D drawer: the corner in the two top bits, the
/// primitive kind in the next six, and the primitive's index in the low 24.
#[derive(Clone, Copy)]
pub struct PrimitiveIndex(u32);

/// The corner field of packed index bits.
pub open spec fn corner_field(bits: u32) -> u32 {
    bits / 0x4000_0000
}

/// The primitive-kind field of packed index bits.
pub open spec fn type_field(bits: u32) -> u32 {
    bits / 0x100_0000 % 0x40
}

/// The primitive-index field of packed index bits.
pub open spec fn index_field(bits: u32) -> u32 {
    bits % 0x100_0000
}

/// The bits with the given three fields.
pub open spec fn packed_index(corner: u32, i_type: u32, index: u32) -> u32 {
    (corner * 0x4000_0000 + i_type * 0x100_0000 + index) as u32
}

impl View for PrimitiveIndex {
    type V = u32;

    closed spec fn view(&self) -> u32 {
        self.0
    }
}

impl PrimitiveIndex {
    /// An index with every field zero.
    pub fn new() -> (r: Self)
        ensures
            r@ == 0,
    {
        Self(0)
    }

    /// The packed bits.
    pub fn bits(self) -> (r: u32)
        ensures
            r == self@,
    {
        self.0
    }

    pub fn get_corner(&self) -> (r: u32)
        ensures
            r == corner_field(self@),
    {
        let x = self.0;
        assert((x & 0xC0000000u32) >> 30u32 == x / 0x4000_0000) by (bit_vector);
        (self.0 & CRNR_MASK) >> CRNR_OFFSET
    }

    /// The same index with the corner field set to `i_corner`, which must fit
    /// in two bits.
    pub fn corner(self, i_corner: u32) -> (r: Self)
        requires
            i_corner <= CRNR_MAX,
        ensures
            r@ == with_corner(self@, i_corner),
            corner_field(r@) == i_corner,
            type_field(r@) == type_field(self@),
            index_field(r@) == index_field(self@),
    {
        let mut bits = self.0;
        bits &= !CRNR_MASK;
        bits |= i_corner << CRNR_OFFSET;
        let x = self.0;
        let c = i_corner;
        assert(((x & !0xC0000000u32) | (c << 30u32)) / 0x4000_0000 == c
            && ((x & !0xC0000000u32) | (c << 30u32)) / 0x100_0000 % 0x40 == x / 0x100_0000 % 0x40
            && ((x & !0xC0000000u32) | (c << 30u32)) % 0x100_0000 == x % 0x100_0000)
            by (bit_vector)
            requires
                c <= 3u32,
        ;
        proof {
            law_index_fields(bits);
        }
        PrimitiveIndex(bits)
    }

    pub fn get_i_type(&self) -> (r: u32)
        ensures
            r == type_field(self@),
    {
        let x = self.0;
        assert((x & 0x3F000000u32) >> 24u32 == x / 0x100_0000 % 0x40) by (bit_vector);
        (self.0 & TYPE_MASK) >> TYPE_OFFSET
    }

    /// The same index with the primitive-kind field set to `i_type`.
    pub fn i_type(self, i_type: PrimitiveType) -> (r: Self)
        ensures
            type_field(r@) == i_type.spec_bits(),
            corner_field(r@) == corner_field(self@),
            index_field(r@) == index_field(self@),
    {
        let t = i_type.bits();
        let mut bits = self.0;
        bits &= !TYPE_MASK;
        bits |= t << TYPE_OFFSET;
        let x = self.0;
        assert(((x & !0x3F000000u32) | (t << 24u32)) / 0x100_0000 % 0x40 == t
            && ((x & !0x3F000000u32) | (t << 24u32)) / 0x4000_0000 == x / 0x4000_0000
            && ((x & !0x3F000000u32) | (t << 24u32)) % 0x100_0000 == x % 0x100_0000)
            by (bit_vector)
            requires
                t <= 63u32,
        ;
        PrimitiveIndex(bits)
    }

    pub fn get_index(&self) -> (r: u32)
        ensures
            r == index_field(self@),
    {
        let x = self.0;
        assert((x & 0xFFFFFFu32) >> 0u32 == x % 0x100_0000) by (bit_vector);
        (self.0 & INDX_MASK) >> INDX_OFFSET
    }

    /// The same index with the primitive-index field set to `index`, whose
    /// low 32 bits must fit in 24 bits.
    pub fn index(self, index: usize) -> (r: Self)
        requires
            index as u32 <= INDX_MAX,
        ensures
            index_field(r@) == index as u32,
            corner_field(r@) == corner_field(self@),
            type_field(r@) == type_field(self@),
    {
        let i = index as u32;
        let mut bits = self.0;
        bits &= !INDX_MASK;
        bits |= i << INDX_OFFSET;
        let x = self.0;
        assert(((x & !0xFFFFFFu32) | (i << 0u32)) % 0x100_0000 == i
            && ((x & !0xFFFFFFu32) | (i << 0u32)) / 0x4000_0000 == x / 0x4000_0000
            && ((x & !0xFFFFFFu32) | (i << 0u32)) / 0x100_0000 % 0x40 == x / 0x100_0000 % 0x40)
            by (bit_vector)
            requires
                i <= 0xFFFFFFu32,
        ;
        PrimitiveIndex(bits)
    }
}

impl Default for PrimitiveIndex {
    fn default() -> (r: Self)
        ensures
            r@ == 0,
    {
        Self::new()
    }
}

/// The three fields determine the packed bits, and the bits built from three
/// fields that fit give them back.
pub proof fn law_index_fields(bits: u32)
    ensures
        bits == packed_index(corner_field(bits), type_field(bits), index_field(bits)),
        corner_field(bits) <= CRNR_MAX,
        type_field(bits) <= TYPE_MAX,
        index_field(bits) <= INDX_MAX,
{
    assert(bits == ((bits / 0x4000_0000) * 0x4000_0000 + (bits / 0x100_0000 % 0x40) * 0x100_0000
        + bits % 0x100_0000) as u32 && bits / 0x4000_0000 <= 3u32 && bits / 0x100_0000 % 0x40
        <= 63u32 && bits % 0x100_0000 <= 0xFFFFFFu32) by (bit_vector);
}

/// The bits `bits` with the corner field replaced by `c`.
pub open spec fn with_corner(bits: u32, c: u32) -> u32 {
    packed_index(c, type_field(bits), index_field(bits))
}

/// Setting the corner field reads back as that corner and leaves the
/// primitive kind and index as they were.
pub proof fn law_corner_fields(bits: u32, c: u32)
    requires
        c <= CRNR_MAX,
    ensures
        corner_field(with_corner(bits, c)) == c,
        type_field(with_corner(bits, c)) == type_field(bits),
        index_field(with_corner(bits, c)) == index_field(bits),
{
    assert({
        let x = ((c * 0x4000_0000 + (bits / 0x100_0000 % 0x40) * 0x100_0000 + bits % 0x100_0000) as u32);
        &&& x / 0x4000_0000 == c
        &&& x / 0x100_0000 % 0x40 == bits / 0x100_0000 % 0x40
        &&& x % 0x100_0000 == bits % 0x100_0000
    }) by (bit_vector)
        requires
            c <= 3u32,
    ;
}

/// The corner that the `k`-th of the six indices of a rectangle refers to:
/// two triangles, (0, 1, 2) and (0, 2, 3).
pub open spec fn rect_corner(k: int) -> u32 {
    if k == 0 || k == 3 {
        0
    } else if k == 1 {
        1
    } else if k == 2 || k == 4 {
        2
    } else {
        3
    }
}

/// The smallest multiple of `size` that is at least `offset`.
pub open spec fn align_up(offset: int, size: int) -> int {
    if offset % size == 0 {
        offset
    } else {
        offset + (size - offset % size)
    }
}

/// Moves `vertex_byte_offset` up to the next multiple of `primitive_size` and
/// returns the index, counted in primitives, of the first primitive there.
pub fn begin_primitive(vertex_byte_offset: &mut usize, primitive_size: usize) -> (r: usize)
    requires
        primitive_size > 0,
        *old(vertex_byte_offset) + primitive_size <= usize::MAX,
    ensures
        *final(vertex_byte_offset) == align_up(*old(vertex_byte_offset) as int, primitive_size as int),
        *final(vertex_byte_offset) % primitive_size == 0,
        r == *final(vertex_byte_offset) / primitive_size,
{
    let misalignment = *vertex_byte_offset % primitive_size;
    if misalignment != 0 {
        *vertex_byte_offset += primitive_size - misalignment;
    }
    proof {
        let o = *old(vertex_byte_offset) as int;
        let s = primitive_size as int;
        if o % s != 0 {
            assert((o + (s - o % s)) % s == 0) by (nonlinear_arith)
                requires
                    s > 0,
            {
                vstd::arithmetic::div_mod::lemma_fundamental_div_mod(o, s);
                vstd::arithmetic::div_mod::lemma_mod_multiples_basic(o / s + 1, s);
                assert(o + (s - o % s) == (o / s + 1) * s);
            }
        }
    }
    *vertex_byte_offset / primitive_size
}

/// Moves `vertex_byte_offset` past `count` primitives of `primitive_size`
/// bytes.
pub fn end_primitive(vertex_byte_offset: &mut usize, count: usize, primitive_size: usize)
    requires
        *old(vertex_byte_offset) + count * primitive_size <= usize::MAX,
    ensures
        *final(vertex_byte_offset) == *old(vertex_byte_offset) + count * primitive_size,
{
    let o = *vertex_byte_offset;
    assert(count * primitive_size <= usize::MAX) by (nonlinear_arith)
        requires
            o + count * primitive_size <= usize::MAX,
            o >= 0,
    ;
    *vertex_byte_offset += count * primitive_size;
}

/// Whether the low 32 bits of a primitive number fit in the index field.
pub open spec fn index_fits(n: int) -> bool {
    (n as usize) as u32 <= INDX_MAX
}

/// Writes, from `*index_offset` on, six indices per rectangle (two triangles
/// over its corners) for `rect_count` rectangles of kind `i_type`, numbered
/// from `i_first_rect`, and moves `*index_offset` past them.
pub fn write_rect_indices(
    index_offset: &mut usize,
    index_buffer: &mut [u32],
    i_first_rect: usize,
    rect_count: usize,
    i_type: PrimitiveType,
)
    requires
        *old(index_offset) + 6 * rect_count <= old(index_buffer)@.len(),
        forall|n: int| i_first_rect <= n < i_first_rect + rect_count ==> #[trigger] index_fits(n),
        i_first_rect + rect_count <= usize::MAX,
    ensures
        *final(index_offset) == *old(index_offset) + 6 * rect_count,
        final(index_buffer)@.len() == old(index_buffer)@.len(),
        forall|j: int|
            0 <= j < old(index_buffer)@.len() ==> #[trigger] final(index_buffer)@[j] == if *old(
                index_offset,
            ) <= j < *old(index_offset) + 6 * rect_count {
                packed_index(
                    rect_corner((j - *old(index_offset)) % 6),
                    i_type.spec_bits(),
                    ((i_first_rect + (j - *old(index_offset)) / 6) as usize) as u32,
                )
            } else {
                old(index_buffer)@[j]
            },
{
    let start = *index_offset;
    let len = index_buffer.len();
    let corners: [u32; 6] = [0, 1, 2, 0, 2, 3];
    let mut i_rect: usize = 0;
    while i_rect < rect_count
        invariant
            i_rect <= rect_count,
            start == *old(index_offset),
            start + 6 * rect_count <= index_buffer@.len(),
            index_buffer@.len() == old(index_buffer)@.len(),
            len == index_buffer@.len(),
            forall|n: int| i_first_rect <= n < i_first_rect + rect_count ==> #[trigger] index_fits(n),
            i_first_rect + rect_count <= usize::MAX,
            corners@ == seq![0u32, 1, 2, 0, 2, 3],
            forall|j: int|
                0 <= j < index_buffer@.len() ==> #[trigger] index_buffer@[j] == if start <= j < start
                    + 6 * i_rect {
                    packed_index(
                        rect_corner((j - start) % 6),
                        i_type.spec_bits(),
                        ((i_first_rect + (j - start) / 6) as usize) as u32,
                    )
                } else {
                    old(index_buffer)@[j]
                },
        decreases rect_count - i_rect,
    {
        let mut i_corner: usize = 0;
        while i_corner < 6
            invariant
                i_rect < rect_count,
                i_corner <= 6,
                start == *old(index_offset),
                start + 6 * rect_count <= index_buffer@.len(),
                index_buffer@.len() == old(index_buffer)@.len(),
                len == index_buffer@.len(),
                forall|n: int| i_first_rect <= n < i_first_rect + rect_count ==> #[trigger] index_fits(n),
                i_first_rect + rect_count <= usize::MAX,
                corners@ == seq![0u32, 1, 2, 0, 2, 3],
                forall|j: int|
                    0 <= j < index_buffer@.len() ==> #[trigger] index_buffer@[j] == if start <= j
                        < start + 6 * i_rect + i_corner {
                        packed_index(
                            rect_corner((j - start) % 6),
                            i_type.spec_bits(),
                            ((i_first_rect + (j - start) / 6) as usize) as u32,
                        )
                    } else {
                        old(index_buffer)@[j]
                    },
            decreases 6 - i_corner,
        {
            assert(index_fits(i_first_rect + i_rect));
            let primitive = PrimitiveIndex::new().index(i_first_rect + i_rect).corner(
                corners[i_corner],
            ).i_type(i_type);
            assert(i_rect * 6 + i_corner < 6 * rect_count) by (nonlinear_arith)
                requires
                    i_rect < rect_count,
                    i_corner < 6,
            ;
            let pos = start + i_rect * 6 + i_corner;
            let bits = primitive.bits();
            proof {
                law_index_fields(bits);
                let c = corners@[i_corner as int];
                assert(c == rect_corner(i_corner as int));
                assert((pos - start) % 6 == i_corner as int && (pos - start) / 6 == i_rect as int)
                    by (nonlinear_arith)
                    requires
                        pos - start == i_rect * 6 + i_corner,
                        0 <= i_corner < 6,
                ;
            }
            index_buffer[pos] = bits;
            i_corner = i_corner + 1;
        }
        i_rect = i_rect + 1;
    }
    *index_offset = start + 6 * rect_count;
}

} // verus!
