use exo_engine::drawer::{
    begin_primitive, end_primitive, write_rect_indices, ColorU32, PrimitiveIndex, PrimitiveType,
};

#[test]
fn color_packing() {
    let c = ColorU32::from_u8(1, 2, 3, 4);
    assert_eq!(c.0, 0x04030201);
    assert_eq!(c.r(), 0x01);
    assert_eq!(c.g(), 0x0200);
    assert_eq!(c.b(), 0x030000);
    assert_eq!(c.a(), 0x04000000);
}

#[test]
fn named_colors() {
    assert_eq!(ColorU32::red().0, 0xFF0000FF);
    assert_eq!(ColorU32::green().0, 0xFF00FF00);
    assert_eq!(ColorU32::blue().0, 0xFFFF0000);
    assert_eq!(ColorU32::cyan().0, 0xFFFFFF00);
    assert_eq!(ColorU32::magenta().0, 0xFFFF00FF);
    assert_eq!(ColorU32::yellow().0, 0xFF00FFFF);
    assert_eq!(ColorU32::greyscale(0x3A).0, 0xFF3A3A3A);
}

#[test]
fn primitive_index_fields() {
    let p = PrimitiveIndex::new()
        .index(5)
        .corner(3)
        .i_type(PrimitiveType::TexturedRect);
    assert_eq!(p.bits(), 0xC1000005);
    assert_eq!(p.get_corner(), 3);
    assert_eq!(p.get_i_type(), 1);
    assert_eq!(p.get_index(), 5);
    let q = p.corner(1).index(0xFFFFFF).i_type(PrimitiveType::SdfCircle);
    assert_eq!(q.get_corner(), 1);
    assert_eq!(q.get_i_type(), 32);
    assert_eq!(q.get_index(), 0xFFFFFF);
    assert_eq!(PrimitiveIndex::default().bits(), 0);
}

#[test]
fn primitive_alignment() {
    let mut offset: usize = 10;
    let first = begin_primitive(&mut offset, 8);
    assert_eq!(offset, 16);
    assert_eq!(first, 2);
    end_primitive(&mut offset, 3, 8);
    assert_eq!(offset, 40);
    let mut aligned: usize = 24;
    assert_eq!(begin_primitive(&mut aligned, 8), 3);
    assert_eq!(aligned, 24);
}

#[test]
fn rect_indices() {
    let mut buffer = [0u32; 14];
    let mut offset: usize = 1;
    write_rect_indices(&mut offset, &mut buffer, 2, 2, PrimitiveType::ColorRect);
    assert_eq!(offset, 13);
    let expected_corners = [0u32, 1, 2, 0, 2, 3];
    for r in 0..2u32 {
        for k in 0..6usize {
            let bits = buffer[1 + (r as usize) * 6 + k];
            assert_eq!(bits, (expected_corners[k] << 30) | (2 + r));
        }
    }
    assert_eq!(buffer[0], 0);
    assert_eq!(buffer[13], 0);
}
