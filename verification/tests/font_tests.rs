use exo_engine::font::Font;

#[test]
fn font_from_single_font_bytes() {
    let data = vec![0u8, 1, 0, 0, 9, 9];
    let font = Font::from_bytes(data.clone(), 0).unwrap();
    assert_eq!(font.offset(), 0);
    assert_eq!(font.data(), &data[..]);
    assert!(Font::from_bytes(data, 1).is_none());
}

#[test]
fn font_from_collection_bytes() {
    let mut data: Vec<u8> = Vec::new();
    data.extend_from_slice(b"ttcf");
    data.extend_from_slice(&[0, 1, 0, 0]);
    data.extend_from_slice(&[0, 0, 0, 2]);
    data.extend_from_slice(&[0, 0, 0, 20]);
    data.extend_from_slice(&[0, 0, 0, 24]);
    data.extend_from_slice(&[0, 1, 0, 0]);
    data.extend_from_slice(b"OTTO");
    assert_eq!(Font::from_bytes(data.clone(), 0).map(|f| f.offset()), Some(20));
    assert_eq!(Font::from_bytes(data.clone(), 1).map(|f| f.offset()), Some(24));
    assert!(Font::from_bytes(data, 2).is_none());
}

#[test]
fn font_from_bytes_refuses_other_data() {
    assert!(Font::from_bytes(b"not a font".to_vec(), 0).is_none());
    assert!(Font::from_bytes(Vec::new(), 0).is_none());
}
