use exo_engine::serialization::{Asset, Serializable, Serializer};

#[test]
fn u128_little_endian() {
    let mut s = Serializer::new(1);
    s.write(&0x0102u128);
    let bytes = s.to_bytes();
    assert_eq!(bytes.len(), 16);
    assert_eq!(bytes[0], 0x02);
    assert_eq!(bytes[1], 0x01);
    assert!(bytes[2..].iter().all(|b| *b == 0));
    assert_eq!(s.version(), 1);
}

#[test]
fn u128_round_trip() {
    let mut s = Serializer::new(0);
    s.write(&0xDEAD_BEEF_0123_4567_89AB_CDEF_0011_2233u128);
    let mut v: u128 = 0;
    s.load(&mut v);
    assert_eq!(v, 0xDEAD_BEEF_0123_4567_89AB_CDEF_0011_2233u128);
    assert_eq!(s.remaining(), 0);
}

#[test]
fn asset_round_trip() {
    let asset = Asset {
        uuid: [7; 16],
        dependencies: vec![[1; 16], [2; 16]],
        hash: 99,
    };
    let mut s = Serializer::new(Asset::VERSION as usize);
    s.write(&asset);
    assert_eq!(s.remaining(), 16 + 32 + 16);
    let mut loaded = Asset {
        uuid: [0; 16],
        dependencies: vec![[0; 16], [0; 16]],
        hash: 0,
    };
    s.load(&mut loaded);
    assert_eq!(loaded.uuid, [7; 16]);
    assert_eq!(loaded.dependencies, vec![[1; 16], [2; 16]]);
    assert_eq!(loaded.hash, 99);
}

#[test]
fn slices_and_bytes() {
    let mut s = Serializer::from_bytes(&[1, 2, 3, 4], 2);
    let mut dst = [0u8; 3];
    s.load_bytes(&mut dst);
    assert_eq!(dst, [1, 2, 3]);
    s.write_bytes(&[9]);
    assert_eq!(s.to_bytes(), vec![4, 9]);
    let values = [5u128, 6u128];
    let mut t = Serializer::new(0);
    t.write_slice(&values);
    let mut out = [0u128; 2];
    t.load_slice(&mut out);
    assert_eq!(out, [5, 6]);
}

#[test]
fn hash_and_id_write_then_load() {
    let mut s = Serializer::new(1);
    let x: u128 = 0x0123_4567_89ab_cdef_0011_2233_4455_6677;
    x.write(&mut s);
    let mut y: u128 = 0;
    y.load(&mut s);
    assert_eq!(y, x);
    assert_eq!(s.remaining(), 0);
    let id: [u8; 16] = [9; 16];
    id.write(&mut s);
    let mut back: [u8; 16] = [0; 16];
    back.load(&mut s);
    assert_eq!(back, id);
    assert_eq!(s.remaining(), 0);
}
