use exo_engine::dynamic_array::DynamicArray;

#[test]
fn dynamic_array_push_back() {
    let mut a: DynamicArray<u32, 4> = DynamicArray::new();
    a.push(1);
    a.push(2);
    assert_eq!(a.len(), 2);
    assert_eq!(*a.back(), 2);
    *a.back_mut() = 5;
    assert_eq!(a.as_slice(), &[1, 5]);
    assert_eq!(*a.index(0), 1);
    *a.index_mut(0) = 9;
    assert_eq!(a.as_slice(), &[9, 5]);
}

#[test]
fn dynamic_array_resize_grows_and_shrinks() {
    let mut a: DynamicArray<u32, 8> = DynamicArray::default();
    a.push(1);
    a.resize(4, 7);
    assert_eq!(a.as_slice(), &[1, 7, 7, 7]);
    a.resize(2, 0);
    assert_eq!(a.as_slice(), &[1, 7]);
    a.clear();
    assert_eq!(a.len(), 0);
}

#[test]
fn dynamic_array_from_slice() {
    let a: DynamicArray<u8, 4> = DynamicArray::from_slice(&[3, 4, 5]);
    assert_eq!(a.as_slice(), &[3, 4, 5]);
}
