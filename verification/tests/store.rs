use feather_cli::{StoreError, VectorStore};

fn bits(v: &[f32]) -> Vec<u32> {
    v.iter().map(|x| x.to_bits()).collect()
}

#[test]
fn new_store_is_empty() {
    let store = VectorStore::new(4).unwrap();
    assert_eq!(store.dimension(), 4);
    assert_eq!(store.len(), 0);
    assert_eq!(store.id(0), None);
    assert!(store.vector(0).is_none());
}

#[test]
fn zero_dimension_is_invalid() {
    assert!(matches!(VectorStore::new(0), Err(StoreError::InvalidDimension)));
}

#[test]
fn insert_appends_in_order() {
    let mut store = VectorStore::new(2).unwrap();
    assert_eq!(store.insert(5, &bits(&[1.0, 2.0])), Ok(()));
    assert_eq!(store.insert(3, &bits(&[-1.0, 0.5])), Ok(()));
    assert_eq!(store.insert(5, &bits(&[9.0, 9.0])), Ok(()));
    assert_eq!(store.len(), 3);
    assert_eq!(store.dimension(), 2);
    assert_eq!(store.id(0), Some(5));
    assert_eq!(store.id(1), Some(3));
    assert_eq!(store.id(2), Some(5));
    assert_eq!(store.id(3), None);
    assert_eq!(store.vector(0).unwrap(), &bits(&[1.0, 2.0])[..]);
    assert_eq!(store.vector(1).unwrap(), &bits(&[-1.0, 0.5])[..]);
    assert_eq!(store.vector(2).unwrap(), &bits(&[9.0, 9.0])[..]);
    assert!(store.vector(3).is_none());
}

#[test]
fn insert_of_wrong_length_changes_nothing() {
    let mut store = VectorStore::new(3).unwrap();
    store.insert(1, &bits(&[1.0, 2.0, 3.0])).unwrap();
    let before = store.serialize();
    assert_eq!(store.insert(2, &bits(&[1.0, 2.0])), Err(StoreError::DimensionMismatch));
    assert_eq!(store.insert(2, &bits(&[1.0, 2.0, 3.0, 4.0])), Err(StoreError::DimensionMismatch));
    assert_eq!(store.insert(2, &[]), Err(StoreError::DimensionMismatch));
    assert_eq!(store.len(), 1);
    assert_eq!(store.dimension(), 3);
    assert_eq!(store.id(0), Some(1));
    assert_eq!(store.id(1), None);
    assert_eq!(store.serialize(), before);
}

#[test]
fn components_are_kept_bit_for_bit() {
    let mut store = VectorStore::new(4).unwrap();
    let odd = [0x7fc0_0001u32, 0x8000_0000, 0x0000_0001, 0xff80_0000];
    store.insert(u64::MAX, &odd).unwrap();
    assert_eq!(store.vector(0).unwrap(), &odd[..]);
    assert_eq!(store.id(0), Some(u64::MAX));
}
