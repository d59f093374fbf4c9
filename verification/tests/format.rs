use feather_cli::codec::{put_u32, put_u64, read_u32, read_u64};
use feather_cli::format::{HEADER_LEN, MAGIC, VERSION};
use feather_cli::{StoreError, VectorStore};

fn bits(v: &[f32]) -> Vec<u32> {
    v.iter().map(|x| x.to_bits()).collect()
}

fn same_store(a: &VectorStore, b: &VectorStore) -> bool {
    if a.dimension() != b.dimension() || a.len() != b.len() {
        return false;
    }
    (0..a.len()).all(|i| a.id(i) == b.id(i) && a.vector(i) == b.vector(i))
}

fn sample(dimension: u64, count: u64) -> VectorStore {
    let mut store = VectorStore::new(dimension).unwrap();
    for i in 0..count {
        let v: Vec<f32> = (0..dimension).map(|c| (i as f32) * 1.5 - (c as f32) / 3.0).collect();
        store.insert(i * 7 + 1, &bits(&v)).unwrap();
    }
    store
}

fn header(dimension: u64, count: u64) -> Vec<u8> {
    let mut image = b"FEAT".to_vec();
    image.extend_from_slice(&1u32.to_le_bytes());
    image.extend_from_slice(&dimension.to_le_bytes());
    image.extend_from_slice(&count.to_le_bytes());
    image
}

#[test]
fn little_endian_numbers() {
    let mut out = vec![0xaa];
    put_u32(&mut out, 0x1234_5678);
    put_u64(&mut out, 0x0102_0304_0506_0708);
    assert_eq!(out, vec![0xaa, 0x78, 0x56, 0x34, 0x12, 8, 7, 6, 5, 4, 3, 2, 1]);
    assert_eq!(read_u32(&out, 1), 0x1234_5678);
    assert_eq!(read_u64(&out, 5), 0x0102_0304_0506_0708);
    for x in [0u32, 1, 255, 256, 0x00ff_ff00, u32::MAX] {
        let mut b = Vec::new();
        put_u32(&mut b, x);
        assert_eq!(b, x.to_le_bytes().to_vec());
        assert_eq!(read_u32(&b, 0), x);
    }
    for x in [0u64, 1, 0x1_0000_0000, 0x8000_0000_0000_0000, u64::MAX] {
        let mut b = Vec::new();
        put_u64(&mut b, x);
        assert_eq!(b, x.to_le_bytes().to_vec());
        assert_eq!(read_u64(&b, 0), x);
    }
}

#[test]
fn format_constants() {
    assert_eq!(MAGIC.to_le_bytes(), *b"FEAT");
    assert_eq!(VERSION, 1);
    assert_eq!(HEADER_LEN, 24);
}

#[test]
fn image_of_an_empty_store() {
    let store = VectorStore::new(3).unwrap();
    assert_eq!(store.serialize(), header(3, 0));
    assert_eq!(store.serialize().len(), 24);
}

#[test]
fn image_of_one_entry() {
    let mut store = VectorStore::new(2).unwrap();
    store.insert(7, &bits(&[1.0, -2.0])).unwrap();
    let expected: Vec<u8> = vec![
        0x46, 0x45, 0x41, 0x54, 1, 0, 0, 0, 2, 0, 0, 0, 0, 0, 0, 0, 1, 0, 0, 0, 0, 0, 0, 0, 7, 0, 0,
        0, 0, 0, 0, 0, 0x00, 0x00, 0x80, 0x3f, 0x00, 0x00, 0x00, 0xc0,
    ];
    assert_eq!(store.serialize(), expected);
}

#[test]
fn image_size_follows_the_layout() {
    for (d, n) in [(1u64, 0u64), (1, 1), (3, 5), (16, 9)] {
        let image = sample(d, n).serialize();
        assert_eq!(image.len() as u64, 24 + n * (8 + 4 * d));
    }
}

#[test]
fn load_restores_what_was_serialized() {
    for (d, n) in [(1u64, 0u64), (1, 1), (2, 3), (5, 17), (64, 40)] {
        let store = sample(d, n);
        let image = store.serialize();
        let back = VectorStore::load(&image, None).unwrap();
        assert!(same_store(&store, &back));
        assert_eq!(back.serialize(), image);
        let again = VectorStore::load(&image, Some(d)).unwrap();
        assert!(same_store(&store, &again));
    }
}

#[test]
fn load_keeps_odd_bit_patterns() {
    let mut store = VectorStore::new(3).unwrap();
    store.insert(u64::MAX, &[0x7fc0_0001, 0xffff_ffff, 0x8000_0000]).unwrap();
    store.insert(0, &[0, 1, 0x7f80_0000]).unwrap();
    let back = VectorStore::load(&store.serialize(), None).unwrap();
    assert!(same_store(&store, &back));
    assert_eq!(back.vector(0).unwrap(), &[0x7fc0_0001u32, 0xffff_ffff, 0x8000_0000][..]);
}

#[test]
fn load_adopts_the_stored_dimension() {
    let image = sample(6, 2).serialize();
    let back = VectorStore::load(&image, None).unwrap();
    assert_eq!(back.dimension(), 6);
    assert_eq!(back.len(), 2);
}

#[test]
fn load_refuses_another_dimension() {
    let image = sample(6, 2).serialize();
    assert!(matches!(VectorStore::load(&image, Some(5)), Err(StoreError::DimensionMismatch)));
    assert!(matches!(VectorStore::load(&image, Some(0)), Err(StoreError::DimensionMismatch)));
    assert!(VectorStore::load(&image, Some(6)).is_ok());
}

#[test]
fn short_header_is_corrupt() {
    let image = sample(2, 1).serialize();
    for n in 0..24 {
        assert!(matches!(VectorStore::load(&image[..n], None), Err(StoreError::CorruptFile)));
    }
    assert!(matches!(VectorStore::load(&[], Some(2)), Err(StoreError::CorruptFile)));
}

#[test]
fn wrong_magic_or_version_is_corrupt() {
    let good = sample(2, 1).serialize();
    for at in 0..8 {
        let mut image = good.clone();
        image[at] ^= 0x01;
        assert!(matches!(VectorStore::load(&image, None), Err(StoreError::CorruptFile)));
    }
}

#[test]
fn truncated_records_are_corrupt() {
    let good = sample(3, 4).serialize();
    for n in 24..good.len() {
        assert!(matches!(VectorStore::load(&good[..n], None), Err(StoreError::CorruptFile)));
    }
    assert!(VectorStore::load(&good, None).is_ok());
}

#[test]
fn trailing_bytes_are_corrupt() {
    let mut image = sample(3, 4).serialize();
    image.push(0);
    assert!(matches!(VectorStore::load(&image, None), Err(StoreError::CorruptFile)));
    image.extend_from_slice(&[0; 19]);
    assert!(matches!(VectorStore::load(&image, None), Err(StoreError::CorruptFile)));
}

#[test]
fn wrong_entry_count_is_corrupt() {
    let good = sample(3, 4).serialize();
    for count in [0u64, 3, 5, u64::MAX, 1 << 62] {
        let mut image = good.clone();
        image[16..24].copy_from_slice(&count.to_le_bytes());
        assert!(matches!(VectorStore::load(&image, None), Err(StoreError::CorruptFile)));
    }
}

#[test]
fn zero_or_huge_dimension_is_corrupt() {
    let good = sample(3, 4).serialize();
    for d in [0u64, 2, 4, u64::MAX, 1 << 62, (1 << 62) + 3] {
        let mut image = good.clone();
        image[8..16].copy_from_slice(&d.to_le_bytes());
        assert!(matches!(VectorStore::load(&image, None), Err(StoreError::CorruptFile)));
    }
    assert!(matches!(VectorStore::load(&header(0, 0), None), Err(StoreError::CorruptFile)));
}

#[test]
fn empty_image_of_any_dimension_loads() {
    for d in [1u64, 1 << 40, u64::MAX] {
        let back = VectorStore::load(&header(d, 0), None).unwrap();
        assert_eq!(back.dimension(), d);
        assert_eq!(back.len(), 0);
        assert_eq!(back.serialize(), header(d, 0));
    }
}

#[test]
fn corrupt_file_wins_over_mismatch() {
    let mut image = sample(3, 4).serialize();
    image.pop();
    assert!(matches!(VectorStore::load(&image, Some(9)), Err(StoreError::CorruptFile)));
}
