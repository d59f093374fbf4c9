use feather_cli::rank::nearest_positions;
use feather_cli::{StoreError, VectorStore};

fn bits(v: &[f32]) -> Vec<u32> {
    v.iter().map(|x| x.to_bits()).collect()
}

fn squared_distance(a: &[f32], b: &[u32]) -> f32 {
    let mut sum = 0.0f32;
    for (x, y) in a.iter().zip(b.iter()) {
        let d = x - f32::from_bits(*y);
        sum += d * d;
    }
    sum
}

fn distances(store: &VectorStore, query: &[f32]) -> Vec<u32> {
    let mut out = Vec::new();
    for i in 0..store.len() {
        out.push(squared_distance(query, store.vector(i).unwrap()).to_bits());
    }
    out
}

fn search(store: &VectorStore, query: &[f32], k: usize) -> Result<Vec<(u64, f32)>, StoreError> {
    let d = distances(store, query);
    let (ids, dists) = store.search(&bits(query), &d, k)?;
    assert_eq!(ids.len(), dists.len());
    Ok(ids.into_iter().zip(dists.into_iter().map(f32::from_bits)).collect())
}

fn three_points() -> VectorStore {
    let mut store = VectorStore::new(3).unwrap();
    store.insert(1, &bits(&[0.0, 0.0, 0.0])).unwrap();
    store.insert(2, &bits(&[1.0, 0.0, 0.0])).unwrap();
    store.insert(3, &bits(&[0.0, 2.0, 0.0])).unwrap();
    store
}

#[test]
fn two_nearest_of_three_points() {
    let store = three_points();
    let found = search(&store, &[0.0, 0.0, 0.0], 2).unwrap();
    assert_eq!(found, vec![(1, 0.0), (2, 1.0)]);
}

#[test]
fn distances_are_squared() {
    let store = three_points();
    let found = search(&store, &[0.0, 0.0, 0.0], 3).unwrap();
    assert_eq!(found, vec![(1, 0.0), (2, 1.0), (3, 4.0)]);
    let found = search(&store, &[0.0, 3.0, 0.0], 3).unwrap();
    assert_eq!(found, vec![(3, 1.0), (1, 9.0), (2, 10.0)]);
}

#[test]
fn empty_store_has_no_results() {
    for d in [1u64, 3, 128] {
        let store = VectorStore::new(d).unwrap();
        let query = vec![0.5f32; d as usize];
        for k in [0usize, 1, 5, 1000] {
            assert_eq!(search(&store, &query, k).unwrap(), vec![]);
        }
    }
}

#[test]
fn k_zero_gives_nothing() {
    let store = three_points();
    assert_eq!(search(&store, &[0.0, 0.0, 0.0], 0).unwrap(), vec![]);
}

#[test]
fn k_beyond_count_gives_every_entry() {
    let store = three_points();
    let found = search(&store, &[1.0, 0.0, 0.0], 10).unwrap();
    assert_eq!(found.len(), 3);
    assert_eq!(found, vec![(2, 0.0), (1, 1.0), (3, 5.0)]);
    let found = search(&store, &[1.0, 0.0, 0.0], 3).unwrap();
    assert_eq!(found.len(), 3);
    let found = search(&store, &[1.0, 0.0, 0.0], usize::MAX).unwrap();
    assert_eq!(found.len(), 3);
}

#[test]
fn equal_distances_keep_insertion_order() {
    let mut store = VectorStore::new(2).unwrap();
    store.insert(10, &bits(&[1.0, 0.0])).unwrap();
    store.insert(11, &bits(&[0.0, 1.0])).unwrap();
    store.insert(12, &bits(&[-1.0, 0.0])).unwrap();
    store.insert(13, &bits(&[0.0, 0.0])).unwrap();
    store.insert(14, &bits(&[0.0, -1.0])).unwrap();
    let found = search(&store, &[0.0, 0.0], 5).unwrap();
    assert_eq!(found, vec![(13, 0.0), (10, 1.0), (11, 1.0), (12, 1.0), (14, 1.0)]);
    let found = search(&store, &[0.0, 0.0], 3).unwrap();
    assert_eq!(found, vec![(13, 0.0), (10, 1.0), (11, 1.0)]);
}

#[test]
fn results_are_sorted_by_distance() {
    let mut store = VectorStore::new(1).unwrap();
    let values = [5.0f32, -3.0, 8.5, 0.25, 0.25, -7.0, 2.0, 100.0, 5.0];
    for (i, v) in values.iter().enumerate() {
        store.insert(i as u64, &bits(&[*v])).unwrap();
    }
    for k in 0..=values.len() + 2 {
        let found = search(&store, &[1.0], k).unwrap();
        assert_eq!(found.len(), k.min(values.len()));
        for w in found.windows(2) {
            assert!(w[0].1 < w[1].1 || (w[0].1 == w[1].1 && w[0].0 < w[1].0));
        }
    }
    let found = search(&store, &[1.0], 4).unwrap();
    assert_eq!(found, vec![(3, 0.5625), (4, 0.5625), (6, 1.0), (0, 16.0)]);
}

#[test]
fn duplicate_identifiers_are_both_returned() {
    let mut store = VectorStore::new(1).unwrap();
    store.insert(7, &bits(&[1.0])).unwrap();
    store.insert(7, &bits(&[2.0])).unwrap();
    let found = search(&store, &[0.0], 2).unwrap();
    assert_eq!(found, vec![(7, 1.0), (7, 4.0)]);
}

#[test]
fn query_of_wrong_length_is_refused() {
    let store = three_points();
    assert_eq!(search(&store, &[0.0, 0.0], 2), Err(StoreError::DimensionMismatch));
    assert_eq!(search(&store, &[0.0, 0.0, 0.0, 0.0], 2), Err(StoreError::DimensionMismatch));
    let empty = VectorStore::new(3).unwrap();
    assert_eq!(search(&empty, &[0.0], 2), Err(StoreError::DimensionMismatch));
}

#[test]
fn wrong_number_of_distances_is_refused() {
    let store = three_points();
    let query = bits(&[0.0, 0.0, 0.0]);
    assert_eq!(store.search(&query, &[0, 0], 2), Err(StoreError::DimensionMismatch));
    assert_eq!(store.search(&query, &[0, 0, 0, 0], 2), Err(StoreError::DimensionMismatch));
    assert!(store.search(&query, &[0, 0, 0], 2).is_ok());
}

#[test]
fn search_leaves_the_store_alone() {
    let store = three_points();
    let before = store.serialize();
    let first = search(&store, &[0.0, 1.0, 0.0], 2).unwrap();
    let second = search(&store, &[0.0, 1.0, 0.0], 2).unwrap();
    assert_eq!(first, second);
    assert_eq!(store.serialize(), before);
    assert_eq!(store.len(), 3);
}

#[test]
fn infinite_distance_ranks_last() {
    let d = [f32::INFINITY.to_bits(), 2.0f32.to_bits(), 0.0f32.to_bits(), f32::MAX.to_bits()];
    assert_eq!(nearest_positions(&d, 4), vec![2, 1, 3, 0]);
}

#[test]
fn nearest_positions_on_small_lists() {
    assert_eq!(nearest_positions(&[], 3), Vec::<usize>::new());
    assert_eq!(nearest_positions(&[9], 0), Vec::<usize>::new());
    assert_eq!(nearest_positions(&[9], 1), vec![0]);
    assert_eq!(nearest_positions(&[9, 4], 1), vec![1]);
    assert_eq!(nearest_positions(&[9, 4, 4, 1, 9], 2), vec![3, 1]);
    assert_eq!(nearest_positions(&[9, 4, 4, 1, 9], 3), vec![3, 1, 2]);
    assert_eq!(nearest_positions(&[9, 4, 4, 1, 9], 5), vec![3, 1, 2, 0, 4]);
    assert_eq!(nearest_positions(&[9, 4, 4, 1, 9], 50), vec![3, 1, 2, 0, 4]);
    assert_eq!(nearest_positions(&[3, 3, 3], 2), vec![0, 1]);
}

#[test]
fn nearest_positions_agree_with_a_stable_sort() {
    let mut state: u64 = 0x2545_f491_4f6c_dd1d;
    for n in [0usize, 1, 2, 7, 40, 200] {
        let mut d = Vec::new();
        for _ in 0..n {
            state = state.wrapping_mul(6364136223846793005).wrapping_add(1442695040888963407);
            d.push(((state >> 33) % 16) as u32);
        }
        let mut order: Vec<usize> = (0..n).collect();
        order.sort_by_key(|p| (d[*p], *p));
        for k in [0usize, 1, 3, n / 2, n, n + 5] {
            let expected: Vec<usize> = order.iter().copied().take(k).collect();
            assert_eq!(nearest_positions(&d, k), expected);
        }
    }
}
