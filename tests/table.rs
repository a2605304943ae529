use lshash::error::LshError;
use lshash::table::LSHashTable;

fn bits(v: &[f32]) -> Vec<u32> {
    v.iter().map(|x| x.to_bits()).collect()
}

fn back(v: &[u32]) -> Vec<f32> {
    v.iter().map(|b| f32::from_bits(*b)).collect()
}

fn sample_vector(seed: &mut u64, dims: usize) -> Vec<f32> {
    (0..dims)
        .map(|_| {
            *seed = seed.wrapping_mul(6364136223846793005).wrapping_add(1442695040888963407);
            ((*seed >> 40) as f32) / ((1u64 << 24) as f32) - 0.5
        })
        .collect()
}

#[test]
fn new_table_has_double_the_codes_as_buckets() {
    let t = LSHashTable::new(2, 1);
    assert_eq!(t.num_buckets(), 4);
    let t = LSHashTable::new(3, 4);
    assert_eq!(t.num_buckets(), 32);
    assert_eq!(t.num_dimensions(), 3);
    assert!(t.is_empty());
    assert_eq!(t.len(), 0);
}

#[test]
fn len_counts_successful_inserts() {
    let mut t = LSHashTable::new(2, 2);
    assert_eq!(t.insert(1, bits(&[1.0, 2.0])), Ok(()));
    assert_eq!(t.insert(1, bits(&[1.0, 2.0])), Ok(()));
    assert_eq!(t.insert(6, bits(&[3.0, 2.0])), Ok(()));
    assert_eq!(t.insert(6, bits(&[3.0])), Err(LshError::DimensionMismatch));
    assert_eq!(t.len(), 3);
    assert!(!t.is_empty());
}

#[test]
fn bulk_insert_stops_at_first_mismatch() {
    let mut t = LSHashTable::new(2, 2);
    let entries = vec![
        (0u64, bits(&[1.0, 1.0])),
        (1u64, bits(&[2.0, 2.0])),
        (2u64, bits(&[3.0])),
        (3u64, bits(&[4.0, 4.0])),
    ];
    assert_eq!(t.bulk_insert(entries), Err(LshError::DimensionMismatch));
    assert_eq!(t.len(), 2);
    assert!(t.contains(1, &bits(&[2.0, 2.0])));
    assert!(!t.contains(3, &bits(&[4.0, 4.0])));
}

#[test]
fn bulk_insert_matches_single_inserts() {
    let mut seed = 7u64;
    let vectors: Vec<Vec<f32>> = (0..40).map(|_| sample_vector(&mut seed, 3)).collect();
    let mut bulk = LSHashTable::new(3, 3);
    let mut single = LSHashTable::new(3, 3);
    let entries: Vec<(u64, Vec<u32>)> = vectors
        .iter()
        .enumerate()
        .map(|(i, v)| ((i * 5) as u64, bits(v)))
        .collect();
    for (code, v) in entries.clone() {
        single.insert(code, v).unwrap();
    }
    bulk.bulk_insert(entries).unwrap();
    assert_eq!(bulk.len(), 40);
    assert_eq!(bulk.len(), single.len());
    for code in 0..16u64 {
        assert_eq!(bulk.nearest_neighbors(code), single.nearest_neighbors(code));
    }
}

#[test]
fn insert_then_contains() {
    let mut t = LSHashTable::new(2, 3);
    let v = bits(&[0.25, -1.5]);
    assert!(!t.contains(5, &v));
    t.insert(5, v.clone()).unwrap();
    assert!(t.contains(5, &v));
    // Equality is by value within the code's own bucket.
    assert!(!t.contains(4, &v));
    // The two zeros are equal as f32 values.
    t.insert(2, bits(&[0.0, 1.0])).unwrap();
    assert!(t.contains(2, &bits(&[-0.0, 1.0])));
    // A code is taken modulo the number of buckets.
    assert!(t.contains(5 + 16, &v));
}

#[test]
fn nan_vector_is_never_contained() {
    let mut t = LSHashTable::new(1, 1);
    let v = bits(&[f32::NAN]);
    t.insert(0, v.clone()).unwrap();
    assert_eq!(t.len(), 1);
    assert!(!t.contains(0, &v));
    assert_eq!(t.remove(0, &v), Err(LshError::NotFound));
}

#[test]
fn remove_errors() {
    let mut t = LSHashTable::new(2, 2);
    assert_eq!(t.remove(0, &bits(&[1.0, 1.0])), Err(LshError::EmptyCollection));
    t.insert(0, bits(&[1.0, 1.0])).unwrap();
    assert_eq!(t.remove(0, &bits(&[2.0, 1.0])), Err(LshError::NotFound));
    assert_eq!(t.remove(1, &bits(&[1.0, 1.0])), Err(LshError::NotFound));
    assert_eq!(t.len(), 1);
}

#[test]
fn remove_takes_the_first_equal_vector_from_its_bucket() {
    let mut t = LSHashTable::new(1, 2);
    for x in [1.0f32, 2.0, 1.0, 3.0] {
        t.insert(3, bits(&[x])).unwrap();
    }
    assert_eq!(t.remove(3, &bits(&[1.0])), Ok(()));
    let left = t.nearest_neighbors(3).unwrap();
    let left: Vec<Vec<f32>> = left.iter().map(|v| back(v)).collect();
    assert_eq!(left, vec![vec![2.0], vec![1.0], vec![3.0]]);
    assert_eq!(t.len(), 3);
}

#[test]
fn remove_every_vector_of_a_hundred() {
    let mut t = LSHashTable::new(4, 4);
    assert_eq!(t.num_buckets(), 32);
    let mut seed = 42u64;
    let vectors: Vec<Vec<f32>> = (0..100).map(|_| sample_vector(&mut seed, 4)).collect();
    let code = |v: &Vec<f32>| (v[0].to_bits() % 16) as u64;
    for v in &vectors {
        t.insert(code(v), bits(v)).unwrap();
    }
    assert_eq!(t.len(), 100);
    for v in &vectors {
        assert_eq!(t.remove(code(v), &bits(v)), Ok(()));
    }
    assert_eq!(t.len(), 0);
    assert!(t.is_empty());
    for v in &vectors {
        assert!(!t.contains(code(v), &bits(v)));
    }
}

#[test]
fn queries_on_empty_table_find_nothing() {
    let t = LSHashTable::new(2, 2);
    for code in 0..8u64 {
        assert_eq!(t.nearest_neighbors(code), None);
        assert_eq!(t.top_k_neighbors(code, &vec![], 3), None);
        assert_eq!(t.closest_neighbor(code, &vec![]), None);
    }
}

#[test]
fn own_bucket_is_returned_in_insertion_order() {
    let mut t = LSHashTable::new(1, 2);
    t.insert(2, bits(&[5.0])).unwrap();
    t.insert(2, bits(&[4.0])).unwrap();
    t.insert(2, bits(&[5.0])).unwrap();
    t.insert(3, bits(&[9.0])).unwrap();
    let found = t.nearest_neighbors(2).unwrap();
    assert_eq!(found, vec![bits(&[5.0]), bits(&[4.0]), bits(&[5.0])]);
    assert_eq!(t.nearest_neighbors(3).unwrap(), vec![bits(&[9.0])]);
}

#[test]
fn empty_bucket_searches_outward_lower_first() {
    // 8 buckets; fill buckets 2 and 6.
    let mut t = LSHashTable::new(1, 2);
    t.insert(2, bits(&[2.0])).unwrap();
    t.insert(6, bits(&[6.0])).unwrap();
    // Index 4 is as far from 2 as from 6: the lower wins.
    assert_eq!(t.nearest_neighbors(4).unwrap(), vec![bits(&[2.0])]);
    assert_eq!(t.nearest_neighbors(3).unwrap(), vec![bits(&[2.0])]);
    assert_eq!(t.nearest_neighbors(5).unwrap(), vec![bits(&[6.0])]);
    assert_eq!(t.nearest_neighbors(7).unwrap(), vec![bits(&[6.0])]);
    assert_eq!(t.nearest_neighbors(0).unwrap(), vec![bits(&[2.0])]);
}

#[test]
fn search_reaches_both_ends_of_the_array() {
    let mut t = LSHashTable::new(1, 2);
    t.insert(0, bits(&[0.5])).unwrap();
    assert_eq!(t.nearest_neighbors(7).unwrap(), vec![bits(&[0.5])]);
    assert_eq!(t.nearest_neighbors(1).unwrap(), vec![bits(&[0.5])]);
    let mut u = LSHashTable::new(1, 2);
    u.insert(7, bits(&[7.5])).unwrap();
    assert_eq!(u.nearest_neighbors(0).unwrap(), vec![bits(&[7.5])]);
}

#[test]
fn results_are_independent_copies() {
    let mut t = LSHashTable::new(1, 1);
    t.insert(1, bits(&[1.0])).unwrap();
    let snapshot = t.nearest_neighbors(1).unwrap();
    t.insert(1, bits(&[2.0])).unwrap();
    assert_eq!(snapshot, vec![bits(&[1.0])]);
    assert_eq!(t.nearest_neighbors(1).unwrap().len(), 2);
}

#[test]
fn top_k_neighbors_keeps_the_nearest() {
    let mut t = LSHashTable::new(1, 1);
    for x in [10.0f32, 20.0, 30.0, 40.0] {
        t.insert(0, bits(&[x])).unwrap();
    }
    let dists = bits(&[4.0, 1.0, 3.0, 2.0]);
    let top = t.top_k_neighbors(0, &dists, 2).unwrap();
    assert_eq!(top, vec![bits(&[20.0]), bits(&[40.0])]);
    let all = t.top_k_neighbors(0, &dists, 4).unwrap();
    assert_eq!(all, vec![bits(&[10.0]), bits(&[20.0]), bits(&[30.0]), bits(&[40.0])]);
    let more = t.top_k_neighbors(0, &dists, 9).unwrap();
    assert_eq!(more.len(), 4);
    assert_eq!(t.top_k_neighbors(0, &dists, 0).unwrap(), Vec::<Vec<u32>>::new());
}

#[test]
fn closest_neighbor_takes_first_smallest() {
    let mut t = LSHashTable::new(1, 1);
    for x in [10.0f32, 20.0, 30.0] {
        t.insert(2, bits(&[x])).unwrap();
    }
    let dists = bits(&[5.0, 1.0, 1.0]);
    assert_eq!(t.closest_neighbor(2, &dists), Some(bits(&[20.0])));
    let dists = bits(&[0.5, 1.0, 1.0]);
    assert_eq!(t.closest_neighbor(2, &dists), Some(bits(&[10.0])));
}
