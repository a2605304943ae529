use lshash::error::LshError;
use lshash::sample::distinct_sample_pairs;
use lshash::select::{select_closest, select_top_k};

fn bits(v: &[f32]) -> Vec<u32> {
    v.iter().map(|x| x.to_bits()).collect()
}

#[test]
fn top_k_orders_by_distance_then_position() {
    let cands = vec![bits(&[0.0]), bits(&[1.0]), bits(&[2.0]), bits(&[3.0]), bits(&[4.0])];
    let dists = bits(&[9.0, 1.0, 4.0, 1.0, 0.0]);
    assert_eq!(
        select_top_k(&cands, &dists, 3),
        vec![bits(&[4.0]), bits(&[1.0]), bits(&[3.0])]
    );
    assert_eq!(select_top_k(&cands, &dists, 1), vec![bits(&[4.0])]);
    assert_eq!(select_top_k(&cands, &dists, 5), cands);
}

#[test]
fn top_k_returns_min_of_k_and_count() {
    let cands = vec![bits(&[0.0]), bits(&[1.0]), bits(&[2.0])];
    let dists = bits(&[3.0, 2.0, 1.0]);
    for k in 0..6 {
        assert_eq!(select_top_k(&cands, &dists, k).len(), k.min(3));
    }
}

#[test]
fn top_k_left_out_are_not_nearer() {
    let cands: Vec<Vec<u32>> = (0..10).map(|i| bits(&[i as f32])).collect();
    let d: Vec<f32> = vec![5.0, 3.0, 8.0, 1.0, 9.0, 2.0, 7.0, 0.5, 6.0, 4.0];
    let dists = bits(&d);
    let top = select_top_k(&cands, &dists, 4);
    let chosen: Vec<usize> = top.iter().map(|v| f32::from_bits(v[0]) as usize).collect();
    assert_eq!(chosen, vec![7, 3, 5, 1]);
    let worst = chosen.iter().map(|&i| d[i]).fold(f32::MIN, f32::max);
    for i in 0..10 {
        if !chosen.contains(&i) {
            assert!(d[i] >= worst);
        }
    }
}

#[test]
fn closest_is_first_minimum() {
    let cands = vec![bits(&[0.0]), bits(&[1.0]), bits(&[2.0])];
    assert_eq!(select_closest(&cands, &bits(&[2.0, 0.0, 0.0])), Some(bits(&[1.0])));
    assert_eq!(select_closest(&cands, &bits(&[-0.0, 0.0, 1.0])), Some(bits(&[0.0])));
    assert_eq!(select_closest(&vec![], &vec![]), None);
}

#[test]
fn sample_pairs_skip_equal_vectors() {
    let sample = vec![bits(&[1.0, 0.0]), bits(&[2.0, 0.0]), bits(&[1.0, -0.0])];
    let mut pairs = distinct_sample_pairs(&sample).unwrap();
    pairs.sort();
    assert_eq!(pairs, vec![(0, 1), (1, 0), (1, 2), (2, 1)]);
}

#[test]
fn sample_pairs_of_single_vector_are_empty() {
    let sample = vec![bits(&[1.0, 0.0])];
    assert_eq!(distinct_sample_pairs(&sample), Ok(vec![]));
}

#[test]
fn sample_errors() {
    assert_eq!(distinct_sample_pairs(&vec![]), Err(LshError::EmptySample));
    let uneven = vec![bits(&[1.0, 0.0]), bits(&[2.0])];
    assert_eq!(distinct_sample_pairs(&uneven), Err(LshError::InconsistentSample));
}
