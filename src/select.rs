//! Ranking of candidate vectors by their distance to a query.
//!
//! Distances come as the bit patterns of `f32` values and are ordered as
//! `f32::total_cmp` orders them (see `total_key`).
use vstd::prelude::*;
use itertools::Itertools;
use itertools::MinMaxResult;
use crate::float_bits::{total_key, order_key};
use crate::vectors::{vectors_view, copy_vector, copy_vectors};

verus! {

/// Lexicographic order of `(key, position)` pairs, as std orders tuples.
pub open spec fn pair_lt(a: (u32, usize), b: (u32, usize)) -> bool {
    a.0 < b.0 || (a.0 == b.0 && a.1 < b.1)
}

/// Candidate `a` ranks before candidate `b`: a smaller distance, or an equal
/// one and an earlier position.
pub open spec fn rank_lt(d: Seq<u32>, a: int, b: int) -> bool {
    total_key(d[a]) < total_key(d[b]) || (total_key(d[a]) == total_key(d[b]) && a < b)
}

/// `sel` lists, in ranking order, the positions of the `k` best-ranked
/// candidates, whose distances are `d`.
pub open spec fn is_top_k(d: Seq<u32>, k: nat, sel: Seq<int>) -> bool {
    &&& sel.len() == k
    &&& forall|t: int| 0 <= t < k ==> 0 <= #[trigger] sel[t] < d.len()
    &&& forall|a: int, b: int| 0 <= a < b < k ==> rank_lt(d, #[trigger] sel[a], #[trigger] sel[b])
    &&& forall|i: int, t: int|
        0 <= i < d.len() && !sel.contains(i) && 0 <= t < k ==> #[trigger] rank_lt(d, sel[t], i)
}

/// `result` is what a top-`k` query returns from `cands`, whose distances to
/// the query are `d`: all of them when there are at most `k`, else the `k`
/// nearest in order of distance.
pub open spec fn is_top_k_of(cands: Seq<Seq<u32>>, d: Seq<u32>, k: nat, result: Seq<Seq<u32>>) -> bool {
    if cands.len() <= k {
        result == cands
    } else {
        exists|sel: Seq<int>|
            is_top_k(d, k, sel) && result == sel.map_values(|i: int| cands[i])
    }
}

/// Position `i` holds the first of the smallest distances.
pub open spec fn is_first_min(d: Seq<u32>, i: int) -> bool {
    &&& 0 <= i < d.len()
    &&& forall|j: int| 0 <= j < d.len() ==> total_key(d[i]) <= total_key(#[trigger] d[j])
    &&& forall|j: int| 0 <= j < i ==> total_key(#[trigger] d[j]) > total_key(d[i])
}

/// `v` is the candidate of smallest distance, the first one on a tie.
pub open spec fn is_closest_of(cands: Seq<Seq<u32>>, d: Seq<u32>, v: Seq<u32>) -> bool {
    exists|i: int| is_first_min(d, i) && v == cands[i]
}

/// Relies on itertools' `Itertools::k_smallest`: the `k` smallest items,
/// sorted in ascending order.
#[verifier::external_body]
fn k_smallest_pairs(items: &Vec<(u32, usize)>, k: usize) -> (r: Vec<(u32, usize)>)
    requires
        items@.no_duplicates(),
    ensures
        r@.len() == if items@.len() < k {
            items@.len()
        } else {
            k as nat
        },
        forall|a: int, b: int| 0 <= a < b < r@.len() ==> pair_lt(#[trigger] r@[a], #[trigger] r@[b]),
        forall|t: int| 0 <= t < r@.len() ==> items@.contains(#[trigger] r@[t]),
        k > 0 ==> forall|j: int|
            0 <= j < items@.len() ==> r@.contains(#[trigger] items@[j]) || pair_lt(
                r@.last(),
                items@[j],
            ),
{
    items.iter().copied().k_smallest(k).collect()
}

/// Relies on itertools' `Itertools::position_minmax`: the position of the
/// first of the smallest keys.
#[verifier::external_body]
fn position_of_min(keys: &Vec<u32>) -> (r: Option<usize>)
    ensures
        keys@.len() == 0 <==> r is None,
        r matches Some(i) ==> i < keys@.len() && (forall|j: int|
            0 <= j < keys@.len() ==> keys@[i as int] <= #[trigger] keys@[j]) && (forall|j: int|
            0 <= j < i ==> #[trigger] keys@[j] > keys@[i as int]),
{
    match keys.iter().position_minmax() {
        MinMaxResult::NoElements => None,
        MinMaxResult::OneElement(i) => Some(i),
        MinMaxResult::MinMax(i, _) => Some(i),
    }
}

/// The total-order keys of the distances.
fn distance_keys(distances: &Vec<u32>) -> (r: Vec<u32>)
    ensures
        r@.len() == distances@.len(),
        forall|i: int| 0 <= i < r@.len() ==> #[trigger] r@[i] == total_key(distances@[i]),
{
    let mut r: Vec<u32> = Vec::with_capacity(distances.len());
    let mut i: usize = 0;
    while i < distances.len()
        invariant
            0 <= i <= distances@.len(),
            r@.len() == i,
            forall|j: int| 0 <= j < i ==> #[trigger] r@[j] == total_key(distances@[j]),
        decreases distances@.len() - i,
    {
        r.push(order_key(distances[i]));
        i += 1;
    }
    r
}

/// The candidates a top-`k` query returns: all of them, unchanged, when
/// there are at most `k`; else the `k` nearest, nearest first, the earlier
/// candidate first among equal distances. `distances[i]` is the distance of
/// `candidates[i]` to the query.
pub fn select_top_k(candidates: &Vec<Vec<u32>>, distances: &Vec<u32>, k: usize) -> (r: Vec<Vec<u32>>)
    requires
        candidates@.len() == distances@.len(),
    ensures
        is_top_k_of(vectors_view(candidates@), distances@, k as nat, vectors_view(r@)),
{
    if candidates.len() <= k {
        return copy_vectors(candidates);
    }
    let keys = distance_keys(distances);
    let mut items: Vec<(u32, usize)> = Vec::with_capacity(keys.len());
    let mut i: usize = 0;
    while i < keys.len()
        invariant
            keys@.len() == distances@.len(),
            0 <= i <= keys@.len(),
            items@.len() == i,
            forall|j: int| 0 <= j < i ==> #[trigger] items@[j] == (keys@[j], j as usize),
        decreases keys@.len() - i,
    {
        items.push((keys[i], i));
        i += 1;
    }
    proof {
        assert forall|a: int, b: int|
            0 <= a < items@.len() && 0 <= b < items@.len() && a != b implies items@[a]
            != items@[b] by {
            assert(items@[a].1 == a && items@[b].1 == b);
        }
    }
    let best = k_smallest_pairs(&items, k);
    let ghost sel = best@.map_values(|p: (u32, usize)| p.1 as int);
    let ghost d = distances@;
    proof {
        assert forall|t: int| 0 <= t < best@.len() implies #[trigger] best@[t] == items@[sel[t]] && 0
            <= sel[t] < d.len() by {
            assert(items@.contains(best@[t]));
            let j = choose|j: int| 0 <= j < items@.len() && items@[j] == best@[t];
            assert(items@[j] == (keys@[j], j as usize));
        }
        assert forall|a: int, b: int| 0 <= a < b < k implies rank_lt(d, #[trigger] sel[a], #[trigger] sel[b]) by {
            assert(best@[a] == items@[sel[a]]);
            assert(best@[b] == items@[sel[b]]);
            assert(pair_lt(best@[a], best@[b]));
        }
        assert forall|j: int, t: int|
            0 <= j < d.len() && !sel.contains(j) && 0 <= t < k implies #[trigger] rank_lt(d, sel[t], j) by {
            assert(items@[j] == (keys@[j], j as usize));
            if best@.contains(items@[j]) {
                let w = choose|w: int| 0 <= w < best@.len() && best@[w] == items@[j];
                assert(best@[w] == items@[sel[w]]);
                assert(sel[w] == j);
            }
            assert(pair_lt(best@.last(), items@[j]));
            assert(best@[t] == items@[sel[t]]);
            if t < k - 1 {
                assert(pair_lt(best@[t], best@[k - 1]));
            }
        }
        assert(is_top_k(d, k as nat, sel));
    }
    let mut r: Vec<Vec<u32>> = Vec::with_capacity(k);
    let mut t: usize = 0;
    while t < best.len()
        invariant
            best@.len() == k,
            k < candidates@.len(),
            sel == best@.map_values(|p: (u32, usize)| p.1 as int),
            forall|s: int| 0 <= s < k ==> 0 <= #[trigger] sel[s] < candidates@.len(),
            0 <= t <= k,
            r@.len() == t,
            forall|s: int| 0 <= s < t ==> (#[trigger] r@[s])@ == candidates@[sel[s]]@,
        decreases k - t,
    {
        let p = best[t].1;
        assert(p == sel[t as int]);
        r.push(copy_vector(&candidates[p]));
        t += 1;
    }
    proof {
        assert(vectors_view(r@) =~= sel.map_values(|i: int| vectors_view(candidates@)[i]));
    }
    r
}

/// The candidate of smallest distance to the query, the first one on a tie;
/// nothing when there is no candidate. `distances[i]` is the distance of
/// `candidates[i]` to the query.
pub fn select_closest(candidates: &Vec<Vec<u32>>, distances: &Vec<u32>) -> (r: Option<Vec<u32>>)
    requires
        candidates@.len() == distances@.len(),
    ensures
        candidates@.len() == 0 <==> r is None,
        r matches Some(v) ==> is_closest_of(vectors_view(candidates@), distances@, v@),
{
    let keys = distance_keys(distances);
    match position_of_min(&keys) {
        None => None,
        Some(i) => {
            proof {
                assert forall|j: int| 0 <= j < distances@.len() implies total_key(distances@[i as int])
                    <= total_key(#[trigger] distances@[j]) by {
                    assert(keys@[j] == total_key(distances@[j]));
                }
                assert forall|j: int| 0 <= j < i implies total_key(#[trigger] distances@[j]) > total_key(
                    distances@[i as int],
                ) by {
                    assert(keys@[j] == total_key(distances@[j]));
                }
                assert(is_first_min(distances@, i as int));
            }
            Some(copy_vector(&candidates[i]))
        },
    }
}

/// A top-`k` query returns `min(k, n)` of the `n` candidates, and none of
/// those left out is nearer to the query than one returned.
pub proof fn lemma_top_k_nearest(cands: Seq<Seq<u32>>, d: Seq<u32>, k: nat, result: Seq<Seq<u32>>)
    requires
        cands.len() == d.len(),
        is_top_k_of(cands, d, k, result),
    ensures
        result.len() == if cands.len() < k {
            cands.len()
        } else {
            k
        },
        exists|sel: Seq<int>|
            {
                &&& sel.len() == result.len()
                &&& forall|t: int| 0 <= t < sel.len() ==> 0 <= #[trigger] sel[t] < cands.len()
                    && result[t] == cands[sel[t]]
                &&& forall|a: int, b: int| 0 <= a < b < sel.len() ==> #[trigger] sel[a] != #[trigger] sel[b]
                &&& forall|i: int, t: int|
                    0 <= i < cands.len() && !sel.contains(i) && 0 <= t < sel.len() ==> total_key(
                        #[trigger] d[sel[t]],
                    ) <= total_key(#[trigger] d[i])
            },
{
    if cands.len() <= k {
        let sel = Seq::new(cands.len(), |i: int| i);
        assert(forall|i: int| 0 <= i < cands.len() ==> sel[i] == i && sel.contains(i));
        assert(result.len() == sel.len());
    } else {
        let sel = choose|sel: Seq<int>|
            is_top_k(d, k, sel) && result == sel.map_values(|i: int| cands[i]);
        assert forall|a: int, b: int| 0 <= a < b < sel.len() implies #[trigger] sel[a] != #[trigger] sel[b] by {
            assert(rank_lt(d, sel[a], sel[b]));
        }
        assert forall|i: int, t: int|
            0 <= i < cands.len() && !sel.contains(i) && 0 <= t < sel.len() implies total_key(
            #[trigger] d[sel[t]],
        ) <= total_key(#[trigger] d[i]) by {
            assert(rank_lt(d, sel[t], i));
        }
    }
}

/// The closest neighbor is a candidate whose distance to the query is the
/// smallest of all candidates'.
pub proof fn lemma_closest_minimizes(cands: Seq<Seq<u32>>, d: Seq<u32>, v: Seq<u32>)
    requires
        cands.len() == d.len(),
        is_closest_of(cands, d, v),
    ensures
        exists|i: int|
            0 <= i < cands.len() && v == cands[i] && forall|j: int|
                0 <= j < cands.len() ==> total_key(d[i]) <= total_key(#[trigger] d[j]),
{
    let i = choose|i: int| is_first_min(d, i) && v == cands[i];
    assert(0 <= i < cands.len() && v == cands[i]);
}

} // verus!
