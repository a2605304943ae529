//! Checks and pairings of the sample that a Euclidean hash tunes its bin
//! width on.
use vstd::prelude::*;
use itertools::Itertools;
use crate::error::LshError;
use crate::float_bits::{vec_eq, vectors_equal};
use crate::vectors::vectors_view;

verus! {

/// Every vector of the sample has the length of the first one.
pub open spec fn sample_uniform(s: Seq<Seq<u32>>) -> bool {
    forall|i: int| 0 <= i < s.len() ==> (#[trigger] s[i]).len() == s[0].len()
}

/// `(i, j)` names two distinct positions of the sample whose vectors differ
/// (as `f32` values).
pub open spec fn is_distinct_pair(s: Seq<Seq<u32>>, p: (usize, usize)) -> bool {
    p.0 < s.len() && p.1 < s.len() && p.0 != p.1 && !vec_eq(s[p.0 as int], s[p.1 as int])
}

/// Relies on itertools' `Itertools::permutations`: all orderings of two
/// distinct positions below `n`, each produced once.
#[verifier::external_body]
fn ordered_index_pairs(n: usize) -> (r: Vec<(usize, usize)>)
    ensures
        forall|t: int|
            0 <= t < r@.len() ==> (#[trigger] r@[t]).0 < n && r@[t].1 < n && r@[t].0 != r@[t].1,
        forall|i: usize, j: usize| i < n && j < n && i != j ==> r@.contains((i, j)),
        r@.no_duplicates(),
{
    (0..n).permutations(2).map(|p| (p[0], p[1])).collect()
}

/// The ordered pairs of positions of distinct vectors of a tuning sample,
/// each once. An empty sample, or one whose vectors differ in length, is
/// refused.
pub fn distinct_sample_pairs(sample: &Vec<Vec<u32>>) -> (r: Result<Vec<(usize, usize)>, LshError>)
    ensures
        sample@.len() == 0 ==> r == Err::<Vec<(usize, usize)>, LshError>(LshError::EmptySample),
        sample@.len() > 0 && !sample_uniform(vectors_view(sample@)) ==> r == Err::<
            Vec<(usize, usize)>,
            LshError,
        >(LshError::InconsistentSample),
        sample@.len() > 0 && sample_uniform(vectors_view(sample@)) ==> r is Ok,
        r matches Ok(ps) ==> {
            &&& ps@.no_duplicates()
            &&& forall|t: int|
                0 <= t < ps@.len() ==> is_distinct_pair(vectors_view(sample@), #[trigger] ps@[t])
            &&& forall|p: (usize, usize)|
                #[trigger] is_distinct_pair(vectors_view(sample@), p) ==> ps@.contains(p)
        },
{
    let ghost s = vectors_view(sample@);
    if sample.len() == 0 {
        return Err(LshError::EmptySample);
    }
    let dims = sample[0].len();
    let mut i: usize = 1;
    while i < sample.len()
        invariant
            s == vectors_view(sample@),
            sample@.len() > 0,
            dims == s[0].len(),
            1 <= i <= sample@.len(),
            forall|j: int| 0 <= j < i ==> (#[trigger] s[j]).len() == dims,
        decreases sample@.len() - i,
    {
        if sample[i].len() != dims {
            proof {
                assert(s[i as int] == sample@[i as int]@);
            }
            return Err(LshError::InconsistentSample);
        }
        i += 1;
    }
    let all = ordered_index_pairs(sample.len());
    let mut ps: Vec<(usize, usize)> = Vec::new();
    let mut t: usize = 0;
    while t < all.len()
        invariant
            s == vectors_view(sample@),
            forall|u: int|
                0 <= u < all@.len() ==> (#[trigger] all@[u]).0 < s.len() && all@[u].1 < s.len()
                    && all@[u].0 != all@[u].1,
            all@.no_duplicates(),
            0 <= t <= all@.len(),
            ps@.no_duplicates(),
            forall|u: int| 0 <= u < ps@.len() ==> is_distinct_pair(s, #[trigger] ps@[u]),
            forall|u: int| 0 <= u < ps@.len() ==> all@.subrange(0, t as int).contains(#[trigger] ps@[u]),
            forall|u: int|
                0 <= u < t && is_distinct_pair(s, #[trigger] all@[u]) ==> ps@.contains(all@[u]),
        decreases all@.len() - t,
    {
        let p = all[t];
        let ghost old_ps = ps@;
        let differ = !vectors_equal(&sample[p.0], &sample[p.1]);
        proof {
            assert(s[p.0 as int] == sample@[p.0 as int]@);
            assert(s[p.1 as int] == sample@[p.1 as int]@);
        }
        if differ {
            proof {
                assert(!ps@.contains(p)) by {
                    if ps@.contains(p) {
                        let u = choose|u: int| 0 <= u < ps@.len() && ps@[u] == p;
                        assert(all@.subrange(0, t as int).contains(ps@[u]));
                        let w = choose|w: int| 0 <= w < t && all@.subrange(0, t as int)[w] == p;
                        assert(all@[w] == all@[t as int]);
                    }
                }
            }
            ps.push(p);
            proof {
                assert(ps@.last() == p);
            }
        }
        proof {
            assert forall|u: int|
                0 <= u < t + 1 && is_distinct_pair(s, #[trigger] all@[u]) implies ps@.contains(
                all@[u],
            ) by {
                if u < t {
                    let w = choose|w: int| 0 <= w < old_ps.len() && old_ps[w] == all@[u];
                    assert(ps@[w] == all@[u]);
                } else {
                    assert(ps@[ps@.len() - 1] == p);
                }
            }
            assert forall|u: int| 0 <= u < ps@.len() implies all@.subrange(0, t + 1).contains(
                #[trigger] ps@[u],
            ) by {
                if ps@[u] == p {
                    assert(all@.subrange(0, t + 1)[t as int] == p);
                } else {
                    let w = choose|w: int| 0 <= w < t && all@.subrange(0, t as int)[w] == ps@[u];
                    assert(all@.subrange(0, t + 1)[w] == ps@[u]);
                }
            }
        }
        t += 1;
    }
    proof {
        assert forall|p: (usize, usize)| #[trigger] is_distinct_pair(s, p) implies ps@.contains(p) by {
            assert(all@.contains((p.0, p.1)));
            let u = choose|u: int| 0 <= u < all@.len() && all@[u] == (p.0, p.1);
            assert(is_distinct_pair(s, all@[u]));
        }
    }
    Ok(ps)
}

} // verus!
