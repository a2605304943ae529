//! Copies of vectors and of lists of vectors, with their views.
use vstd::prelude::*;

verus! {

/// The view of a list of vectors: each vector as the sequence of its
/// coordinates' bit patterns.
pub open spec fn vectors_view(vs: Seq<Vec<u32>>) -> Seq<Seq<u32>> {
    vs.map_values(|v: Vec<u32>| v@)
}

/// An independent copy of a vector.
pub fn copy_vector(v: &Vec<u32>) -> (r: Vec<u32>)
    ensures
        r@ == v@,
{
    let mut r: Vec<u32> = Vec::with_capacity(v.len());
    let mut i: usize = 0;
    while i < v.len()
        invariant
            0 <= i <= v@.len(),
            r@ =~= v@.subrange(0, i as int),
        decreases v@.len() - i,
    {
        r.push(v[i]);
        i += 1;
    }
    assert(r@ =~= v@);
    r
}

/// An independent copy of a list of vectors.
pub fn copy_vectors(vs: &Vec<Vec<u32>>) -> (r: Vec<Vec<u32>>)
    ensures
        vectors_view(r@) == vectors_view(vs@),
{
    let mut r: Vec<Vec<u32>> = Vec::with_capacity(vs.len());
    let mut i: usize = 0;
    while i < vs.len()
        invariant
            0 <= i <= vs@.len(),
            r@.len() == i,
            forall|j: int| 0 <= j < i ==> (#[trigger] r@[j])@ == vs@[j]@,
        decreases vs@.len() - i,
    {
        r.push(copy_vector(&vs[i]));
        i += 1;
    }
    assert(vectors_view(r@) =~= vectors_view(vs@));
    r
}

} // verus!
