//! The bucket table: vectors stored by hash code, and the queries on it.
use vstd::prelude::*;
use vstd::arithmetic::power2::{pow2, lemma_pow2_unfold, lemma_pow2_strictly_increases, lemma_pow2_pos, lemma2_to64};
use crate::error::LshError;
use crate::float_bits::{vec_eq, vectors_equal, no_nan};
use crate::vectors::{vectors_view, copy_vector, copy_vectors};
use crate::select::{is_top_k_of, is_closest_of, select_top_k, select_closest};

verus! {

/// Abstract state of a table: bucket `i` is the sequence of the vectors stored
/// in it, in insertion order.
pub type Buckets = Seq<Seq<Seq<u32>>>;

/// Number of vectors held over all buckets.
pub open spec fn total_len(bs: Buckets) -> nat
    decreases bs.len(),
{
    if bs.len() == 0 {
        0
    } else {
        total_len(bs.drop_last()) + bs.last().len()
    }
}

/// The bucket that a hash code is routed to.
pub open spec fn bucket_of(code: u64, num_buckets: nat) -> int {
    (code as nat % num_buckets) as int
}

/// The buckets after `v` is appended to bucket `i`.
pub open spec fn appended(bs: Buckets, i: int, v: Seq<u32>) -> Buckets {
    bs.update(i, bs[i].push(v))
}

/// The buckets after each `(code, vector)` entry is inserted, in order.
pub open spec fn inserted_all(bs: Buckets, entries: Seq<(u64, Seq<u32>)>) -> Buckets
    decreases entries.len(),
{
    if entries.len() == 0 {
        bs
    } else {
        let before = inserted_all(bs, entries.drop_last());
        appended(before, bucket_of(entries.last().0, bs.len()), entries.last().1)
    }
}

/// The view of a list of `(code, vector)` entries.
pub open spec fn entries_view(entries: Seq<(u64, Vec<u32>)>) -> Seq<(u64, Seq<u32>)> {
    entries.map_values(|e: (u64, Vec<u32>)| (e.0, e.1@))
}

/// Every vector of the entries has `d` coordinates.
pub open spec fn all_fit(es: Seq<(u64, Seq<u32>)>, d: nat) -> bool {
    forall|m: int| 0 <= m < es.len() ==> (#[trigger] es[m]).1.len() == d
}

/// The bucket holds a vector equal (as `f32` values) to `v`.
pub open spec fn bucket_has(b: Seq<Seq<u32>>, v: Seq<u32>) -> bool {
    exists|j: int| 0 <= j < b.len() && vec_eq(#[trigger] b[j], v)
}

/// Position `j` holds the first vector of the bucket equal to `v`.
pub open spec fn is_first_match(b: Seq<Seq<u32>>, v: Seq<u32>, j: int) -> bool {
    0 <= j < b.len() && vec_eq(b[j], v) && forall|i: int| 0 <= i < j ==> !vec_eq(#[trigger] b[i], v)
}

/// Distance between two bucket indices.
pub open spec fn gap(a: int, b: int) -> int {
    if a >= b {
        a - b
    } else {
        b - a
    }
}

/// Bucket `j` is a non-empty bucket nearest to index `i`, the lower index
/// winning a tie.
pub open spec fn is_nearest_nonempty(bs: Buckets, i: int, j: int) -> bool {
    &&& 0 <= j < bs.len()
    &&& bs[j].len() > 0
    &&& forall|b: int|
        0 <= b < bs.len() && #[trigger] bs[b].len() > 0 ==> gap(j, i) < gap(b, i) || (gap(j, i)
            == gap(b, i) && j <= b)
}

/// The non-empty bucket nearest to index `i` (meaningful when one exists).
pub open spec fn nearest_index(bs: Buckets, i: int) -> int {
    choose|j: int| is_nearest_nonempty(bs, i, j)
}

/// Removing the vectors of one bucket and adding those of another changes the
/// count by the difference of their lengths.
pub proof fn lemma_total_len_update(bs: Buckets, i: int, b: Seq<Seq<u32>>)
    requires
        0 <= i < bs.len(),
    ensures
        total_len(bs.update(i, b)) == total_len(bs) - bs[i].len() + b.len(),
    decreases bs.len(),
{
    if i < bs.len() - 1 {
        lemma_total_len_update(bs.drop_last(), i, b);
        assert(bs.update(i, b).drop_last() =~= bs.drop_last().update(i, b));
    } else {
        assert(bs.update(i, b).drop_last() =~= bs.drop_last());
    }
}

/// A table that holds a vector has a non-empty bucket.
pub proof fn lemma_nonempty_bucket(bs: Buckets)
    requires
        total_len(bs) > 0,
    ensures
        exists|j: int| 0 <= j < bs.len() && #[trigger] bs[j].len() > 0,
    decreases bs.len(),
{
    if bs.last().len() == 0 {
        lemma_nonempty_bucket(bs.drop_last());
        let j = choose|j: int| 0 <= j < bs.drop_last().len() && #[trigger] bs.drop_last()[j].len() > 0;
        assert(bs[j].len() > 0);
    } else {
        assert(bs[bs.len() - 1].len() > 0);
    }
}

/// The count of an empty table's buckets is zero.
pub proof fn lemma_total_len_empty(bs: Buckets)
    requires
        forall|j: int| 0 <= j < bs.len() ==> (#[trigger] bs[j]).len() == 0,
    ensures
        total_len(bs) == 0,
    decreases bs.len(),
{
    if bs.len() > 0 {
        lemma_total_len_empty(bs.drop_last());
    }
}

/// There is at most one nearest non-empty bucket.
pub proof fn lemma_nearest_unique(bs: Buckets, i: int, j: int)
    requires
        is_nearest_nonempty(bs, i, j),
    ensures
        nearest_index(bs, i) == j,
{
    let k = nearest_index(bs, i);
    assert(is_nearest_nonempty(bs, i, k));
    assert(bs[j].len() > 0 && bs[k].len() > 0);
}

/// Each inserted entry adds exactly one vector to the count, whatever bucket
/// it goes to.
pub proof fn lemma_inserted_all_len(bs: Buckets, entries: Seq<(u64, Seq<u32>)>)
    requires
        bs.len() > 0,
    ensures
        inserted_all(bs, entries).len() == bs.len(),
        total_len(inserted_all(bs, entries)) == total_len(bs) + entries.len(),
    decreases entries.len(),
{
    if entries.len() > 0 {
        lemma_inserted_all_len(bs, entries.drop_last());
        let before = inserted_all(bs, entries.drop_last());
        let i = bucket_of(entries.last().0, bs.len());
        lemma_total_len_update(before, i, before[i].push(entries.last().1));
    }
}

/// Inserting a batch into a fresh table leaves it holding as many vectors as
/// the batch has entries, the count that the same entries inserted one by one
/// give.
pub proof fn lemma_bulk_matches_single(bs: Buckets, entries: Seq<(u64, Seq<u32>)>)
    requires
        bs.len() > 0,
        forall|j: int| 0 <= j < bs.len() ==> (#[trigger] bs[j]).len() == 0,
    ensures
        total_len(inserted_all(bs, entries)) == entries.len(),
        entries.len() > 0 ==> inserted_all(bs, entries) == appended(
            inserted_all(bs, entries.drop_last()),
            bucket_of(entries.last().0, bs.len()),
            entries.last().1,
        ),
{
    lemma_total_len_empty(bs);
    lemma_inserted_all_len(bs, entries);
}

/// Right after a vector is inserted, the table contains it, unless one of
/// its coordinates is a NaN (a NaN equals nothing, itself included).
pub proof fn lemma_insert_then_contains(bs: Buckets, code: u64, v: Seq<u32>)
    requires
        bs.len() > 0,
        no_nan(v),
    ensures
        bucket_has(appended(bs, bucket_of(code, bs.len()), v)[bucket_of(code, bs.len())], v),
{
    let i = bucket_of(code, bs.len());
    let b = appended(bs, i, v)[i];
    assert(b[b.len() - 1] == v);
    assert(vec_eq(v, v));
}

/// An index of vectors by hash code: `2 * 2^num_bits` buckets, each holding
/// its vectors in insertion order, and the number of vectors held.
pub struct LSHashTable {
    buckets: Vec<Vec<Vec<u32>>>,
    num_hashes: usize,
    num_buckets: usize,
    num_dimensions: usize,
}

impl View for LSHashTable {
    type V = Buckets;

    closed spec fn view(&self) -> Buckets {
        self.buckets@.map_values(|b: Vec<Vec<u32>>| vectors_view(b@))
    }
}

impl LSHashTable {
    /// The table's invariant: the count matches the buckets, there is at
    /// least one bucket, and every stored vector has the table's dimension.
    pub closed spec fn wf(&self) -> bool {
        &&& self.num_buckets == self.buckets@.len()
        &&& self.num_buckets > 0
        &&& self.num_hashes == total_len(self@)
        &&& forall|i: int, j: int|
            0 <= i < self@.len() && 0 <= j < self@[i].len() ==> (#[trigger] self@[i][j]).len()
                == self.num_dimensions
    }

    /// Length that every stored vector has.
    pub closed spec fn dims(&self) -> nat {
        self.num_dimensions as nat
    }

    /// Number of vectors held.
    pub open spec fn spec_len(&self) -> nat {
        total_len(self@)
    }

    /// The bucket that a hash code is routed to in this table.
    pub open spec fn index_of_code(&self, code: u64) -> int {
        bucket_of(code, self@.len())
    }

    /// What a query with this hash code finds: the code's own bucket when it
    /// is non-empty, else the nearest non-empty bucket.
    pub open spec fn spec_nearest(&self, code: u64) -> Seq<Seq<u32>> {
        self@[nearest_index(self@, self.index_of_code(code))]
    }

    /// An empty table with `2 * 2^num_bits` buckets for vectors of
    /// `num_dimensions` coordinates.
    pub fn new(num_dimensions: usize, num_bits: u8) -> (r: Self)
        requires
            2 * pow2(num_bits as nat) <= usize::MAX,
        ensures
            r.wf(),
            r@.len() == 2 * pow2(num_bits as nat),
            forall|i: int| 0 <= i < r@.len() ==> (#[trigger] r@[i]).len() == 0,
            r.dims() == num_dimensions,
            r.spec_len() == 0,
    {
        let mut num_buckets: usize = 2;
        let mut i: u8 = 0;
        proof {
            lemma2_to64();
        }
        while i < num_bits
            invariant
                0 <= i <= num_bits,
                num_buckets == 2 * pow2(i as nat),
                2 * pow2(num_bits as nat) <= usize::MAX,
            decreases num_bits - i,
        {
            proof {
                lemma_pow2_unfold((i + 1) as nat);
                if i + 1 < num_bits {
                    lemma_pow2_strictly_increases((i + 1) as nat, num_bits as nat);
                }
            }
            num_buckets = num_buckets * 2;
            i += 1;
        }
        let mut buckets: Vec<Vec<Vec<u32>>> = Vec::with_capacity(num_buckets);
        let mut k: usize = 0;
        while k < num_buckets
            invariant
                0 <= k <= num_buckets,
                buckets@.len() == k,
                forall|j: int| 0 <= j < k ==> (#[trigger] buckets@[j])@.len() == 0,
            decreases num_buckets - k,
        {
            buckets.push(Vec::new());
            k += 1;
        }
        let r = LSHashTable { buckets, num_hashes: 0, num_buckets, num_dimensions };
        proof {
            assert forall|j: int| 0 <= j < r@.len() implies (#[trigger] r@[j]).len() == 0 by {
                assert(r.buckets@[j]@.len() == 0);
            }
            lemma_total_len_empty(r@);
            lemma_pow2_pos(num_bits as nat);
        }
        r
    }

    /// Whether the table holds no vector.
    pub fn is_empty(&self) -> (r: bool)
        requires
            self.wf(),
        ensures
            r == (self.spec_len() == 0),
    {
        self.num_hashes == 0
    }

    /// Number of vectors held.
    pub fn len(&self) -> (r: usize)
        requires
            self.wf(),
        ensures
            r == self.spec_len(),
    {
        self.num_hashes
    }

    /// Number of buckets.
    pub fn num_buckets(&self) -> (r: usize)
        requires
            self.wf(),
        ensures
            r == self@.len(),
    {
        self.num_buckets
    }

    /// Length that every stored vector has.
    pub fn num_dimensions(&self) -> (r: usize)
        ensures
            r == self.dims(),
    {
        self.num_dimensions
    }

    /// The bucket that a hash code is routed to.
    fn get_index(&self, code: u64) -> (r: usize)
        requires
            self.wf(),
        ensures
            r == self.index_of_code(code),
            r < self@.len(),
    {
        (code % (self.num_buckets as u64)) as usize
    }
    /// Stores a vector under its hash code: it is appended to the code's
    /// bucket. A vector whose length differs from the table's dimension is
    /// refused and the table is left as it was.
    pub fn insert(&mut self, code: u64, object: Vec<u32>) -> (r: Result<(), LshError>)
        requires
            old(self).wf(),
            old(self).spec_len() < usize::MAX,
        ensures
            final(self).wf(),
            final(self).dims() == old(self).dims(),
            object@.len() != old(self).dims() ==> r == Err::<(), LshError>(LshError::DimensionMismatch)
                && final(self)@ == old(self)@,
            object@.len() == old(self).dims() ==> r is Ok && final(self)@ == appended(
                old(self)@,
                old(self).index_of_code(code),
                object@,
            ),
            r is Ok ==> final(self).spec_len() == old(self).spec_len() + 1,
            r is Err ==> final(self).spec_len() == old(self).spec_len(),
    {
        if object.len() != self.num_dimensions {
            return Err(LshError::DimensionMismatch);
        }
        let index = self.get_index(code);
        let ghost before = self@;
        let ghost ob = self.buckets@[index as int];
        let ghost ov = object@;
        self.num_hashes = self.num_hashes + 1;
        self.buckets[index].push(object);
        proof {
            assert(vectors_view(self.buckets@[index as int]@) =~= vectors_view(ob@).push(ov));
            assert(self@ =~= appended(before, index as int, object@));
            lemma_total_len_update(before, index as int, before[index as int].push(object@));
            assert forall|i: int, j: int|
                0 <= i < self@.len() && 0 <= j < self@[i].len() implies (#[trigger] self@[i][j]).len()
                    == self.num_dimensions by {
                if i == index as int && j == before[i].len() {
                } else {
                    assert(self@[i][j] == before[i][j]);
                }
            }
        }
        Ok(())
    }

    /// Stores each `(code, vector)` entry in order, as `insert` does. It stops
    /// at the first vector of the wrong length: the entries before it stay
    /// stored.
    pub fn bulk_insert(&mut self, entries: Vec<(u64, Vec<u32>)>) -> (r: Result<(), LshError>)
        requires
            old(self).wf(),
            old(self).spec_len() + entries@.len() <= usize::MAX,
        ensures
            final(self).wf(),
            final(self).dims() == old(self).dims(),
            all_fit(entries_view(entries@), old(self).dims()) ==> r is Ok && final(self)@
                == inserted_all(old(self)@, entries_view(entries@)),
            forall|m: int|
                0 <= m < entries@.len() && (#[trigger] entries_view(entries@)[m]).1.len()
                    != old(self).dims() && all_fit(entries_view(entries@).subrange(0, m), old(self).dims())
                    ==> r == Err::<(), LshError>(LshError::DimensionMismatch) && final(self)@
                    == inserted_all(old(self)@, entries_view(entries@).subrange(0, m)),
    {
        let ghost es = entries_view(entries@);
        let ghost start = self@;
        let mut i: usize = 0;
        while i < entries.len()
            invariant
                self.wf(),
                self.dims() == old(self).dims(),
                start == old(self)@,
                es == entries_view(entries@),
                0 <= i <= entries@.len(),
                old(self).spec_len() + entries@.len() <= usize::MAX,
                self@ == inserted_all(start, es.subrange(0, i as int)),
                self@.len() == start.len(),
                self.spec_len() == old(self).spec_len() + i,
                all_fit(es.subrange(0, i as int), old(self).dims()),
            decreases entries@.len() - i,
        {
            let code = entries[i].0;
            let object = copy_vector(&entries[i].1);
            let res = self.insert(code, object);
            if res.is_err() {
                proof {
                    assert(es[i as int].1 == entries@[i as int].1@);
                    assert(es[i as int].1.len() != old(self).dims());
                    assert forall|m: int|
                        0 <= m < es.len() && (#[trigger] es[m]).1.len() != old(self).dims() && all_fit(
                            es.subrange(0, m),
                            old(self).dims(),
                        ) implies m == i by {
                        if m < i {
                            assert(es.subrange(0, i as int)[m] == es[m]);
                        } else if m > i {
                            assert(es.subrange(0, m)[i as int] == es[i as int]);
                        }
                    }
                }
                return res;
            }
            proof {
                assert(es.subrange(0, i + 1).drop_last() =~= es.subrange(0, i as int));
                assert forall|m: int| 0 <= m < i + 1 implies (#[trigger] es.subrange(0, i + 1)[m]).1.len()
                    == old(self).dims() by {
                    if m < i {
                        assert(es.subrange(0, i as int)[m] == es[m]);
                    }
                }
            }
            i += 1;
        }
        proof {
            assert(es.subrange(0, es.len() as int) =~= es);
            assert forall|m: int|
                0 <= m < es.len() && (#[trigger] es[m]).1.len() != old(self).dims() implies !all_fit(
                es.subrange(0, m),
                old(self).dims(),
            ) by {
                assert(es.subrange(0, es.len() as int)[m] == es[m]);
            }
        }
        Ok(())
    }

    /// Whether the bucket of the code holds a vector equal (as `f32` values)
    /// to `object`.
    pub fn contains(&self, code: u64, object: &Vec<u32>) -> (r: bool)
        requires
            self.wf(),
        ensures
            r == bucket_has(self@[self.index_of_code(code)], object@),
    {
        if self.is_empty() {
            proof {
                let b = self@[self.index_of_code(code)];
                lemma_total_len_update(self@, self.index_of_code(code), Seq::empty());
            }
            return false;
        }
        let index = self.get_index(code);
        let bucket = &self.buckets[index];
        let mut j: usize = 0;
        while j < bucket.len()
            invariant
                self.wf(),
                index < self@.len(),
                index == self.index_of_code(code),
                bucket == self.buckets@[index as int],
                self@[index as int] == vectors_view(bucket@),
                0 <= j <= bucket@.len(),
                forall|p: int| 0 <= p < j ==> !vec_eq(#[trigger] self@[index as int][p], object@),
            decreases bucket@.len() - j,
        {
            if vectors_equal(&bucket[j], object) {
                assert(self@[index as int][j as int] == bucket@[j as int]@);
                assert(vec_eq(self@[index as int][j as int], object@));
                assert(bucket_has(self@[index as int], object@));
                return true;
            }
            j += 1;
        }
        false
    }

    /// Removes the first vector of the code's bucket that equals `object`.
    /// An empty table, or one whose bucket holds no such vector, is left as it
    /// was and the call fails.
    pub fn remove(&mut self, code: u64, object: &Vec<u32>) -> (r: Result<(), LshError>)
        requires
            old(self).wf(),
        ensures
            final(self).wf(),
            final(self).dims() == old(self).dims(),
            old(self).spec_len() == 0 ==> r == Err::<(), LshError>(LshError::EmptyCollection)
                && final(self)@ == old(self)@,
            old(self).spec_len() > 0 && !bucket_has(old(self)@[old(self).index_of_code(code)], object@)
                ==> r == Err::<(), LshError>(LshError::NotFound) && final(self)@ == old(self)@,
            old(self).spec_len() > 0 && bucket_has(old(self)@[old(self).index_of_code(code)], object@)
                ==> r is Ok && exists|j: int|
                is_first_match(old(self)@[old(self).index_of_code(code)], object@, j)
                    && final(self)@ == old(self)@.update(
                    old(self).index_of_code(code),
                    old(self)@[old(self).index_of_code(code)].remove(j),
                ),
            r is Ok ==> final(self).spec_len() + 1 == old(self).spec_len(),
    {
        if self.is_empty() {
            return Err(LshError::EmptyCollection);
        }
        let index = self.get_index(code);
        let ghost before = self@;
        let mut j: usize = 0;
        let mut found = false;
        while j < self.buckets[index].len() && !found
            invariant
                self@ == before,
                self.wf(),
                index < self@.len(),
                self@[index as int] == vectors_view(self.buckets@[index as int]@),
                0 <= j <= self@[index as int].len(),
                found ==> j < self@[index as int].len() && vec_eq(before[index as int][j as int], object@),
                forall|p: int| 0 <= p < j ==> !vec_eq(#[trigger] before[index as int][p], object@),
            decreases self@[index as int].len() - j + if found {
                0int
            } else {
                1int
            },
        {
            if vectors_equal(&self.buckets[index][j], object) {
                found = true;
            } else {
                j += 1;
            }
        }
        if !found {
            proof {
                assert(j == before[index as int].len());
                if bucket_has(before[index as int], object@) {
                    let w = choose|w: int|
                        0 <= w < before[index as int].len() && vec_eq(
                            #[trigger] before[index as int][w],
                            object@,
                        );
                    assert(!vec_eq(before[index as int][w], object@));
                }
            }
            return Err(LshError::NotFound);
        }
        proof {
            assert(is_first_match(before[index as int], object@, j as int));
        }
        let ghost ob = self.buckets@[index as int];
        self.buckets[index].remove(j);
        self.num_hashes = self.num_hashes - 1;
        proof {
            assert(vectors_view(self.buckets@[index as int]@) =~= vectors_view(ob@).remove(j as int));
            assert(self@ =~= before.update(index as int, before[index as int].remove(j as int)));
            lemma_total_len_update(before, index as int, before[index as int].remove(j as int));
            assert forall|i: int, k: int|
                0 <= i < self@.len() && 0 <= k < self@[i].len() implies (#[trigger] self@[i][k]).len()
                    == self.num_dimensions by {
                if i == index as int {
                    if k < j {
                        assert(self@[i][k] == before[i][k]);
                    } else {
                        assert(self@[i][k] == before[i][k + 1]);
                    }
                } else {
                    assert(self@[i][k] == before[i][k]);
                }
            }
        }
        Ok(())
    }
    /// The vectors a query with this hash code finds, as an independent copy:
    /// nothing on an empty table, the code's own bucket when it holds any
    /// vector, else the nearest non-empty bucket, searching outward one step
    /// at a time and trying the lower index first.
    pub fn nearest_neighbors(&self, code: u64) -> (r: Option<Vec<Vec<u32>>>)
        requires
            self.wf(),
        ensures
            self.spec_len() == 0 <==> r is None,
            self.spec_len() > 0 ==> is_nearest_nonempty(
                self@,
                self.index_of_code(code),
                nearest_index(self@, self.index_of_code(code)),
            ),
            r matches Some(v) ==> vectors_view(v@) == self.spec_nearest(code),
            r matches Some(v) ==> v@.len() > 0,
            self@[self.index_of_code(code)].len() > 0 ==> (r matches Some(v) && vectors_view(v@)
                == self@[self.index_of_code(code)]),
    {
        if self.is_empty() {
            proof {
                lemma_total_len_update(self@, self.index_of_code(code), Seq::empty());
            }
            return None;
        }
        let index = self.get_index(code);
        let n = self.num_buckets;
        let ghost bs = self@;
        let ghost i = index as int;
        if self.buckets[index].len() > 0 {
            proof {
                assert(is_nearest_nonempty(bs, i, i));
                lemma_nearest_unique(bs, i, i);
            }
            return Some(copy_vectors(&self.buckets[index]));
        }
        let mut radius: usize = 1;
        while radius <= index || radius < n - index
            invariant
                self.wf(),
                bs == self@,
                n == bs.len(),
                index < n,
                i == index,
                i == self.index_of_code(code),
                self.spec_len() > 0,
                1 <= radius <= n,
                forall|b: int| 0 <= b < n && gap(b, i) < radius ==> (#[trigger] bs[b]).len() == 0,
            decreases n - radius,
        {
            if radius <= index && self.buckets[index - radius].len() > 0 {
                let j = index - radius;
                proof {
                    assert(bs[j as int] == vectors_view(self.buckets@[j as int]@));
                    assert(is_nearest_nonempty(bs, i, j as int));
                    lemma_nearest_unique(bs, i, j as int);
                }
                return Some(copy_vectors(&self.buckets[j]));
            }
            if radius < n - index && self.buckets[index + radius].len() > 0 {
                let j = index + radius;
                proof {
                    assert(bs[j as int] == vectors_view(self.buckets@[j as int]@));
                    if radius <= index {
                        assert(bs[i - radius] == vectors_view(self.buckets@[i - radius]@));
                    }
                    assert(is_nearest_nonempty(bs, i, j as int));
                    lemma_nearest_unique(bs, i, j as int);
                }
                return Some(copy_vectors(&self.buckets[j]));
            }
            proof {
                if radius <= index {
                    assert(bs[i - radius] == vectors_view(self.buckets@[i - radius]@));
                }
                if radius < n - index {
                    assert(bs[i + radius] == vectors_view(self.buckets@[i + radius]@));
                }
            }
            radius = radius + 1;
        }
        proof {
            lemma_nonempty_bucket(bs);
            let b = choose|b: int| 0 <= b < bs.len() && #[trigger] bs[b].len() > 0;
            assert(gap(b, i) < radius);
        }
        None
    }
    /// The `k` vectors nearest to a query among those that `nearest_neighbors`
    /// finds for its hash code; `distances[i]` is the distance (as `f32` bits)
    /// of the `i`-th of them to the query. Nothing on an empty table.
    pub fn top_k_neighbors(&self, code: u64, distances: &Vec<u32>, k: usize) -> (r: Option<Vec<Vec<u32>>>)
        requires
            self.wf(),
            self.spec_len() > 0 ==> distances@.len() == self.spec_nearest(code).len(),
        ensures
            self.spec_len() == 0 <==> r is None,
            r matches Some(v) ==> is_top_k_of(
                self.spec_nearest(code),
                distances@,
                k as nat,
                vectors_view(v@),
            ),
    {
        match self.nearest_neighbors(code) {
            None => None,
            Some(neighbors) => Some(select_top_k(&neighbors, distances, k)),
        }
    }

    /// The vector nearest to a query among those that `nearest_neighbors`
    /// finds for its hash code, the first one on a tie; `distances[i]` is the
    /// distance (as `f32` bits) of the `i`-th of them to the query. Nothing on
    /// an empty table.
    pub fn closest_neighbor(&self, code: u64, distances: &Vec<u32>) -> (r: Option<Vec<u32>>)
        requires
            self.wf(),
            self.spec_len() > 0 ==> distances@.len() == self.spec_nearest(code).len(),
        ensures
            self.spec_len() == 0 <==> r is None,
            r matches Some(v) ==> is_closest_of(self.spec_nearest(code), distances@, v@),
    {
        match self.nearest_neighbors(code) {
            None => None,
            Some(neighbors) => select_closest(&neighbors, distances),
        }
    }
}

} // verus!
