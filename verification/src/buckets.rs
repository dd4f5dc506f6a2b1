//! The bucket priority queue used by the elimination engine: vertices are
//! kept in the bucket of their (possibly stale) score, and the scan for the
//! minimum only ever moves forward, which is sound because requeueing never
//! targets a bucket below the current scan position.

use vstd::prelude::*;

verus! {

/// Occurrences of `v` in one bucket.
pub open spec fn row_count(r: Seq<usize>, v: usize) -> nat
    decreases r.len(),
{
    if r.len() == 0 {
        0
    } else {
        row_count(r.drop_last(), v) + if r.last() == v {
            1nat
        } else {
            0nat
        }
    }
}

/// Occurrences of `v` over all buckets.
pub open spec fn bcount(b: Seq<Vec<usize>>, v: usize) -> nat
    decreases b.len(),
{
    if b.len() == 0 {
        0
    } else {
        bcount(b.drop_last(), v) + row_count(b.last()@, v)
    }
}

/// Appending a bucket adds its occurrences.
proof fn lemma_bcount_push_row(b: Seq<Vec<usize>>, r: Vec<usize>, v: usize)
    ensures
        bcount(b.push(r), v) == bcount(b, v) + row_count(r@, v),
{
    assert(b.push(r).drop_last() =~= b);
    assert(b.push(r).last() == r);
}

/// Replacing one bucket swaps its occurrences for the new one's.
proof fn lemma_bcount_update(b: Seq<Vec<usize>>, i: int, r: Vec<usize>, v: usize)
    requires
        0 <= i < b.len(),
    ensures
        bcount(b.update(i, r), v) == bcount(b, v) - row_count(b[i]@, v) + row_count(r@, v),
    decreases b.len(),
{
    if i == b.len() - 1 {
        assert(b.update(i, r).drop_last() =~= b.drop_last());
        assert(b.update(i, r).last() == r);
    } else {
        assert(b.update(i, r).drop_last() =~= b.drop_last().update(i, r));
        assert(b.update(i, r).last() == b.last());
        lemma_bcount_update(b.drop_last(), i, r, v);
    }
}

/// Appending an element to a bucket counts it once.
proof fn lemma_row_count_push(r: Seq<usize>, x: usize, v: usize)
    ensures
        row_count(r.push(x), v) == row_count(r, v) + if x == v {
            1nat
        } else {
            0nat
        },
{
    assert(r.push(x).drop_last() =~= r);
    assert(r.push(x).last() == x);
}

/// One bucket never counts more than all of them.
proof fn lemma_bcount_index_le(b: Seq<Vec<usize>>, i: int, v: usize)
    requires
        0 <= i < b.len(),
    ensures
        row_count(b[i]@, v) <= bcount(b, v),
    decreases b.len(),
{
    if i < b.len() - 1 {
        lemma_bcount_index_le(b.drop_last(), i, v);
    }
}

/// A positive total count pins down some bucket holding `v`.
proof fn lemma_bcount_pos_exists(b: Seq<Vec<usize>>, v: usize)
    requires
        bcount(b, v) >= 1,
    ensures
        exists|i: int| 0 <= i < b.len() && row_count((#[trigger] b[i])@, v) >= 1,
    decreases b.len(),
{
    if row_count(b.last()@, v) >= 1 {
        assert(row_count(b[b.len() - 1]@, v) >= 1);
    } else {
        lemma_bcount_pos_exists(b.drop_last(), v);
        let i = choose|i: int|
            0 <= i < b.drop_last().len() && row_count((#[trigger] b.drop_last()[i])@, v) >= 1;
        assert(row_count(b[i]@, v) >= 1);
    }
}

/// An element of a bucket makes its count positive.
proof fn lemma_row_count_member(r: Seq<usize>, k: int)
    requires
        0 <= k < r.len(),
    ensures
        row_count(r, r[k]) >= 1,
    decreases r.len(),
{
    if k < r.len() - 1 {
        lemma_row_count_member(r.drop_last(), k);
    }
}

/// A lazily revalidated bucket priority queue over integer scores.
pub struct BucketQueue {
    buckets: Vec<Vec<usize>>,
    min_score: usize,
}

impl BucketQueue {
    /// How many copies of `v` the queue holds.
    pub closed spec fn count(self, v: usize) -> nat {
        bcount(self.buckets@, v)
    }

    /// Occurrences of `v` in the bucket of score `i`.
    pub closed spec fn bucket_count(self, i: int, v: usize) -> nat {
        if 0 <= i < self.buckets@.len() {
            row_count(self.buckets@[i]@, v)
        } else {
            0
        }
    }

    /// Number of entries in the bucket of score `i` (zero outside the range).
    pub closed spec fn bucket_len(self, i: int) -> nat {
        if 0 <= i < self.buckets@.len() {
            self.buckets@[i]@.len()
        } else {
            0
        }
    }

    /// Every bucket below the scan position has been drained.
    pub closed spec fn wf(self) -> bool {
        forall|i: int| 0 <= i < self.min_score ==> #[trigger] self.bucket_len(i) == 0
    }

    /// Creates an empty queue.
    pub fn new() -> (q: BucketQueue)
        ensures
            q.wf(),
            forall|v: usize| #[trigger] q.count(v) == 0,
    {
        BucketQueue { buckets: Vec::new(), min_score: 0 }
    }

    /// Places `v` in the bucket for `score`.  Used both for the initial
    /// insertion and for requeueing a stale vertex at its corrected score.
    pub fn insert(&mut self, score: usize, v: usize)
        requires
            old(self).wf(),
            score < usize::MAX,
        ensures
            final(self).wf(),
            final(self).count(v) == old(self).count(v) + 1,
            forall|w: usize| w != v ==> #[trigger] final(self).count(w) == old(self).count(w),
            final(self).bucket_count(score as int, v) == old(self).bucket_count(score as int, v)
                + 1,
            forall|i: int, w: usize|
                !(i == score && w == v) ==> #[trigger] final(self).bucket_count(i, w) == old(
                    self,
                ).bucket_count(i, w),
            final(self).bucket_len(score as int) == old(self).bucket_len(score as int) + 1,
            forall|i: int|
                i != score ==> #[trigger] final(self).bucket_len(i) == old(self).bucket_len(i),
    {
        if score < self.min_score {
            self.min_score = score;
        }
        proof {
            assert forall|i: int|
                0 <= i < self.min_score && i < self.buckets@.len() implies (
            #[trigger] self.buckets@[i])@.len() == 0 by {
                assert(old(self).bucket_len(i) == 0);
            }
        }
        while self.buckets.len() <= score
            invariant
                forall|w: usize| #[trigger] bcount(self.buckets@, w) == bcount(
                    old(self).buckets@,
                    w,
                ),
                forall|i: int|
                    0 <= i < self.min_score && i < self.buckets@.len() ==> (
                    #[trigger] self.buckets@[i])@.len() == 0,
                self.min_score <= score,
                forall|i: int|
                    old(self).buckets@.len() <= i < self.buckets@.len() ==> (
                    #[trigger] self.buckets@[i])@.len() == 0,
                self.buckets@.len() >= old(self).buckets@.len(),
                forall|i: int|
                    0 <= i < old(self).buckets@.len() ==> #[trigger] self.buckets@[i] == old(
                        self,
                    ).buckets@[i],
            decreases score + 1 - self.buckets@.len(),
        {
            let ghost b0 = self.buckets@;
            self.buckets.push(Vec::new());
            proof {
                assert forall|w: usize| #[trigger] bcount(self.buckets@, w) == bcount(b0, w) by {
                    lemma_bcount_push_row(b0, self.buckets@.last(), w);
                    assert(row_count(self.buckets@.last()@, w) == 0);
                }
            }
        }
        let ghost b1 = self.buckets@;
        let row = &mut self.buckets[score];
        let ghost r1 = row@;
        row.push(v);
        proof {
            assert(self.buckets@ =~= b1.update(score as int, self.buckets@[score as int]));
            assert(self.buckets@[score as int]@ =~= r1.push(v));
            assert forall|w: usize| true implies #[trigger] bcount(self.buckets@, w) == bcount(
                b1,
                w,
            ) + (if w == v {
                1int
            } else {
                0int
            }) by {
                lemma_bcount_update(b1, score as int, self.buckets@[score as int], w);
                lemma_row_count_push(r1, v, w);
            }
            assert forall|i: int| 0 <= i < self.min_score implies #[trigger] self.bucket_len(i)
                == 0 by {
                assert(i < score);
            }
            assert(self.bucket_count(score as int, v) == old(self).bucket_count(score as int, v)
                + 1) by {
                lemma_row_count_push(r1, v, v);
            }
            assert forall|i: int, w: usize|
                !(i == score && w == v) implies #[trigger] self.bucket_count(i, w) == old(
                self,
            ).bucket_count(i, w) by {
                if i == score {
                    lemma_row_count_push(r1, v, w);
                }
            }
            assert(self.bucket_len(score as int) == old(self).bucket_len(score as int) + 1);
            assert forall|i: int|
                i != score implies #[trigger] self.bucket_len(i) == old(self).bucket_len(i) by {}
        }
    }

    /// Removes and returns one vertex from the first non-empty bucket at or
    /// beyond the scan position, together with that bucket's score.  The
    /// returned score is minimal: every lower bucket is empty.
    pub fn pop_min(&mut self) -> (r: (usize, usize))
        requires
            old(self).wf(),
            exists|v: usize| #[trigger] old(self).count(v) >= 1,
        ensures
            final(self).wf(),
            old(self).count(r.1) >= 1,
            final(self).count(r.1) == old(self).count(r.1) - 1,
            forall|w: usize| w != r.1 ==> #[trigger] final(self).count(w) == old(self).count(w),
            forall|i: int| 0 <= i < r.0 ==> #[trigger] old(self).bucket_len(i) == 0,
            old(self).bucket_len(r.0 as int) >= 1,
            old(self).bucket_count(r.0 as int, r.1) >= 1,
            final(self).bucket_count(r.0 as int, r.1) == old(self).bucket_count(r.0 as int, r.1)
                - 1,
            forall|i: int, w: usize|
                !(i == r.0 && w == r.1) ==> #[trigger] final(self).bucket_count(i, w) == old(
                    self,
                ).bucket_count(i, w),
            final(self).bucket_len(r.0 as int) == old(self).bucket_len(r.0 as int) - 1,
            forall|i: int|
                i != r.0 ==> #[trigger] final(self).bucket_len(i) == old(self).bucket_len(i),
    {
        proof {
            let v = choose|v: usize| old(self).count(v) >= 1;
            lemma_bcount_pos_exists(self.buckets@, v);
            let i = choose|i: int|
                0 <= i < self.buckets@.len() && row_count((#[trigger] self.buckets@[i])@, v) >= 1;
            assert(self.buckets@[i]@.len() >= 1);
            assert(i >= self.min_score) by {
                if i < self.min_score {
                    assert(self.bucket_len(i) == 0);
                }
            }
            assert(self.min_score <= i < self.buckets@.len() && (
            #[trigger] self.buckets@[i])@.len() >= 1);
        }
        let ghost b0 = self.buckets@;
        let mut ms = self.min_score;
        while ms >= self.buckets.len() || self.buckets[ms].len() == 0
            invariant
                self == old(self),
                self.min_score <= ms,
                exists|j: int|
                    ms <= j < self.buckets@.len() && (#[trigger] self.buckets@[j])@.len() >= 1,
                forall|i: int| 0 <= i < ms ==> #[trigger] self.bucket_len(i) == 0,
            decreases self.buckets@.len() - ms,
        {
            proof {
                let j = choose|j: int|
                    ms <= j < self.buckets@.len() && (#[trigger] self.buckets@[j])@.len() >= 1;
                assert(ms < self.buckets@.len());
                assert(self.buckets@[ms as int]@.len() == 0);
                assert(self.bucket_len(ms as int) == 0);
                assert(j != ms);
                assert(ms + 1 <= j < self.buckets@.len() && (#[trigger] self.buckets@[j])@.len()
                    >= 1);
            }
            ms += 1;
        }
        self.min_score = ms;
        let row = &mut self.buckets[ms];
        let ghost r0 = row@;
        let x_opt = row.pop();
        let x = match x_opt {
            Some(x) => x,
            None => {
                proof {
                    assert(false);
                }
                0
            },
        };
        proof {
            assert(r0.len() >= 1);
            assert(x == r0.last());
            assert(self.buckets@[ms as int]@ =~= r0.drop_last());
            assert(self.buckets@ =~= b0.update(ms as int, self.buckets@[ms as int]));
            lemma_row_count_member(r0, r0.len() - 1);
            lemma_bcount_index_le(b0, ms as int, x);
            assert forall|w: usize| true implies #[trigger] bcount(self.buckets@, w) == bcount(
                b0,
                w,
            ) - (if w == x {
                1int
            } else {
                0int
            }) by {
                lemma_bcount_update(b0, ms as int, self.buckets@[ms as int], w);
                assert(row_count(r0, w) == row_count(r0.drop_last(), w) + (if r0.last() == w {
                    1nat
                } else {
                    0nat
                }));
            }
            assert forall|i: int| 0 <= i < self.min_score implies #[trigger] self.bucket_len(i)
                == 0 by {
                assert(old(self).bucket_len(i) == 0);
                assert(i < b0.len());
                assert(b0[i]@.len() == 0);
            }
            assert(old(self).bucket_count(ms as int, x) >= 1);
            assert(self.bucket_count(ms as int, x) == old(self).bucket_count(ms as int, x) - 1)
                by {
                assert(row_count(r0, x) == row_count(r0.drop_last(), x) + 1);
            }
            assert forall|i: int, w: usize|
                !(i == ms && w == x) implies #[trigger] self.bucket_count(i, w) == old(
                self,
            ).bucket_count(i, w) by {
                if i == ms {
                    assert(row_count(r0, w) == row_count(r0.drop_last(), w) + (if r0.last() == w {
                        1nat
                    } else {
                        0nat
                    }));
                }
            }
            assert(self.bucket_len(ms as int) == old(self).bucket_len(ms as int) - 1);
            assert forall|i: int|
                i != ms implies #[trigger] self.bucket_len(i) == old(self).bucket_len(i) by {}
        }
        (ms, x)
    }
}

} // verus!
