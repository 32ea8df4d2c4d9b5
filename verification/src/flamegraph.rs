//! The flame-graph aggregator: per-folded-path, per-time-bucket counters,
//! with half-open time-window filtering for export.

use vstd::prelude::*;

use crate::stack_trace::{fold_trace, folded_path, StackTrace};
use crate::text::{dec_chars, lemma_seq_lt_total, lemma_seq_lt_trans, seq_lt, str_compare, u64_to_string, StrOrder};

verus! {

/// The occurrence count of one folded path within one time bucket.
pub struct BucketCount {
    /// The time bucket: whole seconds of sampling progress.
    pub bucket: u64,
    /// Occurrences within that bucket; always positive.
    pub count: usize,
}

/// All counters of one folded path, ordered by time bucket.
pub struct PathRecord {
    /// The folded path that keys this record.
    pub path: String,
    /// Sum of all bucket counts of this path.
    pub total: usize,
    /// The per-bucket counters, with strictly ascending buckets.
    pub buckets: Vec<BucketCount>,
}

/// Why a count could not be recorded.
#[derive(PartialEq, Eq, Structural, Clone, Copy, Debug)]
pub enum RecordError {
    /// The path's total count would no longer fit in a machine word.
    CountSaturated,
}

/// The flame-graph aggregator. `counts` maps each folded path to its
/// per-bucket counters; records are kept in strictly ascending path order,
/// so the set of (path, bucket, count) triples determines the whole value.
pub struct Flamegraph {
    /// One record per folded path seen so far.
    pub counts: Vec<PathRecord>,
    /// Whether folded paths carry source line numbers.
    pub show_linenumbers: bool,
}

/// Buckets are strictly ascending.
pub open spec fn buckets_sorted(b: Seq<BucketCount>) -> bool {
    forall|i: int, j: int| 0 <= i < j < b.len() ==> #[trigger] b[i].bucket < #[trigger] b[j].bucket
}

/// Every stored count is positive.
pub open spec fn buckets_positive(b: Seq<BucketCount>) -> bool {
    forall|i: int| 0 <= i < b.len() ==> (#[trigger] b[i].count) > 0
}

/// The sum of all counts of a bucket sequence.
pub open spec fn sum_counts(b: Seq<BucketCount>) -> int
    decreases b.len(),
{
    if b.len() == 0 {
        0
    } else {
        sum_counts(b.drop_last()) + b.last().count
    }
}

/// The sum of the counts whose bucket lies in the half-open window
/// `[start, end)`.
pub open spec fn window_sum(b: Seq<BucketCount>, start: u64, end: u64) -> int
    decreases b.len(),
{
    if b.len() == 0 {
        0
    } else {
        window_sum(b.drop_last(), start, end) + if start <= b.last().bucket < end {
            b.last().count as int
        } else {
            0
        }
    }
}

impl PathRecord {
    /// A record is well formed when its buckets are strictly ascending, every
    /// count is positive, at least one bucket is present, and the stored
    /// total is the sum of the counts.
    pub open spec fn wf(self) -> bool {
        &&& buckets_sorted(self.buckets@)
        &&& buckets_positive(self.buckets@)
        &&& self.buckets@.len() > 0
        &&& self.total == sum_counts(self.buckets@)
    }
}

/// Records are in strictly ascending path order; in particular paths are
/// unique.
pub open spec fn paths_sorted(c: Seq<PathRecord>) -> bool {
    forall|i: int, j: int|
        0 <= i < j < c.len() ==> seq_lt(#[trigger] c[i].path@, #[trigger] c[j].path@)
}

/// Some record holds path `p`.
pub open spec fn has_path(c: Seq<PathRecord>, p: Seq<char>) -> bool {
    exists|i: int| 0 <= i < c.len() && (#[trigger] c[i].path@) == p
}

/// The index of the record holding path `p`.
pub open spec fn path_index(c: Seq<PathRecord>, p: Seq<char>) -> int {
    choose|i: int| 0 <= i < c.len() && (#[trigger] c[i].path@) == p
}

/// The bucket counters stored for path `p`: empty when the path is absent.
pub open spec fn lookup_buckets(c: Seq<PathRecord>, p: Seq<char>) -> Seq<BucketCount> {
    if has_path(c, p) {
        c[path_index(c, p)].buckets@
    } else {
        Seq::empty()
    }
}

/// Some counter is stored for bucket `t`.
pub open spec fn has_bucket(b: Seq<BucketCount>, t: u64) -> bool {
    exists|j: int| 0 <= j < b.len() && (#[trigger] b[j].bucket) == t
}

/// The index of the counter for bucket `t`.
pub open spec fn bucket_index(b: Seq<BucketCount>, t: u64) -> int {
    choose|j: int| 0 <= j < b.len() && (#[trigger] b[j].bucket) == t
}

/// The count stored for bucket `t`; zero when absent.
pub open spec fn bucket_count(b: Seq<BucketCount>, t: u64) -> int {
    if has_bucket(b, t) {
        b[bucket_index(b, t)].count as int
    } else {
        0
    }
}

impl Flamegraph {
    /// The aggregator's invariant.
    pub open spec fn wf(self) -> bool {
        &&& paths_sorted(self.counts@)
        &&& forall|i: int| 0 <= i < self.counts@.len() ==> (#[trigger] self.counts@[i]).wf()
    }

    /// Creates an empty aggregator.
    pub fn new(show_linenumbers: bool) -> (fg: Flamegraph)
        ensures
            fg.wf(),
            fg.counts@.len() == 0,
            fg.show_linenumbers == show_linenumbers,
    {
        Flamegraph { counts: Vec::new(), show_linenumbers }
    }
}

/// In a sorted record sequence the record of path `c[i].path` is `c[i]`
/// itself.
pub(crate) proof fn lemma_path_index_of(c: Seq<PathRecord>, i: int)
    requires
        paths_sorted(c),
        0 <= i < c.len(),
    ensures
        has_path(c, c[i].path@),
        path_index(c, c[i].path@) == i,
{
    let p = c[i].path@;
    assert(has_path(c, p));
    let k = path_index(c, p);
    if k != i {
        if k < i {
            assert(seq_lt(c[k].path@, c[i].path@));
        } else {
            assert(seq_lt(c[i].path@, c[k].path@));
        }
        lemma_seq_lt_total(c[k].path@, c[i].path@);
    }
}

/// A path below the first record, or between two neighbours, or above the
/// last record is absent.
proof fn lemma_path_absent(c: Seq<PathRecord>, p: Seq<char>, i: int)
    requires
        paths_sorted(c),
        0 <= i <= c.len(),
        forall|k: int| 0 <= k < i ==> seq_lt((#[trigger] c[k].path@), p),
        forall|k: int| i <= k < c.len() ==> seq_lt(p, (#[trigger] c[k].path@)),
    ensures
        !has_path(c, p),
{
    if has_path(c, p) {
        let k = path_index(c, p);
        lemma_seq_lt_total(c[k].path@, p);
    }
}

/// Updating record `i` without changing its path leaves every other path's
/// counters unchanged.
proof fn lemma_lookup_update(c: Seq<PathRecord>, i: int, r: PathRecord)
    requires
        paths_sorted(c),
        0 <= i < c.len(),
        r.path@ == c[i].path@,
    ensures
        paths_sorted(c.update(i, r)),
        lookup_buckets(c.update(i, r), r.path@) == r.buckets@,
        forall|q: Seq<char>|
            q != r.path@ ==> #[trigger] lookup_buckets(c.update(i, r), q) == lookup_buckets(c, q),
{
    let c2 = c.update(i, r);
    assert(paths_sorted(c2)) by {
        assert(forall|k: int| 0 <= k < c.len() ==> (#[trigger] c2[k].path@) == c[k].path@);
    }
    lemma_path_index_of(c2, i);
    assert(lookup_buckets(c2, r.path@) == r.buckets@);
    assert forall|q: Seq<char>| q != r.path@ implies #[trigger] lookup_buckets(c2, q)
        == lookup_buckets(c, q) by {
        assert(forall|k: int| 0 <= k < c.len() ==> (#[trigger] c2[k].path@) == c[k].path@);
        if has_path(c, q) {
            let k = path_index(c, q);
            assert(c2[k].path@ == q);
            lemma_path_index_of(c, k);
            lemma_path_index_of(c2, k);
            assert(k != i);
        } else {
            if has_path(c2, q) {
                let k = path_index(c2, q);
                assert(c[k].path@ == q);
            }
        }
    }
}

/// Inserting a record at its sorted position keeps the order, makes its own
/// counters visible, and leaves every other path's counters unchanged.
proof fn lemma_lookup_insert(c: Seq<PathRecord>, i: int, r: PathRecord)
    requires
        paths_sorted(c),
        0 <= i <= c.len(),
        forall|k: int| 0 <= k < i ==> seq_lt((#[trigger] c[k].path@), r.path@),
        forall|k: int| i <= k < c.len() ==> seq_lt(r.path@, (#[trigger] c[k].path@)),
    ensures
        paths_sorted(c.insert(i, r)),
        lookup_buckets(c.insert(i, r), r.path@) == r.buckets@,
        forall|q: Seq<char>|
            q != r.path@ ==> #[trigger] lookup_buckets(c.insert(i, r), q) == lookup_buckets(c, q),
{
    let c2 = c.insert(i, r);
    assert(forall|k: int| 0 <= k < i ==> (#[trigger] c2[k]) == c[k]);
    assert(forall|k: int| i < k < c2.len() ==> (#[trigger] c2[k]) == c[k - 1]);
    assert(c2[i] == r);
    assert(paths_sorted(c2)) by {
        assert forall|x: int, y: int| 0 <= x < y < c2.len() implies seq_lt(
            (#[trigger] c2[x].path@),
            (#[trigger] c2[y].path@),
        ) by {
            if x == i {
                assert(seq_lt(r.path@, c[y - 1].path@));
            } else if y == i {
                assert(seq_lt(c[x].path@, r.path@));
            } else if x < i && y > i {
                lemma_seq_lt_trans(c[x].path@, r.path@, c[y - 1].path@);
            }
        }
    }
    lemma_path_index_of(c2, i);
    assert forall|q: Seq<char>| q != r.path@ implies #[trigger] lookup_buckets(c2, q)
        == lookup_buckets(c, q) by {
        if has_path(c, q) {
            let k = path_index(c, q);
            lemma_path_index_of(c, k);
            if k < i {
                assert(c2[k].path@ == q);
                lemma_path_index_of(c2, k);
            } else {
                assert(c2[k + 1].path@ == q);
                lemma_path_index_of(c2, k + 1);
            }
        } else {
            if has_path(c2, q) {
                let k = path_index(c2, q);
                if k < i {
                    assert(c[k].path@ == q);
                } else if k > i {
                    assert(c[k - 1].path@ == q);
                }
            }
        }
    }
}

/// In a sorted bucket sequence the counter for bucket `b[j].bucket` is
/// `b[j]` itself.
proof fn lemma_bucket_index_of(b: Seq<BucketCount>, j: int)
    requires
        buckets_sorted(b),
        0 <= j < b.len(),
    ensures
        has_bucket(b, b[j].bucket),
        bucket_index(b, b[j].bucket) == j,
{
    let t = b[j].bucket;
    assert(has_bucket(b, t));
    let k = bucket_index(b, t);
    if k < j {
        assert(b[k].bucket < b[j].bucket);
    } else if k > j {
        assert(b[j].bucket < b[k].bucket);
    }
}

/// Replacing the counter at `j` with one for the same bucket changes only
/// that bucket's count.
proof fn lemma_bucket_update(b: Seq<BucketCount>, j: int, e: BucketCount)
    requires
        buckets_sorted(b),
        0 <= j < b.len(),
        e.bucket == b[j].bucket,
    ensures
        buckets_sorted(b.update(j, e)),
        bucket_count(b.update(j, e), e.bucket) == e.count,
        forall|u: u64| u != e.bucket ==> bucket_count(b.update(j, e), u) == bucket_count(b, u),
{
    let b2 = b.update(j, e);
    assert(forall|k: int| 0 <= k < b.len() ==> (#[trigger] b2[k].bucket) == b[k].bucket);
    lemma_bucket_index_of(b2, j);
    assert forall|u: u64| u != e.bucket implies bucket_count(b2, u) == bucket_count(b, u) by {
        if has_bucket(b, u) {
            let k = bucket_index(b, u);
            lemma_bucket_index_of(b, k);
            assert(b2[k].bucket == u);
            lemma_bucket_index_of(b2, k);
            assert(k != j);
        } else {
            if has_bucket(b2, u) {
                let k = bucket_index(b2, u);
                assert(b[k].bucket == u);
            }
        }
    }
}

/// Inserting a counter for a new bucket at its sorted position changes only
/// that bucket's count.
proof fn lemma_bucket_insert(b: Seq<BucketCount>, j: int, e: BucketCount)
    requires
        buckets_sorted(b),
        0 <= j <= b.len(),
        forall|k: int| 0 <= k < j ==> (#[trigger] b[k].bucket) < e.bucket,
        forall|k: int| j <= k < b.len() ==> e.bucket < (#[trigger] b[k].bucket),
    ensures
        buckets_sorted(b.insert(j, e)),
        bucket_count(b.insert(j, e), e.bucket) == e.count,
        forall|u: u64| u != e.bucket ==> bucket_count(b.insert(j, e), u) == bucket_count(b, u),
{
    let b2 = b.insert(j, e);
    assert(forall|k: int| 0 <= k < j ==> (#[trigger] b2[k]) == b[k]);
    assert(forall|k: int| j < k < b2.len() ==> (#[trigger] b2[k]) == b[k - 1]);
    assert(b2[j] == e);
    assert(buckets_sorted(b2)) by {
        assert forall|x: int, y: int| 0 <= x < y < b2.len() implies (#[trigger] b2[x].bucket) < (
        #[trigger] b2[y].bucket) by {}
    }
    lemma_bucket_index_of(b2, j);
    assert forall|u: u64| u != e.bucket implies bucket_count(b2, u) == bucket_count(b, u) by {
        if has_bucket(b, u) {
            let k = bucket_index(b, u);
            lemma_bucket_index_of(b, k);
            if k < j {
                assert(b2[k].bucket == u);
                lemma_bucket_index_of(b2, k);
            } else {
                assert(b2[k + 1].bucket == u);
                lemma_bucket_index_of(b2, k + 1);
            }
        } else {
            if has_bucket(b2, u) {
                let k = bucket_index(b2, u);
                if k < j {
                    assert(b[k].bucket == u);
                } else if k > j {
                    assert(b[k - 1].bucket == u);
                }
            }
        }
    }
}

/// A sum of counts is never negative.
proof fn lemma_sum_nonneg(b: Seq<BucketCount>)
    ensures
        sum_counts(b) >= 0,
    decreases b.len(),
{
    if b.len() > 0 {
        lemma_sum_nonneg(b.drop_last());
    }
}

/// Inserting a counter adds its count to the sum.
proof fn lemma_sum_insert(b: Seq<BucketCount>, j: int, e: BucketCount)
    requires
        0 <= j <= b.len(),
    ensures
        sum_counts(b.insert(j, e)) == sum_counts(b) + e.count,
    decreases b.len(),
{
    let b2 = b.insert(j, e);
    if j == b.len() {
        assert(b2.drop_last() =~= b);
        assert(b2.last() == e);
    } else {
        assert(b2.drop_last() =~= b.drop_last().insert(j, e));
        assert(b2.last() == b.last());
        lemma_sum_insert(b.drop_last(), j, e);
    }
}


impl Flamegraph {
    /// Adds `n` occurrences of `path` in time bucket `bucket`.
    ///
    /// Fails, leaving the aggregator unchanged, exactly when the path's total
    /// count would no longer fit in a machine word.
    #[verifier::loop_isolation(false)]
    pub fn add_count(&mut self, path: &str, bucket: u64, n: usize) -> (r: Result<(), RecordError>)
        requires
            old(self).wf(),
            n >= 1,
        ensures
            final(self).wf(),
            final(self).show_linenumbers == old(self).show_linenumbers,
            match r {
                Ok(()) => {
                    &&& sum_counts(lookup_buckets(old(self).counts@, path@)) + n <= usize::MAX
                    &&& sum_counts(lookup_buckets(final(self).counts@, path@)) == sum_counts(
                        lookup_buckets(old(self).counts@, path@),
                    ) + n
                    &&& bucket_count(lookup_buckets(final(self).counts@, path@), bucket)
                        == bucket_count(lookup_buckets(old(self).counts@, path@), bucket) + n
                    &&& forall|u: u64|
                        u != bucket ==> bucket_count(lookup_buckets(final(self).counts@, path@), u)
                            == bucket_count(lookup_buckets(old(self).counts@, path@), u)
                    &&& forall|q: Seq<char>|
                        q != path@ ==> #[trigger] lookup_buckets(final(self).counts@, q)
                            == lookup_buckets(old(self).counts@, q)
                },
                Err(e) => {
                    &&& e == RecordError::CountSaturated
                    &&& sum_counts(lookup_buckets(old(self).counts@, path@)) + n > usize::MAX
                    &&& final(self).counts@ == old(self).counts@
                },
            },
    {
        let len = self.counts.len();
        let mut i: usize = 0;
        loop
            invariant
                *self == *old(self),
                0 <= i <= len,
                len == self.counts@.len(),
                forall|k: int| 0 <= k < i ==> seq_lt((#[trigger] self.counts@[k].path@), path@),
            decreases len - i,
        {
            if i == len {
                return self.insert_record(i, path, bucket, n);
            }
            match str_compare(path, self.counts[i].path.as_str()) {
                StrOrder::Less => {
                    return self.insert_record(i, path, bucket, n);
                },
                StrOrder::Equal => {
                    proof {
                        lemma_path_index_of(self.counts@, i as int);
                    }
                    return self.bump_record(i, bucket, n);
                },
                StrOrder::Greater => {
                    i = i + 1;
                },
            }
        }
    }

    /// Inserts a fresh record for an absent `path` at its sorted position `i`.
    fn insert_record(&mut self, i: usize, path: &str, bucket: u64, n: usize) -> (r: Result<
        (),
        RecordError,
    >)
        requires
            old(self).wf(),
            n >= 1,
            i <= old(self).counts@.len(),
            forall|k: int| 0 <= k < i ==> seq_lt((#[trigger] old(self).counts@[k].path@), path@),
            i < old(self).counts@.len() ==> seq_lt(path@, old(self).counts@[i as int].path@),
        ensures
            final(self).wf(),
            final(self).show_linenumbers == old(self).show_linenumbers,
            r is Ok,
            sum_counts(lookup_buckets(old(self).counts@, path@)) + n <= usize::MAX,
            sum_counts(lookup_buckets(final(self).counts@, path@)) == sum_counts(
                lookup_buckets(old(self).counts@, path@),
            ) + n,
            bucket_count(lookup_buckets(final(self).counts@, path@), bucket) == bucket_count(
                lookup_buckets(old(self).counts@, path@),
                bucket,
            ) + n,
            forall|u: u64|
                u != bucket ==> bucket_count(lookup_buckets(final(self).counts@, path@), u)
                    == bucket_count(lookup_buckets(old(self).counts@, path@), u),
            forall|q: Seq<char>|
                q != path@ ==> #[trigger] lookup_buckets(final(self).counts@, q) == lookup_buckets(
                    old(self).counts@,
                    q,
                ),
    {
        let ghost c0 = self.counts@;
        proof {
            assert forall|k: int| i <= k < c0.len() implies seq_lt(
                path@,
                (#[trigger] c0[k].path@),
            ) by {
                if k > i {
                    lemma_seq_lt_trans(path@, c0[i as int].path@, c0[k].path@);
                }
            }
            lemma_path_absent(c0, path@, i as int);
        }
        let rec = PathRecord {
            path: path.to_owned(),
            total: n,
            buckets: vec![BucketCount { bucket, count: n }],
        };
        proof {
            assert(rec.buckets@ =~= seq![BucketCount { bucket, count: n }]);
            assert(rec.buckets@.drop_last() =~= Seq::<BucketCount>::empty());
            assert(sum_counts(Seq::<BucketCount>::empty()) == 0);
            assert(rec.buckets@.last() == BucketCount { bucket, count: n });
            assert(sum_counts(rec.buckets@) == n);
            assert(rec.wf());
            lemma_lookup_insert(c0, i as int, rec);
            lemma_bucket_index_of(rec.buckets@, 0);
            assert(bucket_count(rec.buckets@, bucket) == n);
            assert(lookup_buckets(c0, path@) =~= Seq::<BucketCount>::empty());
            assert forall|u: u64| u != bucket implies bucket_count(rec.buckets@, u) == 0 by {
                if has_bucket(rec.buckets@, u) {
                    let k = bucket_index(rec.buckets@, u);
                    assert(rec.buckets@[k].bucket == bucket);
                }
            }
        }
        self.counts.insert(i, rec);
        proof {
            assert(forall|k: int|
                0 <= k < final(self).counts@.len() ==> (#[trigger] final(self).counts@[k]).wf());
        }
        Ok(())
    }

    /// Adds `n` occurrences in bucket `bucket` to the record at index `i`.
    #[verifier::loop_isolation(false)]
    fn bump_record(&mut self, i: usize, bucket: u64, n: usize) -> (r: Result<(), RecordError>)
        requires
            old(self).wf(),
            n >= 1,
            i < old(self).counts@.len(),
            has_path(old(self).counts@, old(self).counts@[i as int].path@),
            path_index(old(self).counts@, old(self).counts@[i as int].path@) == i,
        ensures
            final(self).wf(),
            final(self).show_linenumbers == old(self).show_linenumbers,
            ({
                let p = old(self).counts@[i as int].path@;
                match r {
                    Ok(()) => {
                        &&& sum_counts(lookup_buckets(old(self).counts@, p)) + n <= usize::MAX
                        &&& sum_counts(lookup_buckets(final(self).counts@, p)) == sum_counts(
                            lookup_buckets(old(self).counts@, p),
                        ) + n
                        &&& bucket_count(lookup_buckets(final(self).counts@, p), bucket)
                            == bucket_count(lookup_buckets(old(self).counts@, p), bucket) + n
                        &&& forall|u: u64|
                            u != bucket ==> bucket_count(lookup_buckets(final(self).counts@, p), u)
                                == bucket_count(lookup_buckets(old(self).counts@, p), u)
                        &&& forall|q: Seq<char>|
                            q != p ==> #[trigger] lookup_buckets(final(self).counts@, q)
                                == lookup_buckets(old(self).counts@, q)
                    },
                    Err(e) => {
                        &&& e == RecordError::CountSaturated
                        &&& sum_counts(lookup_buckets(old(self).counts@, p)) + n > usize::MAX
                        &&& final(self).counts@ == old(self).counts@
                    },
                }
            }),
    {
        let ghost c0 = self.counts@;
        let ghost p = c0[i as int].path@;
        let mut rec = self.counts.remove(i);
        let ghost b0 = rec.buckets@;
        let total = match rec.total.checked_add(n) {
            Some(t) => t,
            None => {
                self.counts.insert(i, rec);
                proof {
                    assert(self.counts@ =~= c0);
                }
                return Err(RecordError::CountSaturated);
            },
        };
        rec.total = total;
        // Find the bucket's sorted position.
        let blen = rec.buckets.len();
        let mut j: usize = 0;
        loop
            invariant
                0 <= j <= blen,
                rec.buckets@ == b0,
                rec.path@ == p,
                rec.total == total,
                self.counts@ == c0.remove(i as int),
                self.show_linenumbers == old(self).show_linenumbers,
                forall|k: int| 0 <= k < j ==> (#[trigger] rec.buckets@[k].bucket) < bucket,
            decreases blen - j,
        {
            if j == blen {
                break;
            }
            let bj = rec.buckets[j].bucket;
            if bj == bucket {
                // Bump the existing counter.
                let mut e = rec.buckets.remove(j);
                proof {
                    assert(b0.remove(j as int).insert(j as int, b0[j as int]) =~= b0);
                    lemma_sum_insert(b0.remove(j as int), j as int, b0[j as int]);
                    assert(sum_counts(b0.remove(j as int)) == sum_counts(b0) - e.count);
                    lemma_sum_nonneg(b0.remove(j as int));
                    assert(e.count + n <= sum_counts(b0) + n);
                    lemma_sum_insert(
                        b0.remove(j as int),
                        j as int,
                        BucketCount { bucket, count: (e.count + n) as usize },
                    );
                    assert(b0.remove(j as int).insert(
                        j as int,
                        BucketCount { bucket, count: (e.count + n) as usize },
                    ) =~= b0.update(
                        j as int,
                        BucketCount { bucket, count: (e.count + n) as usize },
                    ));
                }
                e.count = e.count + n;
                rec.buckets.insert(j, e);
                proof {
                    lemma_bucket_update(b0, j as int, e);
                    assert(rec.buckets@ =~= b0.update(j as int, e));
                    assert(rec.wf());
                    lemma_lookup_update(c0, i as int, rec);
                    assert(c0.remove(i as int).insert(i as int, rec) =~= c0.update(i as int, rec));
                    lemma_bucket_index_of(b0, j as int);
                }
                self.counts.insert(i, rec);
                proof {
                    assert(lookup_buckets(c0, p) == b0);
                    assert(forall|k: int|
                        0 <= k < final(self).counts@.len()
                            ==> (#[trigger] final(self).counts@[k]).wf());
                }
                return Ok(());
            } else if bj > bucket {
                break;
            }
            j = j + 1;
        }
        // No counter for this bucket yet; insert one at index j.
        proof {
            assert forall|k: int| j <= k < blen implies bucket < (
            #[trigger] rec.buckets@[k].bucket) by {
                if j < blen && k > j {
                    assert(rec.buckets@[j as int].bucket < rec.buckets@[k].bucket);
                }
            }
            assert(!has_bucket(b0, bucket)) by {
                if has_bucket(b0, bucket) {
                    let k = bucket_index(b0, bucket);
                }
            }
            lemma_bucket_insert(b0, j as int, BucketCount { bucket, count: n });
            lemma_sum_insert(b0, j as int, BucketCount { bucket, count: n });
        }
        let e = BucketCount { bucket, count: n };
        rec.buckets.insert(j, e);
        proof {
            assert(rec.wf());
            lemma_lookup_update(c0, i as int, rec);
            assert(c0.remove(i as int).insert(i as int, rec) =~= c0.update(i as int, rec));
        }
        self.counts.insert(i, rec);
        proof {
            assert(lookup_buckets(c0, p) == b0);
            assert(bucket_count(b0, bucket) == 0);
            assert(forall|k: int|
                0 <= k < final(self).counts@.len() ==> (#[trigger] final(self).counts@[k]).wf());
        }
        Ok(())
    }
}


/// The window sum lies between zero and the full sum.
proof fn lemma_window_le_sum(b: Seq<BucketCount>, start: u64, end: u64)
    ensures
        0 <= window_sum(b, start, end) <= sum_counts(b),
    decreases b.len(),
{
    if b.len() > 0 {
        lemma_window_le_sum(b.drop_last(), start, end);
    }
}

/// An empty window sums to zero.
proof fn lemma_window_empty(b: Seq<BucketCount>, start: u64, end: u64)
    requires
        start >= end,
    ensures
        window_sum(b, start, end) == 0,
    decreases b.len(),
{
    if b.len() > 0 {
        lemma_window_empty(b.drop_last(), start, end);
    }
}

/// A prefix never sums to more than the whole sequence.
pub(crate) proof fn lemma_sum_prefix(b: Seq<BucketCount>, k: int)
    requires
        0 <= k <= b.len(),
    ensures
        sum_counts(b.subrange(0, k)) <= sum_counts(b),
    decreases b.len(),
{
    if k == b.len() {
        assert(b.subrange(0, k) =~= b);
    } else {
        assert(b.drop_last().subrange(0, k) =~= b.subrange(0, k));
        lemma_sum_prefix(b.drop_last(), k);
    }
}

/// The count of one folded path over a time window.
pub struct PathCount {
    /// The folded path.
    pub path: String,
    /// Its summed count over the window; always positive.
    pub count: usize,
}

/// Entries are in strictly ascending path order.
pub open spec fn entries_sorted(e: Seq<PathCount>) -> bool {
    forall|i: int, j: int|
        0 <= i < j < e.len() ==> seq_lt(#[trigger] e[i].path@, #[trigger] e[j].path@)
}

/// The result of filtering the aggregate counts by a time window: each
/// retained path with its positive summed count, in ascending path order,
/// plus whether the requested interval was invalid.
pub struct FilteredCounts {
    /// One entry per path with a positive sum over the window.
    pub entries: Vec<PathCount>,
    /// Whether the interval was empty or reversed and was therefore rejected.
    pub invalid_interval: bool,
}

impl FilteredCounts {
    /// Entries are sorted (hence unique) and counts are positive.
    pub open spec fn wf(self) -> bool {
        &&& entries_sorted(self.entries@)
        &&& forall|k: int| 0 <= k < self.entries@.len() ==> (#[trigger] self.entries@[k].count) > 0
    }

    /// Some entry holds path `p`.
    pub open spec fn has_key(self, p: Seq<char>) -> bool {
        exists|k: int| 0 <= k < self.entries@.len() && (#[trigger] self.entries@[k].path@) == p
    }

    /// The count stored for path `p`; zero when absent.
    pub open spec fn count_of(self, p: Seq<char>) -> int {
        if self.has_key(p) {
            self.entries@[choose|k: int|
                0 <= k < self.entries@.len() && (#[trigger] self.entries@[k].path@) == p].count as int
        } else {
            0
        }
    }

    /// The number of retained paths.
    pub fn len(&self) -> (n: usize)
        ensures
            n == self.entries@.len(),
    {
        self.entries.len()
    }

    /// Whether no path was retained.
    pub fn is_empty(&self) -> (r: bool)
        ensures
            r == (self.entries@.len() == 0),
    {
        self.entries.is_empty()
    }

    /// Whether path `p` was retained.
    pub fn contains_key(&self, p: &String) -> (r: bool)
        ensures
            r == self.has_key(p@),
    {
        let len = self.entries.len();
        let mut k: usize = 0;
        loop
            invariant
                0 <= k <= len,
                len == self.entries@.len(),
                forall|x: int| 0 <= x < k ==> (#[trigger] self.entries@[x].path@) != p@,
            decreases len - k,
        {
            if k == len {
                return false;
            }
            if self.entries[k].path.eq(p) {
                return true;
            }
            k = k + 1;
        }
    }

    /// The count retained for path `p`, when there is one.
    pub fn get(&self, p: &String) -> (r: Option<usize>)
        requires
            self.wf(),
        ensures
            match r {
                Some(v) => self.has_key(p@) && v == self.count_of(p@),
                None => !self.has_key(p@),
            },
    {
        let len = self.entries.len();
        let mut k: usize = 0;
        loop
            invariant
                self.wf(),
                0 <= k <= len,
                len == self.entries@.len(),
                forall|x: int| 0 <= x < k ==> (#[trigger] self.entries@[x].path@) != p@,
            decreases len - k,
        {
            if k == len {
                return None;
            }
            if self.entries[k].path.eq(p) {
                proof {
                    let e = self.entries@;
                    let kk = choose|x: int| 0 <= x < e.len() && (#[trigger] e[x].path@) == p@;
                    if kk != k {
                        lemma_seq_lt_total(e[kk].path@, e[k as int].path@);
                    }
                }
                return Some(self.entries[k].count);
            }
            k = k + 1;
        }
    }
}

/// The summed count of the counters whose bucket lies in `[start, end)`.
#[verifier::loop_isolation(false)]
fn window_total(b: &Vec<BucketCount>, start: u64, end: u64) -> (t: usize)
    requires
        sum_counts(b@) <= usize::MAX,
    ensures
        t == window_sum(b@, start, end),
{
    let len = b.len();
    let mut t: usize = 0;
    let mut k: usize = 0;
    loop
        invariant
            0 <= k <= len,
            t == window_sum(b@.subrange(0, k as int), start, end),
            t <= sum_counts(b@.subrange(0, k as int)),
        decreases len - k,
    {
        if k == len {
            proof {
                assert(b@.subrange(0, k as int) =~= b@);
            }
            return t;
        }
        proof {
            let pre = b@.subrange(0, k as int);
            let post = b@.subrange(0, k + 1);
            assert(post.drop_last() =~= pre);
            assert(post.last() == b@[k as int]);
            lemma_sum_prefix(b@, k + 1);
            lemma_window_le_sum(pre, start, end);
        }
        let e = &b[k];
        if start <= e.bucket && e.bucket < end {
            t = t + e.count;
        }
        k = k + 1;
    }
}

impl Flamegraph {
    /// Folds one retained trace into the counters of the current time bucket.
    ///
    /// Fails, leaving the aggregator unchanged, exactly when the folded
    /// path's total count would no longer fit in a machine word.
    pub fn increment(&mut self, time_stamp: u64, trace: &StackTrace) -> (r: Result<
        (),
        RecordError,
    >)
        requires
            old(self).wf(),
        ensures
            final(self).wf(),
            final(self).show_linenumbers == old(self).show_linenumbers,
            ({
                let p = folded_path(trace.frames@, old(self).show_linenumbers);
                match r {
                    Ok(()) => {
                        &&& sum_counts(lookup_buckets(old(self).counts@, p)) < usize::MAX
                        &&& sum_counts(lookup_buckets(final(self).counts@, p)) == sum_counts(
                            lookup_buckets(old(self).counts@, p),
                        ) + 1
                        &&& bucket_count(lookup_buckets(final(self).counts@, p), time_stamp)
                            == bucket_count(lookup_buckets(old(self).counts@, p), time_stamp) + 1
                        &&& forall|u: u64|
                            u != time_stamp ==> bucket_count(
                                lookup_buckets(final(self).counts@, p),
                                u,
                            ) == bucket_count(lookup_buckets(old(self).counts@, p), u)
                        &&& forall|q: Seq<char>|
                            q != p ==> #[trigger] lookup_buckets(final(self).counts@, q)
                                == lookup_buckets(old(self).counts@, q)
                    },
                    Err(e) => {
                        &&& e == RecordError::CountSaturated
                        &&& sum_counts(lookup_buckets(old(self).counts@, p)) == usize::MAX
                        &&& final(self).counts@ == old(self).counts@
                    },
                }
            }),
    {
        let path = fold_trace(trace, self.show_linenumbers);
        proof {
            lemma_sum_nonneg(lookup_buckets(self.counts@, path@));
        }
        self.add_count(path.as_str(), time_stamp, 1)
    }

    /// One `"{path} {total}"` line per folded path, in ascending path order,
    /// where the total sums the path's counts across all time buckets.
    pub fn get_lines(&self) -> (lines: Vec<String>)
        requires
            self.wf(),
        ensures
            lines@.len() == self.counts@.len(),
            forall|i: int|
                0 <= i < lines@.len() ==> (#[trigger] lines@[i])@ == self.counts@[i].path@ + " "@
                    + dec_chars(sum_counts(self.counts@[i].buckets@) as nat),
    {
        proof {
            reveal_strlit(" ");
        }
        let len = self.counts.len();
        let mut lines: Vec<String> = Vec::new();
        let mut i: usize = 0;
        loop
            invariant
                0 <= i <= len,
                len == self.counts@.len(),
                self.wf(),
                lines@.len() == i,
                forall|x: int|
                    0 <= x < i ==> (#[trigger] lines@[x])@ == self.counts@[x].path@ + " "@
                        + dec_chars(sum_counts(self.counts@[x].buckets@) as nat),
            decreases len - i,
        {
            if i == len {
                return lines;
            }
            let rec = &self.counts[i];
            let mut line = rec.path.clone();
            line.append(" ");
            let total_s = u64_to_string(rec.total as u64);
            line.append(total_s.as_str());
            lines.push(line);
            i = i + 1;
        }
    }

    /// Sums each path's counts over the half-open time window
    /// `[start_ts, end_ts)` and retains the paths whose sum is positive.
    ///
    /// An empty or reversed interval yields an empty result marked invalid
    /// rather than a failure.
    #[verifier::loop_isolation(false)]
    pub fn filter_records(&self, start_ts: u64, end_ts: u64) -> (r: FilteredCounts)
        requires
            self.wf(),
        ensures
            r.wf(),
            r.invalid_interval == (start_ts >= end_ts),
            start_ts >= end_ts ==> r.entries@.len() == 0,
            forall|k: int|
                0 <= k < r.entries@.len() ==> has_path(self.counts@, (#[trigger] r.entries@[k]).path@)
                    && r.entries@[k].count == window_sum(
                    lookup_buckets(self.counts@, r.entries@[k].path@),
                    start_ts,
                    end_ts,
                ),
            forall|p: Seq<char>|
                #[trigger] window_sum(lookup_buckets(self.counts@, p), start_ts, end_ts) > 0
                    ==> r.has_key(p),
    {
        let mut ret = FilteredCounts { entries: Vec::new(), invalid_interval: false };
        if start_ts >= end_ts {
            ret.invalid_interval = true;
            proof {
                assert forall|p: Seq<char>|
                    #[trigger] window_sum(lookup_buckets(self.counts@, p), start_ts, end_ts)
                        <= 0 by {
                    lemma_window_empty(lookup_buckets(self.counts@, p), start_ts, end_ts);
                }
            }
            return ret;
        }
        let len = self.counts.len();
        let mut i: usize = 0;
        loop
            invariant
                0 <= i <= len,
                ret.invalid_interval == false,
                entries_sorted(ret.entries@),
                forall|k: int|
                    0 <= k < ret.entries@.len() ==> {
                        let p = (#[trigger] ret.entries@[k]).path@;
                        &&& has_path(self.counts@, p)
                        &&& path_index(self.counts@, p) < i
                        &&& ret.entries@[k].count == window_sum(
                            lookup_buckets(self.counts@, p),
                            start_ts,
                            end_ts,
                        )
                        &&& ret.entries@[k].count > 0
                    },
                forall|x: int|
                    0 <= x < i && window_sum(
                        lookup_buckets(self.counts@, (#[trigger] self.counts@[x]).path@),
                        start_ts,
                        end_ts,
                    ) > 0 ==> ret.has_key(self.counts@[x].path@),
            decreases len - i,
        {
            if i == len {
                break;
            }
            proof {
                lemma_path_index_of(self.counts@, i as int);
            }
            let rec = &self.counts[i];
            let t = window_total(&rec.buckets, start_ts, end_ts);
            let ghost entries0 = ret.entries@;
            if t > 0 {
                proof {
                    assert forall|k: int| 0 <= k < entries0.len() implies seq_lt(
                        (#[trigger] entries0[k]).path@,
                        self.counts@[i as int].path@,
                    ) by {
                        let p = entries0[k].path@;
                        let x = path_index(self.counts@, p);
                        assert(self.counts@[x].path@ == p);
                    }
                }
                ret.entries.push(PathCount { path: rec.path.clone(), count: t });
                proof {
                    assert(forall|k: int|
                        0 <= k < entries0.len() ==> (#[trigger] ret.entries@[k]) == entries0[k]);
                    assert(ret.entries@[entries0.len() as int].path@
                        == self.counts@[i as int].path@);
                }
            }
            i = i + 1;
            proof {
                assert forall|x: int|
                    0 <= x < i && window_sum(
                        lookup_buckets(self.counts@, (#[trigger] self.counts@[x]).path@),
                        start_ts,
                        end_ts,
                    ) > 0 implies ret.has_key(self.counts@[x].path@) by {
                    if x == i - 1 {
                        lemma_path_index_of(self.counts@, x);
                        assert(lookup_buckets(self.counts@, self.counts@[x].path@)
                            == self.counts@[x].buckets@);
                        assert(ret.entries@[entries0.len() as int].path@
                            == self.counts@[x].path@);
                    } else {
                        let kk = choose|kk: int|
                            0 <= kk < entries0.len() && (#[trigger] entries0[kk].path@)
                                == self.counts@[x].path@;
                        assert(ret.entries@[kk].path@ == self.counts@[x].path@);
                    }
                }
            }
        }
        proof {
            assert forall|p: Seq<char>|
                #[trigger] window_sum(lookup_buckets(self.counts@, p), start_ts, end_ts)
                    > 0 implies ret.has_key(p) by {
                if has_path(self.counts@, p) {
                    let x = path_index(self.counts@, p);
                    assert(self.counts@[x].path@ == p);
                } else {
                    assert(lookup_buckets(self.counts@, p) =~= Seq::<BucketCount>::empty());
                }
            }
        }
        ret
    }
}


impl FilteredCounts {
    /// One `"{path} {count}"` line per retained path, in ascending path
    /// order: the form handed to the external flame-graph renderer.
    #[verifier::loop_isolation(false)]
    pub fn lines(&self) -> (lines: Vec<String>)
        ensures
            lines@.len() == self.entries@.len(),
            forall|i: int|
                0 <= i < lines@.len() ==> (#[trigger] lines@[i])@ == self.entries@[i].path@ + " "@
                    + dec_chars(self.entries@[i].count as nat),
    {
        proof {
            reveal_strlit(" ");
        }
        let len = self.entries.len();
        let mut lines: Vec<String> = Vec::new();
        let mut i: usize = 0;
        loop
            invariant
                0 <= i <= len,
                lines@.len() == i,
                forall|x: int|
                    0 <= x < i ==> (#[trigger] lines@[x])@ == self.entries@[x].path@ + " "@
                        + dec_chars(self.entries@[x].count as nat),
            decreases len - i,
        {
            if i == len {
                return lines;
            }
            let e = &self.entries[i];
            let mut line = e.path.clone();
            line.append(" ");
            let count_s = u64_to_string(e.count as u64);
            line.append(count_s.as_str());
            lines.push(line);
            i = i + 1;
        }
    }
}

} // verus!
