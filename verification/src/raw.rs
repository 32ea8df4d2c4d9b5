//! The lossless raw snapshot: the canonical text form of the aggregate
//! counters, written once at the end of a run and read back wholesale for
//! time-window replay.
//!
//! The schema is one header line holding the line-number display flag (`1`
//! or `0`), then one line per stored (path, bucket) counter:
//! `"{bucket} {count} {path}"`, with records in ascending path order and a
//! path's counters in ascending bucket order. Numbers carry no leading
//! zeros, so the text of a well-formed aggregator is unique, and a reader
//! accepts exactly such canonical texts.
//!
//! Being line-oriented, the schema cannot carry a folded path that embeds a
//! line break; every path a reader hands back is free of them, and the
//! losslessness guarantee is stated for such paths.

use vstd::prelude::*;

use crate::flamegraph::{
    buckets_positive, has_path, lemma_path_index_of, lemma_sum_prefix, lookup_buckets, path_index,
    paths_sorted, sum_counts, BucketCount, Flamegraph, PathRecord,
};
use crate::text::{
    all_digits, dec_chars, dec_val, digit_val, is_digit, lemma_dec_chars_injective,
    lemma_dec_chars_val,
    lemma_seq_lt_total, lemma_seq_lt_trans, seq_lt, str_compare, u64_to_string, StrOrder,
};

verus! {

/// Why a raw snapshot could not be read back.
#[derive(PartialEq, Eq, Structural, Clone, Copy, Debug)]
pub enum SnapshotError {
    /// The text is not the canonical form of any aggregator.
    Invalid,
}

/// One stored counter as a snapshot line.
pub open spec fn line_of(bucket: u64, count: usize, path: Seq<char>) -> Seq<char> {
    dec_chars(bucket as nat) + " "@ + dec_chars(count as nat) + " "@ + path + "\n"@
}

/// The snapshot lines of one path's counters.
pub open spec fn buckets_lines(path: Seq<char>, b: Seq<BucketCount>) -> Seq<char>
    decreases b.len(),
{
    if b.len() == 0 {
        Seq::empty()
    } else {
        buckets_lines(path, b.drop_last()) + line_of(b.last().bucket, b.last().count, path)
    }
}

/// The snapshot lines of all records.
pub open spec fn records_lines(c: Seq<PathRecord>) -> Seq<char>
    decreases c.len(),
{
    if c.len() == 0 {
        Seq::empty()
    } else {
        records_lines(c.drop_last()) + buckets_lines(c.last().path@, c.last().buckets@)
    }
}

/// The canonical snapshot text of an aggregator.
pub open spec fn raw_form(fg: Flamegraph) -> Seq<char> {
    (if fg.show_linenumbers {
        "1\n"@
    } else {
        "0\n"@
    }) + records_lines(fg.counts@)
}

impl Flamegraph {
    /// Serializes the aggregator to its canonical snapshot text.
    #[verifier::loop_isolation(false)]
    #[verifier::rlimit(60)]
    pub fn write_raw(&self) -> (out: String)
        requires
            self.wf(),
        ensures
            out@ == raw_form(*self),
    {
        proof {
            reveal_strlit("1\n");
            reveal_strlit("0\n");
            reveal_strlit(" ");
            reveal_strlit("\n");
        }
        let mut out: String = if self.show_linenumbers {
            "1\n".to_owned()
        } else {
            "0\n".to_owned()
        };
        let ghost header = out@;
        let len = self.counts.len();
        let mut i: usize = 0;
        loop
            invariant
                0 <= i <= len,
                out@ == header + records_lines(self.counts@.subrange(0, i as int)),
            decreases len - i,
        {
            if i == len {
                proof {
                    assert(self.counts@.subrange(0, i as int) =~= self.counts@);
                }
                return out;
            }
            let rec = &self.counts[i];
            let blen = rec.buckets.len();
            let mut j: usize = 0;
            loop
                invariant
                    0 <= j <= blen,
                    out@ == header + records_lines(self.counts@.subrange(0, i as int))
                        + buckets_lines(rec.path@, rec.buckets@.subrange(0, j as int)),
                decreases blen - j,
            {
                if j == blen {
                    break;
                }
                let e = &rec.buckets[j];
                let b_str = u64_to_string(e.bucket);
                out.append(b_str.as_str());
                out.append(" ");
                let c_str = u64_to_string(e.count as u64);
                out.append(c_str.as_str());
                out.append(" ");
                out.append(rec.path.as_str());
                out.append("\n");
                proof {
                    let pre = rec.buckets@.subrange(0, j as int);
                    let post = rec.buckets@.subrange(0, j + 1);
                    assert(post.drop_last() =~= pre);
                    assert(post.last() == rec.buckets@[j as int]);
                    assert(out@ =~= header + records_lines(self.counts@.subrange(0, i as int))
                        + buckets_lines(rec.path@, post));
                }
                j = j + 1;
            }
            proof {
                let pre = self.counts@.subrange(0, i as int);
                let post = self.counts@.subrange(0, i + 1);
                assert(post.drop_last() =~= pre);
                assert(post.last() == self.counts@[i as int]);
                assert(rec.buckets@.subrange(0, blen as int) =~= rec.buckets@);
                assert(out@ =~= header + records_lines(post));
            }
            i = i + 1;
        }
    }
}


/// A digit prefix never reads above the whole digit string.
proof fn lemma_dec_val_prefix_le(d: Seq<char>, k: int)
    requires
        0 <= k <= d.len(),
    ensures
        dec_val(d.subrange(0, k)) <= dec_val(d),
    decreases d.len(),
{
    if k == d.len() {
        assert(d.subrange(0, k) =~= d);
    } else {
        assert(d.drop_last().subrange(0, k) =~= d.subrange(0, k));
        lemma_dec_val_prefix_le(d.drop_last(), k);
    }
}

/// Finishes a number scan: the scanned digits must be exactly the canonical
/// rendering of their value, and the scan must have stopped at a non-digit.
fn finish_number(s: &str, start: usize, pos: usize, v: u64) -> (r: Result<
    (u64, usize),
    SnapshotError,
>)
    requires
        start <= pos <= s@.len(),
        all_digits(s@.subrange(start as int, pos as int)),
        v as nat == dec_val(s@.subrange(start as int, pos as int)),
        pos == s@.len() || !is_digit(s@[pos as int]),
    ensures
        match r {
            Ok((w, end)) => {
                &&& start <= end <= s@.len()
                &&& s@.subrange(start as int, end as int) == dec_chars(w as nat)
                &&& (end == s@.len() || !is_digit(s@[end as int]))
            },
            Err(_) => forall|w: u64, end: int|
                #![trigger s@.subrange(start as int, end), dec_chars(w as nat)]
                !(start <= end <= s@.len() && s@.subrange(start as int, end) == dec_chars(w as nat)
                    && (end == s@.len() || !is_digit(s@[end]))),
        },
{
    if pos == start {
        proof {
            assert forall|w: u64, end: int|
                #![trigger s@.subrange(start as int, end), dec_chars(w as nat)]
                !(start <= end <= s@.len() && s@.subrange(start as int, end) == dec_chars(w as nat)
                    && (end == s@.len() || !is_digit(s@[end]))) by {
                if start <= end <= s@.len() && s@.subrange(start as int, end) == dec_chars(
                    w as nat,
                ) {
                    lemma_dec_chars_val(w as nat);
                    assert(end >= start + 1);
                    assert(s@[start as int] == dec_chars(w as nat)[0]);
                    assert(is_digit(s@[start as int]));
                }
            }
        }
        return Err(SnapshotError::Invalid);
    }
    let rendered = u64_to_string(v);
    let scanned = s.substring_char(start, pos);
    match str_compare(rendered.as_str(), scanned) {
        StrOrder::Equal => Ok((v, pos)),
        _ => {
            proof {
                let sub = s@.subrange(start as int, pos as int);
                assert forall|w: u64, end: int|
                    #![trigger s@.subrange(start as int, end), dec_chars(w as nat)]
                    !(start <= end <= s@.len() && s@.subrange(start as int, end) == dec_chars(
                        w as nat,
                    ) && (end == s@.len() || !is_digit(s@[end]))) by {
                    if start <= end <= s@.len() && s@.subrange(start as int, end) == dec_chars(
                        w as nat,
                    ) && (end == s@.len() || !is_digit(s@[end])) {
                        lemma_dec_chars_val(w as nat);
                        if end < pos {
                            assert(end < s@.len());
                            assert(s@[end] == sub[end - start]);
                            assert(is_digit(sub[end - start]));
                            assert(false);
                        }
                        if end > pos {
                            assert(dec_chars(w as nat)[pos - start] == s@[pos as int]);
                            assert(is_digit(s@[pos as int]));
                            assert(false);
                        }
                        assert(end == pos);
                        assert(dec_chars(w as nat) == sub);
                        assert(dec_val(dec_chars(w as nat)) == w as nat);
                        assert(w == v);
                        assert(rendered@ == sub);
                        assert(false);
                    }
                }
            }
            Err(SnapshotError::Invalid)
        },
    }
}

/// Scans a decimal number at `start` and accepts it only in canonical form
/// (no leading zeros): on success the scanned text is exactly the rendering
/// of the value, read to the first non-digit; on failure no value's
/// canonical rendering stands digit-complete at `start`.
#[verifier::loop_isolation(false)]
fn scan_number(s: &str, start: usize) -> (r: Result<(u64, usize), SnapshotError>)
    requires
        start <= s@.len(),
    ensures
        match r {
            Ok((v, end)) => {
                &&& start <= end <= s@.len()
                &&& s@.subrange(start as int, end as int) == dec_chars(v as nat)
                &&& (end == s@.len() || !is_digit(s@[end as int]))
            },
            Err(_) => forall|v: u64, end: int|
                #![trigger s@.subrange(start as int, end), dec_chars(v as nat)]
                !(start <= end <= s@.len() && s@.subrange(start as int, end) == dec_chars(v as nat)
                    && (end == s@.len() || !is_digit(s@[end]))),
        },
{
    let len = s.unicode_len();
    let mut pos = start;
    let mut v: u64 = 0;
    loop
        invariant
            start <= pos <= len,
            all_digits(s@.subrange(start as int, pos as int)),
            v as nat == dec_val(s@.subrange(start as int, pos as int)),
        decreases len - pos,
    {
        if pos == len {
            return finish_number(s, start, pos, v);
        }
        let c = s.get_char(pos);
        if (c as u32) < ('0' as u32) || (c as u32) > ('9' as u32) {
            return finish_number(s, start, pos, v);
        }
        let d = ((c as u32) - ('0' as u32)) as u64;
        let ghost sub = s@.subrange(start as int, pos as int);
        let ghost sub2 = s@.subrange(start as int, pos + 1);
        proof {
            assert(sub2.drop_last() =~= sub);
            assert(sub2.last() == s@[pos as int]);
            assert(digit_val(c) == d);
            assert(dec_val(sub2) == dec_val(sub) * 10 + d);
        }
        let stepped = match v.checked_mul(10) {
            Some(x) => x.checked_add(d),
            None => None,
        };
        v = match stepped {
            Some(x) => x,
            None => {
                // The value no longer fits, so no machine-word value renders
                // to a digit run that long.
                proof {
                    assert forall|w: u64, end: int|
                        #![trigger s@.subrange(start as int, end), dec_chars(w as nat)]
                        !(start <= end <= s@.len() && s@.subrange(start as int, end) == dec_chars(
                            w as nat,
                        ) && (end == s@.len() || !is_digit(s@[end]))) by {
                        if start <= end <= s@.len() && s@.subrange(start as int, end) == dec_chars(
                            w as nat,
                        ) && (end == s@.len() || !is_digit(s@[end])) {
                            lemma_dec_chars_val(w as nat);
                            let d_all = dec_chars(w as nat);
                            if end <= pos {
                                if end < s@.len() {
                                    assert(s@[end] == s@.subrange(start as int, pos + 1)[end
                                        - start]);
                                    assert(is_digit(s@[end]));
                                }
                                assert(end == s@.len());
                                assert(pos < s@.len());
                                assert(false);
                            }
                            assert(end >= pos + 1);
                            assert(sub2 =~= d_all.subrange(0, pos + 1 - start));
                            lemma_dec_val_prefix_le(d_all, pos + 1 - start);
                            assert(dec_val(sub2) <= w as nat);
                            assert(false);
                        }
                    }
                }
                return Err(SnapshotError::Invalid);
            },
        };
        pos = pos + 1;
    }
}

/// Finds the next line break at or after `start`: the first one on success,
/// and on failure there is none.
#[verifier::loop_isolation(false)]
fn scan_to_newline(s: &str, start: usize) -> (r: Result<usize, SnapshotError>)
    requires
        start <= s@.len(),
    ensures
        match r {
            Ok(end) => start <= end < s@.len() && s@[end as int] == '\n' && forall|k: int|
                start <= k < end ==> (#[trigger] s@[k]) != '\n',
            Err(_) => forall|k: int| start <= k < s@.len() ==> (#[trigger] s@[k]) != '\n',
        },
{
    let len = s.unicode_len();
    let mut pos = start;
    loop
        invariant
            start <= pos <= len,
            forall|k: int| start <= k < pos ==> (#[trigger] s@[k]) != '\n',
        decreases len - pos,
    {
        if pos == len {
            return Err(SnapshotError::Invalid);
        }
        let c = s.get_char(pos);
        if c == '\n' {
            return Ok(pos);
        }
        pos = pos + 1;
    }
}

/// Appending a fresh single-counter record appends its one line.
proof fn lemma_records_lines_push(c: Seq<PathRecord>, r: PathRecord)
    requires
        r.buckets@.len() == 1,
    ensures
        records_lines(c.push(r)) == records_lines(c) + line_of(
            r.buckets@[0].bucket,
            r.buckets@[0].count,
            r.path@,
        ),
{
    let c2 = c.push(r);
    assert(c2.drop_last() =~= c);
    assert(c2.last() == r);
    assert(r.buckets@.drop_last() =~= Seq::<BucketCount>::empty());
    assert(r.buckets@.last() == r.buckets@[0]);
    assert(buckets_lines(r.path@, r.buckets@) == buckets_lines(r.path@, r.buckets@.drop_last())
        + line_of(r.buckets@[0].bucket, r.buckets@[0].count, r.path@));
    assert(buckets_lines(r.path@, Seq::<BucketCount>::empty()) == Seq::<char>::empty());
    assert(Seq::<char>::empty() + line_of(r.buckets@[0].bucket, r.buckets@[0].count, r.path@)
        =~= line_of(r.buckets@[0].bucket, r.buckets@[0].count, r.path@));
}

/// Appending one counter to the last record appends its one line.
proof fn lemma_records_lines_extend(c: Seq<PathRecord>, r2: PathRecord, e: BucketCount)
    requires
        c.len() > 0,
        r2.path@ == c.last().path@,
        r2.buckets@ == c.last().buckets@.push(e),
    ensures
        records_lines(c.update(c.len() - 1, r2)) == records_lines(c) + line_of(
            e.bucket,
            e.count,
            r2.path@,
        ),
{
    let c2 = c.update(c.len() - 1, r2);
    assert(c2.drop_last() =~= c.drop_last());
    assert(c2.last() == r2);
    assert(r2.buckets@.drop_last() =~= c.last().buckets@);
    assert(r2.buckets@.last() == e);
    assert(buckets_lines(r2.path@, r2.buckets@) == buckets_lines(r2.path@, c.last().buckets@)
        + line_of(e.bucket, e.count, r2.path@));
    assert(records_lines(c2) == records_lines(c.drop_last()) + (buckets_lines(
        r2.path@,
        c.last().buckets@,
    ) + line_of(e.bucket, e.count, r2.path@)));
    assert(records_lines(c.drop_last()) + (buckets_lines(r2.path@, c.last().buckets@) + line_of(
        e.bucket,
        e.count,
        r2.path@,
    )) =~= (records_lines(c.drop_last()) + buckets_lines(c.last().path@, c.last().buckets@))
        + line_of(e.bucket, e.count, r2.path@));
}

/// Whether the canonical order admits appending a counter for `path` at
/// `bucket`: a fresh table, a path strictly above every stored one, or the
/// last path again with a strictly later bucket and room in its total.
pub open spec fn append_admissible(
    c0: Seq<PathRecord>,
    path: Seq<char>,
    bucket: u64,
    count: usize,
) -> bool {
    ||| c0.len() == 0
    ||| seq_lt(c0.last().path@, path)
    ||| (c0.last().path@ == path && c0.last().buckets@.len() > 0
        && c0.last().buckets@.last().bucket < bucket && c0.last().total + count <= usize::MAX)
}

impl Flamegraph {
    /// Appends one parsed counter, accepting it exactly where the canonical
    /// order admits it: a path strictly above every stored one opens a new
    /// record, the last path takes a strictly later bucket with room in its
    /// total, and anything else is rejected.
    #[verifier::loop_isolation(false)]
    #[verifier::rlimit(100)]
    #[verifier::spinoff_prover]
    fn append_canonical(&mut self, path: String, bucket: u64, count: usize) -> (r: Result<
        (),
        SnapshotError,
    >)
        requires
            old(self).wf(),
            count >= 1,
        ensures
            r is Ok <==> append_admissible(old(self).counts@, path@, bucket, count),
            r is Ok ==> final(self).wf() && final(self).show_linenumbers == old(
                self,
            ).show_linenumbers && records_lines(final(self).counts@) == records_lines(
                old(self).counts@,
            ) + line_of(bucket, count, path@),
            r is Ok ==> ({
                let c0 = old(self).counts@;
                let c1 = final(self).counts@;
                if c0.len() > 0 && c0.last().path@ == path@ {
                    &&& c1.len() == c0.len()
                    &&& forall|i: int| 0 <= i < c0.len() - 1 ==> (#[trigger] c1[i]) == c0[i]
                    &&& c1.last().path@ == path@
                    &&& c1.last().buckets@ == c0.last().buckets@.push(
                        BucketCount { bucket, count },
                    )
                    &&& c1.last().total == c0.last().total + count
                } else {
                    &&& c1.len() == c0.len() + 1
                    &&& forall|i: int| 0 <= i < c0.len() ==> (#[trigger] c1[i]) == c0[i]
                    &&& c1.last().path@ == path@
                    &&& c1.last().buckets@ == seq![BucketCount { bucket, count }]
                    &&& c1.last().total == count
                }
            }),
    {
        let ghost c0 = self.counts@;
        let n = self.counts.len();
        if n == 0 {
            let rec = PathRecord {
                path,
                total: count,
                buckets: vec![BucketCount { bucket, count }],
            };
            proof {
                assert(rec.buckets@ =~= seq![BucketCount { bucket, count }]);
                assert(rec.buckets@.drop_last() =~= Seq::<BucketCount>::empty());
                assert(sum_counts(Seq::<BucketCount>::empty()) == 0);
                assert(rec.buckets@.last() == BucketCount { bucket, count });
                assert(rec.wf());
                lemma_records_lines_push(c0, rec);
                assert(c0.push(rec)[0] == rec);
            }
            self.counts.push(rec);
            proof {
                assert(self.counts@ =~= c0.push(rec));
            }
            return Ok(());
        }
        let order = str_compare(path.as_str(), self.counts[n - 1].path.as_str());
        match order {
            StrOrder::Greater => {
                let rec = PathRecord {
                    path,
                    total: count,
                    buckets: vec![BucketCount { bucket, count }],
                };
                proof {
                    assert(rec.buckets@ =~= seq![BucketCount { bucket, count }]);
                    assert(rec.buckets@.drop_last() =~= Seq::<BucketCount>::empty());
                    assert(sum_counts(Seq::<BucketCount>::empty()) == 0);
                    assert(rec.buckets@.last() == BucketCount { bucket, count });
                    assert(rec.wf());
                    lemma_records_lines_push(c0, rec);
                }
                self.counts.push(rec);
                proof {
                    assert(self.counts@ =~= c0.push(rec));
                    let c2 = self.counts@;
                    assert forall|i: int, j: int| 0 <= i < j < c2.len() implies seq_lt(
                        #[trigger] c2[i].path@,
                        #[trigger] c2[j].path@,
                    ) by {
                        if j == c2.len() - 1 {
                            assert(c2[i] == c0[i]);
                            if i < c0.len() - 1 {
                                assert(seq_lt(c0[i].path@, c0[c0.len() - 1].path@));
                            }
                            if i != c0.len() - 1 {
                                lemma_seq_lt_trans(
                                    c2[i].path@,
                                    c0[c0.len() - 1].path@,
                                    rec.path@,
                                );
                            }
                        }
                    }
                    assert(forall|i: int|
                        0 <= i < c2.len() ==> (#[trigger] c2[i]).wf());
                }
                Ok(())
            },
            StrOrder::Equal => {
                let ghost last0 = c0.last();
                let mut rec = self.counts.remove(n - 1);
                let ghost b0 = rec.buckets@;
                let blen = rec.buckets.len();
                proof {
                    assert(c0[n - 1].wf());
                }
                if rec.buckets[blen - 1].bucket >= bucket {
                    self.counts.insert(n - 1, rec);
                    proof {
                        assert(!append_admissible(c0, path@, bucket, count)) by {
                            if seq_lt(last0.path@, path@) {
                                lemma_seq_lt_total(last0.path@, path@);
                            }
                        }
                    }
                    return Err(SnapshotError::Invalid);
                }
                let total = match rec.total.checked_add(count) {
                    Some(t) => t,
                    None => {
                        self.counts.insert(n - 1, rec);
                        proof {
                            assert(!append_admissible(c0, path@, bucket, count)) by {
                                if seq_lt(last0.path@, path@) {
                                    lemma_seq_lt_total(last0.path@, path@);
                                }
                            }
                        }
                        return Err(SnapshotError::Invalid);
                    },
                };
                rec.total = total;
                let e = BucketCount { bucket, count };
                rec.buckets.push(e);
                proof {
                    assert(c0[c0.len() - 1].wf());
                    assert(rec.buckets@ == b0.push(e));
                    assert(rec.buckets@.drop_last() =~= b0);
                    assert(rec.buckets@.last() == e);
                    assert(sum_counts(rec.buckets@) == sum_counts(b0) + count);
                    assert forall|i: int, j: int|
                        0 <= i < j < rec.buckets@.len() implies (#[trigger] rec.buckets@[i].bucket)
                        < (#[trigger] rec.buckets@[j].bucket) by {
                        if j == rec.buckets@.len() - 1 {
                            if i < b0.len() - 1 {
                                assert(b0[i].bucket < b0[b0.len() - 1].bucket);
                            }
                        }
                    }
                    assert(rec.wf());
                    lemma_records_lines_extend(c0, rec, e);
                }
                self.counts.insert(n - 1, rec);
                proof {
                    assert(self.counts@ =~= c0.update(c0.len() - 1, rec));
                    let c2 = self.counts@;
                    assert(forall|i: int|
                        0 <= i < c2.len() - 1 ==> (#[trigger] c2[i]) == c0[i]);
                    assert(forall|i: int, j: int|
                        0 <= i < j < c2.len() ==> seq_lt(
                            (#[trigger] c2[i].path@),
                            (#[trigger] c2[j].path@),
                        ));
                    assert(forall|i: int| 0 <= i < c2.len() ==> (#[trigger] c2[i]).wf());
                }
                Ok(())
            },
            StrOrder::Less => {
                proof {
                    assert(!append_admissible(c0, path@, bucket, count)) by {
                        lemma_seq_lt_total(path@, c0.last().path@);
                    }
                }
                Err(SnapshotError::Invalid)
            },
        }
    }

    /// Reads an aggregator back from snapshot text: it succeeds on exactly
    /// the canonical texts. On success the result is well formed, all its
    /// paths are free of line breaks, and it serializes to exactly the given
    /// text — so by losslessness it carries exactly the counters of whatever
    /// aggregator the text was written from. Failure means no well-formed
    /// aggregator with schema-representable paths has this text as its
    /// snapshot.
    #[verifier::loop_isolation(false)]
    #[verifier::rlimit(100)]
    #[verifier::spinoff_prover]
    pub fn from_raw(s: &str) -> (r: Result<Flamegraph, SnapshotError>)
        ensures
            r matches Ok(fg) ==> fg.wf() && paths_nl_free(fg.counts@) && raw_form(fg) == s@,
            has_canonical_form(s@) ==> r is Ok,
    {
        proof {
            reveal_strlit("1\n");
            reveal_strlit("0\n");
            reveal_strlit(" ");
            reveal_strlit("\n");
        }
        let ghost hcf = has_canonical_form(s@);
        let ghost w: Flamegraph = if hcf {
            choose|fg: Flamegraph| #![auto] fg.wf() && paths_nl_free(fg.counts@) && raw_form(fg) == s@
        } else {
            arbitrary()
        };
        let ghost wc = w.counts@;
        proof {
            if hcf {
                assert(w.wf() && paths_nl_free(wc) && raw_form(w) == s@);
                assert(s@.len() >= 2);
                assert(s@[0] == if w.show_linenumbers { '1' } else { '0' });
                assert(s@[1] == '\n');
            }
        }
        let len = s.unicode_len();
        if len < 2 {
            return Err(SnapshotError::Invalid);
        }
        let c0 = s.get_char(0);
        let c1 = s.get_char(1);
        if c1 != '\n' {
            return Err(SnapshotError::Invalid);
        }
        let show = if c0 == '1' {
            true
        } else if c0 == '0' {
            false
        } else {
            return Err(SnapshotError::Invalid);
        };
        let ghost header: Seq<char> = if show { "1\n"@ } else { "0\n"@ };
        let mut fg = Flamegraph::new(show);
        let mut pos: usize = 2;
        let ghost mut ri: int = 0;
        let ghost mut bi: int = 0;
        proof {
            assert(s@.subrange(0, 2) =~= header);
            assert(records_lines(fg.counts@) =~= Seq::<char>::empty());
            assert(header + records_lines(fg.counts@) =~= s@.subrange(0, pos as int));
            if hcf {
                assert(w.show_linenumbers == show);
                assert(s@.skip(2) =~= records_lines(wc)) by {
                    assert(raw_form(w) == header + records_lines(wc));
                    assert(forall|i: int|
                        0 <= i < records_lines(wc).len() ==> (#[trigger] records_lines(wc)[i])
                            == (header + records_lines(wc))[2 + i]);
                }
                lemma_records_eq_rest(wc);
                if wc.len() > 0 {
                    assert(wc[0].wf());
                }
            }
        }
        loop
            invariant
                2 <= pos <= len,
                fg.wf(),
                paths_nl_free(fg.counts@),
                fg.show_linenumbers == show,
                header + records_lines(fg.counts@) == s@.subrange(0, pos as int),
                hcf ==> {
                    &&& 0 <= ri <= wc.len()
                    &&& (ri == wc.len() ==> bi == 0)
                    &&& (ri < wc.len() ==> 0 <= bi < wc[ri].buckets@.len())
                    &&& is_trunc(fg.counts@, wc, ri, bi)
                    &&& s@.skip(pos as int) == rest_lines(wc, ri, bi)
                },
            decreases len - pos,
        {
            if pos == len {
                break;
            }
            let ghost (bk, ck, pk): (u64, usize, Seq<char>) = if hcf && ri < wc.len() {
                (wc[ri].buckets@[bi].bucket, wc[ri].buckets@[bi].count, wc[ri].path@)
            } else {
                arbitrary()
            };
            let ghost e1 = pos + dec_chars(bk as nat).len();
            let ghost e2 = e1 + 1 + dec_chars(ck as nat).len();
            let ghost e3 = e2 + 1 + pk.len();
            proof {
                if hcf {
                    if ri == wc.len() {
                        assert(rest_lines(wc, ri, bi) == Seq::<char>::empty());
                        assert(s@.skip(pos as int).len() == 0);
                        assert(false);
                    }
                    assert(wc[ri].wf());
                    assert(nl_free(wc[ri].path@));
                    lemma_rest_lines_step(wc, ri, bi);
                    lemma_line_at(s@, pos as int, bk, ck, pk, rest_lines(wc, ri, bi + 1));
                    lemma_dec_chars_val(bk as nat);
                    lemma_dec_chars_val(ck as nat);
                    assert(!is_digit(' '));
                    assert(!is_digit('\n'));
                }
            }
            let (bucket, p1) = match scan_number(s, pos) {
                Ok(x) => x,
                Err(e) => {
                    proof {
                        if hcf {
                            assert(s@.subrange(pos as int, e1) == dec_chars(bk as nat));
                            assert(false);
                        }
                    }
                    return Err(e);
                },
            };
            proof {
                if hcf {
                    // The scan reads to the first non-digit, so it reads
                    // exactly the bucket field.
                    lemma_scan_aligned(s@, pos as int, e1, bk, bucket, p1 as int);
                }
            }
            if p1 == len || s.get_char(p1) != ' ' {
                return Err(SnapshotError::Invalid);
            }
            let (count64, p2) = match scan_number(s, p1 + 1) {
                Ok(x) => x,
                Err(e) => {
                    proof {
                        if hcf {
                            assert(s@.subrange(e1 + 1, e2) == dec_chars(ck as nat));
                            assert(false);
                        }
                    }
                    return Err(e);
                },
            };
            proof {
                if hcf {
                    lemma_scan_aligned(s@, e1 + 1, e2, ck as u64, count64, p2 as int);
                    assert(count64 == ck as u64);
                }
            }
            if p2 == len || s.get_char(p2) != ' ' {
                return Err(SnapshotError::Invalid);
            }
            let path_start = p2 + 1;
            let line_end = match scan_to_newline(s, path_start) {
                Ok(x) => x,
                Err(e) => {
                    proof {
                        if hcf {
                            assert(s@[e3] == '\n');
                            assert(false);
                        }
                    }
                    return Err(e);
                },
            };
            proof {
                if hcf {
                    // The scan stops at the first line break, which ends
                    // this line's path field.
                    if line_end < e3 {
                        assert(s@[line_end as int] != '\n');
                        assert(false);
                    }
                    if line_end > e3 {
                        assert(s@[e3] != '\n');
                        assert(false);
                    }
                    assert(line_end == e3);
                }
            }
            if count64 == 0 || count64 > (usize::MAX as u64) {
                proof {
                    if hcf {
                        assert(buckets_positive(wc[ri].buckets@));
                        assert(ck >= 1);
                        assert(false);
                    }
                }
                return Err(SnapshotError::Invalid);
            }
            let count = count64 as usize;
            let path = s.substring_char(path_start, line_end).to_owned();
            let ghost pos0 = pos as int;
            let ghost fgc0 = fg.counts@;
            proof {
                if hcf {
                    assert(path@ == s@.subrange(e2 + 1, e3));
                    assert(path@ == pk);
                    assert(count == ck);
                    // The canonical order admits this counter.
                    lemma_trunc_admissible(fgc0, wc, ri, bi);
                }
            }
            match fg.append_canonical(path, bucket, count) {
                Ok(()) => {},
                Err(e) => {
                    return Err(e);
                },
            }
            pos = line_end + 1;
            proof {
                // The parsed path stops at the first line break, so every
                // stored path stays free of them.
                assert(nl_free(path@)) by {
                    assert(forall|k: int|
                        0 <= k < path@.len() ==> (#[trigger] path@[k]) == s@[path_start + k]);
                }
                lemma_paths_nl_free_append(fgc0, fg.counts@, path@);
                lemma_line_reassemble(
                    s@,
                    pos0,
                    p1 as int,
                    p2 as int,
                    line_end as int,
                    bucket,
                    count,
                );
                lemma_prefix_extend(s@, pos0, pos as int);
                assert((header + records_lines(fgc0)) + s@.subrange(pos0, pos as int) =~= header
                    + records_lines(fg.counts@));
                if hcf {
                    // The truncation of the witness advances one counter.
                    assert(wc[ri].buckets@[bi] == BucketCount { bucket, count });
                    lemma_trunc_step(fgc0, fg.counts@, wc, ri, bi);
                    assert(s@.skip(pos as int) == rest_lines(wc, ri, bi + 1));
                    if bi + 1 == wc[ri].buckets@.len() {
                        lemma_rest_lines_record_done(wc, ri);
                        ri = ri + 1;
                        bi = 0;
                        if ri < wc.len() {
                            assert(wc[ri].wf());
                        }
                    } else {
                        bi = bi + 1;
                    }
                }
            }
        }
        proof {
            assert(s@.subrange(0, len as int) =~= s@);
        }
        Ok(fg)
    }
}


/// The (bucket, count, path) content of one path's counters, in stored
/// order.
pub open spec fn bucket_triples(path: Seq<char>, b: Seq<BucketCount>) -> Seq<(u64, usize, Seq<char>)> {
    Seq::new(b.len(), |i: int| (b[i].bucket, b[i].count, path))
}

/// The (bucket, count, path) content of all records, in stored order: the
/// snapshot body is exactly one line per triple.
pub open spec fn triples(c: Seq<PathRecord>) -> Seq<(u64, usize, Seq<char>)>
    decreases c.len(),
{
    if c.len() == 0 {
        Seq::empty()
    } else {
        triples(c.drop_last()) + bucket_triples(c.last().path@, c.last().buckets@)
    }
}

/// The snapshot lines of a triple sequence.
pub open spec fn lines_cat(ts: Seq<(u64, usize, Seq<char>)>) -> Seq<char>
    decreases ts.len(),
{
    if ts.len() == 0 {
        Seq::empty()
    } else {
        line_of(ts[0].0, ts[0].1, ts[0].2) + lines_cat(ts.skip(1))
    }
}

/// Appending a triple appends its line.
proof fn lemma_lines_cat_push(ts: Seq<(u64, usize, Seq<char>)>, t: (u64, usize, Seq<char>))
    ensures
        lines_cat(ts.push(t)) == lines_cat(ts) + line_of(t.0, t.1, t.2),
    decreases ts.len(),
{
    let ts2 = ts.push(t);
    if ts.len() == 0 {
        assert(ts2.skip(1) =~= Seq::<(u64, usize, Seq<char>)>::empty());
        assert(ts2[0] == t);
        assert(lines_cat(Seq::<(u64, usize, Seq<char>)>::empty()) == Seq::<char>::empty());
        assert(lines_cat(ts2) == line_of(t.0, t.1, t.2) + lines_cat(ts2.skip(1)));
        assert(line_of(t.0, t.1, t.2) + Seq::<char>::empty() =~= line_of(t.0, t.1, t.2));
        assert(Seq::<char>::empty() + line_of(t.0, t.1, t.2) =~= line_of(t.0, t.1, t.2));
    } else {
        assert(ts2.skip(1) =~= ts.skip(1).push(t));
        assert(ts2[0] == ts[0]);
        lemma_lines_cat_push(ts.skip(1), t);
        assert(line_of(ts[0].0, ts[0].1, ts[0].2) + (lines_cat(ts.skip(1)) + line_of(
            t.0,
            t.1,
            t.2,
        )) =~= (line_of(ts[0].0, ts[0].1, ts[0].2) + lines_cat(ts.skip(1))) + line_of(
            t.0,
            t.1,
            t.2,
        ));
    }
}

/// The lines of a concatenation are the concatenated lines.
proof fn lemma_lines_cat_concat(t1: Seq<(u64, usize, Seq<char>)>, t2: Seq<(u64, usize, Seq<char>)>)
    ensures
        lines_cat(t1 + t2) == lines_cat(t1) + lines_cat(t2),
    decreases t1.len(),
{
    if t1.len() == 0 {
        assert(t1 + t2 =~= t2);
        assert(Seq::<char>::empty() + lines_cat(t2) =~= lines_cat(t2));
    } else {
        assert((t1 + t2).skip(1) =~= t1.skip(1) + t2);
        assert((t1 + t2)[0] == t1[0]);
        lemma_lines_cat_concat(t1.skip(1), t2);
        assert(line_of(t1[0].0, t1[0].1, t1[0].2) + (lines_cat(t1.skip(1)) + lines_cat(t2)) =~= (
        line_of(t1[0].0, t1[0].1, t1[0].2) + lines_cat(t1.skip(1))) + lines_cat(t2));
    }
}

/// One path's snapshot lines are the lines of its triples.
proof fn lemma_buckets_lines_cat(path: Seq<char>, b: Seq<BucketCount>)
    ensures
        buckets_lines(path, b) == lines_cat(bucket_triples(path, b)),
    decreases b.len(),
{
    if b.len() == 0 {
        assert(bucket_triples(path, b) =~= Seq::<(u64, usize, Seq<char>)>::empty());
    } else {
        lemma_buckets_lines_cat(path, b.drop_last());
        assert(bucket_triples(path, b) =~= bucket_triples(path, b.drop_last()).push(
            (b.last().bucket, b.last().count, path),
        ));
        lemma_lines_cat_push(
            bucket_triples(path, b.drop_last()),
            (b.last().bucket, b.last().count, path),
        );
    }
}

/// The snapshot body is the lines of the records' triples.
proof fn lemma_records_lines_cat(c: Seq<PathRecord>)
    ensures
        records_lines(c) == lines_cat(triples(c)),
    decreases c.len(),
{
    if c.len() > 0 {
        lemma_records_lines_cat(c.drop_last());
        lemma_buckets_lines_cat(c.last().path@, c.last().buckets@);
        lemma_lines_cat_concat(
            triples(c.drop_last()),
            bucket_triples(c.last().path@, c.last().buckets@),
        );
    }
}

/// Equal sequences with an equal prefix have equal remainders.
proof fn lemma_concat_cancel_left(x: Seq<char>, y: Seq<char>, z: Seq<char>)
    requires
        x + y == x + z,
    ensures
        y == z,
{
    assert((x + y).len() == x.len() + y.len());
    assert((x + z).len() == x.len() + z.len());
    assert(y.len() == z.len());
    assert forall|i: int| 0 <= i < y.len() implies y[i] == z[i] by {
        assert((x + y)[x.len() + i] == y[i]);
        assert((x + z)[x.len() + i] == z[i]);
    }
    assert(y =~= z);
}


/// `p` holds no line break.
pub open spec fn nl_free(p: Seq<char>) -> bool {
    forall|k: int| 0 <= k < p.len() ==> (#[trigger] p[k]) != '\n'
}

/// Two decompositions of one sequence at the first occurrence of the same
/// delimiter agree.
proof fn lemma_split_at_delim(
    s: Seq<char>,
    x1: Seq<char>,
    y1: Seq<char>,
    x2: Seq<char>,
    y2: Seq<char>,
    d: char,
)
    requires
        s == (x1 + seq![d]) + y1,
        s == (x2 + seq![d]) + y2,
        forall|k: int| 0 <= k < x1.len() ==> (#[trigger] x1[k]) != d,
        forall|k: int| 0 <= k < x2.len() ==> (#[trigger] x2[k]) != d,
    ensures
        x1 == x2,
        y1 == y2,
{
    assert(s.len() == x1.len() + 1 + y1.len());
    assert(s.len() == x2.len() + 1 + y2.len());
    assert(s[x1.len() as int] == d);
    assert(s[x2.len() as int] == d);
    if x1.len() < x2.len() {
        assert(s[x1.len() as int] == x2[x1.len() as int]);
        assert(false);
    }
    if x2.len() < x1.len() {
        assert(s[x2.len() as int] == x1[x2.len() as int]);
        assert(false);
    }
    assert(x1 =~= x2) by {
        assert(forall|k: int| 0 <= k < x1.len() ==> (#[trigger] x1[k]) == s[k] && (
        #[trigger] x2[k]) == s[k]);
    }
    assert(y1 =~= y2) by {
        assert(forall|k: int|
            0 <= k < y1.len() ==> (#[trigger] y1[k]) == s[x1.len() + 1 + k] && (#[trigger] y2[k])
                == s[x2.len() + 1 + k]);
    }
}

/// The shape of one snapshot line: everything before the final line break,
/// and nothing in it is a line break when the path holds none.
proof fn lemma_line_shape(b: u64, c: usize, p: Seq<char>)
    requires
        nl_free(p),
    ensures
        ({
            let x = dec_chars(b as nat) + " "@ + dec_chars(c as nat) + " "@ + p;
            &&& line_of(b, c, p) == x + seq!['\n']
            &&& forall|k: int| 0 <= k < x.len() ==> (#[trigger] x[k]) != '\n'
        }),
{
    reveal_strlit(" ");
    reveal_strlit("\n");
    lemma_dec_chars_val(b as nat);
    lemma_dec_chars_val(c as nat);
    let a1 = dec_chars(b as nat);
    let a2 = a1 + " "@;
    let a3 = a2 + dec_chars(c as nat);
    let a4 = a3 + " "@;
    let x = a4 + p;
    assert("\n"@ =~= seq!['\n']);
    assert(" "@ =~= seq![' ']);
    assert(line_of(b, c, p) == x + seq!['\n']);
    assert forall|k: int| 0 <= k < x.len() implies (#[trigger] x[k]) != '\n' by {
        if k < a1.len() {
            assert(x[k] == a1[k]);
            assert(is_digit(a1[k]));
        } else if k < a2.len() {
            assert(x[k] == a2[k]);
            assert(a2[k] == " "@[k - a1.len()]);
        } else if k < a3.len() {
            assert(x[k] == a3[k]);
            assert(a3[k] == dec_chars(c as nat)[k - a2.len()]);
            assert(is_digit(dec_chars(c as nat)[k - a2.len()]));
        } else if k < a4.len() {
            assert(x[k] == a4[k]);
            assert(a4[k] == " "@[k - a3.len()]);
        } else {
            assert(x[k] == p[k - a4.len()]);
        }
    }
}

/// Digits contain no blank.
proof fn lemma_digits_not_space(d: Seq<char>)
    requires
        all_digits(d),
    ensures
        forall|k: int| 0 <= k < d.len() ==> (#[trigger] d[k]) != ' ',
{
    assert forall|k: int| 0 <= k < d.len() implies (#[trigger] d[k]) != ' ' by {
        assert(is_digit(d[k]));
    }
}

/// Two equal streams that both start with a snapshot line carry the same
/// line and the same remainder.
proof fn lemma_line_peel(
    b1: u64,
    c1: usize,
    p1: Seq<char>,
    r1: Seq<char>,
    b2: u64,
    c2: usize,
    p2: Seq<char>,
    r2: Seq<char>,
)
    requires
        line_of(b1, c1, p1) + r1 == line_of(b2, c2, p2) + r2,
        nl_free(p1),
        nl_free(p2),
    ensures
        b1 == b2,
        c1 == c2,
        p1 == p2,
        r1 == r2,
{
    reveal_strlit(" ");
    reveal_strlit("\n");
    lemma_line_shape(b1, c1, p1);
    lemma_line_shape(b2, c2, p2);
    lemma_dec_chars_val(b1 as nat);
    lemma_dec_chars_val(b2 as nat);
    lemma_dec_chars_val(c1 as nat);
    lemma_dec_chars_val(c2 as nat);
    let x1 = dec_chars(b1 as nat) + " "@ + dec_chars(c1 as nat) + " "@ + p1;
    let x2 = dec_chars(b2 as nat) + " "@ + dec_chars(c2 as nat) + " "@ + p2;
    let s = line_of(b1, c1, p1) + r1;
    assert(s == (x1 + seq!['\n']) + r1);
    assert(s == (x2 + seq!['\n']) + r2);
    lemma_split_at_delim(s, x1, r1, x2, r2, '\n');
    // Peel the bucket field at the first blank.
    let y1 = dec_chars(c1 as nat) + " "@ + p1;
    let y2 = dec_chars(c2 as nat) + " "@ + p2;
    assert(x1 =~= (dec_chars(b1 as nat) + seq![' ']) + y1);
    assert(x2 =~= (dec_chars(b2 as nat) + seq![' ']) + y2);
    lemma_digits_not_space(dec_chars(b1 as nat));
    lemma_digits_not_space(dec_chars(b2 as nat));
    lemma_split_at_delim(x1, dec_chars(b1 as nat), y1, dec_chars(b2 as nat), y2, ' ');
    lemma_dec_chars_injective(b1 as nat, b2 as nat);
    // Peel the count field at the next blank.
    assert(y1 =~= (dec_chars(c1 as nat) + seq![' ']) + p1);
    assert(y2 =~= (dec_chars(c2 as nat) + seq![' ']) + p2);
    lemma_digits_not_space(dec_chars(c1 as nat));
    lemma_digits_not_space(dec_chars(c2 as nat));
    lemma_split_at_delim(y1, dec_chars(c1 as nat), p1, dec_chars(c2 as nat), p2, ' ');
    lemma_dec_chars_injective(c1 as nat, c2 as nat);
}

/// Every triple's path holds no line break.
pub open spec fn triples_nl_free(ts: Seq<(u64, usize, Seq<char>)>) -> bool {
    forall|i: int| 0 <= i < ts.len() ==> nl_free((#[trigger] ts[i]).2)
}

/// Triple sequences with equal snapshot lines are equal.
proof fn lemma_lines_cat_inj(t1: Seq<(u64, usize, Seq<char>)>, t2: Seq<(u64, usize, Seq<char>)>)
    requires
        lines_cat(t1) == lines_cat(t2),
        triples_nl_free(t1),
        triples_nl_free(t2),
    ensures
        t1 == t2,
    decreases t1.len(),
{
    if t1.len() == 0 && t2.len() == 0 {
        assert(t1 =~= t2);
    } else if t1.len() == 0 {
        lemma_dec_chars_val(t2[0].0 as nat);
        assert(lines_cat(t2).len() >= line_of(t2[0].0, t2[0].1, t2[0].2).len());
        assert(false);
    } else if t2.len() == 0 {
        lemma_dec_chars_val(t1[0].0 as nat);
        assert(lines_cat(t1).len() >= line_of(t1[0].0, t1[0].1, t1[0].2).len());
        assert(false);
    } else {
        assert(nl_free(t1[0].2));
        assert(nl_free(t2[0].2));
        lemma_line_peel(
            t1[0].0,
            t1[0].1,
            t1[0].2,
            lines_cat(t1.skip(1)),
            t2[0].0,
            t2[0].1,
            t2[0].2,
            lines_cat(t2.skip(1)),
        );
        assert(triples_nl_free(t1.skip(1))) by {
            assert(forall|i: int|
                0 <= i < t1.skip(1).len() ==> (#[trigger] t1.skip(1)[i]) == t1[i + 1]);
        }
        assert(triples_nl_free(t2.skip(1))) by {
            assert(forall|i: int|
                0 <= i < t2.skip(1).len() ==> (#[trigger] t2.skip(1)[i]) == t2[i + 1]);
        }
        lemma_lines_cat_inj(t1.skip(1), t2.skip(1));
        assert(t1[0] == (t1[0].0, t1[0].1, t1[0].2));
        assert(t2[0] == (t2[0].0, t2[0].1, t2[0].2));
        assert(t1 =~= t2) by {
            assert(forall|i: int| 1 <= i < t1.len() ==> (#[trigger] t1[i]) == t1.skip(1)[i - 1]);
            assert(forall|i: int| 1 <= i < t2.len() ==> (#[trigger] t2[i]) == t2.skip(1)[i - 1]);
        }
    }
}


/// How the triples of a non-empty record sequence decompose: the preceding
/// records' triples, then one triple per counter of the last record.
proof fn lemma_triples_decomp(c: Seq<PathRecord>)
    requires
        c.len() > 0,
    ensures
        triples(c).len() == triples(c.drop_last()).len() + c.last().buckets@.len(),
        forall|i: int|
            0 <= i < triples(c.drop_last()).len() ==> (#[trigger] triples(c)[i]) == triples(
                c.drop_last(),
            )[i],
        forall|j: int|
            0 <= j < c.last().buckets@.len() ==> (#[trigger] triples(c)[triples(
                c.drop_last(),
            ).len() + j]) == (c.last().buckets@[j].bucket, c.last().buckets@[j].count, c.last().path@),
{
    let bt = bucket_triples(c.last().path@, c.last().buckets@);
    assert(triples(c) == triples(c.drop_last()) + bt);
    assert(forall|j: int| 0 <= j < bt.len() ==> (#[trigger] bt[j]) == (
        c.last().buckets@[j].bucket,
        c.last().buckets@[j].count,
        c.last().path@,
    ));
}

/// Every triple of records with break-free paths has a break-free path.
proof fn lemma_triples_nl_free(c: Seq<PathRecord>)
    requires
        forall|i: int| 0 <= i < c.len() ==> nl_free((#[trigger] c[i].path@)),
    ensures
        triples_nl_free(triples(c)),
    decreases c.len(),
{
    if c.len() > 0 {
        assert forall|i: int| 0 <= i < c.drop_last().len() implies nl_free(
            (#[trigger] c.drop_last()[i].path@),
        ) by {
            assert(c.drop_last()[i] == c[i]);
            assert(nl_free(c[i].path@));
        }
        lemma_triples_nl_free(c.drop_last());
        lemma_triples_decomp(c);
        assert(nl_free(c[c.len() - 1].path@));
        assert forall|i: int| 0 <= i < triples(c).len() implies nl_free(
            (#[trigger] triples(c)[i]).2,
        ) by {
            if i < triples(c.drop_last()).len() {
                assert(triples(c)[i] == triples(c.drop_last())[i]);
            } else {
                assert(triples(c)[i] == (
                    c.last().buckets@[i - triples(c.drop_last()).len()].bucket,
                    c.last().buckets@[i - triples(c.drop_last()).len()].count,
                    c.last().path@,
                ));
            }
        }
    }
}

/// Well-formed, path-sorted record sequences with the same triples hold the
/// same records.
proof fn lemma_triples_determine(ca: Seq<PathRecord>, cb: Seq<PathRecord>)
    requires
        paths_sorted(ca),
        forall|i: int| 0 <= i < ca.len() ==> (#[trigger] ca[i]).wf(),
        paths_sorted(cb),
        forall|i: int| 0 <= i < cb.len() ==> (#[trigger] cb[i]).wf(),
        triples(ca) == triples(cb),
    ensures
        ca.len() == cb.len(),
        forall|i: int|
            0 <= i < ca.len() ==> (#[trigger] ca[i]).path@ == cb[i].path@ && ca[i].buckets@
                == cb[i].buckets@ && ca[i].total == cb[i].total,
    decreases ca.len(),
{
    let ta = triples(ca);
    let tb = triples(cb);
    if ca.len() == 0 && cb.len() == 0 {
    } else if ca.len() == 0 {
        assert(cb[cb.len() - 1].wf());
        lemma_triples_decomp(cb);
        assert(ta.len() == 0);
        assert(false);
    } else if cb.len() == 0 {
        assert(ca[ca.len() - 1].wf());
        lemma_triples_decomp(ca);
        assert(false);
    } else {
        let ra = ca.last();
        let rb = cb.last();
        let da = ca.drop_last();
        let db = cb.drop_last();
        assert(ca[ca.len() - 1].wf());
        assert(cb[cb.len() - 1].wf());
        lemma_triples_decomp(ca);
        lemma_triples_decomp(cb);
        let ka = ra.buckets@.len() as int;
        let kb = rb.buckets@.len() as int;
        let la = triples(da).len() as int;
        let lb = triples(db).len() as int;
        // The very last triples carry the last records' paths, so those are
        // equal.
        assert(ta[la + ka - 1] == (ra.buckets@[ka - 1].bucket, ra.buckets@[ka - 1].count, ra.path@));
        assert(tb[lb + kb - 1] == (rb.buckets@[kb - 1].bucket, rb.buckets@[kb - 1].count, rb.path@));
        assert(ra.path@ == rb.path@);
        // The last records hold equally many counters: otherwise one side's
        // preceding record would have to share the last path, against the
        // strict path order.
        if ka < kb {
            let i0 = ta.len() - 1 - ka;
            assert(la >= 1);
            assert(da.len() >= 1) by {
                if da.len() == 0 {
                    assert(triples(da).len() == 0);
                }
            }
            assert(da[da.len() - 1].wf()) by {
                assert(ca[ca.len() - 2].wf());
                assert(da[da.len() - 1] == ca[ca.len() - 2]);
            }
            lemma_triples_decomp(da);
            let kd = da.last().buckets@.len() as int;
            let ld = triples(da.drop_last()).len() as int;
            assert(ta[i0] == triples(da)[la - 1]);
            assert(triples(da)[ld + kd - 1] == (
                da.last().buckets@[kd - 1].bucket,
                da.last().buckets@[kd - 1].count,
                da.last().path@,
            ));
            assert(ta[i0].2 == da.last().path@);
            assert(seq_lt(da.last().path@, ra.path@)) by {
                assert(seq_lt(ca[ca.len() - 2].path@, ca[ca.len() - 1].path@));
            }
            lemma_seq_lt_total(da.last().path@, ra.path@);
            assert(tb[i0] == (
                rb.buckets@[i0 - lb].bucket,
                rb.buckets@[i0 - lb].count,
                rb.path@,
            ));
            assert(false);
        }
        if kb < ka {
            let i0 = tb.len() - 1 - kb;
            assert(lb >= 1);
            assert(db.len() >= 1) by {
                if db.len() == 0 {
                    assert(triples(db).len() == 0);
                }
            }
            assert(db[db.len() - 1].wf()) by {
                assert(cb[cb.len() - 2].wf());
                assert(db[db.len() - 1] == cb[cb.len() - 2]);
            }
            lemma_triples_decomp(db);
            let kd = db.last().buckets@.len() as int;
            let ld = triples(db.drop_last()).len() as int;
            assert(tb[i0] == triples(db)[lb - 1]);
            assert(triples(db)[ld + kd - 1] == (
                db.last().buckets@[kd - 1].bucket,
                db.last().buckets@[kd - 1].count,
                db.last().path@,
            ));
            assert(tb[i0].2 == db.last().path@);
            assert(seq_lt(db.last().path@, rb.path@)) by {
                assert(seq_lt(cb[cb.len() - 2].path@, cb[cb.len() - 1].path@));
            }
            lemma_seq_lt_total(db.last().path@, rb.path@);
            assert(ta[i0] == (
                ra.buckets@[i0 - la].bucket,
                ra.buckets@[i0 - la].count,
                ra.path@,
            ));
            assert(false);
        }
        assert(ka == kb);
        assert(la == lb);
        // The last records agree counter by counter, and the remaining
        // triples coincide, so induction finishes the rest.
        assert(ra.buckets@ =~= rb.buckets@) by {
            assert forall|j: int| 0 <= j < ka implies ra.buckets@[j] == rb.buckets@[j] by {
                assert(ta[la + j] == (ra.buckets@[j].bucket, ra.buckets@[j].count, ra.path@));
                assert(tb[lb + j] == (rb.buckets@[j].bucket, rb.buckets@[j].count, rb.path@));
                assert(ra.buckets@[j].bucket == rb.buckets@[j].bucket);
                assert(ra.buckets@[j].count == rb.buckets@[j].count);
                let x = ra.buckets@[j];
                let y = rb.buckets@[j];
                assert(x == BucketCount { bucket: x.bucket, count: x.count });
                assert(y == BucketCount { bucket: y.bucket, count: y.count });
            }
        }
        assert(ra.total == rb.total);
        assert(triples(da) =~= triples(db)) by {
            assert(forall|i: int| 0 <= i < la ==> (#[trigger] triples(da)[i]) == ta[i]);
            assert(forall|i: int| 0 <= i < lb ==> (#[trigger] triples(db)[i]) == tb[i]);
        }
        assert(forall|i: int| 0 <= i < da.len() ==> (#[trigger] da[i]) == ca[i]);
        assert(forall|i: int| 0 <= i < db.len() ==> (#[trigger] db[i]) == cb[i]);
        assert(forall|i: int| 0 <= i < da.len() ==> (#[trigger] da[i]).wf());
        assert(forall|i: int| 0 <= i < db.len() ==> (#[trigger] db[i]).wf());
        assert(paths_sorted(da)) by {
            assert forall|i: int, j: int| 0 <= i < j < da.len() implies seq_lt(
                #[trigger] da[i].path@,
                #[trigger] da[j].path@,
            ) by {
                assert(da[i] == ca[i]);
                assert(da[j] == ca[j]);
                assert(seq_lt(ca[i].path@, ca[j].path@));
            }
        }
        assert(paths_sorted(db)) by {
            assert forall|i: int, j: int| 0 <= i < j < db.len() implies seq_lt(
                #[trigger] db[i].path@,
                #[trigger] db[j].path@,
            ) by {
                assert(db[i] == cb[i]);
                assert(db[j] == cb[j]);
                assert(seq_lt(cb[i].path@, cb[j].path@));
            }
        }
        lemma_triples_determine(da, db);
        assert forall|i: int| 0 <= i < ca.len() implies (#[trigger] ca[i]).path@ == cb[i].path@
            && ca[i].buckets@ == cb[i].buckets@ && ca[i].total == cb[i].total by {
            if i < ca.len() - 1 {
                assert(da[i].path@ == db[i].path@ && da[i].buckets@ == db[i].buckets@ && da[i].total
                    == db[i].total);
            }
        }
    }
}

/// The raw snapshot is lossless: well-formed aggregators with the same
/// snapshot text carry the same display flag and exactly the same counters,
/// path for path and bucket for bucket — so a successfully reloaded snapshot
/// filters identically to the aggregator it was written from, over every
/// time window. This holds for folded paths free of line breaks, the only
/// paths the line-oriented schema can carry.
pub proof fn lemma_raw_form_lossless(a: Flamegraph, b: Flamegraph)
    requires
        a.wf(),
        b.wf(),
        forall|i: int| 0 <= i < a.counts@.len() ==> nl_free((#[trigger] a.counts@[i]).path@),
        forall|i: int| 0 <= i < b.counts@.len() ==> nl_free((#[trigger] b.counts@[i]).path@),
        raw_form(a) == raw_form(b),
    ensures
        a.show_linenumbers == b.show_linenumbers,
        a.counts@.len() == b.counts@.len(),
        forall|i: int|
            0 <= i < a.counts@.len() ==> (#[trigger] a.counts@[i]).path@ == b.counts@[i].path@
                && a.counts@[i].buckets@ == b.counts@[i].buckets@ && a.counts@[i].total
                == b.counts@[i].total,
        forall|p: Seq<char>|
            #[trigger] lookup_buckets(a.counts@, p) == lookup_buckets(b.counts@, p),
{
    reveal_strlit("1\n");
    reveal_strlit("0\n");
    let ha: Seq<char> = if a.show_linenumbers { "1\n"@ } else { "0\n"@ };
    let hb: Seq<char> = if b.show_linenumbers { "1\n"@ } else { "0\n"@ };
    assert(raw_form(a)[0] == ha[0]);
    assert(raw_form(b)[0] == hb[0]);
    if a.show_linenumbers != b.show_linenumbers {
        assert(false);
    }
    lemma_concat_cancel_left(ha, records_lines(a.counts@), records_lines(b.counts@));
    lemma_records_lines_cat(a.counts@);
    lemma_records_lines_cat(b.counts@);
    lemma_triples_nl_free(a.counts@);
    lemma_triples_nl_free(b.counts@);
    lemma_lines_cat_inj(triples(a.counts@), triples(b.counts@));
    lemma_triples_determine(a.counts@, b.counts@);
    assert forall|p: Seq<char>| #[trigger] lookup_buckets(a.counts@, p) == lookup_buckets(
        b.counts@,
        p,
    ) by {
        if has_path(a.counts@, p) {
            let i = path_index(a.counts@, p);
            assert(a.counts@[i].path@ == p);
            assert(b.counts@[i].path@ == p);
            lemma_path_index_of(b.counts@, i);
        } else {
            if has_path(b.counts@, p) {
                let i = path_index(b.counts@, p);
                assert(b.counts@[i].path@ == p);
                assert(a.counts@[i].path@ == p);
            }
        }
    }
}


/// Every stored path is free of line breaks.
pub open spec fn paths_nl_free(c: Seq<PathRecord>) -> bool {
    forall|i: int| 0 <= i < c.len() ==> nl_free((#[trigger] c[i]).path@)
}

/// Two records carry the same path, counters and total.
pub open spec fn record_equiv(a: PathRecord, b: PathRecord) -> bool {
    a.path@ == b.path@ && a.buckets@ == b.buckets@ && a.total == b.total
}

/// `fgc` holds exactly the first `ri` records of `wc`, plus — when `bi` is
/// positive — the first `bi` counters of record `ri`.
spec fn is_trunc(fgc: Seq<PathRecord>, wc: Seq<PathRecord>, ri: int, bi: int) -> bool {
    if bi == 0 {
        &&& fgc.len() == ri
        &&& forall|i: int| 0 <= i < ri ==> record_equiv(#[trigger] fgc[i], wc[i])
    } else {
        &&& 0 <= ri < wc.len()
        &&& fgc.len() == ri + 1
        &&& forall|i: int| 0 <= i < ri ==> record_equiv(#[trigger] fgc[i], wc[i])
        &&& fgc[ri].path@ == wc[ri].path@
        &&& fgc[ri].buckets@ == wc[ri].buckets@.subrange(0, bi)
        &&& fgc[ri].total == sum_counts(wc[ri].buckets@.subrange(0, bi))
    }
}

/// Reassembles one snapshot line from the positions of its fields.
proof fn lemma_line_reassemble(s: Seq<char>, pos: int, e1: int, e2: int, e3: int, b: u64, c: usize)
    requires
        0 <= pos <= e1 < e2 < e3 < s.len(),
        s.subrange(pos, e1) == dec_chars(b as nat),
        s[e1] == ' ',
        s.subrange(e1 + 1, e2) == dec_chars(c as nat),
        s[e2] == ' ',
        s[e3] == '\n',
    ensures
        s.subrange(pos, e3 + 1) == line_of(b, c, s.subrange(e2 + 1, e3)),
{
    reveal_strlit(" ");
    reveal_strlit("\n");
    let d1 = dec_chars(b as nat);
    let d2 = dec_chars(c as nat);
    let pp = s.subrange(e2 + 1, e3);
    assert(s.subrange(pos, e3 + 1) =~= d1 + " "@ + d2 + " "@ + pp + "\n"@);
}

/// Two adjacent slices of a text concatenate to the longer slice.
proof fn lemma_prefix_extend(s: Seq<char>, pos0: int, pos: int)
    requires
        0 <= pos0 <= pos <= s.len(),
    ensures
        s.subrange(0, pos0) + s.subrange(pos0, pos) == s.subrange(0, pos),
{
    assert(s.subrange(0, pos0) + s.subrange(pos0, pos) =~= s.subrange(0, pos));
}

/// A number scan that stops at the first non-digit reads exactly the
/// canonical number known to sit at `pos` with a non-digit after it.
proof fn lemma_scan_aligned(s: Seq<char>, pos: int, e1: int, bk: u64, v: u64, end: int)
    requires
        0 <= pos <= e1 < s.len(),
        s.subrange(pos, e1) == dec_chars(bk as nat),
        !is_digit(s[e1]),
        pos <= end <= s.len(),
        s.subrange(pos, end) == dec_chars(v as nat),
        end == s.len() || !is_digit(s[end]),
    ensures
        end == e1,
        v == bk,
{
    lemma_dec_chars_val(bk as nat);
    lemma_dec_chars_val(v as nat);
    if end < e1 {
        assert(s[end] == dec_chars(bk as nat)[end - pos]);
        assert(is_digit(s[end]));
        assert(false);
    }
    if end > e1 {
        assert(dec_chars(v as nat)[e1 - pos] == s[e1]);
        assert(is_digit(s[e1]));
        assert(false);
    }
    lemma_dec_chars_injective(v as nat, bk as nat);
}

/// Appending a counter for a break-free path keeps every stored path free
/// of line breaks.
proof fn lemma_paths_nl_free_append(fgc0: Seq<PathRecord>, fgc1: Seq<PathRecord>, path: Seq<char>)
    requires
        paths_nl_free(fgc0),
        nl_free(path),
        ({
            if fgc0.len() > 0 && fgc0.last().path@ == path {
                fgc1.len() == fgc0.len() && (forall|i: int|
                    0 <= i < fgc0.len() - 1 ==> (#[trigger] fgc1[i]) == fgc0[i])
                    && fgc1.last().path@ == path
            } else {
                fgc1.len() == fgc0.len() + 1 && (forall|i: int|
                    0 <= i < fgc0.len() ==> (#[trigger] fgc1[i]) == fgc0[i]) && fgc1.last().path@
                    == path
            }
        }),
    ensures
        paths_nl_free(fgc1),
{
    assert forall|i: int| 0 <= i < fgc1.len() implies nl_free((#[trigger] fgc1[i]).path@) by {
        if i == fgc1.len() - 1 {
            assert(fgc1[i] == fgc1.last());
        } else {
            assert(fgc1[i] == fgc0[i]);
            assert(nl_free(fgc0[i].path@));
        }
    }
}

/// The canonical order admits the next counter of the truncation point.
proof fn lemma_trunc_admissible(fgc: Seq<PathRecord>, wc: Seq<PathRecord>, ri: int, bi: int)
    requires
        paths_sorted(wc),
        forall|i: int| 0 <= i < wc.len() ==> (#[trigger] wc[i]).wf(),
        is_trunc(fgc, wc, ri, bi),
        0 <= ri < wc.len(),
        0 <= bi < wc[ri].buckets@.len(),
    ensures
        append_admissible(fgc, wc[ri].path@, wc[ri].buckets@[bi].bucket, wc[ri].buckets@[bi].count),
{
    assert(wc[ri].wf());
    if bi == 0 {
        if fgc.len() > 0 {
            assert(record_equiv(fgc[ri - 1], wc[ri - 1]));
            assert(seq_lt(wc[ri - 1].path@, wc[ri].path@));
        }
    } else {
        assert(fgc[ri].buckets@ == wc[ri].buckets@.subrange(0, bi));
        assert(fgc[ri].buckets@.last() == wc[ri].buckets@[bi - 1]);
        assert(wc[ri].buckets@[bi - 1].bucket < wc[ri].buckets@[bi].bucket);
        let sub1 = wc[ri].buckets@.subrange(0, bi + 1);
        assert(sub1.drop_last() =~= wc[ri].buckets@.subrange(0, bi));
        assert(sub1.last() == wc[ri].buckets@[bi]);
        lemma_sum_prefix(wc[ri].buckets@, bi + 1);
        assert(sum_counts(wc[ri].buckets@) == wc[ri].total);
    }
}

/// Appending the next counter advances the truncation point by one, and a
/// completed record hands over to the next.
proof fn lemma_trunc_step(
    fgc0: Seq<PathRecord>,
    fgc1: Seq<PathRecord>,
    wc: Seq<PathRecord>,
    ri: int,
    bi: int,
)
    requires
        paths_sorted(wc),
        forall|i: int| 0 <= i < wc.len() ==> (#[trigger] wc[i]).wf(),
        is_trunc(fgc0, wc, ri, bi),
        0 <= ri < wc.len(),
        0 <= bi < wc[ri].buckets@.len(),
        ({
            let bc = wc[ri].buckets@[bi];
            if fgc0.len() > 0 && fgc0.last().path@ == wc[ri].path@ {
                &&& fgc1.len() == fgc0.len()
                &&& forall|i: int| 0 <= i < fgc0.len() - 1 ==> (#[trigger] fgc1[i]) == fgc0[i]
                &&& fgc1.last().path@ == wc[ri].path@
                &&& fgc1.last().buckets@ == fgc0.last().buckets@.push(bc)
                &&& fgc1.last().total == fgc0.last().total + bc.count
            } else {
                &&& fgc1.len() == fgc0.len() + 1
                &&& forall|i: int| 0 <= i < fgc0.len() ==> (#[trigger] fgc1[i]) == fgc0[i]
                &&& fgc1.last().path@ == wc[ri].path@
                &&& fgc1.last().buckets@ == seq![bc]
                &&& fgc1.last().total == bc.count
            }
        }),
    ensures
        is_trunc(fgc1, wc, ri, bi + 1),
        bi + 1 == wc[ri].buckets@.len() ==> is_trunc(fgc1, wc, ri + 1, 0),
{
    assert(wc[ri].wf());
    let bc = wc[ri].buckets@[bi];
    let sub1 = wc[ri].buckets@.subrange(0, bi + 1);
    assert(sub1.drop_last() =~= wc[ri].buckets@.subrange(0, bi));
    assert(sub1.last() == bc);
    if bi == 0 {
        // The counter opens a fresh record: the previous record, if any,
        // carries a strictly smaller path.
        if fgc0.len() > 0 && fgc0.last().path@ == wc[ri].path@ {
            assert(record_equiv(fgc0[ri - 1], wc[ri - 1]));
            assert(seq_lt(wc[ri - 1].path@, wc[ri].path@));
            lemma_seq_lt_total(wc[ri - 1].path@, wc[ri].path@);
            assert(false);
        }
        assert(fgc1.last().buckets@ =~= sub1);
        assert(sum_counts(Seq::<BucketCount>::empty()) == 0);
        assert(wc[ri].buckets@.subrange(0, 0) =~= Seq::<BucketCount>::empty());
        assert(sum_counts(sub1) == bc.count);
        assert(is_trunc(fgc1, wc, ri, bi + 1)) by {
            assert(fgc1[ri] == fgc1.last());
            assert(forall|i: int| 0 <= i < ri ==> record_equiv(#[trigger] fgc1[i], wc[i]));
        }
    } else {
        assert(fgc0.len() == ri + 1);
        assert(fgc0.last().path@ == wc[ri].path@);
        assert(fgc1.last().buckets@ =~= sub1);
        assert(sum_counts(sub1) == sum_counts(wc[ri].buckets@.subrange(0, bi)) + bc.count);
        assert(is_trunc(fgc1, wc, ri, bi + 1)) by {
            assert(fgc1[ri] == fgc1.last());
            assert(forall|i: int| 0 <= i < ri ==> record_equiv(#[trigger] fgc1[i], wc[i]));
        }
    }
    if bi + 1 == wc[ri].buckets@.len() {
        assert(sub1 =~= wc[ri].buckets@);
        assert(record_equiv(fgc1[ri], wc[ri]));
        assert(is_trunc(fgc1, wc, ri + 1, 0)) by {
            assert(forall|i: int| 0 <= i < ri + 1 ==> record_equiv(#[trigger] fgc1[i], wc[i]));
        }
    }
}

/// Whether `s` is the canonical snapshot text of some well-formed
/// aggregator whose paths the schema can carry.
pub open spec fn has_canonical_form(s: Seq<char>) -> bool {
    exists|fg: Flamegraph|
        #![auto]
        fg.wf() && paths_nl_free(fg.counts@) && raw_form(fg) == s
}

/// The snapshot lines still to be read once the first `ri` records and the
/// first `bi` counters of record `ri` have been consumed.
pub open spec fn rest_lines(wc: Seq<PathRecord>, ri: int, bi: int) -> Seq<char>
    decreases wc.len() - ri,
{
    if ri < 0 || ri >= wc.len() {
        Seq::empty()
    } else {
        lines_cat(bucket_triples(wc[ri].path@, wc[ri].buckets@.skip(bi))) + rest_lines(
            wc,
            ri + 1,
            0,
        )
    }
}

/// Dropping the final record removes its lines from the tail.
proof fn lemma_rest_lines_drop(wc: Seq<PathRecord>, ri: int)
    requires
        wc.len() > 0,
        0 <= ri <= wc.len() - 1,
    ensures
        rest_lines(wc, ri, 0) == rest_lines(wc.drop_last(), ri, 0) + buckets_lines(
            wc.last().path@,
            wc.last().buckets@,
        ),
    decreases wc.len() - ri,
{
    let d = wc.drop_last();
    if ri == wc.len() - 1 {
        assert(rest_lines(d, ri, 0) == Seq::<char>::empty());
        assert(wc[ri].buckets@.skip(0) =~= wc[ri].buckets@);
        lemma_buckets_lines_cat(wc.last().path@, wc.last().buckets@);
        assert(rest_lines(wc, ri + 1, 0) == Seq::<char>::empty());
        assert(lines_cat(bucket_triples(wc[ri].path@, wc[ri].buckets@)) + Seq::<char>::empty()
            =~= lines_cat(bucket_triples(wc[ri].path@, wc[ri].buckets@)));
        assert(Seq::<char>::empty() + buckets_lines(wc.last().path@, wc.last().buckets@)
            =~= buckets_lines(wc.last().path@, wc.last().buckets@));
    } else {
        lemma_rest_lines_drop(wc, ri + 1);
        assert(d[ri] == wc[ri]);
        assert(lines_cat(bucket_triples(wc[ri].path@, wc[ri].buckets@.skip(0))) + (rest_lines(
            d,
            ri + 1,
            0,
        ) + buckets_lines(wc.last().path@, wc.last().buckets@)) =~= (lines_cat(
            bucket_triples(wc[ri].path@, wc[ri].buckets@.skip(0)),
        ) + rest_lines(d, ri + 1, 0)) + buckets_lines(wc.last().path@, wc.last().buckets@));
    }
}

/// The whole snapshot body is the tail from the very start.
proof fn lemma_records_eq_rest(wc: Seq<PathRecord>)
    ensures
        records_lines(wc) == rest_lines(wc, 0, 0),
    decreases wc.len(),
{
    if wc.len() == 0 {
    } else {
        lemma_records_eq_rest(wc.drop_last());
        lemma_rest_lines_drop(wc, 0);
    }
}

/// Consuming one counter peels exactly its line off the tail.
proof fn lemma_rest_lines_step(wc: Seq<PathRecord>, ri: int, bi: int)
    requires
        0 <= ri < wc.len(),
        0 <= bi < wc[ri].buckets@.len(),
    ensures
        rest_lines(wc, ri, bi) == line_of(
            wc[ri].buckets@[bi].bucket,
            wc[ri].buckets@[bi].count,
            wc[ri].path@,
        ) + rest_lines(wc, ri, bi + 1),
{
    let b = wc[ri].buckets@;
    let p = wc[ri].path@;
    let bt = bucket_triples(p, b.skip(bi));
    assert(bt.len() > 0);
    assert(bt[0] == (b[bi].bucket, b[bi].count, p));
    assert(bt.skip(1) =~= bucket_triples(p, b.skip(bi + 1)));
    assert(lines_cat(bt) == line_of(b[bi].bucket, b[bi].count, p) + lines_cat(
        bucket_triples(p, b.skip(bi + 1)),
    ));
    assert((line_of(b[bi].bucket, b[bi].count, p) + lines_cat(bucket_triples(p, b.skip(bi + 1))))
        + rest_lines(wc, ri + 1, 0) =~= line_of(b[bi].bucket, b[bi].count, p) + (lines_cat(
        bucket_triples(p, b.skip(bi + 1)),
    ) + rest_lines(wc, ri + 1, 0)));
}

/// A fully consumed record hands the tail over to the next record.
proof fn lemma_rest_lines_record_done(wc: Seq<PathRecord>, ri: int)
    requires
        0 <= ri < wc.len(),
    ensures
        rest_lines(wc, ri, wc[ri].buckets@.len() as int) == rest_lines(wc, ri + 1, 0),
{
    let b = wc[ri].buckets@;
    assert(b.skip(b.len() as int) =~= Seq::<BucketCount>::empty());
    assert(bucket_triples(wc[ri].path@, Seq::<BucketCount>::empty()) =~= Seq::<(
        u64,
        usize,
        Seq<char>,
    )>::empty());
    assert(Seq::<char>::empty() + rest_lines(wc, ri + 1, 0) =~= rest_lines(wc, ri + 1, 0));
}

/// Where one snapshot line sits in the text: the positions of its fields
/// and delimiters, when the tail from `pos` starts with it.
proof fn lemma_line_at(s: Seq<char>, pos: int, b: u64, c: usize, p: Seq<char>, rest: Seq<char>)
    requires
        0 <= pos <= s.len(),
        s.skip(pos) == line_of(b, c, p) + rest,
        nl_free(p),
    ensures
        ({
            let d1 = dec_chars(b as nat);
            let d2 = dec_chars(c as nat);
            let e1 = pos + d1.len();
            let e2 = e1 + 1 + d2.len();
            let e3 = e2 + 1 + p.len();
            &&& e3 < s.len()
            &&& s.subrange(pos, e1) == d1
            &&& s[e1] == ' '
            &&& s.subrange(e1 + 1, e2) == d2
            &&& s[e2] == ' '
            &&& s.subrange(e2 + 1, e3) == p
            &&& s[e3] == '\n'
            &&& (forall|k: int| e2 + 1 <= k < e3 ==> (#[trigger] s[k]) != '\n')
            &&& s.skip(e3 + 1) == rest
        }),
{
    reveal_strlit(" ");
    reveal_strlit("\n");
    lemma_dec_chars_val(b as nat);
    lemma_dec_chars_val(c as nat);
    let d1 = dec_chars(b as nat);
    let d2 = dec_chars(c as nat);
    let e1 = pos + d1.len();
    let e2 = e1 + 1 + d2.len();
    let e3 = e2 + 1 + p.len();
    let line = line_of(b, c, p);
    let t = s.skip(pos);
    assert(line.len() == d1.len() + 1 + d2.len() + 1 + p.len() + 1);
    assert(forall|i: int| 0 <= i < t.len() ==> (#[trigger] t[i]) == s[pos + i]);
    assert(forall|i: int| 0 <= i < line.len() ==> (#[trigger] t[i]) == line[i]);
    assert(forall|i: int| 0 <= i < d1.len() ==> (#[trigger] line[i]) == d1[i]);
    assert(line[d1.len() as int] == ' ');
    assert(forall|i: int|
        0 <= i < d2.len() ==> (#[trigger] line[d1.len() + 1 + i]) == d2[i]);
    assert(line[d1.len() + 1 + d2.len() as int] == ' ');
    assert(forall|i: int|
        0 <= i < p.len() ==> (#[trigger] line[d1.len() + 1 + d2.len() + 1 + i]) == p[i]);
    assert(line[line.len() - 1] == '\n');
    assert(t.len() == line.len() + rest.len());
    assert(e3 < s.len());
    assert(s.subrange(pos, e1) =~= d1) by {
        assert forall|i: int| 0 <= i < d1.len() implies s.subrange(pos, e1)[i] == d1[i] by {
            assert(s.subrange(pos, e1)[i] == s[pos + i]);
            assert(t[i] == s[pos + i]);
            assert(t[i] == line[i]);
            assert(line[i] == d1[i]);
        }
    }
    assert(s.subrange(e1 + 1, e2) =~= d2) by {
        assert forall|i: int| 0 <= i < d2.len() implies s.subrange(e1 + 1, e2)[i] == d2[i] by {
            let j = d1.len() + 1 + i;
            assert(s.subrange(e1 + 1, e2)[i] == s[e1 + 1 + i]);
            assert(t[j] == s[pos + j]);
            assert(t[j] == line[j]);
            assert(line[j] == d2[i]);
        }
    }
    assert(s.subrange(e2 + 1, e3) =~= p) by {
        assert forall|i: int| 0 <= i < p.len() implies s.subrange(e2 + 1, e3)[i] == p[i] by {
            let j = d1.len() + 1 + d2.len() + 1 + i;
            assert(s.subrange(e2 + 1, e3)[i] == s[e2 + 1 + i]);
            assert(t[j] == s[pos + j]);
            assert(t[j] == line[j]);
            assert(line[j] == p[i]);
        }
    }
    assert(s[e1] == ' ') by {
        assert(t[d1.len() as int] == s[e1]);
        assert(t[d1.len() as int] == line[d1.len() as int]);
    }
    assert(s[e2] == ' ') by {
        let j = d1.len() + 1 + d2.len() as int;
        assert(t[j] == s[pos + j]);
        assert(t[j] == line[j]);
    }
    assert(s[e3] == '\n') by {
        let j = line.len() - 1;
        assert(t[j] == s[pos + j]);
        assert(t[j] == line[j]);
    }
    assert forall|k: int| e2 + 1 <= k < e3 implies (#[trigger] s[k]) != '\n' by {
        let j = k - pos;
        assert(t[j] == s[k]);
        assert(t[j] == line[j]);
        assert(line[j] == p[k - (e2 + 1)]);
    }
    assert(s.skip(e3 + 1) =~= rest) by {
        assert forall|i: int| 0 <= i < rest.len() implies s.skip(e3 + 1)[i] == rest[i] by {
            assert(s.skip(e3 + 1)[i] == s[e3 + 1 + i]);
            assert(t[line.len() + i] == s[pos + line.len() + i]);
            assert(t[line.len() + i] == rest[i]);
        }
    }
}


/// Every well-formed aggregator with schema-representable paths can be
/// reloaded from its own snapshot: its text is a canonical form, so reading
/// it back is guaranteed to succeed, and by losslessness the reloaded
/// aggregator carries exactly the counters that were written.
pub proof fn lemma_write_raw_reloadable(fg: Flamegraph)
    requires
        fg.wf(),
        paths_nl_free(fg.counts@),
    ensures
        has_canonical_form(raw_form(fg)),
{
    assert(fg.wf() && paths_nl_free(fg.counts@) && raw_form(fg) == raw_form(fg));
}

} // verus!
