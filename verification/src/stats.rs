use vstd::prelude::*;
use vstd::relations::{sorted_by, total_ordering};
use vstd::seq_lib::lemma_sorted_unique;
use crate::records::{Record, RecordV, rec_views};

verus! {

broadcast use vstd::seq_lib::group_to_multiset_ensures;

/// G, C, g or c: a base counted towards GC content.
pub open spec fn is_gc(b: u8) -> bool {
    b == 71 || b == 103 || b == 67 || b == 99
}

/// N or n.
pub open spec fn is_n(b: u8) -> bool {
    b == 78 || b == 110
}

/// How many bytes of `s` are G/C/g/c.
pub open spec fn gc_in(s: Seq<u8>) -> int
    decreases s.len(),
{
    if s.len() == 0 {
        0
    } else {
        gc_in(s.drop_last()) + if is_gc(s.last()) {
            1int
        } else {
            0int
        }
    }
}

/// How many bytes of `s` are N/n.
pub open spec fn n_in(s: Seq<u8>) -> int
    decreases s.len(),
{
    if s.len() == 0 {
        0
    } else {
        n_in(s.drop_last()) + if is_n(s.last()) {
            1int
        } else {
            0int
        }
    }
}

/// Sum of the content lengths of `rs`.
pub open spec fn spec_total(rs: Seq<RecordV>) -> int
    decreases rs.len(),
{
    if rs.len() == 0 {
        0
    } else {
        spec_total(rs.drop_last()) + rs.last().content.len()
    }
}

/// Sum of the GC counts of `rs`.
pub open spec fn spec_gc(rs: Seq<RecordV>) -> int
    decreases rs.len(),
{
    if rs.len() == 0 {
        0
    } else {
        spec_gc(rs.drop_last()) + gc_in(rs.last().content)
    }
}

/// Sum of the N counts of `rs`.
pub open spec fn spec_nc(rs: Seq<RecordV>) -> int
    decreases rs.len(),
{
    if rs.len() == 0 {
        0
    } else {
        spec_nc(rs.drop_last()) + n_in(rs.last().content)
    }
}

/// The largest content length in `rs`; 0 when `rs` is empty.
pub open spec fn spec_max(rs: Seq<RecordV>) -> int
    decreases rs.len(),
{
    if rs.len() == 0 {
        0
    } else {
        vstd::math::max(spec_max(rs.drop_last()), rs.last().content.len() as int)
    }
}

/// The smallest content length in `rs`; `usize::MAX` when `rs` is empty.
pub open spec fn spec_min(rs: Seq<RecordV>) -> int
    decreases rs.len(),
{
    if rs.len() == 0 {
        usize::MAX as int
    } else {
        vstd::math::min(spec_min(rs.drop_last()), rs.last().content.len() as int)
    }
}

/// The content lengths of `rs`, in record order.
pub open spec fn spec_lengths(rs: Seq<RecordV>) -> Seq<usize>
    decreases rs.len(),
{
    if rs.len() == 0 {
        Seq::empty()
    } else {
        spec_lengths(rs.drop_last()).push(rs.last().content.len() as usize)
    }
}

/// How many records of `rs` fall into histogram bucket `k` for width `w`,
/// the bucket of a record being its content length divided by `w`.
pub open spec fn spec_bucket_count(rs: Seq<RecordV>, w: int, k: int) -> int
    decreases rs.len(),
{
    if rs.len() == 0 {
        0
    } else {
        spec_bucket_count(rs.drop_last(), w, k) + if rs.last().content.len() as int / w == k {
            1int
        } else {
            0int
        }
    }
}

/// Descending order on lengths, as a total "less-or-equal" relation.
pub open spec fn desc_leq() -> spec_fn(usize, usize) -> bool {
    |a: usize, b: usize| a >= b
}

/// The Nq walk: the first element of `s` at which the running cumulative
/// sum (starting from `c`) meets or exceeds `t`; 0 when the walk ends
/// without reaching `t`.
pub open spec fn spec_quantile(s: Seq<usize>, c: int, t: int) -> usize
    decreases s.len(),
{
    if s.len() == 0 {
        0
    } else if c + s[0] >= t {
        s[0]
    } else {
        spec_quantile(s.drop_first(), c + s[0], t)
    }
}

/// Sum of the counts of a histogram.
pub open spec fn hist_sum(h: Seq<(usize, usize)>) -> int
    decreases h.len(),
{
    if h.len() == 0 {
        0
    } else {
        hist_sum(h.drop_last()) + h.last().1
    }
}

/// Sum of the counts of the entries of `h` whose bucket index is `k`.
pub open spec fn hist_count(h: Seq<(usize, usize)>, k: int) -> int
    decreases h.len(),
{
    if h.len() == 0 {
        0
    } else {
        hist_count(h.drop_last(), k) + if h.last().0 == k {
            h.last().1 as int
        } else {
            0int
        }
    }
}

/// Some entry of `h` has bucket index `k`.
pub open spec fn hist_has_key(h: Seq<(usize, usize)>, k: int) -> bool {
    exists|i: int| 0 <= i < h.len() && h[i].0 == k
}

/// The aggregate statistics of a record stream, as the report and the
/// summary row consume them. The histogram holds `(bucket index, count)`
/// pairs in ascending index order.
pub struct AnalysisResults {
    pub filenames: Vec<String>,
    pub total_length: usize,
    pub sequence_count: usize,
    pub gc_count: usize,
    pub n_count: usize,
    pub n25: usize,
    pub n50: usize,
    pub n75: usize,
    pub largest_contig: usize,
    pub shortest_contig: usize,
    pub length_histogram: Vec<(usize, usize)>,
}

proof fn lemma_counts_in_content(s: Seq<u8>)
    ensures
        0 <= gc_in(s),
        0 <= n_in(s),
        gc_in(s) + n_in(s) <= s.len(),
    decreases s.len(),
{
    if s.len() > 0 {
        lemma_counts_in_content(s.drop_last());
    }
}

proof fn lemma_sums_nonneg(rs: Seq<RecordV>)
    ensures
        0 <= spec_total(rs),
        0 <= spec_gc(rs),
        0 <= spec_nc(rs),
        spec_gc(rs) + spec_nc(rs) <= spec_total(rs),
        0 <= spec_max(rs) <= spec_total(rs),
    decreases rs.len(),
{
    if rs.len() > 0 {
        lemma_sums_nonneg(rs.drop_last());
        lemma_counts_in_content(rs.last().content);
    }
}

proof fn lemma_total_prefix(rs: Seq<RecordV>, i: int)
    requires
        0 <= i <= rs.len(),
    ensures
        spec_total(rs.take(i)) <= spec_total(rs),
    decreases rs.len(),
{
    if i == rs.len() {
        assert(rs.take(i) =~= rs);
    } else {
        lemma_total_prefix(rs.drop_last(), i);
        assert(rs.drop_last().take(i) =~= rs.take(i));
        lemma_sums_nonneg(rs);
    }
}

proof fn lemma_min_le_max(rs: Seq<RecordV>)
    requires
        rs.len() > 0,
    ensures
        0 <= spec_min(rs) <= spec_max(rs),
    decreases rs.len(),
{
    if rs.len() == 1 {
        assert(rs.drop_last().len() == 0);
        assert(spec_min(rs.drop_last()) == usize::MAX as int);
        assert(spec_max(rs.drop_last()) == 0);
    } else {
        lemma_min_le_max(rs.drop_last());
    }
}

/// Every content length of `rs` appears in `spec_lengths(rs)`, and the
/// largest one is `spec_max(rs)`.
proof fn lemma_lengths_max(rs: Seq<RecordV>)
    requires
        spec_total(rs) <= usize::MAX,
    ensures
        spec_lengths(rs).len() == rs.len(),
        forall|i: int|
            0 <= i < rs.len() ==> #[trigger] spec_lengths(rs)[i] <= spec_max(rs),
        rs.len() > 0 ==> spec_lengths(rs).contains(spec_max(rs) as usize),
    decreases rs.len(),
{
    if rs.len() > 0 {
        lemma_sums_nonneg(rs.drop_last());
        lemma_counts_in_content(rs.last().content);
        lemma_lengths_max(rs.drop_last());
        let l = spec_lengths(rs);
        let prev = spec_lengths(rs.drop_last());
        assert(forall|i: int| 0 <= i < rs.len() - 1 ==> l[i] == prev[i]);
        if rs.drop_last().len() > 0 && spec_max(rs.drop_last()) >= rs.last().content.len() {
            let j = choose|j: int|
                0 <= j < prev.len() && prev[j] == spec_max(rs.drop_last()) as usize;
            assert(l[j] == spec_max(rs) as usize);
        } else {
            assert(l[rs.len() - 1] == spec_max(rs) as usize);
        }
    }
}

/// The walk never returns more than a bound that dominates every element.
proof fn lemma_quantile_le_bound(s: Seq<usize>, c: int, t: int, m: usize)
    requires
        forall|i: int| 0 <= i < s.len() ==> #[trigger] s[i] <= m,
    ensures
        spec_quantile(s, c, t) <= m,
    decreases s.len(),
{
    if s.len() > 0 && !(c + s[0] >= t) {
        lemma_quantile_le_bound(s.drop_first(), c + s[0], t, m);
    }
}

/// On a descending walk, a higher threshold yields an equal or smaller value.
proof fn lemma_quantile_monotone(s: Seq<usize>, c: int, t1: int, t2: int)
    requires
        sorted_by(s, desc_leq()),
        t1 <= t2,
    ensures
        spec_quantile(s, c, t2) <= spec_quantile(s, c, t1),
    decreases s.len(),
{
    if s.len() > 0 {
        if c + s[0] >= t2 {
            assert(c + s[0] >= t1);
        } else if c + s[0] >= t1 {
            let r = desc_leq();
            assert forall|i: int|
                0 <= i < s.drop_first().len() implies #[trigger] s.drop_first()[i] <= s[0] by {
                assert(r(s[0], s[i + 1]));
            }
            lemma_quantile_le_bound(s.drop_first(), c + s[0], t2, s[0]);
        } else {
            let r = desc_leq();
            assert forall|a: int, b: int|
                0 <= a < b < s.drop_first().len() implies #[trigger] r(
                s.drop_first()[a],
                s.drop_first()[b],
            ) by {
                assert(r(s[a + 1], s[b + 1]));
            }
            lemma_quantile_monotone(s.drop_first(), c + s[0], t1, t2);
        }
    }
}

proof fn lemma_desc_leq_total()
    ensures
        total_ordering(desc_leq()),
{
    let r = desc_leq();
    assert forall|a: usize| #[trigger] r(a, a) by {}
    assert(vstd::relations::reflexive(r));
    assert(vstd::relations::antisymmetric(r));
    assert(vstd::relations::transitive(r));
    assert(vstd::relations::strongly_connected(r));
}

/// `hist_count` is bounded by `hist_sum`, both nonnegative.
proof fn lemma_hist_count_le_sum(h: Seq<(usize, usize)>, k: int)
    ensures
        0 <= hist_count(h, k) <= hist_sum(h),
    decreases h.len(),
{
    if h.len() > 0 {
        lemma_hist_count_le_sum(h.drop_last(), k);
    }
}

/// A key that no entry carries contributes nothing.
proof fn lemma_hist_count_absent(h: Seq<(usize, usize)>, k: int)
    requires
        forall|i: int| 0 <= i < h.len() ==> h[i].0 != k,
    ensures
        hist_count(h, k) == 0,
    decreases h.len(),
{
    if h.len() > 0 {
        lemma_hist_count_absent(h.drop_last(), k);
    }
}

/// With strictly ascending keys, the count for the key of entry `j` is
/// that entry's count alone.
proof fn lemma_hist_count_is_entry(h: Seq<(usize, usize)>, j: int)
    requires
        forall|i1: int, i2: int| 0 <= i1 < i2 < h.len() ==> h[i1].0 < h[i2].0,
        0 <= j < h.len(),
    ensures
        hist_count(h, h[j].0 as int) == h[j].1,
    decreases h.len(),
{
    if j == h.len() - 1 {
        assert(forall|i: int| 0 <= i < h.drop_last().len() ==> h[i].0 != h[j].0);
        lemma_hist_count_absent(h.drop_last(), h[j].0 as int);
    } else {
        lemma_hist_count_is_entry(h.drop_last(), j);
    }
}

/// One step of the Nq walk at position `j`: what the walk value over the
/// remaining suffix becomes once the element there is consumed.
proof fn lemma_quantile_step(s: Seq<usize>, j: int, c: int, t: int, q: usize)
    requires
        sorted_by(s, desc_leq()),
        0 <= j < s.len(),
        spec_quantile(s.skip(j), c, t) == q,
    ensures
        c + s[j] >= t ==> q == s[j],
        c + s[j] >= t && s[j] == 0 ==> spec_quantile(s.skip(j + 1), c + s[j], t) == q,
        c + s[j] < t ==> spec_quantile(s.skip(j + 1), c + s[j], t) == q,
{
    let x = s[j];
    assert(s.skip(j)[0] == x);
    assert(s.skip(j).drop_first() =~= s.skip(j + 1));
    if c + x >= t {
        assert(q == x);
        if x == 0 && j + 1 < s.len() {
            let r = desc_leq();
            assert(r(s[j], s[j + 1]));
            assert(s.skip(j + 1)[0] == s[j + 1]);
            assert(s[j + 1] == 0);
        }
    }
}

/// A nonzero count means some entry carries the key.
proof fn lemma_hist_count_key_exists(h: Seq<(usize, usize)>, k: int)
    requires
        hist_count(h, k) != 0,
    ensures
        hist_has_key(h, k),
    decreases h.len(),
{
    if h.len() > 0 {
        if h.last().0 == k {
            assert(h[h.len() - 1].0 == k);
        } else {
            lemma_hist_count_key_exists(h.drop_last(), k);
            let i = choose|i: int| 0 <= i < h.drop_last().len() && h.drop_last()[i].0 == k;
            assert(h[i].0 == k);
        }
    }
}

/// Updating entry `j` changes `hist_sum` and `hist_count` by the
/// difference between the new and the old entry.
proof fn lemma_hist_update(h: Seq<(usize, usize)>, j: int, e: (usize, usize))
    requires
        0 <= j < h.len(),
        h[j].0 == e.0,
    ensures
        hist_sum(h.update(j, e)) == hist_sum(h) + e.1 - h[j].1,
        forall|k: int|
            #[trigger] hist_count(h.update(j, e), k) == hist_count(h, k) + if e.0 == k {
                e.1 - h[j].1
            } else {
                0int
            },
    decreases h.len(),
{
    let hu = h.update(j, e);
    if j == h.len() - 1 {
        assert(hu.drop_last() =~= h.drop_last());
        assert(hu.last() == e);
        assert forall|k: int|
            #[trigger] hist_count(hu, k) == hist_count(h, k) + (if e.0 == k {
                e.1 - h[j].1
            } else {
                0int
            }) by {
            assert(hist_count(hu, k) == hist_count(h.drop_last(), k) + (if e.0 == k {
                e.1 as int
            } else {
                0int
            }));
            assert(hist_count(h, k) == hist_count(h.drop_last(), k) + (if h[j].0 == k {
                h[j].1 as int
            } else {
                0int
            }));
        }
    } else {
        lemma_hist_update(h.drop_last(), j, e);
        assert(hu.drop_last() =~= h.drop_last().update(j, e));
        assert(hu.last() == h.last());
        assert forall|k: int|
            #[trigger] hist_count(hu, k) == hist_count(h, k) + (if e.0 == k {
                e.1 - h[j].1
            } else {
                0int
            }) by {
            assert(hist_count(hu, k) == hist_count(h.drop_last().update(j, e), k) + (if h.last().0
                == k {
                h.last().1 as int
            } else {
                0int
            }));
        }
    }
}

/// Inserting an entry adds its count to `hist_sum` and to the
/// `hist_count` of its key.
proof fn lemma_hist_insert(h: Seq<(usize, usize)>, j: int, e: (usize, usize))
    requires
        0 <= j <= h.len(),
    ensures
        hist_sum(h.insert(j, e)) == hist_sum(h) + e.1,
        forall|k: int|
            #[trigger] hist_count(h.insert(j, e), k) == hist_count(h, k) + if e.0 == k {
                e.1 as int
            } else {
                0int
            },
    decreases h.len(),
{
    let hi = h.insert(j, e);
    if j == h.len() {
        assert(hi.drop_last() =~= h);
        assert(hi.last() == e);
        assert forall|k: int|
            #[trigger] hist_count(hi, k) == hist_count(h, k) + (if e.0 == k {
                e.1 as int
            } else {
                0int
            }) by {
            assert(hist_count(hi, k) == hist_count(h, k) + (if e.0 == k {
                e.1 as int
            } else {
                0int
            }));
        }
    } else {
        lemma_hist_insert(h.drop_last(), j, e);
        assert(hi.drop_last() =~= h.drop_last().insert(j, e));
        assert(hi.last() == h.last());
        assert forall|k: int|
            #[trigger] hist_count(hi, k) == hist_count(h, k) + (if e.0 == k {
                e.1 as int
            } else {
                0int
            }) by {
            assert(hist_count(hi, k) == hist_count(h.drop_last().insert(j, e), k) + (if h.last().0
                == k {
                h.last().1 as int
            } else {
                0int
            }));
            assert(hist_count(h, k) == hist_count(h.drop_last(), k) + (if h.last().0 == k {
                h.last().1 as int
            } else {
                0int
            }));
        }
    }
}

/// Adds one occurrence of bucket `k` to the histogram, keeping the keys
/// strictly ascending.
fn hist_bump(h: &mut Vec<(usize, usize)>, k: usize)
    requires
        forall|i1: int, i2: int|
            0 <= i1 < i2 < old(h)@.len() ==> old(h)@[i1].0 < old(h)@[i2].0,
        forall|i: int| 0 <= i < old(h)@.len() ==> (#[trigger] old(h)@[i]).1 > 0,
        hist_sum(old(h)@) < usize::MAX,
    ensures
        forall|i1: int, i2: int|
            0 <= i1 < i2 < final(h)@.len() ==> final(h)@[i1].0 < final(h)@[i2].0,
        forall|i: int| 0 <= i < final(h)@.len() ==> (#[trigger] final(h)@[i]).1 > 0,
        hist_sum(final(h)@) == hist_sum(old(h)@) + 1,
        hist_count(final(h)@, k as int) == hist_count(old(h)@, k as int) + 1,
        forall|k2: int|
            k2 != k as int ==> #[trigger] hist_count(final(h)@, k2) == hist_count(old(h)@, k2),
{
    let mut j: usize = 0;
    while j < h.len() && h[j].0 < k
        invariant
            j <= h@.len(),
            forall|i: int| 0 <= i < j ==> old(h)@[i].0 < k,
            h@ == old(h)@,
        decreases h@.len() - j,
    {
        j += 1;
    }
    if j < h.len() && h[j].0 == k {
        let c = h[j].1;
        proof {
            lemma_hist_count_is_entry(h@, j as int);
            lemma_hist_count_le_sum(h@, k as int);
        }
        h.set(j, (k, c + 1));
        proof {
            lemma_hist_update(old(h)@, j as int, (k, (c + 1) as usize));
        }
    } else {
        proof {
            // every entry before position j has a smaller key, every entry
            // from j on a larger one, so no entry carries k
            assert forall|i: int| 0 <= i < h@.len() implies h@[i].0 != k by {
                if i > j {
                    assert(h@[j as int].0 < h@[i].0);
                }
            }
            lemma_hist_count_absent(h@, k as int);
            lemma_hist_insert(h@, j as int, (k, 1));
        }
        h.insert(j, (k, 1));
    }
}

/// Sorts a copy of `v` in descending order.
fn sorted_desc_copy(v: &Vec<usize>) -> (out: Vec<usize>)
    ensures
        out@ == v@.sort_by(desc_leq()),
        sorted_by(out@, desc_leq()),
{
    let ghost leq = desc_leq();
    let mut out: Vec<usize> = Vec::new();
    let mut i: usize = 0;
    while i < v.len()
        invariant
            i <= v@.len(),
            sorted_by(out@, leq),
            leq == desc_leq(),
            out@.to_multiset() == v@.take(i as int).to_multiset(),
        decreases v@.len() - i,
    {
        let x = v[i];
        let mut j: usize = 0;
        while j < out.len() && out[j] >= x
            invariant
                j <= out@.len(),
                forall|t: int| 0 <= t < j ==> out@[t] >= x,
            decreases out@.len() - j,
        {
            j += 1;
        }
        let ghost old_out = out@;
        proof {
            vstd::seq_lib::to_multiset_insert(out@, j as int, x);
            assert(v@.take(i as int + 1) =~= v@.take(i as int).push(x));
            assert(v@.take(i as int).push(x).to_multiset() == v@.take(
                i as int,
            ).to_multiset().insert(x));
        }
        out.insert(j, x);
        proof {
            old_out.insert_ensures(j as int, x);
            assert forall|a: int, b: int| 0 <= a < b < out@.len() implies #[trigger] leq(
                out@[a],
                out@[b],
            ) by {
                if b < j {
                    assert(leq(old_out[a], old_out[b]));
                } else if a < j && b == j {
                    assert(old_out[a] >= x);
                } else if a < j && b > j {
                    assert(leq(old_out[a], old_out[b - 1]));
                } else if a == j {
                    if b - 1 > j {
                        assert(leq(old_out[j as int], old_out[b - 1]));
                    }
                    assert(old_out[b - 1] < x);
                } else {
                    assert(leq(old_out[a - 1], old_out[b - 1]));
                }
                assert(out@[a] >= out@[b]);
            }
        }
        i += 1;
    }
    proof {
        assert(v@.take(v@.len() as int) =~= v@);
        lemma_desc_leq_total();
        v@.lemma_sort_by_ensures(leq);
        lemma_sorted_unique(out@, v@.sort_by(leq), leq);
        assert(out@ =~= v@.sort_by(leq));
    }
    out
}

/// Counts the GC and N bases of one content string.
fn count_bases(content: &Vec<u8>) -> (r: (usize, usize))
    ensures
        r.0 == gc_in(content@),
        r.1 == n_in(content@),
        r.0 + r.1 <= content@.len(),
{
    let mut gc: usize = 0;
    let mut nn: usize = 0;
    let mut i: usize = 0;
    while i < content.len()
        invariant
            i <= content@.len(),
            gc == gc_in(content@.take(i as int)),
            nn == n_in(content@.take(i as int)),
            gc + nn <= i,
        decreases content@.len() - i,
    {
        proof {
            assert(content@.take(i as int + 1).drop_last() =~= content@.take(i as int));
            assert(content@.take(i as int + 1).last() == content@[i as int]);
        }
        let b = content[i];
        if b == 71 || b == 103 || b == 67 || b == 99 {
            gc += 1;
        } else if b == 78 || b == 110 {
            nn += 1;
        }
        i += 1;
    }
    proof {
        assert(content@.take(content@.len() as int) =~= content@);
    }
    (gc, nn)
}

/// Computes the aggregate statistics of `sequences` with histogram bucket
/// width `interval_size`: total length, record count, GC and N counts,
/// largest and shortest contig, the N25/N50/N75 quantile walk over the
/// descending-sorted lengths with thresholds `total/4`, `total/2` and
/// `3*total/4` (truncating division), and the length histogram.
///
/// The caller supplies the filenames afterwards; they start empty here.
pub fn analyze_sequences(sequences: &Vec<Record>, interval_size: usize) -> (r: AnalysisResults)
    requires
        interval_size >= 1,
        spec_total(rec_views(sequences@)) <= usize::MAX,
    ensures
        ({
            let rs = rec_views(sequences@);
            let w = interval_size as int;
            let sorted = spec_lengths(rs).sort_by(desc_leq());
            let total = spec_total(rs);
            &&& r.filenames@ == Seq::<String>::empty()
            &&& r.total_length == total
            &&& r.sequence_count == sequences@.len()
            &&& r.gc_count == spec_gc(rs)
            &&& r.n_count == spec_nc(rs)
            &&& r.gc_count + r.n_count <= r.total_length
            &&& r.largest_contig == spec_max(rs)
            &&& r.shortest_contig == spec_min(rs)
            &&& r.n25 == spec_quantile(sorted, 0, total / 4)
            &&& r.n50 == spec_quantile(sorted, 0, total / 2)
            &&& r.n75 == spec_quantile(sorted, 0, total * 3 / 4)
            &&& sequences@.len() > 0 ==> r.shortest_contig <= r.largest_contig
                <= r.total_length
            &&& sequences@.len() > 0 && r.total_length > 0 ==> r.n75 <= r.n50 && r.n50 <= r.n25
                && r.n25 <= r.largest_contig
            &&& forall|i1: int, i2: int|
                0 <= i1 < i2 < r.length_histogram@.len() ==> r.length_histogram@[i1].0
                    < r.length_histogram@[i2].0
            &&& forall|i: int|
                0 <= i < r.length_histogram@.len() ==> (#[trigger] r.length_histogram@[i]).1 > 0
            &&& forall|k: int|
                #[trigger] hist_count(r.length_histogram@, k) == spec_bucket_count(rs, w, k)
            &&& hist_sum(r.length_histogram@) == sequences@.len()
            &&& forall|k: int|
                spec_bucket_count(rs, w, k) > 0 ==> hist_has_key(r.length_histogram@, k)
        }),
{
    let ghost rs = rec_views(sequences@);
    let ghost w = interval_size as int;
    let mut total: usize = 0;
    let mut gc: usize = 0;
    let mut nc: usize = 0;
    let mut largest: usize = 0;
    let mut shortest: usize = usize::MAX;
    let mut hist: Vec<(usize, usize)> = Vec::new();
    let mut lens: Vec<usize> = Vec::new();
    let n = sequences.len();
    let mut i: usize = 0;
    while i < n
        invariant
            n == sequences@.len(),
            i <= n,
            rs == rec_views(sequences@),
            w == interval_size as int,
            interval_size >= 1,
            spec_total(rs) <= usize::MAX,
            total == spec_total(rs.take(i as int)),
            gc == spec_gc(rs.take(i as int)),
            nc == spec_nc(rs.take(i as int)),
            gc + nc <= total,
            largest == spec_max(rs.take(i as int)),
            shortest == spec_min(rs.take(i as int)),
            lens@ == spec_lengths(rs.take(i as int)),
            forall|i1: int, i2: int|
                0 <= i1 < i2 < hist@.len() ==> hist@[i1].0 < hist@[i2].0,
            forall|j: int| 0 <= j < hist@.len() ==> (#[trigger] hist@[j]).1 > 0,
            forall|k: int|
                #[trigger] hist_count(hist@, k) == spec_bucket_count(rs.take(i as int), w, k),
            hist_sum(hist@) == i,
        decreases n - i,
    {
        let ghost prefix = rs.take(i as int);
        let ghost prefix1 = rs.take(i as int + 1);
        proof {
            assert(prefix1.drop_last() =~= prefix);
            assert(prefix1.last() == rs[i as int]);
            assert(rs[i as int] == sequences@[i as int]@);
            lemma_total_prefix(rs, i as int + 1);
            lemma_sums_nonneg(prefix);
            lemma_counts_in_content(rs[i as int].content);
        }
        let seq_ref = &sequences[i];
        let length = seq_ref.content.len();
        total += length;
        let (g, nn) = count_bases(&seq_ref.content);
        gc += g;
        nc += nn;
        if length > largest {
            largest = length;
        }
        if length < shortest {
            shortest = length;
        }
        let bucket = length / interval_size;
        proof {
            lemma_hist_count_le_sum(hist@, bucket as int);
            assert forall|k: int| #[trigger] spec_bucket_count(prefix1, w, k)
                == spec_bucket_count(prefix, w, k) + if bucket as int == k {
                1int
            } else {
                0int
            } by {
                assert(prefix1.drop_last() =~= prefix);
            }
        }
        hist_bump(&mut hist, bucket);
        lens.push(length);
        i += 1;
    }
    proof {
        assert(rs.take(n as int) =~= rs);
    }

    let sorted = sorted_desc_copy(&lens);
    let t25: u128 = (total as u128) / 4;
    let t50: u128 = (total as u128) / 2;
    let t75: u128 = (total as u128) * 3 / 4;
    let ghost q25 = spec_quantile(sorted@, 0, t25 as int);
    let ghost q50 = spec_quantile(sorted@, 0, t50 as int);
    let ghost q75 = spec_quantile(sorted@, 0, t75 as int);
    let mut n25: usize = 0;
    let mut n50: usize = 0;
    let mut n75: usize = 0;
    let mut c: u128 = 0;
    let mut j: usize = 0;
    proof {
        assert(sorted@.skip(0) =~= sorted@);
    }
    while j < sorted.len()
        invariant
            j <= sorted@.len(),
            c <= (j as int) * (usize::MAX as int),
            sorted_by(sorted@, desc_leq()),
            q25 == spec_quantile(sorted@, 0, t25 as int),
            q50 == spec_quantile(sorted@, 0, t50 as int),
            q75 == spec_quantile(sorted@, 0, t75 as int),
            n25 != 0 ==> n25 == q25,
            n25 == 0 ==> spec_quantile(sorted@.skip(j as int), c as int, t25 as int) == q25,
            n50 != 0 ==> n50 == q50,
            n50 == 0 ==> spec_quantile(sorted@.skip(j as int), c as int, t50 as int) == q50,
            n75 != 0 ==> n75 == q75,
            n75 == 0 ==> spec_quantile(sorted@.skip(j as int), c as int, t75 as int) == q75,
        decreases sorted@.len() - j,
    {
        let x = sorted[j];
        proof {
            if n25 == 0 {
                lemma_quantile_step(sorted@, j as int, c as int, t25 as int, q25);
            }
            if n50 == 0 {
                lemma_quantile_step(sorted@, j as int, c as int, t50 as int, q50);
            }
            if n75 == 0 {
                lemma_quantile_step(sorted@, j as int, c as int, t75 as int, q75);
            }
            assert((j as int) * (usize::MAX as int) + (usize::MAX as int) == (j as int + 1) * (
            usize::MAX as int) && (j as int + 1) * (usize::MAX as int) <= (usize::MAX as int) * (
            usize::MAX as int)) by (nonlinear_arith)
                requires
                    0 <= j as int,
                    j as int + 1 <= usize::MAX as int,
            ;
            assert((usize::MAX as int) * (usize::MAX as int) < u128::MAX) by (nonlinear_arith);
            assert(c + x <= (j as int + 1) * (usize::MAX as int));
        }
        let newc = c + x as u128;
        if n25 == 0 && newc >= t25 {
            n25 = x;
        }
        if n50 == 0 && newc >= t50 {
            n50 = x;
        }
        if n75 == 0 && newc >= t75 {
            n75 = x;
        }
        c = newc;
        j += 1;
    }
    proof {
        assert(sorted@.skip(sorted@.len() as int) =~= Seq::<usize>::empty());
    }

    proof {
        // The three thresholds are ordered, so the walk results are
        // monotone; and every walk result is bounded by the first (largest)
        // sorted length, which is the largest contig.
        lemma_sums_nonneg(rs);
        let total_i = spec_total(rs);
        vstd::arithmetic::div_mod::lemma_div_is_ordered_by_denominator(total_i, 2, 4);
        vstd::arithmetic::div_mod::lemma_div_is_ordered(2 * total_i, 3 * total_i, 4);
        vstd::arithmetic::div_mod::lemma_div_denominator(2 * total_i, 2, 2);
        vstd::arithmetic::div_mod::lemma_div_by_multiple(total_i, 2);
        assert(total_i / 4 <= total_i / 2 <= total_i * 3 / 4);
        lemma_quantile_monotone(sorted@, 0, t25 as int, t50 as int);
        lemma_quantile_monotone(sorted@, 0, t50 as int, t75 as int);
        if sequences@.len() > 0 {
            lemma_lengths_max(rs);
            lemma_min_le_max(rs);
            lemma_desc_leq_total();
            spec_lengths(rs).lemma_sort_by_ensures(desc_leq());
            assert(sorted@.to_multiset() == spec_lengths(rs).to_multiset());
            assert(spec_lengths(rs).contains(spec_max(rs) as usize));
            assert(spec_lengths(rs).to_multiset().count(spec_max(rs) as usize) > 0);
            assert(sorted@.contains(spec_max(rs) as usize));
            assert forall|i2: int| 0 <= i2 < sorted@.len() implies #[trigger] sorted@[i2]
                <= spec_max(rs) by {
                assert(sorted@.contains(sorted@[i2]));
                assert(sorted@.to_multiset().count(sorted@[i2]) > 0);
                assert(spec_lengths(rs).contains(sorted@[i2]));
                let oi = choose|oi: int|
                    0 <= oi < spec_lengths(rs).len() && spec_lengths(rs)[oi] == sorted@[i2];
                assert(spec_lengths(rs)[oi] <= spec_max(rs));
            }
            lemma_quantile_le_bound(sorted@, 0, t25 as int, spec_max(rs) as usize);
        }
        assert forall|k: int| spec_bucket_count(rs, w, k) > 0 implies hist_has_key(
            hist@,
            k,
        ) by {
            assert(hist_count(hist@, k) == spec_bucket_count(rs, w, k));
            lemma_hist_count_key_exists(hist@, k);
        }
    }

    AnalysisResults {
        filenames: Vec::new(),
        total_length: total,
        sequence_count: n,
        gc_count: gc,
        n_count: nc,
        n25,
        n50,
        n75,
        largest_contig: largest,
        shortest_contig: shortest,
        length_histogram: hist,
    }
}

} // verus!
