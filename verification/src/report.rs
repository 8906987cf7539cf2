use vstd::prelude::*;
use vstd::string::StringExecFns;
use crate::numfmt::{dec_str, fixed2_str, format_fixed2, u128_to_string, usize_to_string};
use crate::stats::AnalysisResults;

verus! {

/// The average contig length shown in the report: truncating division,
/// with 0 as the sentinel for an empty record set.
pub open spec fn spec_avg(total: int, count: int) -> int {
    if count == 0 {
        0
    } else {
        total / count
    }
}

/// The histogram section: one `lo:hi<TAB>count` line per stored bucket,
/// in stored (ascending) order, where `lo = k·w` and `hi = (k+1)·w − 1`.
pub open spec fn hist_lines(h: Seq<(usize, usize)>, w: int) -> Seq<char>
    decreases h.len(),
{
    if h.len() == 0 {
        Seq::empty()
    } else {
        dec_str((h[0].0 as int) * w) + ":"@ + dec_str((h[0].0 as int + 1) * w - 1) + "\t"@
            + dec_str(h[0].1 as int) + "\n"@ + hist_lines(h.drop_first(), w)
    }
}

/// The fixed human-readable report, labels and order as consumers grep
/// them. Percentages carry two decimals, rounded half away from zero;
/// an empty record set shows 0 as average and 0.00 as percentages.
pub open spec fn spec_report(r: AnalysisResults, w: int) -> Seq<char> {
    "\nTotal length of sequence:\t"@ + dec_str(r.total_length as int) + " bp\n"@
        + "Total number of sequences:\t"@ + dec_str(r.sequence_count as int) + "\n"@
        + "Average contig length is:\t"@ + dec_str(
        spec_avg(r.total_length as int, r.sequence_count as int),
    ) + " bp\n"@ + "Largest contig:\t\t"@ + dec_str(r.largest_contig as int) + " bp\n"@
        + "Shortest contig:\t\t"@ + dec_str(r.shortest_contig as int) + " bp\n"@
        + "N25 stats:\t\t\t25% of total sequence length is contained in the sequences >= "@
        + dec_str(r.n25 as int) + " bp\n"@
        + "N50 stats:\t\t\t50% of total sequence length is contained in the sequences >= "@
        + dec_str(r.n50 as int) + " bp\n"@
        + "N75 stats:\t\t\t75% of total sequence length is contained in the sequences >= "@
        + dec_str(r.n75 as int) + " bp\n"@ + "Total GC count:\t\t\t"@ + dec_str(r.gc_count as int)
        + " bp\n"@ + "GC %:\t\t\t\t"@ + fixed2_str(
        r.gc_count as int * 100,
        r.total_length as int,
    ) + " %\n"@ + "Number of Ns:\t\t\t"@ + dec_str(r.n_count as int) + "\n"@ + "Ns %:\t\t\t\t"@
        + fixed2_str(r.n_count as int * 100, r.total_length as int) + " %\n"@
        + "\nLength histogram:\n"@ + hist_lines(r.length_histogram@, w)
}

/// Bounds that let the histogram labels be computed without overflow.
proof fn lemma_u128_products(k: int, w: int)
    requires
        0 <= k <= usize::MAX,
        1 <= w <= usize::MAX,
    ensures
        0 <= k * w <= (usize::MAX as int) * (usize::MAX as int),
        1 <= (k + 1) * w <= (usize::MAX as int + 1) * (usize::MAX as int),
        (usize::MAX as int + 1) * (usize::MAX as int) < u128::MAX,
{
    assert(0 <= k * w <= (usize::MAX as int) * (usize::MAX as int) && 1 <= (k + 1) * w <= (
    usize::MAX as int + 1) * (usize::MAX as int)) by (nonlinear_arith)
        requires
            0 <= k <= usize::MAX,
            1 <= w <= usize::MAX,
    ;
    assert((usize::MAX as int + 1) * (usize::MAX as int) < u128::MAX) by (nonlinear_arith);
}

/// Renders the report of `r` for histogram width `interval_size`.
pub fn format_report(r: &AnalysisResults, interval_size: usize) -> (s: String)
    requires
        interval_size >= 1,
    ensures
        s@ == spec_report(*r, interval_size as int),
{
    let avg: usize = if r.sequence_count == 0 {
        0
    } else {
        r.total_length / r.sequence_count
    };
    let mut s = String::from_str("\nTotal length of sequence:\t");
    s = s.concat(usize_to_string(r.total_length).as_str());
    s = s.concat(" bp\n");
    s = s.concat("Total number of sequences:\t");
    s = s.concat(usize_to_string(r.sequence_count).as_str());
    s = s.concat("\n");
    s = s.concat("Average contig length is:\t");
    s = s.concat(usize_to_string(avg).as_str());
    s = s.concat(" bp\n");
    s = s.concat("Largest contig:\t\t");
    s = s.concat(usize_to_string(r.largest_contig).as_str());
    s = s.concat(" bp\n");
    s = s.concat("Shortest contig:\t\t");
    s = s.concat(usize_to_string(r.shortest_contig).as_str());
    s = s.concat(" bp\n");
    s = s.concat("N25 stats:\t\t\t25% of total sequence length is contained in the sequences >= ");
    s = s.concat(usize_to_string(r.n25).as_str());
    s = s.concat(" bp\n");
    s = s.concat("N50 stats:\t\t\t50% of total sequence length is contained in the sequences >= ");
    s = s.concat(usize_to_string(r.n50).as_str());
    s = s.concat(" bp\n");
    s = s.concat("N75 stats:\t\t\t75% of total sequence length is contained in the sequences >= ");
    s = s.concat(usize_to_string(r.n75).as_str());
    s = s.concat(" bp\n");
    s = s.concat("Total GC count:\t\t\t");
    s = s.concat(usize_to_string(r.gc_count).as_str());
    s = s.concat(" bp\n");
    s = s.concat("GC %:\t\t\t\t");
    s = s.concat(format_fixed2((r.gc_count as u128) * 100, r.total_length as u128).as_str());
    s = s.concat(" %\n");
    s = s.concat("Number of Ns:\t\t\t");
    s = s.concat(usize_to_string(r.n_count).as_str());
    s = s.concat("\n");
    s = s.concat("Ns %:\t\t\t\t");
    s = s.concat(format_fixed2((r.n_count as u128) * 100, r.total_length as u128).as_str());
    s = s.concat(" %\n");
    s = s.concat("\nLength histogram:\n");
    proof {
        assert(r.length_histogram@.skip(0) =~= r.length_histogram@);
        assert(s@ + hist_lines(r.length_histogram@.skip(0), interval_size as int) =~= spec_report(
            *r,
            interval_size as int,
        ));
    }
    let ghost w = interval_size as int;
    let mut i: usize = 0;
    while i < r.length_histogram.len()
        invariant
            i <= r.length_histogram@.len(),
            interval_size >= 1,
            w == interval_size as int,
            s@ + hist_lines(r.length_histogram@.skip(i as int), w) == spec_report(*r, w),
        decreases r.length_histogram@.len() - i,
    {
        let ghost pre = s@;
        let (k, count) = r.length_histogram[i];
        proof {
            lemma_u128_products(k as int, w);
        }
        let lo: u128 = (k as u128) * (interval_size as u128);
        let hi: u128 = ((k as u128) + 1) * (interval_size as u128) - 1;
        s = s.concat(u128_to_string(lo).as_str());
        s = s.concat(":");
        s = s.concat(u128_to_string(hi).as_str());
        s = s.concat("\t");
        s = s.concat(usize_to_string(count).as_str());
        s = s.concat("\n");
        proof {
            let h = r.length_histogram@;
            assert(h.skip(i as int)[0] == h[i as int]);
            assert(h.skip(i as int).drop_first() =~= h.skip(i as int + 1));
            assert(s@ =~= pre + (dec_str((h[i as int].0 as int) * w) + ":"@ + dec_str(
                (h[i as int].0 as int + 1) * w - 1,
            ) + "\t"@ + dec_str(h[i as int].1 as int) + "\n"@));
            assert(s@ + hist_lines(h.skip(i as int + 1), w) =~= pre + hist_lines(
                h.skip(i as int),
                w,
            ));
        }
        i += 1;
    }
    proof {
        assert(r.length_histogram@.skip(r.length_histogram@.len() as int) =~= Seq::<(
            usize,
            usize,
        )>::empty());
        assert(s@ + hist_lines(Seq::<(usize, usize)>::empty(), w) =~= s@);
    }
    s
}

} // verus!
