use vstd::prelude::*;
use vstd::string::StringExecFns;
use crate::numfmt::{dec_str, fixed2_str, format_fixed2, usize_to_string};
use crate::records::str_views;
use crate::stats::AnalysisResults;

verus! {

/// The names joined with `+` between them.
pub open spec fn join_plus(names: Seq<Seq<char>>) -> Seq<char>
    decreases names.len(),
{
    if names.len() == 0 {
        Seq::empty()
    } else if names.len() == 1 {
        names[0]
    } else {
        names[0] + "+"@ + join_plus(names.drop_first())
    }
}

/// The header row written when the summary file is created.
pub open spec fn spec_csv_header() -> Seq<char> {
    "filenames;total_length;number_of_sequences;average_length;largest_contig;shortest_contig;total_GC;GC_percentage;total_N;N_percentage\n"@
}

/// One semicolon-separated summary row: the quoted filenames joined by
/// `+`, then the statistics; two-decimal fields rounded half away from
/// zero, with 0.00 as the sentinel for an empty record set; terminated
/// by a line feed.
pub open spec fn spec_csv_row(r: AnalysisResults) -> Seq<char> {
    "\""@ + join_plus(str_views(r.filenames@)) + "\";"@ + dec_str(r.total_length as int) + ";"@
        + dec_str(r.sequence_count as int) + ";"@ + fixed2_str(
        r.total_length as int,
        r.sequence_count as int,
    ) + ";"@ + dec_str(r.largest_contig as int) + ";"@ + dec_str(r.shortest_contig as int) + ";"@
        + dec_str(r.gc_count as int) + ";"@ + fixed2_str(
        r.gc_count as int * 100,
        r.total_length as int,
    ) + ";"@ + dec_str(r.n_count as int) + ";"@ + fixed2_str(
        r.n_count as int * 100,
        r.total_length as int,
    ) + "\n"@
}

/// Everything one run appends to the summary file: the header first when
/// the file does not exist yet, then the row.
pub open spec fn spec_csv_append(r: AnalysisResults, file_exists: bool) -> Seq<char> {
    if file_exists {
        spec_csv_row(r)
    } else {
        spec_csv_header() + spec_csv_row(r)
    }
}

/// Joins the filenames with `+`.
fn join_filenames(names: &Vec<String>) -> (s: String)
    ensures
        s@ == join_plus(str_views(names@)),
{
    let mut s = String::new();
    let n = names.len();
    let mut i: usize = 0;
    proof {
        assert(str_views(names@).skip(0) =~= str_views(names@));
        assert(s@ + join_plus(str_views(names@).skip(0)) =~= join_plus(str_views(names@)));
    }
    while i < n
        invariant
            i <= n,
            n == names@.len(),
            s@ + join_plus(str_views(names@).skip(i as int)) == join_plus(str_views(names@)),
        decreases n - i,
    {
        let ghost vs = str_views(names@);
        let ghost pre = s@;
        s = s.concat(names[i].as_str());
        if i + 1 < n {
            s = s.concat("+");
        }
        proof {
            assert(vs.skip(i as int)[0] == vs[i as int]);
            assert(vs.skip(i as int).drop_first() =~= vs.skip(i as int + 1));
            if i + 1 < n {
                assert(s@ + join_plus(vs.skip(i as int + 1)) =~= pre + join_plus(
                    vs.skip(i as int),
                ));
            } else {
                assert(vs.skip(i as int).len() == 1);
                assert(vs.skip(i as int + 1) =~= Seq::<Seq<char>>::empty());
                assert(s@ + join_plus(vs.skip(i as int + 1)) =~= pre + join_plus(
                    vs.skip(i as int),
                ));
            }
        }
        i += 1;
    }
    proof {
        assert(str_views(names@).skip(n as int) =~= Seq::<Seq<char>>::empty());
        assert(s@ + join_plus(Seq::<Seq<char>>::empty()) =~= s@);
    }
    s
}

/// The header row, with its line feed.
pub fn csv_header_line() -> (s: String)
    ensures
        s@ == spec_csv_header(),
{
    String::from_str(
        "filenames;total_length;number_of_sequences;average_length;largest_contig;shortest_contig;total_GC;GC_percentage;total_N;N_percentage\n",
    )
}

/// One summary row for `r`, with its line feed.
pub fn csv_row(r: &AnalysisResults) -> (s: String)
    ensures
        s@ == spec_csv_row(*r),
{
    let mut s = String::from_str("\"");
    s = s.concat(join_filenames(&r.filenames).as_str());
    s = s.concat("\";");
    s = s.concat(usize_to_string(r.total_length).as_str());
    s = s.concat(";");
    s = s.concat(usize_to_string(r.sequence_count).as_str());
    s = s.concat(";");
    s = s.concat(format_fixed2(r.total_length as u128, r.sequence_count as u128).as_str());
    s = s.concat(";");
    s = s.concat(usize_to_string(r.largest_contig).as_str());
    s = s.concat(";");
    s = s.concat(usize_to_string(r.shortest_contig).as_str());
    s = s.concat(";");
    s = s.concat(usize_to_string(r.gc_count).as_str());
    s = s.concat(";");
    s = s.concat(format_fixed2((r.gc_count as u128) * 100, r.total_length as u128).as_str());
    s = s.concat(";");
    s = s.concat(usize_to_string(r.n_count).as_str());
    s = s.concat(";");
    s = s.concat(format_fixed2((r.n_count as u128) * 100, r.total_length as u128).as_str());
    s = s.concat("\n");
    proof {
        assert(s@ =~= spec_csv_row(*r));
    }
    s
}

/// What one run appends to the summary file at `path`-side: the caller
/// reports whether the file already exists; a fresh file gets the header
/// before the row.
pub fn csv_append_content(r: &AnalysisResults, file_exists: bool) -> (s: String)
    ensures
        s@ == spec_csv_append(*r, file_exists),
{
    if file_exists {
        csv_row(r)
    } else {
        let s = csv_header_line();
        s.concat(csv_row(r).as_str())
    }
}

} // verus!
