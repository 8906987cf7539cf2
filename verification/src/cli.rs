use vstd::prelude::*;
use vstd::string::{StrSliceExecFns, StringExecFns};
use crate::records::str_views;

verus! {

/// An ASCII decimal digit.
pub open spec fn is_digit(c: char) -> bool {
    48 <= c as int && c as int <= 57
}

/// The value of a digit string, most significant digit first.
pub open spec fn digits_val(s: Seq<char>) -> int
    decreases s.len(),
{
    if s.len() == 0 {
        0
    } else {
        digits_val(s.drop_last()) * 10 + (s.last() as int - 48)
    }
}

/// The positive integer a token denotes: one or more digits and nothing
/// else, value at least 1 and within `usize`.
pub open spec fn spec_parse_pos(s: Seq<char>) -> Option<usize> {
    if s.len() > 0 && (forall|i: int| 0 <= i < s.len() ==> is_digit(s[i])) && 1 <= digits_val(s)
        <= usize::MAX as int {
        Option::Some(digits_val(s) as usize)
    } else {
        Option::None
    }
}

/// The configuration the argument walk produces: interval width, optional
/// summary-file path, input files in order, and how many interval values
/// failed to parse (each one is warned about and the default retained).
#[verifier::ext_equal]
pub ghost struct CliModel {
    pub interval: int,
    pub csv: Option<Seq<char>>,
    pub files: Seq<Seq<char>>,
    pub warnings: int,
}

/// One pass over the arguments from position `i`, mirroring the
/// command-line grammar: `-i`/`--interval` takes a positive integer (on
/// failure: warn and keep the current value; missing value: skip);
/// `-c`/`--csv` takes a path (missing value: silently ignored); a
/// positional token that parses as a positive integer while no input file
/// has been named sets the interval, any other token names an input file.
pub open spec fn spec_cli_from(args: Seq<String>, i: int, m: CliModel) -> CliModel
    decreases args.len() - i,
{
    if i < 0 || i >= args.len() {
        m
    } else if args[i]@ == "-i"@ || args[i]@ == "--interval"@ {
        if i + 1 < args.len() {
            match spec_parse_pos(args[i + 1]@) {
                Option::Some(v) => spec_cli_from(
                    args,
                    i + 2,
                    CliModel { interval: v as int, ..m },
                ),
                Option::None => spec_cli_from(
                    args,
                    i + 1,
                    CliModel { warnings: m.warnings + 1, ..m },
                ),
            }
        } else {
            spec_cli_from(args, i + 1, m)
        }
    } else if args[i]@ == "-c"@ || args[i]@ == "--csv"@ {
        if i + 1 < args.len() {
            spec_cli_from(args, i + 2, CliModel { csv: Option::Some(args[i + 1]@), ..m })
        } else {
            spec_cli_from(args, i + 1, m)
        }
    } else {
        if m.files.len() == 0 && spec_parse_pos(args[i]@) is Some {
            spec_cli_from(
                args,
                i + 1,
                CliModel { interval: spec_parse_pos(args[i]@)->Some_0 as int, ..m },
            )
        } else {
            spec_cli_from(args, i + 1, CliModel { files: m.files.push(args[i]@), ..m })
        }
    }
}

/// The configuration denoted by a full argument vector (the first entry
/// is the program name): default interval 100, no summary file, no inputs.
pub open spec fn spec_cli(args: Seq<String>) -> CliModel {
    spec_cli_from(
        args,
        1,
        CliModel {
            interval: 100,
            csv: Option::None,
            files: Seq::empty(),
            warnings: 0,
        },
    )
}

/// The parsed command line, ready for the pipeline to run on.
pub struct Config {
    pub interval_size: usize,
    pub csv_filename: Option<String>,
    pub fasta_files: Vec<String>,
    pub invalid_interval_count: usize,
}

/// The view of an optional path.
pub open spec fn opt_view(o: Option<String>) -> Option<Seq<char>> {
    match o {
        Option::None => Option::None,
        Option::Some(p) => Option::Some(p@),
    }
}

/// The exec state and the model agree field by field.
pub open spec fn config_matches(c: Config, m: CliModel) -> bool {
    &&& c.interval_size as int == m.interval
    &&& opt_view(c.csv_filename) == m.csv
    &&& str_views(c.fasta_files@) == m.files
    &&& c.invalid_interval_count as int == m.warnings
}

proof fn lemma_digits_val_bounds(s: Seq<char>)
    requires
        forall|i: int| 0 <= i < s.len() ==> is_digit(s[i]),
    ensures
        digits_val(s) >= 0,
    decreases s.len(),
{
    if s.len() > 0 {
        assert forall|i: int| 0 <= i < s.drop_last().len() implies is_digit(
            s.drop_last()[i],
        ) by {
            assert(s.drop_last()[i] == s[i]);
        }
        lemma_digits_val_bounds(s.drop_last());
    }
}

/// A digit string is worth at least any of its prefixes.
proof fn lemma_digits_val_prefix(s: Seq<char>, k: int)
    requires
        forall|i: int| 0 <= i < s.len() ==> is_digit(s[i]),
        0 <= k <= s.len(),
    ensures
        digits_val(s.take(k)) <= digits_val(s),
    decreases s.len(),
{
    if k == s.len() {
        assert(s.take(k) =~= s);
    } else {
        assert forall|i: int| 0 <= i < s.drop_last().len() implies is_digit(
            s.drop_last()[i],
        ) by {
            assert(s.drop_last()[i] == s[i]);
        }
        lemma_digits_val_bounds(s.drop_last());
        lemma_digits_val_prefix(s.drop_last(), k);
        assert(s.drop_last().take(k) =~= s.take(k));
    }
}

/// Parses a token as a positive integer: digits only, at least 1, within
/// `usize`; anything else is `None`.
pub fn parse_positive(s: &String) -> (r: Option<usize>)
    ensures
        r == spec_parse_pos(s@),
{
    let st = s.as_str();
    let len = st.unicode_len();
    if len == 0 {
        return Option::None;
    }
    let mut val: u128 = 0;
    let mut i: usize = 0;
    while i < len
        invariant
            i <= len,
            len == st@.len(),
            st@ == s@,
            forall|k: int| 0 <= k < i ==> is_digit(st@[k]),
            val == digits_val(st@.take(i as int)),
            val <= usize::MAX as u128,
        decreases len - i,
    {
        let c = st.get_char(i);
        let d = c as u32;
        if d < 48 || d > 57 {
            return Option::None;
        }
        proof {
            assert(st@.take(i as int + 1).drop_last() =~= st@.take(i as int));
            assert(st@.take(i as int + 1).last() == st@[i as int]);
        }
        let newval: u128 = val * 10 + (d - 48) as u128;
        proof {
            assert(newval == digits_val(st@.take(i as int + 1)));
        }
        if newval > (usize::MAX as u128) {
            proof {
                if forall|k: int| 0 <= k < st@.len() ==> is_digit(st@[k]) {
                    lemma_digits_val_prefix(st@, i as int + 1);
                    assert(digits_val(st@) > usize::MAX as int);
                }
            }
            return Option::None;
        }
        val = newval;
        i += 1;
    }
    proof {
        assert(st@.take(len as int) =~= st@);
    }
    if val == 0 {
        Option::None
    } else {
        Option::Some(val as usize)
    }
}

/// Walks the argument vector (program name first) into a `Config`,
/// exactly as `spec_cli` describes; yields `Err` when no input file was
/// named, which the caller reports as a usage error.
pub fn parse_args(args: &Vec<String>) -> (r: Result<Config, ()>)
    ensures
        ({
            let m = spec_cli(args@);
            match r {
                Result::Err(_) => m.files.len() == 0,
                Result::Ok(c) => m.files.len() > 0 && config_matches(c, m),
            }
        }),
{
    let flag_i_short = String::from_str("-i");
    let flag_i_long = String::from_str("--interval");
    let flag_c_short = String::from_str("-c");
    let flag_c_long = String::from_str("--csv");
    let mut interval_size: usize = 100;
    let mut csv_filename: Option<String> = Option::None;
    let mut fasta_files: Vec<String> = Vec::new();
    let mut warnings: usize = 0;
    let n = args.len();
    let mut i: usize = 1;
    proof {
        assert(str_views(fasta_files@) =~= Seq::<Seq<char>>::empty());
        assert(spec_cli(args@) == spec_cli_from(
            args@,
            1,
            CliModel {
                interval: 100,
                csv: Option::None,
                files: str_views(fasta_files@),
                warnings: 0,
            },
        ));
    }
    while i < n
        invariant
            n == args@.len(),
            warnings <= i,
            flag_i_short@ == "-i"@,
            flag_i_long@ == "--interval"@,
            flag_c_short@ == "-c"@,
            flag_c_long@ == "--csv"@,
            spec_cli(args@) == spec_cli_from(
                args@,
                i as int,
                CliModel {
                    interval: interval_size as int,
                    csv: opt_view(csv_filename),
                    files: str_views(fasta_files@),
                    warnings: warnings as int,
                },
            ),
        decreases n - i,
    {
        let ghost m = CliModel {
            interval: interval_size as int,
            csv: opt_view(csv_filename),
            files: str_views(fasta_files@),
            warnings: warnings as int,
        };
        let a = &args[i];
        if a.eq(&flag_i_short) || a.eq(&flag_i_long) {
            if i + 1 < n {
                match parse_positive(&args[i + 1]) {
                    Option::Some(v) => {
                        interval_size = v;
                        i += 2;
                    },
                    Option::None => {
                        warnings += 1;
                        i += 1;
                        proof {
                            assert(CliModel { warnings: m.warnings + 1, ..m } =~= CliModel {
                                interval: interval_size as int,
                                csv: opt_view(csv_filename),
                                files: str_views(fasta_files@),
                                warnings: warnings as int,
                            });
                        }
                    },
                }
            } else {
                i += 1;
            }
        } else if a.eq(&flag_c_short) || a.eq(&flag_c_long) {
            if i + 1 < n {
                csv_filename = Option::Some(args[i + 1].clone());
                i += 2;
            } else {
                i += 1;
            }
        } else {
            let mut took_interval = false;
            if fasta_files.len() == 0 {
                match parse_positive(a) {
                    Option::Some(v) => {
                        interval_size = v;
                        took_interval = true;
                    },
                    Option::None => {},
                }
            }
            if !took_interval {
                let ghost old_files = fasta_files@;
                fasta_files.push(a.clone());
                proof {
                    assert(str_views(fasta_files@) =~= str_views(old_files).push(args@[i as int]@));
                }
            }
            i += 1;
        }
    }
    if fasta_files.len() == 0 {
        Result::Err(())
    } else {
        Result::Ok(
            Config {
                interval_size,
                csv_filename,
                fasta_files,
                invalid_interval_count: warnings,
            },
        )
    }
}

} // verus!
