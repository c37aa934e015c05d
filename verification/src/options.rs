use vstd::prelude::*;

use crate::text::{parse_u32, parse_u32_spec};

verus! {

/// The settings that the command line can change.
pub struct ArgSettings {
    pub verbose: bool,
    pub report: bool,
    pub check_decode: bool,
    pub skip_count: u32,
    pub count: u32,
    pub input: Seq<char>,
    pub output: Seq<char>,
}

/// Why a command line was refused.
#[derive(PartialEq, Eq, Structural, Debug, Clone, Copy)]
pub enum ArgError {
    /// `-skip_count` stands last.
    MissingSkipCount,
    /// The value after `-skip_count` is no `u32`.
    InvalidSkipCount,
    /// `-count` stands last.
    MissingCount,
    /// The value after `-count` is no `u32`.
    InvalidCount,
    /// `-in` stands last.
    MissingInput,
    /// `-out` stands last.
    MissingOutput,
}

/// Reads the options in `args` from index `i` on: each flag sets or clears
/// its setting, each option with a value takes the next argument, and any
/// other argument is passed over. Gives the settings reached and, where an
/// option lacks its value or a count is no `u32`, the error (the settings
/// are then those reached before that option).
pub open spec fn parse_args_from(args: Seq<Seq<char>>, i: nat, st: ArgSettings) -> (
    ArgSettings,
    Option<ArgError>,
)
    decreases args.len() - i,
{
    if i >= args.len() {
        (st, None)
    } else {
        let a = args[i as int];
        if a == "-verbose"@ {
            parse_args_from(args, i + 1, ArgSettings { verbose: true, ..st })
        } else if a == "-no_verbose"@ {
            parse_args_from(args, i + 1, ArgSettings { verbose: false, ..st })
        } else if a == "-report"@ {
            parse_args_from(args, i + 1, ArgSettings { report: true, ..st })
        } else if a == "-no_report"@ {
            parse_args_from(args, i + 1, ArgSettings { report: false, ..st })
        } else if a == "-check_decode"@ {
            parse_args_from(args, i + 1, ArgSettings { check_decode: true, ..st })
        } else if a == "-no_check_decode"@ {
            parse_args_from(args, i + 1, ArgSettings { check_decode: false, ..st })
        } else if a == "-skip_count"@ {
            if i + 1 < args.len() {
                match parse_u32_spec(args[i + 1 as int]) {
                    Some(v) => parse_args_from(args, i + 2, ArgSettings { skip_count: v, ..st }),
                    None => (st, Some(ArgError::InvalidSkipCount)),
                }
            } else {
                (st, Some(ArgError::MissingSkipCount))
            }
        } else if a == "-count"@ {
            if i + 1 < args.len() {
                match parse_u32_spec(args[i + 1 as int]) {
                    Some(v) => parse_args_from(args, i + 2, ArgSettings { count: v, ..st }),
                    None => (st, Some(ArgError::InvalidCount)),
                }
            } else {
                (st, Some(ArgError::MissingCount))
            }
        } else if a == "-in"@ {
            if i + 1 < args.len() {
                parse_args_from(args, i + 2, ArgSettings { input: args[i + 1 as int], ..st })
            } else {
                (st, Some(ArgError::MissingInput))
            }
        } else if a == "-out"@ {
            if i + 1 < args.len() {
                parse_args_from(args, i + 2, ArgSettings { output: args[i + 1 as int], ..st })
            } else {
                (st, Some(ArgError::MissingOutput))
            }
        } else {
            parse_args_from(args, i + 1, st)
        }
    }
}

pub open spec fn arg_views(args: Seq<String>) -> Seq<Seq<char>> {
    args.map_values(|a: String| a@)
}

fn is_arg(arg: &String, flag: &str) -> (r: bool)
    ensures
        r == (arg@ == flag@),
{
    let f: String = flag.to_owned();
    *arg == f
}

/// Applies the command-line arguments `args` (without the program name) to
/// the settings: `-verbose`/`-no_verbose`, `-report`/`-no_report` and
/// `-check_decode`/`-no_check_decode` set or clear their flag;
/// `-skip_count n` and `-count n` set a count; `-in path` and `-out path`
/// set a file path; other arguments are passed over.
pub fn parse_args(
    args: &[String],
    verbose: &mut bool,
    report: &mut bool,
    check_decode: &mut bool,
    skip_count: &mut u32,
    count: &mut u32,
    input_file_path: &mut String,
    output_file_path: &mut String,
) -> (r: Result<(), ArgError>)
    ensures
        ({
            let (st, err) = parse_args_from(
                arg_views(args@),
                0,
                ArgSettings {
                    verbose: *old(verbose),
                    report: *old(report),
                    check_decode: *old(check_decode),
                    skip_count: *old(skip_count),
                    count: *old(count),
                    input: old(input_file_path)@,
                    output: old(output_file_path)@,
                },
            );
            &&& *final(verbose) == st.verbose
            &&& *final(report) == st.report
            &&& *final(check_decode) == st.check_decode
            &&& *final(skip_count) == st.skip_count
            &&& *final(count) == st.count
            &&& final(input_file_path)@ == st.input
            &&& final(output_file_path)@ == st.output
            &&& match err {
                None => r is Ok,
                Some(e) => r == Err::<(), ArgError>(e),
            }
        }),
{
    let ghost views = arg_views(args@);
    let ghost start = ArgSettings {
        verbose: *verbose,
        report: *report,
        check_decode: *check_decode,
        skip_count: *skip_count,
        count: *count,
        input: input_file_path@,
        output: output_file_path@,
    };
    let mut i: usize = 0;
    while i < args.len()
        invariant
            i <= args.len(),
            views == arg_views(args@),
            views.len() == args@.len(),
            start == (ArgSettings {
                verbose: *old(verbose),
                report: *old(report),
                check_decode: *old(check_decode),
                skip_count: *old(skip_count),
                count: *old(count),
                input: old(input_file_path)@,
                output: old(output_file_path)@,
            }),
            parse_args_from(views, i as nat, ArgSettings {
                verbose: *verbose,
                report: *report,
                check_decode: *check_decode,
                skip_count: *skip_count,
                count: *count,
                input: input_file_path@,
                output: output_file_path@,
            }) == parse_args_from(views, 0, start),
        decreases args.len() - i,
    {
        let arg = &args[i];
        proof {
            assert(views[i as int] == arg@);
        }
        if is_arg(arg, "-verbose") {
            *verbose = true;
        } else if is_arg(arg, "-no_verbose") {
            *verbose = false;
        } else if is_arg(arg, "-report") {
            *report = true;
        } else if is_arg(arg, "-no_report") {
            *report = false;
        } else if is_arg(arg, "-check_decode") {
            *check_decode = true;
        } else if is_arg(arg, "-no_check_decode") {
            *check_decode = false;
        } else if is_arg(arg, "-skip_count") {
            if i + 1 < args.len() {
                proof {
                    assert(views[i + 1] == args@[i + 1]@);
                }
                match parse_u32(args[i + 1].as_str()) {
                    Some(v) => {
                        *skip_count = v;
                        i = i + 1;
                    },
                    None => {
                        return Err(ArgError::InvalidSkipCount);
                    },
                }
            } else {
                return Err(ArgError::MissingSkipCount);
            }
        } else if is_arg(arg, "-count") {
            if i + 1 < args.len() {
                proof {
                    assert(views[i + 1] == args@[i + 1]@);
                }
                match parse_u32(args[i + 1].as_str()) {
                    Some(v) => {
                        *count = v;
                        i = i + 1;
                    },
                    None => {
                        return Err(ArgError::InvalidCount);
                    },
                }
            } else {
                return Err(ArgError::MissingCount);
            }
        } else if is_arg(arg, "-in") {
            if i + 1 < args.len() {
                proof {
                    assert(views[i + 1] == args@[i + 1]@);
                }
                *input_file_path = args[i + 1].clone();
                i = i + 1;
            } else {
                return Err(ArgError::MissingInput);
            }
        } else if is_arg(arg, "-out") {
            if i + 1 < args.len() {
                proof {
                    assert(views[i + 1] == args@[i + 1]@);
                }
                *output_file_path = args[i + 1].clone();
                i = i + 1;
            } else {
                return Err(ArgError::MissingOutput);
            }
        }
        i = i + 1;
    }
    Ok(())
}

/// Where reading the options goes after index `i`: past the value of an
/// option that takes one, otherwise to the next argument.
pub open spec fn next_option_pos(args: Seq<Seq<char>>, i: nat) -> nat {
    let a = args[i as int];
    if a == "-verbose"@ || a == "-no_verbose"@ || a == "-report"@ || a == "-no_report"@ || a
        == "-check_decode"@ || a == "-no_check_decode"@ {
        i + 1
    } else if (a == "-skip_count"@ || a == "-count"@ || a == "-in"@ || a == "-out"@) && i + 1
        < args.len() {
        i + 2
    } else {
        i + 1
    }
}

/// Whether `n1` or `n2` stands in `args` at a place where an option is read
/// (not as the value of another option), from index `i` on.
pub open spec fn option_named(args: Seq<Seq<char>>, i: nat, n1: Seq<char>, n2: Seq<char>) -> bool
    decreases args.len() - i,
{
    if i >= args.len() {
        false
    } else {
        args[i as int] == n1 || args[i as int] == n2 || option_named(
            args,
            next_option_pos(args, i),
            n1,
            n2,
        )
    }
}

/// A setting whose options are never named (where options are read) keeps
/// the value it had, whether the arguments are accepted or refused.
pub proof fn lemma_unnamed_setting_kept(args: Seq<Seq<char>>, i: nat, st: ArgSettings)
    ensures
        ({
            let r = parse_args_from(args, i, st).0;
            &&& !option_named(args, i, "-verbose"@, "-no_verbose"@) ==> r.verbose == st.verbose
            &&& !option_named(args, i, "-report"@, "-no_report"@) ==> r.report == st.report
            &&& !option_named(args, i, "-check_decode"@, "-no_check_decode"@) ==> r.check_decode
                == st.check_decode
            &&& !option_named(args, i, "-skip_count"@, "-skip_count"@) ==> r.skip_count
                == st.skip_count
            &&& !option_named(args, i, "-count"@, "-count"@) ==> r.count == st.count
            &&& !option_named(args, i, "-in"@, "-in"@) ==> r.input == st.input
            &&& !option_named(args, i, "-out"@, "-out"@) ==> r.output == st.output
        }),
    decreases args.len() - i,
{
    if i < args.len() {
        let a = args[i as int];
        if a == "-verbose"@ {
            lemma_unnamed_setting_kept(args, i + 1, ArgSettings { verbose: true, ..st });
        } else if a == "-no_verbose"@ {
            lemma_unnamed_setting_kept(args, i + 1, ArgSettings { verbose: false, ..st });
        } else if a == "-report"@ {
            lemma_unnamed_setting_kept(args, i + 1, ArgSettings { report: true, ..st });
        } else if a == "-no_report"@ {
            lemma_unnamed_setting_kept(args, i + 1, ArgSettings { report: false, ..st });
        } else if a == "-check_decode"@ {
            lemma_unnamed_setting_kept(args, i + 1, ArgSettings { check_decode: true, ..st });
        } else if a == "-no_check_decode"@ {
            lemma_unnamed_setting_kept(args, i + 1, ArgSettings { check_decode: false, ..st });
        } else if a == "-skip_count"@ {
            if i + 1 < args.len() {
                if let Some(v) = parse_u32_spec(args[i + 1 as int]) {
                    lemma_unnamed_setting_kept(args, i + 2, ArgSettings { skip_count: v, ..st });
                }
            }
        } else if a == "-count"@ {
            if i + 1 < args.len() {
                if let Some(v) = parse_u32_spec(args[i + 1 as int]) {
                    lemma_unnamed_setting_kept(args, i + 2, ArgSettings { count: v, ..st });
                }
            }
        } else if a == "-in"@ {
            if i + 1 < args.len() {
                lemma_unnamed_setting_kept(
                    args,
                    i + 2,
                    ArgSettings { input: args[i + 1 as int], ..st },
                );
            }
        } else if a == "-out"@ {
            if i + 1 < args.len() {
                lemma_unnamed_setting_kept(
                    args,
                    i + 2,
                    ArgSettings { output: args[i + 1 as int], ..st },
                );
            }
        } else {
            lemma_unnamed_setting_kept(args, i + 1, st);
        }
    }
}

/// The option names are different strings.
proof fn lemma_option_names_distinct()
    ensures
        "-verbose"@ != "-no_verbose"@,
        "-report"@ != "-no_report"@,
        "-check_decode"@ != "-no_check_decode"@,
        ("-report"@ != "-verbose"@ && "-report"@ != "-no_verbose"@),
        ("-no_report"@ != "-verbose"@ && "-no_report"@ != "-no_verbose"@),
        ("-check_decode"@ != "-verbose"@ && "-check_decode"@ != "-no_verbose"@
            && "-check_decode"@ != "-report"@ && "-check_decode"@ != "-no_report"@),
        ("-no_check_decode"@ != "-verbose"@ && "-no_check_decode"@ != "-no_verbose"@
            && "-no_check_decode"@ != "-report"@ && "-no_check_decode"@ != "-no_report"@),
        ("-skip_count"@ != "-verbose"@ && "-skip_count"@ != "-no_verbose"@ && "-skip_count"@
            != "-report"@ && "-skip_count"@ != "-no_report"@ && "-skip_count"@ != "-check_decode"@
            && "-skip_count"@ != "-no_check_decode"@),
        ("-count"@ != "-verbose"@ && "-count"@ != "-no_verbose"@ && "-count"@ != "-report"@
            && "-count"@ != "-no_report"@ && "-count"@ != "-check_decode"@ && "-count"@
            != "-no_check_decode"@ && "-count"@ != "-skip_count"@),
        ("-in"@ != "-verbose"@ && "-in"@ != "-no_verbose"@ && "-in"@ != "-report"@ && "-in"@
            != "-no_report"@ && "-in"@ != "-check_decode"@ && "-in"@ != "-no_check_decode"@
            && "-in"@ != "-skip_count"@ && "-in"@ != "-count"@),
        ("-out"@ != "-verbose"@ && "-out"@ != "-no_verbose"@ && "-out"@ != "-report"@ && "-out"@
            != "-no_report"@ && "-out"@ != "-check_decode"@ && "-out"@ != "-no_check_decode"@
            && "-out"@ != "-skip_count"@ && "-out"@ != "-count"@ && "-out"@ != "-in"@),
{
    reveal_strlit("-verbose");
    reveal_strlit("-no_verbose");
    reveal_strlit("-report");
    reveal_strlit("-no_report");
    reveal_strlit("-check_decode");
    reveal_strlit("-no_check_decode");
    reveal_strlit("-skip_count");
    reveal_strlit("-count");
    reveal_strlit("-in");
    reveal_strlit("-out");
    assert("-verbose"@.len() == 8);
    assert("-no_verbose"@.len() == 11);
    assert("-report"@.len() == 7);
    assert("-no_report"@.len() == 10);
    assert("-check_decode"@.len() == 13);
    assert("-no_check_decode"@.len() == 16);
    assert("-skip_count"@.len() == 11);
    assert("-count"@.len() == 6);
    assert("-in"@.len() == 3);
    assert("-out"@.len() == 4);
    assert("-no_verbose"@[1] != "-skip_count"@[1]);
}

/// Position of the last of `n1`, `n2` in `args` where an option is read,
/// from index `i` on.
pub open spec fn last_option_pos(args: Seq<Seq<char>>, i: nat, n1: Seq<char>, n2: Seq<char>) -> Option<
    nat,
>
    decreases args.len() - i,
{
    if i >= args.len() {
        None
    } else {
        match last_option_pos(args, next_option_pos(args, i), n1, n2) {
            Some(k) => Some(k),
            None => if args[i as int] == n1 || args[i as int] == n2 {
                Some(i)
            } else {
                None
            },
        }
    }
}

proof fn lemma_last_option_pos(args: Seq<Seq<char>>, i: nat, n1: Seq<char>, n2: Seq<char>)
    ensures
        last_option_pos(args, i, n1, n2) matches Some(k) ==> i <= k < args.len() && (args[k as int]
            == n1 || args[k as int] == n2),
    decreases args.len() - i,
{
    if i < args.len() {
        lemma_last_option_pos(args, next_option_pos(args, i), n1, n2);
    }
}

/// What an accepted command line sets: each flag takes the value of the
/// last of its two options read (`-verbose` on, `-no_verbose` off, and so
/// on), whatever it was before; each count is the number after the last
/// `-skip_count` or `-count` read, each path the text after the last `-in`
/// or `-out`; a setting whose options are not read keeps its value.
pub proof fn lemma_options_applied(args: Seq<Seq<char>>, i: nat, st: ArgSettings)
    ensures
        ({
            let (r, err) = parse_args_from(args, i, st);
            err is None ==> {
                &&& match last_option_pos(args, i, "-verbose"@, "-no_verbose"@) {
                    Some(k) => r.verbose == (args[k as int] == "-verbose"@),
                    None => r.verbose == st.verbose,
                }
                &&& match last_option_pos(args, i, "-report"@, "-no_report"@) {
                    Some(k) => r.report == (args[k as int] == "-report"@),
                    None => r.report == st.report,
                }
                &&& match last_option_pos(args, i, "-check_decode"@, "-no_check_decode"@) {
                    Some(k) => r.check_decode == (args[k as int] == "-check_decode"@),
                    None => r.check_decode == st.check_decode,
                }
                &&& match last_option_pos(args, i, "-skip_count"@, "-skip_count"@) {
                    Some(k) => k + 1 < args.len() && parse_u32_spec(args[k + 1 as int]) == Some(
                        r.skip_count,
                    ),
                    None => r.skip_count == st.skip_count,
                }
                &&& match last_option_pos(args, i, "-count"@, "-count"@) {
                    Some(k) => k + 1 < args.len() && parse_u32_spec(args[k + 1 as int]) == Some(r.count),
                    None => r.count == st.count,
                }
                &&& match last_option_pos(args, i, "-in"@, "-in"@) {
                    Some(k) => k + 1 < args.len() && r.input == args[k + 1 as int],
                    None => r.input == st.input,
                }
                &&& match last_option_pos(args, i, "-out"@, "-out"@) {
                    Some(k) => k + 1 < args.len() && r.output == args[k + 1 as int],
                    None => r.output == st.output,
                }
            }
        }),
    decreases args.len() - i,
{
    lemma_option_names_distinct();
    if i < args.len() {
        let a = args[i as int];
        let p = next_option_pos(args, i);
        lemma_last_option_pos(args, p, "-verbose"@, "-no_verbose"@);
        lemma_last_option_pos(args, p, "-report"@, "-no_report"@);
        lemma_last_option_pos(args, p, "-check_decode"@, "-no_check_decode"@);
        lemma_last_option_pos(args, p, "-skip_count"@, "-skip_count"@);
        lemma_last_option_pos(args, p, "-count"@, "-count"@);
        lemma_last_option_pos(args, p, "-in"@, "-in"@);
        lemma_last_option_pos(args, p, "-out"@, "-out"@);
        if a == "-verbose"@ {
            lemma_options_applied(args, p, ArgSettings { verbose: true, ..st });
        } else if a == "-no_verbose"@ {
            lemma_options_applied(args, p, ArgSettings { verbose: false, ..st });
        } else if a == "-report"@ {
            lemma_options_applied(args, p, ArgSettings { report: true, ..st });
        } else if a == "-no_report"@ {
            lemma_options_applied(args, p, ArgSettings { report: false, ..st });
        } else if a == "-check_decode"@ {
            lemma_options_applied(args, p, ArgSettings { check_decode: true, ..st });
        } else if a == "-no_check_decode"@ {
            lemma_options_applied(args, p, ArgSettings { check_decode: false, ..st });
        } else if a == "-skip_count"@ {
            if i + 1 < args.len() {
                if let Some(v) = parse_u32_spec(args[i + 1 as int]) {
                    lemma_options_applied(args, p, ArgSettings { skip_count: v, ..st });
                }
            }
        } else if a == "-count"@ {
            if i + 1 < args.len() {
                if let Some(v) = parse_u32_spec(args[i + 1 as int]) {
                    lemma_options_applied(args, p, ArgSettings { count: v, ..st });
                }
            }
        } else if a == "-in"@ {
            if i + 1 < args.len() {
                lemma_options_applied(args, p, ArgSettings { input: args[i + 1 as int], ..st });
            }
        } else if a == "-out"@ {
            if i + 1 < args.len() {
                lemma_options_applied(args, p, ArgSettings { output: args[i + 1 as int], ..st });
            }
        } else {
            lemma_options_applied(args, p, st);
        }
    }
}

} // verus!
