use toy_ac::options::{parse_args, ArgError};

struct Settings {
    verbose: bool,
    report: bool,
    check_decode: bool,
    skip_count: u32,
    count: u32,
    input: String,
    output: String,
}

fn run(args: &[&str]) -> (Result<(), ArgError>, Settings) {
    let args: Vec<String> = args.iter().map(|a| a.to_string()).collect();
    let mut s = Settings {
        verbose: false,
        report: true,
        check_decode: false,
        skip_count: 0,
        count: 10,
        input: "in.mp4".to_string(),
        output: "out.dat".to_string(),
    };
    let r = parse_args(
        &args,
        &mut s.verbose,
        &mut s.report,
        &mut s.check_decode,
        &mut s.skip_count,
        &mut s.count,
        &mut s.input,
        &mut s.output,
    );
    (r, s)
}

#[test]
fn no_arguments_keep_defaults() {
    let (r, s) = run(&[]);
    assert_eq!(r, Ok(()));
    assert!(!s.verbose && s.report && !s.check_decode);
    assert_eq!((s.skip_count, s.count), (0, 10));
    assert_eq!((s.input.as_str(), s.output.as_str()), ("in.mp4", "out.dat"));
}

#[test]
fn flags_and_values_are_applied() {
    let (r, s) = run(&[
        "-verbose", "-no_report", "-check_decode", "-skip_count", "3", "-count", "+25", "-in",
        "clip.mp4", "-out", "bits.dat",
    ]);
    assert_eq!(r, Ok(()));
    assert!(s.verbose && !s.report && s.check_decode);
    assert_eq!((s.skip_count, s.count), (3, 25));
    assert_eq!((s.input.as_str(), s.output.as_str()), ("clip.mp4", "bits.dat"));
}

#[test]
fn later_flags_win_and_unknown_ones_pass() {
    let (r, s) = run(&["-verbose", "-no_verbose", "-report", "-weird", "-no_check_decode"]);
    assert_eq!(r, Ok(()));
    assert!(!s.verbose && s.report && !s.check_decode);
}

#[test]
fn option_value_is_taken_even_if_it_looks_like_a_flag() {
    let (r, s) = run(&["-in", "-verbose"]);
    assert_eq!(r, Ok(()));
    assert!(!s.verbose);
    assert_eq!(s.input, "-verbose");
}

#[test]
fn missing_values_are_errors() {
    assert_eq!(run(&["-skip_count"]).0, Err(ArgError::MissingSkipCount));
    assert_eq!(run(&["-count"]).0, Err(ArgError::MissingCount));
    assert_eq!(run(&["-in"]).0, Err(ArgError::MissingInput));
    assert_eq!(run(&["-out"]).0, Err(ArgError::MissingOutput));
}

#[test]
fn bad_counts_are_errors() {
    assert_eq!(run(&["-skip_count", "x"]).0, Err(ArgError::InvalidSkipCount));
    assert_eq!(run(&["-count", "-1"]).0, Err(ArgError::InvalidCount));
    assert_eq!(run(&["-count", "4294967296"]).0, Err(ArgError::InvalidCount));
    assert_eq!(run(&["-count", ""]).0, Err(ArgError::InvalidCount));
    assert_eq!(run(&["-count", "+"]).0, Err(ArgError::InvalidCount));
}

#[test]
fn settings_before_an_error_are_kept() {
    let (r, s) = run(&["-verbose", "-count", "7", "-skip_count"]);
    assert_eq!(r, Err(ArgError::MissingSkipCount));
    assert!(s.verbose);
    assert_eq!(s.count, 7);
}

#[test]
fn largest_count_is_accepted() {
    let (r, s) = run(&["-count", "4294967295"]);
    assert_eq!(r, Ok(()));
    assert_eq!(s.count, u32::MAX);
}

#[test]
fn unnamed_settings_keep_their_values() {
    let (r, s) = run(&["-count", "3", "-in", "-report", "-x"]);
    assert_eq!(r, Ok(()));
    assert!(s.report && !s.verbose && !s.check_decode);
    assert_eq!(s.skip_count, 0);
    assert_eq!(s.output, "out.dat");
}
