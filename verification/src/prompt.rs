use vstd::prelude::*;

use crate::text::{parse_usize, parse_usize_spec, same_text, trim, trim_spec};

verus! {

/// The entropy coders the program offers.
#[derive(PartialEq, Eq, Structural, Debug, Clone, Copy)]
pub enum CodingChoice {
    Arithmetic,
    Huffman,
}

/// The reply to the coder menu: `1` or `2`, with white space around it.
pub open spec fn coding_choice_spec(line: Seq<char>) -> Option<CodingChoice> {
    let t = trim_spec(line);
    if t == "1"@ {
        Some(CodingChoice::Arithmetic)
    } else if t == "2"@ {
        Some(CodingChoice::Huffman)
    } else {
        None
    }
}

/// Reads the reply to the coder menu; `None` asks again.
pub fn parse_coding_choice(line: &str) -> (r: Option<CodingChoice>)
    ensures
        r == coding_choice_spec(line@),
{
    let t = trim(line);
    if same_text(t, "1") {
        Some(CodingChoice::Arithmetic)
    } else if same_text(t, "2") {
        Some(CodingChoice::Huffman)
    } else {
        None
    }
}

/// The reply to a yes/no question: `y` or `n` in either case, with white
/// space around it (the only replies that lower-case to `y` or `n`).
pub open spec fn yes_no_spec(line: Seq<char>) -> Option<bool> {
    let t = trim_spec(line);
    if t == "y"@ || t == "Y"@ {
        Some(true)
    } else if t == "n"@ || t == "N"@ {
        Some(false)
    } else {
        None
    }
}

/// Reads the reply to a yes/no question; `None` asks again.
pub fn parse_yes_no(line: &str) -> (r: Option<bool>)
    ensures
        r == yes_no_spec(line@),
{
    let t = trim(line);
    if same_text(t, "y") || same_text(t, "Y") {
        Some(true)
    } else if same_text(t, "n") || same_text(t, "N") {
        Some(false)
    } else {
        None
    }
}

/// The reply to a menu of `entry_count` numbered entries: a number from 1
/// to `entry_count`, with white space around it; gives the entry's index.
pub open spec fn selection_spec(line: Seq<char>, entry_count: usize) -> Option<usize> {
    match parse_usize_spec(trim_spec(line)) {
        Some(n) => if 1 <= n <= entry_count {
            Some((n - 1) as usize)
        } else {
            None
        },
        None => None,
    }
}

/// Reads the reply to a numbered menu; `None` asks again.
pub fn parse_selection(line: &str, entry_count: usize) -> (r: Option<usize>)
    ensures
        r == selection_spec(line@, entry_count),
{
    match parse_usize(trim(line)) {
        Some(n) => if n >= 1 && n <= entry_count {
            Some(n - 1)
        } else {
            None
        },
        None => None,
    }
}

} // verus!
