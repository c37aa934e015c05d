use toy_ac::prompt::{parse_coding_choice, parse_selection, parse_yes_no, CodingChoice};
use toy_ac::text::{parse_u32, parse_usize, same_text, trim};

#[test]
fn parse_u32_matches_std() {
    for s in ["0", "7", "+7", "007", "4294967295", "4294967296", "", "+", "-3", " 5", "5 ", "1a", "99999999999999999999"] {
        assert_eq!(parse_u32(s), s.parse::<u32>().ok(), "input {:?}", s);
    }
}

#[test]
fn parse_usize_matches_std() {
    for s in ["0", "12", "+12", "18446744073709551615", "18446744073709551616", "x", ""] {
        assert_eq!(parse_usize(s), s.parse::<usize>().ok(), "input {:?}", s);
    }
}

#[test]
fn trim_matches_std() {
    for s in ["", "  ", "a", "  a b \n", "\t\u{3000}x\u{85}", "\u{200b}y", "é "] {
        assert_eq!(trim(s), s.trim(), "input {:?}", s);
    }
}

#[test]
fn same_text_compares_characters() {
    assert!(same_text("abc", "abc"));
    assert!(!same_text("abc", "abd"));
    assert!(!same_text("ab", "abc"));
    assert!(same_text("", ""));
}

#[test]
fn coding_menu_replies() {
    assert_eq!(parse_coding_choice("1\n"), Some(CodingChoice::Arithmetic));
    assert_eq!(parse_coding_choice("  2 "), Some(CodingChoice::Huffman));
    assert_eq!(parse_coding_choice("3\n"), None);
    assert_eq!(parse_coding_choice("12"), None);
}

#[test]
fn yes_no_replies() {
    assert_eq!(parse_yes_no("y\n"), Some(true));
    assert_eq!(parse_yes_no(" Y "), Some(true));
    assert_eq!(parse_yes_no("n\r\n"), Some(false));
    assert_eq!(parse_yes_no("N"), Some(false));
    assert_eq!(parse_yes_no("yes"), None);
    assert_eq!(parse_yes_no(""), None);
}

#[test]
fn selection_replies() {
    assert_eq!(parse_selection("1\n", 3), Some(0));
    assert_eq!(parse_selection(" 3 ", 3), Some(2));
    assert_eq!(parse_selection("0", 3), None);
    assert_eq!(parse_selection("4", 3), None);
    assert_eq!(parse_selection("two", 3), None);
    assert_eq!(parse_selection("1", 0), None);
}
