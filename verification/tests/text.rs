use chouette::text::{
    append, eq, eq_ignore_case, find, is_blank_line, is_whitespace, line_length, split,
    starts_with, strip_whitespace, to_lower, trim,
};

fn chars(s: &str) -> Vec<char> {
    s.chars().collect()
}

fn text(s: &[char]) -> String {
    s.iter().collect()
}

#[test]
fn whitespace_is_what_the_standard_library_takes_for_it() {
    let mut c = 0u32;
    while c <= 0x10FFFF {
        if let Some(ch) = char::from_u32(c) {
            assert_eq!(is_whitespace(ch), ch.is_whitespace(), "U+{:04X}", c);
        }
        c += 1;
    }
}

#[test]
fn small_letters_are_those_of_the_standard_library() {
    let mut c = 0u32;
    while c <= 0x10FFFF {
        if let Some(ch) = char::from_u32(c) {
            assert_eq!(to_lower(ch), ch.to_ascii_lowercase(), "U+{:04X}", c);
        }
        c += 1;
    }
}

#[test]
fn trim_removes_whitespace_at_both_ends_only() {
    for s in ["", " ", "a", "  a b \t\r\n", "\u{A0}x\u{3000}", "x  ", "  x", " \n \t "] {
        assert_eq!(text(trim(&chars(s))), s.trim(), "{:?}", s);
    }
}

#[test]
fn split_cuts_at_every_occurrence() {
    for s in ["", ";", "a;b", ";a;;b;", "abc", "a;b;c;d;e"] {
        let got: Vec<String> = split(&chars(s), ';').iter().map(|p| text(p)).collect();
        let want: Vec<String> = s.split(';').map(String::from).collect();
        assert_eq!(got, want, "{:?}", s);
    }
}

#[test]
fn find_gives_the_first_occurrence() {
    assert_eq!(find(&chars("a:b:c"), ':'), Some(1));
    assert_eq!(find(&chars(":"), ':'), Some(0));
    assert_eq!(find(&chars("abc"), ':'), None);
    assert_eq!(find(&chars(""), ':'), None);
}

#[test]
fn comparisons_of_slices() {
    assert!(eq(&chars("abc"), &chars("abc")));
    assert!(!eq(&chars("abc"), &chars("abC")));
    assert!(!eq(&chars("abc"), &chars("ab")));
    assert!(eq_ignore_case(&chars("Content-Type"), &chars("content-type")));
    assert!(eq_ignore_case(&chars("CONTENT-TYPE"), &chars("content-type")));
    assert!(!eq_ignore_case(&chars("Content-Type"), &chars("content_type")));
    assert!(!eq_ignore_case(&chars("É"), &chars("é")));
    assert!(starts_with(&chars("--X--"), &chars("--X")));
    assert!(starts_with(&chars("--X"), &chars("")));
    assert!(!starts_with(&chars("--"), &chars("--X")));
    assert!(!starts_with(&chars("-X-"), &chars("--")));
}

#[test]
fn strip_whitespace_takes_out_all_of_it() {
    assert_eq!(text(&strip_whitespace(&chars(" a b\r\n\tc \u{2003}d"))), "abcd");
    assert_eq!(text(&strip_whitespace(&chars(""))), "");
    assert_eq!(text(&strip_whitespace(&chars(" \n"))), "");
}

#[test]
fn lines_end_with_their_line_feed() {
    assert_eq!(line_length(&chars("ab\ncd\n")), 3);
    assert_eq!(line_length(&chars("\nab")), 1);
    assert_eq!(line_length(&chars("ab")), 2);
    assert_eq!(line_length(&chars("")), 0);
    assert_eq!(line_length(&chars("ab\r\ncd")), 4);
}

#[test]
fn blank_lines_hold_a_terminator_alone() {
    assert!(is_blank_line(&chars("\n")));
    assert!(is_blank_line(&chars("\r\n")));
    assert!(is_blank_line(&chars("\r")));
    assert!(!is_blank_line(&chars("")));
    assert!(!is_blank_line(&chars(" \n")));
    assert!(!is_blank_line(&chars("\n\n")));
    assert!(!is_blank_line(&chars("a\n")));
    assert!(!is_blank_line(&chars("\r\r\n")));
}

#[test]
fn append_puts_the_characters_behind() {
    let mut v = chars("ab");
    append(&mut v, &chars("cd"));
    assert_eq!(text(&v), "abcd");
    append(&mut v, &chars(""));
    assert_eq!(text(&v), "abcd");
}
