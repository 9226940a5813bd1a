use anytomd_html::comments::{cap_text, collapse_ws, format_author};
use anytomd_html::text::{parse_usize, trimmed};
use anytomd_html::walker::collapse_whitespace;

fn chars(s: &str) -> Vec<char> {
    s.chars().collect()
}

#[test]
fn test_parse_usize_cases() {
    assert_eq!(parse_usize(&chars("+12")), Some(12));
    assert_eq!(parse_usize(&chars("007")), Some(7));
    assert_eq!(parse_usize(&chars("")), None);
    assert_eq!(parse_usize(&chars("+")), None);
    assert_eq!(parse_usize(&chars("-1")), None);
    assert_eq!(parse_usize(&chars(" 3")), None);
    assert_eq!(parse_usize(&chars("18446744073709551615")), Some(usize::MAX));
    assert_eq!(parse_usize(&chars("18446744073709551616")), None);
}

#[test]
fn test_trim_unicode_whitespace() {
    let t: String = trimmed(&chars("\u{3000}\u{a0} a b \n\u{2029}")).iter().collect();
    assert_eq!(t, "a b");
}

#[test]
fn test_collapse_ws_idempotent_example() {
    let once = collapse_ws("\t x \u{2003}\u{2003} y\n\nz  ");
    assert_eq!(once, "x y z");
    assert_eq!(collapse_ws(&once), once);
}

#[test]
fn test_collapse_whitespace_keeps_ends_and_unicode_spaces() {
    let c: String = collapse_whitespace(&chars("  a\t\n b\u{a0}\u{a0}c ")).iter().collect();
    assert_eq!(c, " a b\u{a0}\u{a0}c ");
}

#[test]
fn test_cap_text_never_exceeds_cap_plus_one() {
    assert_eq!(cap_text("abcdef", 3), "abc…");
    assert_eq!(cap_text("abc", 3), "abc");
    assert_eq!(cap_text("abc", 0), "…");
}

#[test]
fn test_format_author_never_empty() {
    assert_eq!(format_author(" \t", " "), "Unknown");
    assert_eq!(format_author(" Ann ", " 2020 "), "Ann (2020)");
}

#[test]
fn test_collapse_ws_keeps_words_in_order() {
    let input = " alpha\t beta\n\ngamma  ";
    let out = collapse_ws(input);
    assert_eq!(
        out.split(' ').collect::<Vec<_>>(),
        input.split_whitespace().collect::<Vec<_>>()
    );
}

#[test]
fn test_collapse_whitespace_no_runs_and_idempotent() {
    let input = chars(" a \t\n b\r\n\u{00A0} c  ");
    let once = collapse_whitespace(&input);
    assert!(once.len() <= input.len());
    assert!(!once.windows(2).any(|w| w[0].is_ascii_whitespace() && w[1].is_ascii_whitespace()));
    assert!(once.iter().all(|c| !c.is_ascii_whitespace() || *c == ' '));
    assert_eq!(collapse_whitespace(&once), once);
    assert_eq!(once.iter().collect::<String>(), " a b \u{00A0} c ");
}
