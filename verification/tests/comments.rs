use anytomd_html::comments::{
    append_comments, body_display, cap_text, collapse_ws, format_author, render_comments_md,
    render_comments_plain, Comment,
};

fn c(author: &str, body: &str, source: &str, is_reply: bool) -> Comment {
    Comment {
        author: author.to_string(),
        body: body.to_string(),
        source: source.to_string(),
        is_reply,
    }
}

// ---- collapse_ws ----

#[test]
fn test_collapse_ws_newlines_and_tabs_to_space() {
    assert_eq!(collapse_ws("a\nb\tc"), "a b c");
}

#[test]
fn test_collapse_ws_runs_collapsed_and_trimmed() {
    assert_eq!(collapse_ws("  a   \n\n  b  "), "a b");
}

#[test]
fn test_collapse_ws_empty() {
    assert_eq!(collapse_ws("   \n\t "), "");
}

#[test]
fn test_collapse_ws_cjk_preserved() {
    assert_eq!(collapse_ws("한국어\n中文"), "한국어 中文");
}

// ---- cap_text ----

#[test]
fn test_cap_text_under_limit_unchanged() {
    assert_eq!(cap_text("hello", 200), "hello");
}

#[test]
fn test_cap_text_exact_limit_unchanged() {
    let s = "a".repeat(200);
    assert_eq!(cap_text(&s, 200), s);
}

#[test]
fn test_cap_text_over_limit_truncated_with_ellipsis() {
    let s = "a".repeat(201);
    let out = cap_text(&s, 200);
    assert_eq!(out.chars().count(), 201); // 200 + ellipsis
    assert!(out.ends_with('…'));
    assert_eq!(&out[..200], &"a".repeat(200));
}

#[test]
fn test_cap_text_cjk_not_split_mid_char() {
    // 250 CJK chars (3 bytes each) — must truncate on a char boundary.
    let s = "한".repeat(250);
    let out = cap_text(&s, 200);
    assert_eq!(out.chars().count(), 201);
    assert!(out.ends_with('…'));
    assert_eq!(out.chars().filter(|&ch| ch == '한').count(), 200);
}

// ---- format_author ----

#[test]
fn test_format_author_name_and_date() {
    assert_eq!(
        format_author("Jane Smith", "2024-01-15T09:30:00Z"),
        "Jane Smith (2024-01-15T09:30:00Z)"
    );
}

#[test]
fn test_format_author_empty_date_name_only() {
    assert_eq!(format_author("Jane Smith", ""), "Jane Smith");
    assert_eq!(format_author("Jane Smith", "   "), "Jane Smith");
}

#[test]
fn test_format_author_empty_author_unknown() {
    assert_eq!(format_author("", ""), "Unknown");
    assert_eq!(format_author("   ", ""), "Unknown");
}

#[test]
fn test_format_author_unknown_with_date() {
    assert_eq!(format_author("", "2024-01-15"), "Unknown (2024-01-15)");
}

// ---- body_display ----

#[test]
fn test_body_display_non_reply() {
    assert_eq!(body_display(&c("A", "Hello", "src", false)), "Hello");
}

#[test]
fn test_body_display_reply_prefixed() {
    assert_eq!(body_display(&c("A", "Agreed.", "src", true)), "(reply) Agreed.");
}

#[test]
fn test_body_display_reply_empty_body() {
    assert_eq!(body_display(&c("A", "", "src", true)), "(reply)");
}

// ---- render_comments_md ----

#[test]
fn test_render_comments_md_matches_spec() {
    let comments = vec![
        c(
            "Jane Smith (2024-01-15T09:30:00Z)",
            "Please revise this.",
            "the quick brown fox",
            false,
        ),
        c("Unknown", "Agreed.", "jumped over", true),
    ];
    let expected = "# Comments\n\
        \n## 1\n\
        - **author**: Jane Smith (2024-01-15T09:30:00Z)\n\
        - **comment**: Please revise this.\n\
        - **source**: the quick brown fox\n\
        \n## 2\n\
        - **author**: Unknown\n\
        - **comment**: (reply) Agreed.\n\
        - **source**: jumped over\n";
    assert_eq!(render_comments_md(&comments), expected);
}

// ---- render_comments_plain ----

#[test]
fn test_render_comments_plain_matches_layout() {
    let comments = vec![
        c(
            "Jane Smith (2024-01-15T09:30:00Z)",
            "Please revise this.",
            "the quick brown fox",
            false,
        ),
        c("Unknown", "Agreed.", "jumped over", true),
    ];
    let expected = "Comments\n\
        \n1\n\
        author: Jane Smith (2024-01-15T09:30:00Z)\n\
        comment: Please revise this.\n\
        source: the quick brown fox\n\
        \n2\n\
        author: Unknown\n\
        comment: (reply) Agreed.\n\
        source: jumped over\n";
    assert_eq!(render_comments_plain(&comments), expected);
    // Plain text must not contain Markdown markers.
    assert!(!render_comments_plain(&comments).contains('#'));
    assert!(!render_comments_plain(&comments).contains('*'));
}

// ---- append_comments ----

#[test]
fn test_append_comments_empty_is_noop() {
    let mut md = "body\n".to_string();
    let mut plain = "body\n".to_string();
    append_comments(&mut md, &mut plain, &[]);
    assert_eq!(md, "body\n");
    assert_eq!(plain, "body\n");
}

#[test]
fn test_append_comments_separated_by_blank_line() {
    let mut md = "# Title\n\nSome body.\n".to_string();
    let mut plain = "Some body.\n".to_string();
    append_comments(&mut md, &mut plain, &[c("A", "B", "C", false)]);
    assert!(md.contains("Some body.\n\n# Comments\n"));
    assert!(plain.contains("Some body.\n\nComments\n"));
    assert!(md.ends_with("- **source**: C\n"));
}

#[test]
fn test_append_comments_empty_body_no_leading_blank() {
    let mut md = String::new();
    let mut plain = String::new();
    append_comments(&mut md, &mut plain, &[c("A", "B", "C", false)]);
    assert!(md.starts_with("# Comments\n"));
    assert!(plain.starts_with("Comments\n"));
}

#[test]
fn test_append_comments_whitespace_only_body_treated_as_empty() {
    let mut md = "\n\n".to_string();
    let mut plain = "  \n".to_string();
    append_comments(&mut md, &mut plain, &[c("A", "B", "C", false)]);
    assert!(md.starts_with("# Comments\n"));
    assert!(plain.starts_with("Comments\n"));
}
