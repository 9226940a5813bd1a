use anytomd_html::html::{ConversionOptions, ConversionResult, HtmlConverter};

fn convert_html(html: &str) -> ConversionResult {
    let converter = HtmlConverter;
    converter
        .convert(html.as_bytes(), &ConversionOptions::default())
        .unwrap()
}

#[test]
fn test_html_supported_extensions() {
    let converter = HtmlConverter;
    let exts = converter.supported_extensions();
    assert_eq!(exts, &["html", "htm"]);
}

#[test]
fn test_html_can_convert() {
    let converter = HtmlConverter;
    assert!(converter.can_convert("html", &[]));
    assert!(converter.can_convert("htm", &[]));
    assert!(!converter.can_convert("txt", &[]));
    assert!(!converter.can_convert("docx", &[]));
}

#[test]
fn test_html_empty_document() {
    let result = convert_html("");
    assert!(result.markdown.is_empty());
}

#[test]
fn test_html_headings_h1_through_h6() {
    let html = r#"<h1>H1</h1><h2>H2</h2><h3>H3</h3><h4>H4</h4><h5>H5</h5><h6>H6</h6>"#;
    let result = convert_html(html);
    assert!(result.markdown.contains("# H1"));
    assert!(result.markdown.contains("## H2"));
    assert!(result.markdown.contains("### H3"));
    assert!(result.markdown.contains("#### H4"));
    assert!(result.markdown.contains("##### H5"));
    assert!(result.markdown.contains("###### H6"));
}

#[test]
fn test_html_paragraph_basic() {
    let html = "<p>First paragraph</p><p>Second paragraph</p>";
    let result = convert_html(html);
    assert!(result.markdown.contains("First paragraph"));
    assert!(result.markdown.contains("Second paragraph"));
    // Should have blank line between paragraphs
    assert!(
        result
            .markdown
            .contains("First paragraph\n\nSecond paragraph")
    );
}

#[test]
fn test_html_bold_and_italic() {
    let html = "<p><strong>bold</strong> and <em>italic</em></p>";
    let result = convert_html(html);
    assert!(result.markdown.contains("**bold**"));
    assert!(result.markdown.contains("*italic*"));
}

#[test]
fn test_html_b_and_i_tags() {
    let html = "<p><b>bold</b> and <i>italic</i></p>";
    let result = convert_html(html);
    assert!(result.markdown.contains("**bold**"));
    assert!(result.markdown.contains("*italic*"));
}

#[test]
fn test_html_inline_code() {
    let html = "<p>Use <code>cargo build</code> to compile.</p>";
    let result = convert_html(html);
    assert!(result.markdown.contains("`cargo build`"));
}

#[test]
fn test_html_code_block() {
    let html = "<pre><code>fn main() {\n    println!(\"hello\");\n}</code></pre>";
    let result = convert_html(html);
    assert!(result.markdown.contains("```\n"));
    assert!(result.markdown.contains("fn main()"));
    assert!(result.markdown.contains("println!"));
}

#[test]
fn test_html_link_basic() {
    let html = r#"<a href="https://example.com">Example</a>"#;
    let result = convert_html(html);
    assert!(result.markdown.contains("[Example](https://example.com)"));
}

#[test]
fn test_html_link_no_href() {
    let html = "<a>just text</a>";
    let result = convert_html(html);
    assert!(result.markdown.contains("just text"));
    assert!(!result.markdown.contains("["));
}

#[test]
fn test_html_image_basic() {
    let html = r#"<img src="photo.jpg" alt="A photo">"#;
    let result = convert_html(html);
    assert!(result.markdown.contains("![A photo](photo.jpg)"));
}

#[test]
fn test_html_image_no_alt() {
    let html = r#"<img src="photo.jpg">"#;
    let result = convert_html(html);
    assert!(result.markdown.contains("![](photo.jpg)"));
}

#[test]
fn test_html_unordered_list() {
    let html = "<ul><li>Apple</li><li>Banana</li><li>Cherry</li></ul>";
    let result = convert_html(html);
    assert!(result.markdown.contains("- Apple"));
    assert!(result.markdown.contains("- Banana"));
    assert!(result.markdown.contains("- Cherry"));
}

#[test]
fn test_html_ordered_list() {
    let html = "<ol><li>First</li><li>Second</li><li>Third</li></ol>";
    let result = convert_html(html);
    assert!(result.markdown.contains("1. First"));
    assert!(result.markdown.contains("2. Second"));
    assert!(result.markdown.contains("3. Third"));
}

#[test]
fn test_html_nested_list() {
    let html = r#"<ul>
        <li>Outer
            <ul>
                <li>Inner A</li>
                <li>Inner B</li>
            </ul>
        </li>
        <li>Outer 2</li>
    </ul>"#;
    let result = convert_html(html);
    assert!(result.markdown.contains("- Outer"));
    assert!(result.markdown.contains("  - Inner A"));
    assert!(result.markdown.contains("  - Inner B"));
    assert!(result.markdown.contains("- Outer 2"));
}

#[test]
fn test_html_table_basic() {
    let html = r#"<table>
        <thead><tr><th>Name</th><th>Age</th></tr></thead>
        <tbody>
            <tr><td>Alice</td><td>30</td></tr>
            <tr><td>Bob</td><td>25</td></tr>
        </tbody>
    </table>"#;
    let result = convert_html(html);
    assert!(result.markdown.contains("| Name | Age |"));
    assert!(result.markdown.contains("|---|---|"));
    assert!(result.markdown.contains("| Alice | 30 |"));
    assert!(result.markdown.contains("| Bob | 25 |"));
}

#[test]
fn test_html_table_no_thead() {
    let html = r#"<table>
        <tr><td>Name</td><td>Age</td></tr>
        <tr><td>Alice</td><td>30</td></tr>
    </table>"#;
    let result = convert_html(html);
    assert!(result.markdown.contains("| Name | Age |"));
    assert!(result.markdown.contains("| Alice | 30 |"));
}

#[test]
fn test_html_table_empty_cells() {
    let html = r#"<table>
        <thead><tr><th>A</th><th>B</th><th>C</th></tr></thead>
        <tbody><tr><td>1</td><td></td><td>3</td></tr></tbody>
    </table>"#;
    let result = convert_html(html);
    assert!(result.markdown.contains("| 1 |  | 3 |"));
}

#[test]
fn test_html_table_colspan_preserved() {
    // A full-width colspan banner over a 2-column data grid. Both data
    // columns must survive (previously only the first was kept).
    let html = r#"<table>
        <tr><td colspan="2">Banner</td></tr>
        <tr><td>A</td><td>B</td></tr>
    </table>"#;
    let result = convert_html(html);
    assert!(result.markdown.contains("A"), "md: {}", result.markdown);
    assert!(result.markdown.contains("B"), "md: {}", result.markdown);
    assert!(
        result.markdown.contains("| A | B |"),
        "both columns missing: {}",
        result.markdown
    );
}

#[test]
fn test_html_table_banner_bold() {
    let html = r#"<table>
        <tr><td colspan="3">Section</td></tr>
        <tr><td>a</td><td>b</td><td>c</td></tr>
    </table>"#;
    let result = convert_html(html);
    assert!(
        result.markdown.contains("**Section**"),
        "md: {}",
        result.markdown
    );
}

#[test]
fn test_html_table_banner_heading() {
    let html = r#"<table>
        <tr><td colspan="3"><h2>Section</h2></td></tr>
        <tr><td>a</td><td>b</td><td>c</td></tr>
    </table>"#;
    let result = convert_html(html);
    assert!(
        result.markdown.contains("## Section"),
        "md: {}",
        result.markdown
    );
}

#[test]
fn test_html_table_label_value() {
    let html = r#"<table>
        <tr><td>Date</td><td colspan="2">Monday</td></tr>
        <tr><td>a</td><td>b</td><td>c</td></tr>
    </table>"#;
    let result = convert_html(html);
    assert!(
        result.markdown.contains("**Date:** Monday"),
        "md: {}",
        result.markdown
    );
}

#[test]
fn test_html_table_rowspan_preserved() {
    // rowspan on the first column: the second data row's other columns must
    // not shift left into the spanned column.
    let html = r#"<table>
        <tr><td rowspan="2">Merged</td><td>X1</td><td>Y1</td></tr>
        <tr><td>X2</td><td>Y2</td></tr>
    </table>"#;
    let result = convert_html(html);
    for needle in ["Merged", "X1", "Y1", "X2", "Y2"] {
        assert!(
            result.markdown.contains(needle),
            "missing {needle}: {}",
            result.markdown
        );
    }
    // Second row: spanned column is empty, X2/Y2 stay in columns 2 and 3.
    assert!(
        result.markdown.contains("|  | X2 | Y2 |"),
        "rowspan column not preserved: {}",
        result.markdown
    );
}

#[test]
fn test_html_nested_table() {
    let html = r#"<table>
        <tr><td colspan="2">Outer</td></tr>
        <tr><td>cell<table><tr><td>inner1</td><td>inner2</td></tr></table></td><td>right</td></tr>
    </table>"#;
    let result = convert_html(html);
    for needle in ["Outer", "inner1", "inner2", "right"] {
        assert!(
            result.markdown.contains(needle),
            "missing {needle}: {}",
            result.markdown
        );
    }
}

#[test]
fn test_html_plain_linearized_flattened() {
    let html = r#"<table>
        <tr><td colspan="3">Section</td></tr>
        <tr><td>Field</td><td colspan="2">Value</td></tr>
        <tr><td>A</td><td>B</td><td>C</td></tr>
    </table>"#;
    let result = convert_html(html);
    // Plain text: no markdown markers in linearized parts.
    assert!(
        result.plain_text.contains("Section"),
        "plain: {}",
        result.plain_text
    );
    assert!(
        result.plain_text.contains("Field"),
        "plain: {}",
        result.plain_text
    );
    assert!(
        result.plain_text.contains("Value"),
        "plain: {}",
        result.plain_text
    );
    assert!(
        !result.plain_text.contains("**"),
        "plain has markers: {}",
        result.plain_text
    );
    // Grid region tab-separated.
    assert!(
        result.plain_text.contains("A\tB\tC"),
        "plain grid not tabbed: {}",
        result.plain_text
    );
}

#[test]
fn test_html_simple_table_unchanged_deterministic() {
    // A simple uniform table must use the historical GFM path and be stable.
    let html = r#"<table><tr><td>a</td><td>b</td></tr><tr><td>c</td><td>d</td></tr></table>"#;
    let r1 = convert_html(html);
    let r2 = convert_html(html);
    assert_eq!(r1.markdown, r2.markdown);
    assert!(r1.markdown.contains("| a | b |"));
    assert!(r1.markdown.contains("| c | d |"));
}

#[test]
fn test_html_blockquote() {
    let html = "<blockquote>Quoted text</blockquote>";
    let result = convert_html(html);
    assert!(result.markdown.contains("> Quoted text"));
}

#[test]
fn test_html_nested_blockquote() {
    let html = "<blockquote><blockquote>Deeply quoted</blockquote></blockquote>";
    let result = convert_html(html);
    assert!(result.markdown.contains("> > Deeply quoted"));
}

#[test]
fn test_html_horizontal_rule() {
    let html = "<p>Above</p><hr><p>Below</p>";
    let result = convert_html(html);
    assert!(result.markdown.contains("---"));
    assert!(result.markdown.contains("Above"));
    assert!(result.markdown.contains("Below"));
}

#[test]
fn test_html_line_break() {
    let html = "<p>Line one<br>Line two</p>";
    let result = convert_html(html);
    assert!(result.markdown.contains("Line one\nLine two"));
}

#[test]
fn test_html_script_stripped() {
    let html = "<p>Visible</p><script>alert('xss');</script><p>Also visible</p>";
    let result = convert_html(html);
    assert!(result.markdown.contains("Visible"));
    assert!(result.markdown.contains("Also visible"));
    assert!(!result.markdown.contains("alert"));
    assert!(!result.markdown.contains("script"));
}

#[test]
fn test_html_style_stripped() {
    let html = "<style>body { color: red; }</style><p>Content</p>";
    let result = convert_html(html);
    assert!(result.markdown.contains("Content"));
    assert!(!result.markdown.contains("color"));
    assert!(!result.markdown.contains("red"));
}

#[test]
fn test_html_title_from_title_tag() {
    let html =
        "<html><head><title>My Page Title</title></head><body><p>Content</p></body></html>";
    let result = convert_html(html);
    assert_eq!(result.title, Some("My Page Title".to_string()));
}

#[test]
fn test_html_title_fallback_h1() {
    let html = "<html><body><h1>Main Heading</h1><p>Content</p></body></html>";
    let result = convert_html(html);
    assert_eq!(result.title, Some("Main Heading".to_string()));
}

#[test]
fn test_html_unicode_cjk() {
    let html = "<p>한국어 中文 日本語</p>";
    let result = convert_html(html);
    assert!(result.markdown.contains("한국어"));
    assert!(result.markdown.contains("中文"));
    assert!(result.markdown.contains("日本語"));
}

#[test]
fn test_html_emoji() {
    let html = "<p>Hello 🌍🚀✨ World</p>";
    let result = convert_html(html);
    assert!(result.markdown.contains("🌍"));
    assert!(result.markdown.contains("🚀"));
    assert!(result.markdown.contains("✨"));
}

#[test]
fn test_html_whitespace_collapse() {
    let html = "<p>  Multiple   spaces   here  </p>";
    let result = convert_html(html);
    // Whitespace should be collapsed
    assert!(!result.markdown.contains("  "));
    assert!(result.markdown.contains("Multiple spaces here"));
}

#[test]
fn test_html_pre_whitespace_preserved() {
    let html = "<pre>  indented\n    more indented\n</pre>";
    let result = convert_html(html);
    assert!(result.markdown.contains("  indented"));
    assert!(result.markdown.contains("    more indented"));
}

#[test]
fn test_html_heading_with_inline_formatting() {
    let html = "<h2><em>Italic Title</em></h2>";
    let result = convert_html(html);
    assert!(result.markdown.contains("## *Italic Title*"));
}

#[test]
fn test_html_checkbox_input() {
    let html = r#"<ul>
        <li><input type="checkbox" checked> Done</li>
        <li><input type="checkbox"> Not done</li>
    </ul>"#;
    let result = convert_html(html);
    assert!(result.markdown.contains("[x] Done"));
    assert!(result.markdown.contains("[ ] Not done"));
}

// ---- Plain text output tests ----

#[test]
fn test_html_plain_text_no_heading_markers() {
    let html = "<h1>Title</h1><h2>Subtitle</h2>";
    let result = convert_html(html);
    assert!(result.plain_text.contains("Title"));
    assert!(result.plain_text.contains("Subtitle"));
    assert!(!result.plain_text.contains("# "));
    assert!(!result.plain_text.contains("## "));
}

#[test]
fn test_html_plain_text_no_bold_italic_markers() {
    let html = "<p><strong>bold</strong> and <em>italic</em></p>";
    let result = convert_html(html);
    assert!(result.plain_text.contains("bold"));
    assert!(result.plain_text.contains("italic"));
    assert!(!result.plain_text.contains("**"));
    assert!(!result.plain_text.contains("*italic*"));
}

#[test]
fn test_html_plain_text_link_text_only() {
    let html = r#"<a href="https://example.com">Example</a>"#;
    let result = convert_html(html);
    assert!(result.plain_text.contains("Example"));
    assert!(!result.plain_text.contains("[Example]"));
    assert!(!result.plain_text.contains("https://example.com"));
}

#[test]
fn test_html_plain_text_image_alt_text_only() {
    let html = r#"<img src="photo.jpg" alt="A photo">"#;
    let result = convert_html(html);
    assert!(result.plain_text.contains("A photo"));
    assert!(!result.plain_text.contains("!["));
    assert!(!result.plain_text.contains("photo.jpg"));
}

#[test]
fn test_html_plain_text_no_code_fences() {
    let html = "<pre><code>fn main() {}</code></pre>";
    let result = convert_html(html);
    assert!(result.plain_text.contains("fn main() {}"));
    assert!(!result.plain_text.contains("```"));
}

#[test]
fn test_html_plain_text_no_inline_backtick() {
    let html = "<p>Use <code>cargo</code> to build.</p>";
    let result = convert_html(html);
    assert!(result.plain_text.contains("cargo"));
    assert!(!result.plain_text.contains("`cargo`"));
}

#[test]
fn test_html_plain_text_table_tab_separated() {
    let html = r#"<table>
        <thead><tr><th>Name</th><th>Age</th></tr></thead>
        <tbody><tr><td>Alice</td><td>30</td></tr></tbody>
    </table>"#;
    let result = convert_html(html);
    assert!(result.plain_text.contains("Name\tAge"));
    assert!(result.plain_text.contains("Alice\t30"));
    assert!(!result.plain_text.contains("|"));
}

#[test]
fn test_html_plain_text_list_no_markers() {
    let html = "<ul><li>Apple</li><li>Banana</li></ul>";
    let result = convert_html(html);
    assert!(result.plain_text.contains("Apple"));
    assert!(result.plain_text.contains("Banana"));
    assert!(!result.plain_text.contains("- "));
}

#[test]
fn test_html_plain_text_no_blockquote_prefix() {
    let html = "<blockquote>Quoted text</blockquote>";
    let result = convert_html(html);
    assert!(result.plain_text.contains("Quoted text"));
    assert!(!result.plain_text.contains("> "));
}

#[test]
fn test_html_plain_text_empty_document() {
    let result = convert_html("");
    assert!(result.plain_text.is_empty());
}

#[test]
fn test_html_malformed_html_best_effort() {
    let html = "<p>Unclosed paragraph<p>Another<b>Bold without close";
    let result = convert_html(html);
    assert!(result.markdown.contains("Unclosed paragraph"));
    assert!(result.markdown.contains("Another"));
    assert!(result.markdown.contains("Bold without close"));
}

// ---- End-to-end conversions of byte input ----

#[test]
fn test_html_convert_bytes_direct() {
    let input = b"<html><body><h1>Hello</h1><p>World</p></body></html>";
    let result = HtmlConverter
        .convert(input, &ConversionOptions::default())
        .unwrap();
    assert!(result.markdown.contains("# Hello"));
    assert!(result.markdown.contains("World"));
}

#[test]
fn test_html_nested_table_not_mangled_end_to_end() {
    let input =
        br#"<html><body><table><tr><td>a<table><tr><td>x</td><td>y</td></tr></table></td><td>b</td></tr></table></body></html>"#;
    let result = HtmlConverter.convert(input, &ConversionOptions::default()).unwrap();
    assert!(result.markdown.contains("| x | y |"), "md: {}", result.markdown);
    assert!(!result.markdown.contains("\\|"), "escaped pipes: {}", result.markdown);
    assert!(!result.plain_text.contains('|'), "plain leaked pipes: {:?}", result.plain_text);
}

#[test]
fn test_html_colspan_dos_bounded_end_to_end() {
    let input = br#"<html><body><table><tr><td colspan="1000000">X</td><td>Y</td></tr><tr><td colspan="1000000">P</td><td>Q</td></tr></table></body></html>"#;
    let result = HtmlConverter.convert(input, &ConversionOptions::default()).unwrap();
    assert!(result.markdown.len() < 100_000, "not bounded: {} bytes", result.markdown.len());
}

#[test]
fn test_html_nested_table_block_follows_outer_table() {
    let input =
        br#"<table><tr><td>a<table><tr><td>x</td><td>y</td></tr></table></td><td>b</td></tr></table>"#;
    let result = HtmlConverter.convert(input, &ConversionOptions::default()).unwrap();
    assert_eq!(result.markdown, "| a | b |\n|---|---|\n\n| x | y |\n|---|---|\n");
    assert_eq!(result.plain_text, "a\tb\n\nx\ty\n");
}

#[test]
fn test_html_colspan_clamped_to_limit() {
    let input = br#"<table><tr><td colspan="5000">X</td><td>Y</td></tr><tr><td colspan="5000">P</td><td>Q</td></tr></table>"#;
    let result = HtmlConverter.convert(input, &ConversionOptions::default()).unwrap();
    let header = result.markdown.lines().next().unwrap();
    assert_eq!(header.matches('|').count(), 1002);
}

#[test]
fn test_html_colspan_layout_hybrid() {
    let input = br#"<html><body><table>
        <tr><td colspan="3"><h2>Section Title</h2></td></tr>
        <tr><td>Field</td><td colspan="2">Value</td></tr>
        <tr><td>Col A</td><td>Col B</td><td>Col C</td></tr>
        <tr><td>1</td><td>2</td><td>3</td></tr>
    </table></body></html>"#;
    let result = HtmlConverter
        .convert(input, &ConversionOptions::default())
        .unwrap();
    assert!(
        result.markdown.contains("## Section Title"),
        "banner not a heading: {}",
        result.markdown
    );
    assert!(
        result.markdown.contains("**Field:** Value"),
        "label/value not linearized: {}",
        result.markdown
    );
    assert!(
        result.markdown.contains("| Col A | Col B | Col C |"),
        "grid columns missing: {}",
        result.markdown
    );
    assert!(
        result.markdown.contains("| 1 | 2 | 3 |"),
        "grid data missing: {}",
        result.markdown
    );
}

// ---- Further conversions ----

#[test]
fn test_html_invalid_utf8_is_refused() {
    let result = HtmlConverter.convert(&[0x3c, 0x70, 0xff, 0xfe], &ConversionOptions::default());
    assert!(matches!(result, Err(anytomd_html::error::ConvertError::Utf8Error(_))));
}

#[test]
fn test_html_byte_order_mark_dropped() {
    let mut input = "\u{FEFF}".as_bytes().to_vec();
    input.extend_from_slice("<p>Text é</p>".as_bytes());
    let result = HtmlConverter.convert(&input, &ConversionOptions::default()).unwrap();
    assert_eq!(result.markdown, "Text é\n");
    assert_eq!(result.plain_text, "Text é\n");
}

#[test]
fn test_html_blank_title_falls_back_to_h1() {
    let result = convert_html("<html><head><title>  </title></head><body><h1> Main </h1></body></html>");
    assert_eq!(result.title, Some("Main".to_string()));
    assert_eq!(result.markdown, "# Main\n");
}

#[test]
fn test_html_no_title_and_no_h1() {
    let result = convert_html("<p>x</p>");
    assert_eq!(result.title, None);
    assert_eq!(result.markdown, "x\n");
}

#[test]
fn test_html_output_trimmed_with_single_newline() {
    let result = convert_html("<p>   spaced   </p>\n\n");
    assert_eq!(result.markdown, "spaced\n");
    assert_eq!(result.plain_text, "spaced\n");
}

#[test]
fn test_html_can_convert_matches_supported_extensions() {
    let converter = HtmlConverter;
    for ext in converter.supported_extensions() {
        assert!(converter.can_convert(ext, b""));
    }
    assert!(!converter.can_convert("HTML", b""));
}

#[test]
fn test_html_leading_bom_gives_same_result() {
    let doc = b"<html><head><title> T </title></head><body><h1>A</h1><p>b c</p></body></html>";
    let mut with_bom = vec![0xEFu8, 0xBB, 0xBF];
    with_bom.extend_from_slice(doc);
    let a = HtmlConverter.convert(doc, &ConversionOptions::default()).unwrap();
    let b = HtmlConverter.convert(&with_bom, &ConversionOptions::default()).unwrap();
    assert_eq!(a.markdown, b.markdown);
    assert_eq!(a.plain_text, b.plain_text);
    assert_eq!(a.title, b.title);
    assert_eq!(b.title.as_deref(), Some("T"));
}
