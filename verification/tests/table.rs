use anytomd_html::markdown::{build_table, build_table_plain, push_heading};
use anytomd_html::table::{
    classify_html_row, expand_html_row, html_grid_width, html_table_is_simple,
    normalize_html_rowspans, render_table, HtmlCell, HtmlRow, HtmlRowKind, TableCollector,
};

fn cell(text: &str, colspan: usize, rowspan: usize) -> HtmlCell {
    HtmlCell { colspan, rowspan, has_heading: false, heading_level: 0, content: text.chars().collect() }
}

fn row(cells: Vec<HtmlCell>) -> HtmlRow {
    HtmlRow { cells, is_header_row: false }
}

fn texts(r: &HtmlRow) -> Vec<String> {
    r.cells.iter().map(|c| c.content.iter().collect()).collect()
}

fn s(v: &[char]) -> String {
    v.iter().collect()
}

fn table(rows: Vec<HtmlRow>) -> TableCollector {
    TableCollector {
        rows,
        current_row: row(Vec::new()),
        current_cell: cell("", 0, 0),
        in_header: false,
        in_cell: false,
        nested_md: Vec::new(),
        nested_plain: Vec::new(),
    }
}

#[test]
fn test_normalize_rowspan_inserts_placeholder() {
    let rows = vec![
        row(vec![cell("M", 1, 2), cell("X1", 1, 1), cell("Y1", 1, 1)]),
        row(vec![cell("X2", 1, 1), cell("Y2", 1, 1)]),
    ];
    let out = normalize_html_rowspans(&rows);
    assert_eq!(out.len(), 2);
    assert_eq!(texts(&out[0]), vec!["M", "X1", "Y1"]);
    assert_eq!(texts(&out[1]), vec!["", "X2", "Y2"]);
    assert!(out.iter().all(|r| r.cells.iter().all(|c| c.rowspan == 1)));
}

#[test]
fn test_normalize_without_vertical_spans_keeps_cells() {
    let mut header = row(vec![cell("a", 2, 1)]);
    header.is_header_row = true;
    let rows = vec![header, row(vec![cell("b", 1, 1), cell("c", 1, 1)])];
    let out = normalize_html_rowspans(&rows);
    assert_eq!(texts(&out[0]), vec!["a"]);
    assert_eq!(texts(&out[1]), vec!["b", "c"]);
    assert!(out[0].is_header_row);
    assert!(!out[1].is_header_row);
}

#[test]
fn test_normalize_colspan_rowspan_covers_all_columns() {
    let rows = vec![
        row(vec![cell("W", 2, 3), cell("r1", 1, 1)]),
        row(vec![cell("r2", 1, 1)]),
        row(vec![cell("r3", 1, 1)]),
        row(vec![cell("d1", 1, 1), cell("d2", 1, 1), cell("d3", 1, 1)]),
    ];
    let out = normalize_html_rowspans(&rows);
    assert_eq!(texts(&out[1]), vec!["", "", "r2"]);
    assert_eq!(texts(&out[2]), vec!["", "", "r3"]);
    assert_eq!(texts(&out[3]), vec!["d1", "d2", "d3"]);
}

#[test]
fn test_grid_width_is_widest_row() {
    let rows = vec![row(vec![cell("a", 3, 1)]), row(vec![cell("b", 0, 1), cell("c", 1, 1)])];
    assert_eq!(html_grid_width(&rows), 3);
    assert_eq!(html_grid_width(&[]), 0);
}

#[test]
fn test_classify_each_kind() {
    assert!(matches!(classify_html_row(&row(vec![cell("t", 3, 1)]), 3), HtmlRowKind::Banner));
    assert!(matches!(
        classify_html_row(&row(vec![cell("l", 1, 1), cell("v", 2, 1)]), 3),
        HtmlRowKind::LabelValue
    ));
    assert!(matches!(
        classify_html_row(&row(vec![cell("a", 1, 1), cell("b", 1, 1), cell("c", 1, 1)]), 3),
        HtmlRowKind::Tiling
    ));
    assert!(matches!(
        classify_html_row(&row(vec![cell("a", 1, 1), cell("b", 1, 1)]), 3),
        HtmlRowKind::Fallback
    ));
}

#[test]
fn test_simple_table_detection() {
    assert!(html_table_is_simple(&[]));
    assert!(html_table_is_simple(&[row(vec![cell("a", 1, 1)]), row(vec![cell("b", 1, 1)])]));
    assert!(!html_table_is_simple(&[row(vec![cell("a", 2, 1)])]));
    assert!(!html_table_is_simple(&[
        row(vec![cell("a", 1, 1)]),
        row(vec![cell("b", 1, 1), cell("c", 1, 1)])
    ]));
}

#[test]
fn test_expand_row_pads_and_cuts_to_grid_width() {
    let r = row(vec![cell(" a ", 2, 1), cell("b", 1, 1)]);
    let wide: Vec<String> = expand_html_row(&r, 5).iter().map(|c| s(c)).collect();
    assert_eq!(wide, vec!["a", "", "b", "", ""]);
    let narrow: Vec<String> = expand_html_row(&r, 2).iter().map(|c| s(c)).collect();
    assert_eq!(narrow, vec!["a", ""]);
}

#[test]
fn test_render_simple_table_uses_thead_row_as_header() {
    let mut head = row(vec![cell("H1", 1, 1), cell("H2", 1, 1)]);
    head.is_header_row = true;
    let t = table(vec![row(vec![cell("a", 1, 1), cell("b", 1, 1)]), head]);
    assert_eq!(s(&render_table(&t, false)), "| H1 | H2 |\n|---|---|\n| a | b |\n");
    assert_eq!(s(&render_table(&t, true)), "H1\tH2\na\tb\n");
}

#[test]
fn test_render_layout_table_linearized() {
    let t = table(vec![
        row(vec![cell("Section", 3, 1)]),
        row(vec![cell("Field::", 1, 1), cell("", 2, 1)]),
        row(vec![cell("A", 1, 1), cell("B", 1, 1), cell("C", 1, 1)]),
        row(vec![cell("x", 1, 1), cell("y", 1, 1)]),
    ]);
    assert_eq!(
        s(&render_table(&t, false)),
        "**Section**\n\n**Field:** \n\n| A | B | C |\n|---|---|---|\n\n| x | y |\n|---|---|\n\n"
    );
    assert_eq!(s(&render_table(&t, true)), "Section\n\nField\n\nA\tB\tC\n\nx\ty\n\n");
}

#[test]
fn test_render_empty_table_is_empty() {
    assert_eq!(s(&render_table(&table(Vec::new()), false)), "");
    assert_eq!(s(&render_table(&table(vec![row(Vec::new())]), false)), "");
}

#[test]
fn test_build_table_exact_layout() {
    let headers = vec!["h".chars().collect::<Vec<char>>(), "i".chars().collect()];
    let rows = vec![vec!["1\n2".chars().collect::<Vec<char>>(), Vec::new()]];
    assert_eq!(s(&build_table(&headers, &rows)), "| h | i |\n|---|---|\n| 1 2 |  |\n");
    assert_eq!(s(&build_table_plain(&headers, &rows)), "h\ti\n1 2\t\n");
    assert_eq!(s(&build_table(&[], &rows)), "");
    assert_eq!(s(&build_table_plain(&[], &rows)), "");
}

#[test]
fn test_heading_level_clamped_and_empty_text_dropped() {
    let mut out = Vec::new();
    push_heading(&mut out, 9, &['T']);
    assert_eq!(s(&out), "###### T\n");
    let mut out = Vec::new();
    push_heading(&mut out, 0, &['T']);
    assert_eq!(s(&out), "# T\n");
    let mut out = Vec::new();
    push_heading(&mut out, 2, &[]);
    assert_eq!(s(&out), "");
}

#[test]
fn test_plain_rendering_of_spanned_table_has_no_markdown_markers() {
    let t = table(vec![
        row(vec![cell("Title", 3, 1)]),
        row(vec![cell("Key:", 1, 2), cell("v1", 2, 1)]),
        row(vec![cell("v2", 1, 1), cell("v3", 1, 1)]),
        row(vec![cell("a", 1, 1), cell("b", 1, 1)]),
    ]);
    let plain = s(&render_table(&t, true));
    assert!(!plain.is_empty());
    assert!(!plain.contains('|'));
    assert!(!plain.contains('*'));
    assert!(!plain.contains('#'));
    let md = s(&render_table(&t, false));
    assert!(md.contains("**Title**"));
}
