use anytomd_html::dom::{span_attr_value, DomAttr, DomEvent, DomNode};
use anytomd_html::walker::walk_dom;

fn chars(s: &str) -> Vec<char> {
    s.chars().collect()
}

fn open(name: &str) -> DomEvent {
    DomEvent { opening: true, node: DomNode::Element { name: chars(name), attrs: Vec::new() } }
}

fn open_with(name: &str, attrs: &[(&str, &str)]) -> DomEvent {
    let attrs = attrs
        .iter()
        .map(|(k, v)| DomAttr { ns: Vec::new(), name: chars(k), value: chars(v) })
        .collect();
    DomEvent { opening: true, node: DomNode::Element { name: chars(name), attrs } }
}

fn close(name: &str) -> DomEvent {
    DomEvent { opening: false, node: DomNode::Element { name: chars(name), attrs: Vec::new() } }
}

fn text(t: &str) -> Vec<DomEvent> {
    vec![
        DomEvent { opening: true, node: DomNode::Text(chars(t)) },
        DomEvent { opening: false, node: DomNode::Text(chars(t)) },
    ]
}

fn elem(name: &str, inner: Vec<DomEvent>) -> Vec<DomEvent> {
    let mut v = vec![open(name)];
    v.extend(inner);
    v.push(close(name));
    v
}

#[test]
fn test_walk_no_events_gives_empty_output() {
    let (md, plain) = walk_dom(&[]);
    assert_eq!(md, "");
    assert_eq!(plain, "");
}

#[test]
fn test_walk_paragraphs_separated_by_blank_line() {
    let mut ev = elem("p", text("One"));
    ev.extend(elem("p", text("Two")));
    let (md, plain) = walk_dom(&ev);
    assert_eq!(md, "One\n\nTwo\n");
    assert_eq!(plain, "One\n\nTwo\n");
}

#[test]
fn test_walk_heading_markers_only_in_markdown() {
    let mut ev = elem("H2", text("  Title  "));
    ev.extend(elem("p", text("Body")));
    let (md, plain) = walk_dom(&ev);
    assert_eq!(md, "## Title\n\nBody\n");
    assert_eq!(plain, "Title\n\nBody\n");
}

#[test]
fn test_walk_script_content_skipped() {
    let mut ev = elem("script", text("alert(1)"));
    ev.extend(elem("p", text("Shown")));
    ev.extend(elem("style", elem("p", text("hidden"))));
    let (md, _) = walk_dom(&ev);
    assert_eq!(md, "Shown\n");
}

#[test]
fn test_walk_link_with_and_without_href() {
    let mut ev = vec![open_with("a", &[("href", "u")])];
    ev.extend(text("go"));
    ev.push(close("a"));
    ev.extend(text(" "));
    ev.push(open("a"));
    ev.extend(text("plain"));
    ev.push(close("a"));
    let (md, plain) = walk_dom(&ev);
    assert_eq!(md, "[go](u) plain\n");
    assert_eq!(plain, "go plain\n");
}

#[test]
fn test_walk_namespaced_attribute_ignored() {
    let attrs = vec![DomAttr { ns: chars("http://www.w3.org/1999/xlink"), name: chars("href"), value: chars("x") }];
    let mut ev = vec![DomEvent { opening: true, node: DomNode::Element { name: chars("a"), attrs } }];
    ev.extend(text("t"));
    ev.push(close("a"));
    let (md, _) = walk_dom(&ev);
    assert_eq!(md, "t\n");
}

#[test]
fn test_walk_nested_blockquote_prefix() {
    let ev = elem("blockquote", elem("blockquote", text("Deep")));
    let (md, plain) = walk_dom(&ev);
    assert_eq!(md, "> > Deep\n");
    assert_eq!(plain, "Deep\n");
}

#[test]
fn test_walk_ordered_list_numbers_items() {
    let mut items = elem("li", text("a"));
    items.extend(elem("li", text("b")));
    let ev = elem("ol", items);
    let (md, plain) = walk_dom(&ev);
    assert_eq!(md, "1. a\n2. b\n");
    assert_eq!(plain, "a\nb\n");
}

#[test]
fn test_walk_table_text_outside_cells_dropped() {
    let mut row = text("  stray  ");
    row.extend(elem("td", text(" x ")));
    row.extend(elem("td", text("y")));
    let mut body = elem("tr", row);
    let mut second = elem("td", text("1"));
    second.extend(elem("td", text("2")));
    body.extend(elem("tr", second));
    let ev = elem("table", body);
    let (md, plain) = walk_dom(&ev);
    assert_eq!(md, "| x | y |\n|---|---|\n| 1 | 2 |\n");
    assert_eq!(plain, "x\ty\n1\t2\n");
}

#[test]
fn test_walk_pre_keeps_whitespace() {
    let ev = elem("pre", text("  a\n    b"));
    let (md, plain) = walk_dom(&ev);
    assert_eq!(md, "```\n  a\n    b\n```\n");
    assert_eq!(plain, "a\n    b\n");
}

#[test]
fn test_walk_checkbox_markers() {
    let mut ev = vec![open_with("input", &[("type", "checkbox"), ("checked", "")])];
    ev.extend(text(" done"));
    let (md, plain) = walk_dom(&ev);
    assert_eq!(md, "[x] done\n");
    assert_eq!(plain, "done\n");
}

#[test]
fn test_walk_image_alt_in_plain() {
    let ev = vec![open_with("img", &[("src", "a.png"), ("alt", "Pic")]), close("img")];
    let (md, plain) = walk_dom(&ev);
    assert_eq!(md, "![Pic](a.png)\n");
    assert_eq!(plain, "Pic\n");
}

#[test]
fn test_span_attribute_parsed() {
    let attr = |k: &str, v: &str| DomAttr { ns: Vec::new(), name: chars(k), value: chars(v) };
    assert_eq!(span_attr_value(&[attr("colspan", " 3 ")], "colspan"), 3);
    assert_eq!(span_attr_value(&[attr("colspan", "0")], "colspan"), 1);
    assert_eq!(span_attr_value(&[attr("colspan", "x")], "colspan"), 1);
    assert_eq!(span_attr_value(&[], "colspan"), 1);
    assert_eq!(span_attr_value(&[attr("rowspan", "70000")], "rowspan"), 70000);
}

#[test]
fn test_walk_nested_table_emitted_after_outer() {
    let mut ev = vec![open("table"), open("tr"), open("td")];
    ev.extend(text("a"));
    ev.extend([open("table"), open("tr"), open("td")]);
    ev.extend(text("x"));
    ev.extend([close("td"), open("td")]);
    ev.extend(text("y"));
    ev.extend([close("td"), close("tr"), close("table"), close("td"), open("td")]);
    ev.extend(text("b"));
    ev.extend([close("td"), close("tr"), close("table")]);
    let (md, plain) = walk_dom(&ev);
    assert_eq!(md, "| a | b |\n|---|---|\n\n| x | y |\n|---|---|\n");
    assert_eq!(plain, "a\tb\n\nx\ty\n");
}
