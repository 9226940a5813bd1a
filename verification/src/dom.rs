//! A flat view of a parsed HTML document: the open/close events of a
//! depth-first traversal, with element names, attributes and text as plain
//! character data.
use vstd::prelude::*;

use crate::table::max1;

use crate::text::{
    ascii_lower_seq,
    chars_eq,
    chars_eq_str,
    parse_usize,
    parse_usize_spec,
    str_chars,
    to_ascii_lower,
    trim,
    trimmed,
};

verus! {

/// One attribute of an element: namespace URL (empty for ordinary HTML
/// attributes), local name and value.
pub struct DomAttr {
    pub ns: Vec<char>,
    pub name: Vec<char>,
    pub value: Vec<char>,
}

/// The contents of a [`DomAttr`].
pub struct AttrView {
    pub ns: Seq<char>,
    pub name: Seq<char>,
    pub value: Seq<char>,
}

impl View for DomAttr {
    type V = AttrView;

    open spec fn view(&self) -> AttrView {
        AttrView { ns: self.ns@, name: self.name@, value: self.value@ }
    }
}

/// The views of a list of attributes.
pub open spec fn attrs_view(attrs: Seq<DomAttr>) -> Seq<AttrView> {
    attrs.map_values(|a: DomAttr| a@)
}

/// A node of the document tree, as far as the converter reads it.
pub enum DomNode {
    /// An element with its local name and attributes.
    Element { name: Vec<char>, attrs: Vec<DomAttr> },
    /// A text node.
    Text(Vec<char>),
    /// A comment, doctype or other node the converter ignores.
    Other,
}

/// The contents of a [`DomNode`].
pub enum NodeView {
    Element { name: Seq<char>, attrs: Seq<AttrView> },
    Text(Seq<char>),
    Other,
}

impl View for DomNode {
    type V = NodeView;

    open spec fn view(&self) -> NodeView {
        match self {
            DomNode::Element { name, attrs } => NodeView::Element {
                name: name@,
                attrs: attrs_view(attrs@),
            },
            DomNode::Text(t) => NodeView::Text(t@),
            DomNode::Other => NodeView::Other,
        }
    }
}

/// Entering (`opening`) or leaving a node during a depth-first traversal.
pub struct DomEvent {
    pub opening: bool,
    pub node: DomNode,
}

/// The contents of a [`DomEvent`].
pub struct EventView {
    pub opening: bool,
    pub node: NodeView,
}

impl View for DomEvent {
    type V = EventView;

    open spec fn view(&self) -> EventView {
        EventView { opening: self.opening, node: self.node@ }
    }
}

/// The views of a list of events.
pub open spec fn events_view(events: Seq<DomEvent>) -> Seq<EventView> {
    events.map_values(|e: DomEvent| e@)
}

/// An attribute from its namespace URL, local name and value.
pub fn attr_of(ns: &str, name: &str, value: &str) -> (a: DomAttr)
    ensures
        a@ == (AttrView { ns: ns@, name: name@, value: value@ }),
{
    DomAttr { ns: str_chars(ns), name: str_chars(name), value: str_chars(value) }
}

/// An element node from its local name and attributes.
pub fn element_node(name: &str, attrs: Vec<DomAttr>) -> (n: DomNode)
    ensures
        n@ == (NodeView::Element { name: name@, attrs: attrs_view(attrs@) }),
{
    DomNode::Element { name: str_chars(name), attrs }
}

/// A text node.
pub fn text_node(text: &str) -> (n: DomNode)
    ensures
        n@ == NodeView::Text(text@),
{
    DomNode::Text(str_chars(text))
}

// ---------------------------------------------------------------------------
// Attributes
// ---------------------------------------------------------------------------

/// The value of the first attribute without namespace whose local name is
/// `key`.
pub open spec fn attr_lookup(attrs: Seq<AttrView>, key: Seq<char>) -> Option<Seq<char>>
    decreases attrs.len(),
{
    if attrs.len() == 0 {
        None
    } else if attrs[0].ns.len() == 0 && attrs[0].name == key {
        Some(attrs[0].value)
    } else {
        attr_lookup(attrs.drop_first(), key)
    }
}

/// The value of attribute `key`, or empty text when it is absent.
pub open spec fn attr_or_empty(attrs: Seq<AttrView>, key: Seq<char>) -> Seq<char> {
    match attr_lookup(attrs, key) {
        Some(v) => v,
        None => Seq::empty(),
    }
}

/// The most columns one cell may span; larger `colspan` values are clamped
/// to it, as the HTML table model does, so that one cell cannot blow a table
/// up to an unbounded number of columns.
pub const MAX_COLSPAN: usize = 1000;

/// `n`, but at most `cap`.
pub open spec fn at_most(n: usize, cap: usize) -> usize {
    if n > cap {
        cap
    } else {
        n
    }
}

/// A `colspan`/`rowspan` value: the trimmed attribute parsed as `usize`,
/// one when absent or unparsable, and at least one.
pub open spec fn span_attr(attrs: Seq<AttrView>, key: Seq<char>) -> usize {
    match attr_lookup(attrs, key) {
        Some(v) => match parse_usize_spec(trim(v)) {
            Some(n) => max1(n),
            None => 1,
        },
        None => 1,
    }
}

/// Looks up attribute `key` of an element.
pub fn find_attr<'a>(attrs: &'a [DomAttr], key: &str) -> (r: Option<&'a Vec<char>>)
    ensures
        match r {
            Some(v) => attr_lookup(attrs_view(attrs@), key@) == Some(v@),
            None => attr_lookup(attrs_view(attrs@), key@) is None,
        },
{
    let k = str_chars(key);
    let ghost av = attrs_view(attrs@);
    assert(av.skip(0) =~= av);
    for i in 0..attrs.len()
        invariant
            av == attrs_view(attrs@),
            k@ == key@,
            attr_lookup(av, key@) == attr_lookup(av.skip(i as int), key@),
    {
        let a = &attrs[i];
        let ghost rest = av.skip(i as int);
        assert(rest[0] == a@);
        assert(rest.drop_first() =~= av.skip(i + 1));
        if a.ns.len() == 0 && chars_eq(a.name.as_slice(), k.as_slice()) {
            return Some(&a.value);
        }
    }
    assert(av.skip(attrs.len() as int) =~= Seq::<AttrView>::empty());
    None
}

/// The value of attribute `key`, or empty text.
pub fn attr_value_or_empty(attrs: &[DomAttr], key: &str) -> (r: Vec<char>)
    ensures
        r@ == attr_or_empty(attrs_view(attrs@), key@),
{
    match find_attr(attrs, key) {
        Some(v) => crate::text::slice_chars(v.as_slice(), 0, v.len()),
        None => Vec::new(),
    }
}

/// Reads a `colspan`/`rowspan` attribute.
pub fn span_attr_value(attrs: &[DomAttr], key: &str) -> (n: usize)
    ensures
        n == span_attr(attrs_view(attrs@), key@),
        n >= 1,
{
    match find_attr(attrs, key) {
        Some(v) => {
            let t = trimmed(v.as_slice());
            match parse_usize(t.as_slice()) {
                Some(n) => if n < 1 {
                    1
                } else {
                    n
                },
                None => 1,
            }
        },
        None => 1,
    }
}

// ---------------------------------------------------------------------------
// Element kinds
// ---------------------------------------------------------------------------

/// The element kinds the converter distinguishes.
pub enum Tag {
    /// `script`, `style` and `head`: skipped with all their content.
    Skip,
    /// `h1` to `h6`, with the level.
    Heading(u8),
    P,
    A,
    Img,
    /// `strong` or `b`.
    Strong,
    /// `em` or `i`.
    Em,
    Code,
    Pre,
    Ul,
    Ol,
    Li,
    Table,
    Thead,
    Tbody,
    Tr,
    /// `th` or `td`.
    Cell,
    Blockquote,
    Hr,
    Br,
    Input,
    /// Any other element.
    Other,
}

/// The kind of an element, from its ASCII-lowercased name.
pub open spec fn tag_of(name: Seq<char>) -> Tag {
    let t = ascii_lower_seq(name);
    if t == "script"@ || t == "style"@ || t == "head"@ {
        Tag::Skip
    } else if t == "h1"@ {
        Tag::Heading(1)
    } else if t == "h2"@ {
        Tag::Heading(2)
    } else if t == "h3"@ {
        Tag::Heading(3)
    } else if t == "h4"@ {
        Tag::Heading(4)
    } else if t == "h5"@ {
        Tag::Heading(5)
    } else if t == "h6"@ {
        Tag::Heading(6)
    } else if t == "p"@ {
        Tag::P
    } else if t == "a"@ {
        Tag::A
    } else if t == "img"@ {
        Tag::Img
    } else if t == "strong"@ || t == "b"@ {
        Tag::Strong
    } else if t == "em"@ || t == "i"@ {
        Tag::Em
    } else if t == "code"@ {
        Tag::Code
    } else if t == "pre"@ {
        Tag::Pre
    } else if t == "ul"@ {
        Tag::Ul
    } else if t == "ol"@ {
        Tag::Ol
    } else if t == "li"@ {
        Tag::Li
    } else if t == "table"@ {
        Tag::Table
    } else if t == "thead"@ {
        Tag::Thead
    } else if t == "tbody"@ {
        Tag::Tbody
    } else if t == "tr"@ {
        Tag::Tr
    } else if t == "th"@ || t == "td"@ {
        Tag::Cell
    } else if t == "blockquote"@ {
        Tag::Blockquote
    } else if t == "hr"@ {
        Tag::Hr
    } else if t == "br"@ {
        Tag::Br
    } else if t == "input"@ {
        Tag::Input
    } else {
        Tag::Other
    }
}

/// An element is skipped with all its content exactly when its name is
/// `script`, `style` or `head` in any ASCII letter case.
pub proof fn skipped_elements_are_script_style_head(name: Seq<char>)
    ensures
        (tag_of(name) is Skip) == (ascii_lower_seq(name) == "script"@ || ascii_lower_seq(name)
            == "style"@ || ascii_lower_seq(name) == "head"@),
{
}

/// The kind of an element.
pub fn classify_tag(name: &Vec<char>) -> (t: Tag)
    ensures
        t == tag_of(name@),
{
    let l = to_ascii_lower(name);
    let s = l.as_slice();
    if chars_eq_str(s, "script") || chars_eq_str(s, "style") || chars_eq_str(s, "head") {
        Tag::Skip
    } else if chars_eq_str(s, "h1") {
        Tag::Heading(1)
    } else if chars_eq_str(s, "h2") {
        Tag::Heading(2)
    } else if chars_eq_str(s, "h3") {
        Tag::Heading(3)
    } else if chars_eq_str(s, "h4") {
        Tag::Heading(4)
    } else if chars_eq_str(s, "h5") {
        Tag::Heading(5)
    } else if chars_eq_str(s, "h6") {
        Tag::Heading(6)
    } else if chars_eq_str(s, "p") {
        Tag::P
    } else if chars_eq_str(s, "a") {
        Tag::A
    } else if chars_eq_str(s, "img") {
        Tag::Img
    } else if chars_eq_str(s, "strong") || chars_eq_str(s, "b") {
        Tag::Strong
    } else if chars_eq_str(s, "em") || chars_eq_str(s, "i") {
        Tag::Em
    } else if chars_eq_str(s, "code") {
        Tag::Code
    } else if chars_eq_str(s, "pre") {
        Tag::Pre
    } else if chars_eq_str(s, "ul") {
        Tag::Ul
    } else if chars_eq_str(s, "ol") {
        Tag::Ol
    } else if chars_eq_str(s, "li") {
        Tag::Li
    } else if chars_eq_str(s, "table") {
        Tag::Table
    } else if chars_eq_str(s, "thead") {
        Tag::Thead
    } else if chars_eq_str(s, "tbody") {
        Tag::Tbody
    } else if chars_eq_str(s, "tr") {
        Tag::Tr
    } else if chars_eq_str(s, "th") || chars_eq_str(s, "td") {
        Tag::Cell
    } else if chars_eq_str(s, "blockquote") {
        Tag::Blockquote
    } else if chars_eq_str(s, "hr") {
        Tag::Hr
    } else if chars_eq_str(s, "br") {
        Tag::Br
    } else if chars_eq_str(s, "input") {
        Tag::Input
    } else {
        Tag::Other
    }
}

} // verus!
