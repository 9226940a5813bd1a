//! HTML to Markdown converter.
//!
//! Parses HTML with the `scraper` crate (html5ever) and walks the DOM tree to
//! produce Markdown and plain text. Supports headings, paragraphs, tables,
//! lists, links, blockquotes, code blocks, bold/italic, and images.
use vstd::prelude::*;
use vstd::utf8::{
    decode_first_scalar,
    decode_utf8,
    is_leading_byte_width_1,
    is_leading_byte_width_2,
    is_leading_byte_width_3,
    length_of_first_scalar,
    pop_first_scalar,
    valid_first_scalar,
    valid_utf8,
};

use ego_tree::iter::Edge;
use scraper::Node;

use crate::dom::{attr_of, element_node, events_view, text_node, DomEvent, DomNode, EventView};
use crate::error::ConvertError;
use crate::text::{chars_to_string, slice_chars, str_chars, trim, trimmed};
use crate::walker::{walk_dom, walk_markdown, walk_plain};

verus! {

// ---------------------------------------------------------------------------
// Parsing with scraper
// ---------------------------------------------------------------------------

/// The depth-first traversal (open and close events, from the root `<html>`
/// element) of the document that html5ever builds from `text`.
pub uninterp spec fn html_traversal(text: Seq<char>) -> Seq<EventView>;

/// The concatenated descendant text of the first element of the document
/// built from `text` that matches the CSS selector `selector`; `None` when no
/// element matches or the selector does not parse.
pub uninterp spec fn html_select_first_text(text: Seq<char>, selector: Seq<char>) -> Option<
    Seq<char>,
>;

/// Parses `text` with `scraper::Html::parse_document` and lists the edges of
/// `root_element().traverse()`: for elements their local name and every
/// attribute (namespace URL, local name, value), for text nodes their text.
/// Claimed: the result is a function of `text` alone, named
/// [`html_traversal`].
#[verifier::external_body]
fn parse_html_events(text: &str) -> (events: Vec<DomEvent>)
    ensures
        events_view(events@) == html_traversal(text@),
{
    let doc = scraper::Html::parse_document(text);
    let mut events: Vec<DomEvent> = Vec::new();
    for edge in doc.root_element().traverse() {
        let (opening, node) = match edge { Edge::Open(n) => (true, n.value()), Edge::Close(n) => (false, n.value()) };
        let node = match node {
            Node::Element(e) => element_node(e.name(), e.attrs.iter().map(|(q, v)| attr_of(&q.ns, &q.local, v)).collect()),
            Node::Text(t) => text_node(&t.text),
            _ => DomNode::Other,
        };
        events.push(DomEvent { opening, node });
    }
    events
}

/// Parses `text` with `scraper::Html::parse_document`, parses `selector`
/// with `scraper::Selector::parse`, and collects the text of the first match
/// of `Html::select`. Claimed: the result is a function of the two arguments
/// alone, named [`html_select_first_text`].
#[verifier::external_body]
fn select_first_text(text: &str, selector: &str) -> (r: Option<String>)
    ensures
        match r {
            Some(s) => html_select_first_text(text@, selector@) == Some(s@),
            None => html_select_first_text(text@, selector@) is None,
        },
{
    let doc = scraper::Html::parse_document(text);
    let selector = scraper::Selector::parse(selector).ok()?;
    let element = doc.select(&selector).next()?;
    Some(element.text().collect::<String>())
}

/// `String::from_utf8`: `Ok` exactly for valid UTF-8, holding the decoded
/// characters.
#[verifier::external_body]
fn string_from_utf8(bytes: Vec<u8>) -> (r: Result<String, std::string::FromUtf8Error>)
    ensures
        r is Ok <==> valid_utf8(bytes@),
        r matches Ok(s) ==> s@ == decode_utf8(bytes@),
{
    String::from_utf8(bytes)
}

// ---------------------------------------------------------------------------
// Converter API
// ---------------------------------------------------------------------------

/// Options for a conversion.
pub struct ConversionOptions {
    /// Whether converters that read comments append a `# Comments` section.
    pub extract_comments: bool,
}

impl Default for ConversionOptions {
    fn default() -> (o: Self)
        ensures
            !o.extract_comments,
    {
        ConversionOptions { extract_comments: false }
    }
}

/// The outcome of a conversion.
pub struct ConversionResult {
    /// The Markdown rendering.
    pub markdown: String,
    /// The plain-text rendering.
    pub plain_text: String,
    /// The document title, when one was found.
    pub title: Option<String>,
}

/// Converts HTML files to Markdown.
pub struct HtmlConverter;

/// The characters of an optional string.
pub open spec fn opt_view(o: Option<String>) -> Option<Seq<char>> {
    match o {
        Some(s) => Some(s@),
        None => None,
    }
}

/// The text without a leading byte-order mark.
pub open spec fn strip_bom(s: Seq<char>) -> Seq<char> {
    if s.len() > 0 && s[0] == '\u{FEFF}' {
        s.drop_first()
    } else {
        s
    }
}

/// A candidate title, trimmed, when it is not blank.
pub open spec fn nonblank(t: Option<Seq<char>>) -> Option<Seq<char>> {
    match t {
        Some(s) => if trim(s).len() > 0 {
            Some(trim(s))
        } else {
            None
        },
        None => None,
    }
}

/// The document title: the `<title>` text, else the first `<h1>` text, each
/// trimmed and only when not blank.
pub open spec fn title_spec(title_text: Option<Seq<char>>, h1_text: Option<Seq<char>>) -> Option<
    Seq<char>,
> {
    match nonblank(title_text) {
        Some(t) => Some(t),
        None => nonblank(h1_text),
    }
}

fn nonblank_string(t: Option<String>) -> (r: Option<String>)
    ensures
        opt_view(r) == nonblank(opt_view(t)),
{
    match t {
        Some(s) => {
            let c = str_chars(s.as_str());
            let v = trimmed(c.as_slice());
            if v.len() > 0 {
                Some(chars_to_string(v.as_slice()))
            } else {
                None
            }
        },
        None => None,
    }
}

/// Chooses the title from the text of the first `<title>` element and the
/// text of the first `<h1>` element.
pub fn choose_title(title_text: Option<String>, h1_text: Option<String>) -> (r: Option<String>)
    ensures
        opt_view(r) == title_spec(opt_view(title_text), opt_view(h1_text)),
{
    match nonblank_string(title_text) {
        Some(t) => Some(t),
        None => nonblank_string(h1_text),
    }
}

/// Extract document title: `<title>` first, fallback to first `<h1>`.
pub fn extract_title(text: &str) -> (r: Option<String>)
    ensures
        opt_view(r) == title_spec(
            html_select_first_text(text@, "title"@),
            html_select_first_text(text@, "h1"@),
        ),
{
    choose_title(select_first_text(text, "title"), select_first_text(text, "h1"))
}

/// Whether `s` spells `lit`.
fn str_is(s: &str, lit: &str) -> (b: bool)
    ensures
        b == (s@ == lit@),
{
    let a = str_chars(s);
    crate::text::chars_eq_str(a.as_slice(), lit)
}

impl HtmlConverter {
    /// The file extensions this converter handles.
    pub fn supported_extensions(&self) -> (r: &'static [&'static str])
        ensures
            r@.len() == 2,
            r@[0]@ == "html"@,
            r@[1]@ == "htm"@,
    {
        &["html", "htm"]
    }

    /// Whether this converter handles files with the given extension.
    pub fn can_convert(&self, extension: &str, _header: &[u8]) -> (b: bool)
        ensures
            b == (extension@ == "html"@ || extension@ == "htm"@),
    {
        str_is(extension, "html") || str_is(extension, "htm")
    }

    /// Converts an HTML document to Markdown and plain text.
    ///
    /// The input must be UTF-8 (a leading byte-order mark is dropped);
    /// anything else is refused with [`ConvertError::Utf8Error`].
    pub fn convert(&self, data: &[u8], _options: &ConversionOptions) -> (r: Result<
        ConversionResult,
        ConvertError,
    >)
        ensures
            match r {
                Ok(res) => {
                    let text = strip_bom(decode_utf8(data@));
                    &&& valid_utf8(data@)
                    &&& res.markdown@ == walk_markdown(html_traversal(text))
                    &&& res.plain_text@ == walk_plain(html_traversal(text))
                    &&& opt_view(res.title) == title_spec(
                        html_select_first_text(text, "title"@),
                        html_select_first_text(text, "h1"@),
                    )
                },
                Err(e) => !valid_utf8(data@) && e is Utf8Error,
            },
    {
        let bytes = vstd::slice::slice_to_vec(data);
        let text = match string_from_utf8(bytes) {
            Ok(t) => t,
            Err(e) => {
                return Err(ConvertError::Utf8Error(e));
            },
        };
        let chars = str_chars(text.as_str());
        let body = if chars.len() > 0 && chars[0] == '\u{FEFF}' {
            slice_chars(chars.as_slice(), 1, chars.len())
        } else {
            slice_chars(chars.as_slice(), 0, chars.len())
        };
        assert(body@ =~= strip_bom(decode_utf8(data@)));
        let body = chars_to_string(body.as_slice());
        let title = extract_title(body.as_str());
        let events = parse_html_events(body.as_str());
        let (markdown, plain_text) = walk_dom(events.as_slice());
        Ok(ConversionResult { markdown, plain_text, title })
    }
}

// ---------------------------------------------------------------------------
// Laws
// ---------------------------------------------------------------------------

/// A chosen title is never blank and carries no surrounding whitespace.
pub proof fn chosen_title_is_trimmed(title_text: Option<Seq<char>>, h1_text: Option<Seq<char>>)
    ensures
        title_spec(title_text, h1_text) matches Some(t) ==> t.len() > 0 && trim(t) == t,
{
    if let Some(a) = title_text {
        crate::text::lemma_trim_props(a);
    }
    if let Some(b) = h1_text {
        crate::text::lemma_trim_props(b);
    }
}

/// A `<title>` with text wins over any `<h1>`; a blank or missing one
/// defers to the `<h1>`.
pub proof fn title_prefers_title_element(title_text: Option<Seq<char>>, h1_text: Option<Seq<char>>)
    ensures
        nonblank(title_text) is Some ==> title_spec(title_text, h1_text) == nonblank(title_text),
        nonblank(title_text) is None ==> title_spec(title_text, h1_text) == nonblank(h1_text),
{
}

/// The three bytes of a UTF-8 byte-order mark.
pub open spec fn bom_bytes() -> Seq<u8> {
    seq![0xEFu8, 0xBBu8, 0xBFu8]
}

proof fn lemma_bom_scalar(b: Seq<u8>)
    requires
        b.len() >= 3,
        b[0] == 0xEFu8,
        b[1] == 0xBBu8,
        b[2] == 0xBFu8,
    ensures
        valid_first_scalar(b),
        length_of_first_scalar(b) == 3,
        decode_first_scalar(b) == 0xFEFFu32,
{
    let x = b[0];
    let y = b[1];
    let z = b[2];
    assert(((((x & 0x0F) as u32) << 12) | (((y & 0x3F) as u32) << 6) | ((z & 0x3F) as u32))
        == 0xFEFFu32) by (bit_vector)
        requires
            x == 0xEFu8,
            y == 0xBBu8,
            z == 0xBFu8,
    ;
}

proof fn lemma_bom_encoding_unique(d: Seq<u8>)
    requires
        valid_first_scalar(d),
        decode_first_scalar(d) == 0xFEFFu32,
    ensures
        d.len() >= 3 && d[0] == 0xEFu8 && d[1] == 0xBBu8 && d[2] == 0xBFu8,
{
    let x = d[0];
    if is_leading_byte_width_1(x) {
        assert(((x & 0x7F) as u32) <= 0x7Fu32) by (bit_vector);
    } else if is_leading_byte_width_2(x) {
        let y = d[1];
        assert(((((x & 0x1F) as u32) << 6) | ((y & 0x3F) as u32)) <= 0x7FFu32) by (bit_vector);
    } else if is_leading_byte_width_3(x) {
        let y = d[1];
        let z = d[2];
        assert(x == 0xEFu8 && y == 0xBBu8 && z == 0xBFu8) by (bit_vector)
            requires
                0xE0u8 <= x <= 0xEFu8,
                0x80u8 <= y <= 0xBFu8,
                0x80u8 <= z <= 0xBFu8,
                ((((x & 0x0F) as u32) << 12) | (((y & 0x3F) as u32) << 6) | ((z & 0x3F) as u32))
                    == 0xFEFFu32,
        ;
    }
}

proof fn lemma_first_scalar_is_char(d: Seq<u8>)
    requires
        valid_first_scalar(d),
    ensures
        decode_first_scalar(d) <= 0x10FFFFu32,
        !(0xD800u32 <= decode_first_scalar(d) <= 0xDFFFu32),
{
    let x = d[0];
    if is_leading_byte_width_1(x) {
        assert(((x & 0x7F) as u32) <= 0x7Fu32) by (bit_vector);
    } else if is_leading_byte_width_2(x) {
        let y = d[1];
        assert(((((x & 0x1F) as u32) << 6) | ((y & 0x3F) as u32)) <= 0x7FFu32) by (bit_vector);
    } else if is_leading_byte_width_3(x) {
        let y = d[1];
        let z = d[2];
        assert(((((x & 0x0F) as u32) << 12) | (((y & 0x3F) as u32) << 6) | ((z & 0x3F) as u32))
            <= 0xFFFFu32) by (bit_vector);
    }
}

/// One leading UTF-8 byte-order mark changes nothing: with it the bytes are
/// valid exactly when they are without it, and the text handed to the HTML
/// parser (hence the Markdown, the plain text and the title of
/// [`HtmlConverter::convert`]) is the same.
pub proof fn leading_bom_is_ignored(data: Seq<u8>)
    requires
        !(data.len() >= 3 && data[0] == 0xEFu8 && data[1] == 0xBBu8 && data[2] == 0xBFu8),
    ensures
        valid_utf8(bom_bytes() + data) == valid_utf8(data),
        valid_utf8(data) ==> strip_bom(decode_utf8(bom_bytes() + data)) == strip_bom(
            decode_utf8(data),
        ),
{
    let b = bom_bytes() + data;
    lemma_bom_scalar(b);
    assert(pop_first_scalar(b) =~= data);
    if valid_utf8(data) {
        assert(decode_utf8(b) == seq![0xFEFFu32 as char] + decode_utf8(data));
        assert(strip_bom(decode_utf8(b)) =~= decode_utf8(data));
        if data.len() > 0 {
            let v = decode_first_scalar(data);
            assert(decode_utf8(data)[0] == #[verifier::truncate] (v as char));
            if v == 0xFEFFu32 {
                lemma_bom_encoding_unique(data);
            }
            lemma_first_scalar_is_char(data);
            assert(#[verifier::truncate] (v as char) != '\u{FEFF}');
        }
    }
}

} // verus!
