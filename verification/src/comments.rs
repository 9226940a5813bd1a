//! Shared model and rendering for extracted document comments.
//!
//! Converters collect comments into [`Comment`] values while parsing. After
//! the document body is rendered, [`append_comments`] appends a `# Comments`
//! section to both the Markdown and the plain-text output.
//!
//! The rendered Markdown structure is:
//!
//! ```text
//! # Comments
//!
//! ## 1
//! - **author**: <identity> (<date>)
//! - **comment**: <body>
//! - **source**: <commented-on text>
//! ```
//!
//! The plain-text form mirrors the same layout with all Markdown markers
//! stripped (`Comments` / `1` / `author:` / `comment:` / `source:`).
use vstd::prelude::*;

use crate::text::{
    cap_chars,
    cap_spec,
    chars_to_string,
    collapse_ws_chars,
    collapse_ws_spec,
    push_chars,
    push_decimal,
    push_str_chars,
    str_chars,
    trim,
    trim_end,
    trim_end_len,
    trimmed,
    decimal,
};

verus! {

/// A single extracted comment, ready for rendering.
///
/// Field values are already normalized by the converter that produced them
/// (whitespace collapsed, `source` capped, `author` formatted). The renderer
/// does not transform them further except for the reply prefix.
#[derive(Debug, Clone, PartialEq, Eq)]
pub struct Comment {
    /// Commenter identity, pre-formatted as `Name` or `Name (date)`.
    pub author: String,
    /// Comment body text (plain, whitespace-collapsed, uncapped).
    pub body: String,
    /// The text the comment was anchored to, or a slide label. May be empty.
    pub source: String,
    /// Whether this comment is a reply within a thread.
    pub is_reply: bool,
}

/// The contents of a [`Comment`] as character sequences.
pub struct CommentView {
    pub author: Seq<char>,
    pub body: Seq<char>,
    pub source: Seq<char>,
    pub is_reply: bool,
}

impl View for Comment {
    type V = CommentView;

    open spec fn view(&self) -> CommentView {
        CommentView {
            author: self.author@,
            body: self.body@,
            source: self.source@,
            is_reply: self.is_reply,
        }
    }
}

/// The views of a slice of comments.
pub open spec fn comment_views(cs: Seq<Comment>) -> Seq<CommentView> {
    cs.map_values(|c: Comment| c@)
}

/// Maximum number of characters retained for a comment's `source` text.
pub const SOURCE_CAP: usize = 200;

// ---------------------------------------------------------------------------
// Field normalization
// ---------------------------------------------------------------------------

/// Collapse all runs of whitespace (spaces, tabs, newlines) into single spaces
/// and trim the ends.
pub fn collapse_ws(s: &str) -> (r: String)
    ensures
        r@ == collapse_ws_spec(s@),
{
    let v = str_chars(s);
    let out = collapse_ws_chars(v.as_slice());
    chars_to_string(out.as_slice())
}

/// Truncate `s` to at most `max_chars` characters, appending `…` when
/// truncation occurs. Truncation never splits a character.
pub fn cap_text(s: &str, max_chars: usize) -> (r: String)
    ensures
        r@ == cap_spec(s@, max_chars as nat),
{
    let v = str_chars(s);
    let out = cap_chars(v.as_slice(), max_chars);
    chars_to_string(out.as_slice())
}

/// The `author` field built from a raw author name and a date.
pub open spec fn format_author_spec(author: Seq<char>, date: Seq<char>) -> Seq<char> {
    let a = trim(author);
    let a = if a.len() == 0 {
        "Unknown"@
    } else {
        a
    };
    let d = trim(date);
    if d.len() == 0 {
        a
    } else {
        a + " ("@ + d + ")"@
    }
}

/// Format the `author` field from a raw author name and date string.
///
/// - Empty author becomes `Unknown`.
/// - A present date is emitted verbatim in parentheses (no validation).
/// - An empty date yields the author name alone (no empty parentheses).
pub fn format_author(author: &str, date: &str) -> (r: String)
    ensures
        r@ == format_author_spec(author@, date@),
{
    let a0 = str_chars(author);
    let mut out = trimmed(a0.as_slice());
    if out.len() == 0 {
        push_str_chars(&mut out, "Unknown");
    }
    let d0 = str_chars(date);
    let d = trimmed(d0.as_slice());
    if d.len() > 0 {
        push_str_chars(&mut out, " (");
        push_chars(&mut out, d.as_slice());
        push_str_chars(&mut out, ")");
    }
    chars_to_string(out.as_slice())
}

// ---------------------------------------------------------------------------
// Rendering
// ---------------------------------------------------------------------------

/// The comment body as displayed: replies get a `(reply)` prefix.
pub open spec fn body_display_spec(c: CommentView) -> Seq<char> {
    if c.is_reply {
        if c.body.len() == 0 {
            "(reply)"@
        } else {
            "(reply) "@ + c.body
        }
    } else {
        c.body
    }
}

fn push_body_display(out: &mut Vec<char>, c: &Comment)
    ensures
        final(out)@ == old(out)@ + body_display_spec(c@),
{
    let body = str_chars(c.body.as_str());
    if c.is_reply {
        if body.len() == 0 {
            push_str_chars(out, "(reply)");
        } else {
            push_str_chars(out, "(reply) ");
            push_chars(out, body.as_slice());
            assert(final(out)@ =~= old(out)@ + body_display_spec(c@));
        }
    } else {
        push_chars(out, body.as_slice());
    }
}

/// Render the comment body for display, prefixing replies with `(reply)`.
pub fn body_display(c: &Comment) -> (r: String)
    ensures
        r@ == body_display_spec(c@),
{
    let mut out: Vec<char> = Vec::new();
    push_body_display(&mut out, c);
    assert(out@ =~= body_display_spec(c@));
    chars_to_string(out.as_slice())
}

/// The Markdown block of the `n`-th comment (numbered from 1).
pub open spec fn md_entry(n: nat, c: CommentView) -> Seq<char> {
    "\n## "@ + decimal(n) + "\n"@ + "- **author**: "@ + c.author + "\n"@ + "- **comment**: "@
        + body_display_spec(c) + "\n"@ + "- **source**: "@ + c.source + "\n"@
}

/// The Markdown blocks of all comments, numbered from 1.
pub open spec fn md_entries(cs: Seq<CommentView>) -> Seq<char>
    decreases cs.len(),
{
    if cs.len() == 0 {
        Seq::empty()
    } else {
        md_entries(cs.drop_last()) + md_entry(cs.len(), cs.last())
    }
}

/// The Markdown `# Comments` section.
pub open spec fn render_md_spec(cs: Seq<CommentView>) -> Seq<char> {
    "# Comments\n"@ + md_entries(cs)
}

/// The plain-text block of the `n`-th comment (numbered from 1).
pub open spec fn plain_entry(n: nat, c: CommentView) -> Seq<char> {
    "\n"@ + decimal(n) + "\n"@ + "author: "@ + c.author + "\n"@ + "comment: "@ + body_display_spec(
        c,
    ) + "\n"@ + "source: "@ + c.source + "\n"@
}

/// The plain-text blocks of all comments, numbered from 1.
pub open spec fn plain_entries(cs: Seq<CommentView>) -> Seq<char>
    decreases cs.len(),
{
    if cs.len() == 0 {
        Seq::empty()
    } else {
        plain_entries(cs.drop_last()) + plain_entry(cs.len(), cs.last())
    }
}

/// The plain-text `Comments` section.
pub open spec fn render_plain_spec(cs: Seq<CommentView>) -> Seq<char> {
    "Comments\n"@ + plain_entries(cs)
}

fn md_entry_chars(n: usize, c: &Comment) -> (e: Vec<char>)
    ensures
        e@ == md_entry(n as nat, c@),
{
    let mut e: Vec<char> = Vec::new();
    push_str_chars(&mut e, "\n## ");
    assert(e@ =~= "\n## "@);
    push_decimal(&mut e, n);
    push_str_chars(&mut e, "\n");
    push_str_chars(&mut e, "- **author**: ");
    let author = str_chars(c.author.as_str());
    push_chars(&mut e, author.as_slice());
    push_str_chars(&mut e, "\n");
    push_str_chars(&mut e, "- **comment**: ");
    push_body_display(&mut e, c);
    push_str_chars(&mut e, "\n");
    push_str_chars(&mut e, "- **source**: ");
    let source = str_chars(c.source.as_str());
    push_chars(&mut e, source.as_slice());
    push_str_chars(&mut e, "\n");
    e
}

fn plain_entry_chars(n: usize, c: &Comment) -> (e: Vec<char>)
    ensures
        e@ == plain_entry(n as nat, c@),
{
    let mut e: Vec<char> = Vec::new();
    push_str_chars(&mut e, "\n");
    assert(e@ =~= "\n"@);
    push_decimal(&mut e, n);
    push_str_chars(&mut e, "\n");
    push_str_chars(&mut e, "author: ");
    let author = str_chars(c.author.as_str());
    push_chars(&mut e, author.as_slice());
    push_str_chars(&mut e, "\n");
    push_str_chars(&mut e, "comment: ");
    push_body_display(&mut e, c);
    push_str_chars(&mut e, "\n");
    push_str_chars(&mut e, "source: ");
    let source = str_chars(c.source.as_str());
    push_chars(&mut e, source.as_slice());
    push_str_chars(&mut e, "\n");
    e
}

fn render_md_chars(comments: &[Comment]) -> (r: Vec<char>)
    ensures
        r@ == render_md_spec(comment_views(comments@)),
{
    let mut out: Vec<char> = Vec::new();
    push_str_chars(&mut out, "# Comments\n");
    let ghost cs = comment_views(comments@);
    for i in 0..comments.len()
        invariant
            cs == comment_views(comments@),
            out@ == "# Comments\n"@ + md_entries(cs.take(i as int)),
    {
        let e = md_entry_chars(i + 1, &comments[i]);
        let ghost before = out@;
        push_chars(&mut out, e.as_slice());
        proof {
            let t = cs.take(i + 1);
            assert(t.drop_last() =~= cs.take(i as int));
            assert(t.last() == comments@[i as int]@);
            assert(md_entries(t) == md_entries(cs.take(i as int)) + e@);
            assert(out@ =~= "# Comments\n"@ + md_entries(t));
        }
    }
    assert(cs.take(comments.len() as int) =~= cs);
    out
}

fn render_plain_chars(comments: &[Comment]) -> (r: Vec<char>)
    ensures
        r@ == render_plain_spec(comment_views(comments@)),
{
    let mut out: Vec<char> = Vec::new();
    push_str_chars(&mut out, "Comments\n");
    let ghost cs = comment_views(comments@);
    for i in 0..comments.len()
        invariant
            cs == comment_views(comments@),
            out@ == "Comments\n"@ + plain_entries(cs.take(i as int)),
    {
        let e = plain_entry_chars(i + 1, &comments[i]);
        push_chars(&mut out, e.as_slice());
        proof {
            let t = cs.take(i + 1);
            assert(t.drop_last() =~= cs.take(i as int));
            assert(t.last() == comments@[i as int]@);
            assert(plain_entries(t) == plain_entries(cs.take(i as int)) + e@);
            assert(out@ =~= "Comments\n"@ + plain_entries(t));
        }
    }
    assert(cs.take(comments.len() as int) =~= cs);
    out
}

/// Render comments as a Markdown `# Comments` section.
pub fn render_comments_md(comments: &[Comment]) -> (r: String)
    ensures
        r@ == render_md_spec(comment_views(comments@)),
{
    let out = render_md_chars(comments);
    chars_to_string(out.as_slice())
}

/// Render comments as a plain-text section (Markdown markers stripped).
pub fn render_comments_plain(comments: &[Comment]) -> (r: String)
    ensures
        r@ == render_plain_spec(comment_views(comments@)),
{
    let out = render_plain_chars(comments);
    chars_to_string(out.as_slice())
}

// ---------------------------------------------------------------------------
// Appending the section to a document
// ---------------------------------------------------------------------------

/// The buffer after a section is appended: a blank buffer is replaced by the
/// section; otherwise trailing whitespace is dropped and one blank line
/// separates the body from the section.
pub open spec fn append_section_spec(buf: Seq<char>, section: Seq<char>) -> Seq<char> {
    if trim_end(buf).len() == 0 {
        section
    } else {
        trim_end(buf) + "\n\n"@ + section
    }
}

fn append_section_chars(buf: &mut String, section: &[char])
    ensures
        final(buf)@ == append_section_spec(old(buf)@, section@),
{
    let b = str_chars(buf.as_str());
    let keep = trim_end_len(b.as_slice());
    if keep == 0 {
        *buf = chars_to_string(section);
        return;
    }
    let mut out: Vec<char> = Vec::new();
    let mut i: usize = 0;
    while i < keep
        invariant
            i <= keep <= b@.len(),
            out@ == b@.take(i as int),
        decreases keep - i,
    {
        out.push(b[i]);
        assert(b@.take(i + 1) =~= b@.take(i as int).push(b@[i as int]));
        i = i + 1;
    }
    push_str_chars(&mut out, "\n\n");
    push_chars(&mut out, section);
    *buf = chars_to_string(out.as_slice());
}

/// Append a rendered section to a buffer, separated by one blank line.
///
/// If the buffer has no meaningful content, it is replaced by the section
/// (no leading blank lines). Otherwise trailing whitespace is trimmed and a
/// single blank line is inserted before the section.
pub fn append_section(buf: &mut String, section: &str)
    ensures
        final(buf)@ == append_section_spec(old(buf)@, section@),
{
    let s = str_chars(section);
    append_section_chars(buf, s.as_slice());
}

/// Append the `# Comments` section to both Markdown and plain-text output.
///
/// No-op when `comments` is empty (the section is omitted entirely).
pub fn append_comments(markdown: &mut String, plain_text: &mut String, comments: &[Comment])
    ensures
        comments@.len() == 0 ==> final(markdown)@ == old(markdown)@ && final(plain_text)@ == old(
            plain_text,
        )@,
        comments@.len() > 0 ==> final(markdown)@ == append_section_spec(
            old(markdown)@,
            render_md_spec(comment_views(comments@)),
        ) && final(plain_text)@ == append_section_spec(
            old(plain_text)@,
            render_plain_spec(comment_views(comments@)),
        ),
{
    if comments.len() == 0 {
        return;
    }
    let md = render_md_chars(comments);
    append_section_chars(markdown, md.as_slice());
    let plain = render_plain_chars(comments);
    append_section_chars(plain_text, plain.as_slice());
}

// ---------------------------------------------------------------------------
// Laws
// ---------------------------------------------------------------------------

/// No `#` and no `*` in `s`.
pub open spec fn no_markers(s: Seq<char>) -> bool {
    forall|i: int| 0 <= i < s.len() ==> #[trigger] s[i] != '#' && s[i] != '*'
}

proof fn lemma_no_markers_concat(a: Seq<char>, b: Seq<char>)
    requires
        no_markers(a),
        no_markers(b),
    ensures
        no_markers(a + b),
{
    assert forall|i: int| 0 <= i < (a + b).len() implies #[trigger] (a + b)[i] != '#' && (a
        + b)[i] != '*' by {
        if i < a.len() {
            assert((a + b)[i] == a[i]);
        } else {
            assert((a + b)[i] == b[i - a.len()]);
        }
    }
}

proof fn lemma_decimal_no_markers(n: nat)
    ensures
        no_markers(decimal(n)),
    decreases n,
{
    if n >= 10 {
        lemma_decimal_no_markers(n / 10);
        lemma_no_markers_concat(decimal(n / 10), seq![crate::text::digit_char(n % 10)]);
        assert(decimal(n / 10).push(crate::text::digit_char(n % 10)) =~= decimal(n / 10) + seq![
            crate::text::digit_char(n % 10),
        ]);
    }
}

proof fn lemma_entry_no_markers(n: nat, c: CommentView)
    requires
        no_markers(c.author),
        no_markers(c.body),
        no_markers(c.source),
    ensures
        no_markers(plain_entry(n, c)),
{
    reveal_strlit("\n");
    reveal_strlit("author: ");
    reveal_strlit("comment: ");
    reveal_strlit("source: ");
    reveal_strlit("(reply)");
    reveal_strlit("(reply) ");
    lemma_decimal_no_markers(n);
    assert(no_markers("\n"@));
    assert(no_markers("author: "@));
    assert(no_markers("comment: "@));
    assert(no_markers("source: "@));
    assert(no_markers(body_display_spec(c))) by {
        if c.is_reply && c.body.len() > 0 {
            lemma_no_markers_concat("(reply) "@, c.body);
        }
    }
    let p1 = "\n"@ + decimal(n);
    lemma_no_markers_concat("\n"@, decimal(n));
    lemma_no_markers_concat(p1, "\n"@);
    let p2 = p1 + "\n"@;
    lemma_no_markers_concat(p2, "author: "@);
    let p3 = p2 + "author: "@;
    lemma_no_markers_concat(p3, c.author);
    let p4 = p3 + c.author;
    lemma_no_markers_concat(p4, "\n"@);
    let p5 = p4 + "\n"@;
    lemma_no_markers_concat(p5, "comment: "@);
    let p6 = p5 + "comment: "@;
    lemma_no_markers_concat(p6, body_display_spec(c));
    let p7 = p6 + body_display_spec(c);
    lemma_no_markers_concat(p7, "\n"@);
    let p8 = p7 + "\n"@;
    lemma_no_markers_concat(p8, "source: "@);
    let p9 = p8 + "source: "@;
    lemma_no_markers_concat(p9, c.source);
    let p10 = p9 + c.source;
    lemma_no_markers_concat(p10, "\n"@);
}

proof fn lemma_entries_no_markers(cs: Seq<CommentView>)
    requires
        forall|k: int|
            0 <= k < cs.len() ==> no_markers((#[trigger] cs[k]).author) && no_markers(cs[k].body)
                && no_markers(cs[k].source),
    ensures
        no_markers(plain_entries(cs)),
    decreases cs.len(),
{
    if cs.len() > 0 {
        let a = cs.drop_last();
        assert forall|k: int| 0 <= k < a.len() implies no_markers((#[trigger] a[k]).author)
            && no_markers(a[k].body) && no_markers(a[k].source) by {
            assert(a[k] == cs[k]);
        }
        lemma_entries_no_markers(a);
        assert(no_markers(cs[cs.len() - 1].author));
        lemma_entry_no_markers(cs.len(), cs.last());
        lemma_no_markers_concat(plain_entries(a), plain_entry(cs.len(), cs.last()));
    }
}

/// The plain-text comments section adds no Markdown markers: when no author,
/// body or source holds `#` or `*`, neither does the section.
pub proof fn plain_section_has_no_markers(cs: Seq<CommentView>)
    requires
        forall|k: int|
            0 <= k < cs.len() ==> no_markers((#[trigger] cs[k]).author) && no_markers(cs[k].body)
                && no_markers(cs[k].source),
    ensures
        no_markers(render_plain_spec(cs)),
{
    reveal_strlit("Comments\n");
    assert(no_markers("Comments\n"@));
    lemma_entries_no_markers(cs);
    lemma_no_markers_concat("Comments\n"@, plain_entries(cs));
}

/// The author field is never empty: a blank name becomes `Unknown`.
pub proof fn formatted_author_is_never_empty(author: Seq<char>, date: Seq<char>)
    ensures
        format_author_spec(author, date).len() > 0,
{
    reveal_strlit("Unknown");
}

} // verus!
