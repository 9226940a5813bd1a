//! The DOM walker: a state machine that turns traversal events into
//! Markdown and plain text.
//!
//! Each event changes the walker state as the `*_step` spec functions below
//! state; [`walk_dom`] folds them over a whole traversal.
use vstd::prelude::*;

use crate::buffer::{
    buf_cut,
    buf_ensure_blank,
    buf_ensure_newline,
    buf_push_char,
    buf_push_str,
    buf_tail,
    buf_wf,
    empty_buf,
    BufView,
    TextBuffer,
};
use crate::dom::{
    attr_lookup,
    attr_or_empty,
    attr_value_or_empty,
    attrs_view,
    classify_tag,
    events_view,
    find_attr,
    span_attr,
    span_attr_value,
    at_most,
    MAX_COLSPAN,
    tag_of,
    AttrView,
    DomAttr,
    DomEvent,
    DomNode,
    EventView,
    NodeView,
    Tag,
};
use crate::markdown::{heading_spec, push_heading};
use crate::table::{
    empty_cell,
    empty_cell_view,
    empty_row,
    empty_row_view,
    new_table,
    new_table_view,
    render_table,
    render_table_spec,
    CellView,
    HtmlCell,
    HtmlRow,
    RowView,
    TableCollector,
    TableView,
    cells_view,
    rows_view,
};
use crate::text::{
    ascii_lower_seq,
    chars_eq_str,
    chars_to_string,
    is_ascii_ws,
    push_chars,
    push_decimal,
    push_repeat,
    push_str_chars,
    repeat,
    decimal,
    slice_chars,
    trim,
    trimmed,
};

verus! {

// ---------------------------------------------------------------------------
// State
// ---------------------------------------------------------------------------

/// An open `<ul>`/`<ol>` and the number of items seen so far.
#[derive(Clone, Copy)]
pub struct ListContext {
    pub ordered: bool,
    pub item_count: usize,
}

/// A heading whose text is still being written: where it starts in both
/// outputs.
#[derive(Clone, Copy)]
pub struct PendingHeading {
    pub level: u8,
    pub start_pos: usize,
    pub plain_start_pos: usize,
}

/// A link whose text is still being written.
pub struct PendingLink {
    pub href: Vec<char>,
    pub start_pos: usize,
}

/// The contents of a [`PendingLink`].
pub struct LinkView {
    pub href: Seq<char>,
    pub start_pos: usize,
}

impl View for PendingLink {
    type V = LinkView;

    open spec fn view(&self) -> LinkView {
        LinkView { href: self.href@, start_pos: self.start_pos }
    }
}

/// Everything the walker keeps between events.
pub struct WalkerState {
    /// Markdown output.
    pub output: TextBuffer,
    /// Plain-text output.
    pub plain_output: TextBuffer,
    /// Open lists, innermost last.
    pub list_stack: Vec<ListContext>,
    /// Inside `<pre>`.
    pub in_pre: bool,
    /// Depth of `script`/`style`/`head` elements around the current node.
    pub skip_depth: usize,
    /// Depth of `blockquote` elements around the current node.
    pub blockquote_depth: usize,
    /// The heading being written, if any.
    pub pending_heading: Option<PendingHeading>,
    /// The link being written, if any.
    pub pending_link: Option<PendingLink>,
    /// Stack of table collectors; the top is the table currently being
    /// walked. A nested `<table>` inside a cell pushes a new frame.
    pub table_stack: Vec<TableCollector>,
}

/// The contents of a [`WalkerState`].
pub struct WalkerView {
    pub md: BufView,
    pub plain: BufView,
    pub lists: Seq<ListContext>,
    pub in_pre: bool,
    pub skip_depth: usize,
    pub bq_depth: usize,
    pub heading: Option<PendingHeading>,
    pub link: Option<LinkView>,
    pub tables: Seq<TableView>,
}

/// The views of a stack of tables.
pub open spec fn tables_view(t: Seq<TableCollector>) -> Seq<TableView> {
    t.map_values(|c: TableCollector| c@)
}

impl View for WalkerState {
    type V = WalkerView;

    open spec fn view(&self) -> WalkerView {
        WalkerView {
            md: self.output@,
            plain: self.plain_output@,
            lists: self.list_stack@,
            in_pre: self.in_pre,
            skip_depth: self.skip_depth,
            bq_depth: self.blockquote_depth,
            heading: self.pending_heading,
            link: match self.pending_link {
                Some(l) => Some(l@),
                None => None,
            },
            tables: tables_view(self.table_stack@),
        }
    }
}

/// Both newline counters are sound.
pub open spec fn wf(w: WalkerView) -> bool {
    buf_wf(w.md) && buf_wf(w.plain)
}

/// No depth or item counter is at its maximum, so each can count one more.
pub open spec fn counters_ok(w: WalkerView) -> bool {
    &&& w.skip_depth < usize::MAX
    &&& w.bq_depth < usize::MAX
    &&& forall|k: int| 0 <= k < w.lists.len() ==> (#[trigger] w.lists[k]).item_count < usize::MAX
}

/// Every depth and item counter is at most `n`.
pub open spec fn counters_le(w: WalkerView, n: int) -> bool {
    &&& w.skip_depth <= n
    &&& w.bq_depth <= n
    &&& forall|k: int| 0 <= k < w.lists.len() ==> (#[trigger] w.lists[k]).item_count <= n
}

/// The state before the first event.
pub open spec fn initial_view() -> WalkerView {
    WalkerView {
        md: empty_buf(),
        plain: empty_buf(),
        lists: Seq::empty(),
        in_pre: false,
        skip_depth: 0,
        bq_depth: 0,
        heading: None,
        link: None,
        tables: Seq::empty(),
    }
}

// ---------------------------------------------------------------------------
// Output helpers
// ---------------------------------------------------------------------------

/// The Markdown quote prefix for `n` nested blockquotes: `> ` repeated.
pub open spec fn bq_prefix(n: usize) -> Seq<char> {
    repeat(seq!['>', ' '], n as nat)
}

/// A blank line in the Markdown output. Inside blockquotes the blank line
/// carries the quote prefix.
pub open spec fn md_blank(md: BufView, bq: usize) -> BufView {
    if md.text.len() == 0 {
        md
    } else if bq > 0 {
        let b1 = buf_ensure_newline(md);
        if b1.trailing < 2 {
            buf_push_char(buf_push_str(b1, bq_prefix(bq)), '\n')
        } else {
            b1
        }
    } else {
        buf_ensure_blank(md)
    }
}

/// Whether a table cell is open.
pub open spec fn in_cell(w: WalkerView) -> bool {
    w.tables.len() > 0 && w.tables.last().in_cell
}

/// The state with a new Markdown buffer.
pub open spec fn set_md(w: WalkerView, md: BufView) -> WalkerView {
    WalkerView { md, ..w }
}

/// The state with a new plain-text buffer.
pub open spec fn set_plain(w: WalkerView, plain: BufView) -> WalkerView {
    WalkerView { plain, ..w }
}

/// The state with the top table replaced.
pub open spec fn set_top(w: WalkerView, t: TableView) -> WalkerView {
    WalkerView { tables: w.tables.drop_last().push(t), ..w }
}

/// A blank line in both outputs.
pub open spec fn both_blank(w: WalkerView) -> WalkerView {
    WalkerView { md: md_blank(w.md, w.bq_depth), plain: buf_ensure_blank(w.plain), ..w }
}

/// A line end in both outputs.
pub open spec fn both_newline(w: WalkerView) -> WalkerView {
    WalkerView { md: buf_ensure_newline(w.md), plain: buf_ensure_newline(w.plain), ..w }
}

/// The same text in both outputs.
pub open spec fn both_push_str(w: WalkerView, s: Seq<char>) -> WalkerView {
    WalkerView { md: buf_push_str(w.md, s), plain: buf_push_str(w.plain, s), ..w }
}

/// The same character in both outputs.
pub open spec fn both_push_char(w: WalkerView, c: char) -> WalkerView {
    WalkerView { md: buf_push_char(w.md, c), plain: buf_push_char(w.plain, c), ..w }
}

// ---------------------------------------------------------------------------
// Opening elements
// ---------------------------------------------------------------------------

/// Opening `h1`..`h6`. Inside a table cell the level is recorded on the cell
/// (first heading only) and no heading marker is written; elsewhere a blank
/// line starts the heading and its start positions are remembered.
pub open spec fn open_heading(w: WalkerView, level: u8) -> WalkerView {
    let w1 = if w.tables.len() > 0 && w.tables.last().in_cell
        && !w.tables.last().current_cell.has_heading {
        let top = w.tables.last();
        set_top(
            w,
            TableView {
                current_cell: CellView {
                    has_heading: true,
                    heading_level: level,
                    ..top.current_cell
                },
                ..top
            },
        )
    } else {
        w
    };
    if in_cell(w1) {
        w1
    } else {
        let w2 = both_blank(w1);
        WalkerView {
            heading: Some(
                PendingHeading {
                    level,
                    start_pos: w2.md.text.len() as usize,
                    plain_start_pos: w2.plain.text.len() as usize,
                },
            ),
            ..w2
        }
    }
}

/// Opening `ul`/`ol`: a line end inside another list, else a blank line; then
/// a new list context.
pub open spec fn open_list(w: WalkerView, ordered: bool) -> WalkerView {
    let w1 = if w.lists.len() > 0 {
        both_newline(w)
    } else {
        both_blank(w)
    };
    WalkerView { lists: w1.lists.push(ListContext { ordered, item_count: 0 }), ..w1 }
}

/// The indentation of a list item: two spaces per enclosing list beyond the
/// first.
pub open spec fn item_indent(w: WalkerView) -> Seq<char> {
    let level: nat = if w.lists.len() > 0 {
        (w.lists.len() - 1) as nat
    } else {
        0
    };
    repeat(seq![' ', ' '], level)
}

/// Opening `li`: the item marker (`- ` or `N. `) after the indentation in
/// Markdown, the indentation alone in plain text.
pub open spec fn open_item(w: WalkerView) -> WalkerView {
    let indent = item_indent(w);
    if w.lists.len() > 0 {
        let top = w.lists.last();
        let n = (top.item_count + 1) as usize;
        let prefix = if top.ordered {
            indent + decimal(n as nat) + seq!['.', ' ']
        } else {
            indent + seq!['-', ' ']
        };
        WalkerView {
            lists: w.lists.drop_last().push(ListContext { item_count: n, ..top }),
            md: buf_push_str(w.md, prefix),
            plain: buf_push_str(w.plain, indent),
            ..w
        }
    } else {
        WalkerView {
            md: buf_push_str(w.md, indent + seq!['-', ' ']),
            plain: buf_push_str(w.plain, indent),
            ..w
        }
    }
}

/// The top table with one field changed by `f`, when there is a table.
pub open spec fn on_top(w: WalkerView, t: TableView) -> WalkerView {
    if w.tables.len() > 0 {
        set_top(w, t)
    } else {
        w
    }
}

/// Opening an element outside any skipped element.
pub open spec fn open_element(w: WalkerView, tag: Tag, attrs: Seq<AttrView>) -> WalkerView {
    let top = w.tables.last();
    match tag {
        Tag::Heading(level) => open_heading(w, level),
        Tag::P => if in_cell(w) {
            w
        } else {
            both_blank(w)
        },
        Tag::A => WalkerView {
            link: Some(
                LinkView {
                    href: attr_or_empty(attrs, "href"@),
                    start_pos: w.md.text.len() as usize,
                },
            ),
            ..w
        },
        Tag::Img => {
            let alt = attr_or_empty(attrs, "alt"@);
            let src = attr_or_empty(attrs, "src"@);
            WalkerView {
                md: buf_push_str(w.md, "!["@ + alt + "]("@ + src + ")"@),
                plain: buf_push_str(w.plain, alt),
                ..w
            }
        },
        Tag::Strong => set_md(w, buf_push_str(w.md, "**"@)),
        Tag::Em => set_md(w, buf_push_str(w.md, "*"@)),
        Tag::Code => if w.in_pre {
            w
        } else {
            set_md(w, buf_push_str(w.md, "`"@))
        },
        Tag::Pre => {
            let w1 = both_blank(WalkerView { in_pre: true, ..w });
            set_md(w1, buf_push_str(w1.md, "```\n"@))
        },
        Tag::Ul => open_list(w, false),
        Tag::Ol => open_list(w, true),
        Tag::Li => open_item(w),
        Tag::Table => {
            let w1 = both_blank(w);
            WalkerView { tables: w1.tables.push(new_table_view()), ..w1 }
        },
        Tag::Thead => on_top(w, TableView { in_header: true, ..top }),
        Tag::Tbody => on_top(w, TableView { in_header: false, ..top }),
        Tag::Tr => on_top(
            w,
            TableView {
                current_row: RowView { cells: Seq::empty(), is_header_row: top.in_header },
                ..top
            },
        ),
        Tag::Cell => on_top(
            w,
            TableView {
                current_cell: CellView {
                    colspan: at_most(span_attr(attrs, "colspan"@), MAX_COLSPAN),
                    rowspan: span_attr(attrs, "rowspan"@),
                    has_heading: false,
                    heading_level: 0,
                    content: Seq::empty(),
                },
                in_cell: true,
                ..top
            },
        ),
        Tag::Blockquote => both_newline(
            WalkerView { bq_depth: (w.bq_depth + 1) as usize, ..w },
        ),
        Tag::Hr => WalkerView {
            md: buf_push_str(md_blank(w.md, w.bq_depth), "---\n"@),
            plain: buf_ensure_blank(w.plain),
            ..w
        },
        Tag::Br => if w.in_pre {
            both_push_char(w, '\n')
        } else if in_cell(w) {
            w
        } else {
            let w1 = both_push_char(w, '\n');
            if w.bq_depth > 0 {
                set_md(w1, buf_push_str(w1.md, bq_prefix(w.bq_depth)))
            } else {
                w1
            }
        },
        Tag::Input => if attr_lookup(attrs, "type"@) == Some("checkbox"@) {
            set_md(
                w,
                buf_push_str(
                    w.md,
                    if attr_lookup(attrs, "checked"@) is Some {
                        "[x] "@
                    } else {
                        "[ ] "@
                    },
                ),
            )
        } else {
            w
        },
        _ => w,
    }
}

/// Opening an element: skipped elements count their depth; inside them
/// nothing else happens.
pub open spec fn open_step(w: WalkerView, tag: Tag, attrs: Seq<AttrView>) -> WalkerView {
    match tag {
        Tag::Skip => WalkerView { skip_depth: (w.skip_depth + 1) as usize, ..w },
        _ => if w.skip_depth > 0 {
            w
        } else {
            open_element(w, tag, attrs)
        },
    }
}

// ---------------------------------------------------------------------------
// Closing elements
// ---------------------------------------------------------------------------

/// Closing a heading: the text written since it opened is replaced by the
/// heading line (Markdown) or by the trimmed text and a newline (plain).
pub open spec fn close_heading(w: WalkerView) -> WalkerView {
    match w.heading {
        Some(p) => {
            let text = buf_tail(w.md, p.start_pos);
            let md1 = buf_cut(w.md, p.start_pos);
            let md2 = buf_push_str(md1, heading_spec(p.level, trim(text)));
            let ptext = trim(buf_tail(w.plain, p.plain_start_pos));
            let pl1 = buf_cut(w.plain, p.plain_start_pos);
            let pl2 = if ptext.len() > 0 {
                buf_push_char(buf_push_str(pl1, ptext), '\n')
            } else {
                pl1
            };
            WalkerView { md: md2, plain: pl2, heading: None, ..w }
        },
        None => w,
    }
}

/// Closing a link: the Markdown text written since it opened becomes
/// `[text](href)`, or just the trimmed text without a target.
pub open spec fn close_link(w: WalkerView) -> WalkerView {
    match w.link {
        Some(l) => {
            let text = trim(buf_tail(w.md, l.start_pos));
            let md1 = buf_cut(w.md, l.start_pos);
            let piece = if l.href.len() == 0 {
                text
            } else {
                "["@ + text + "]("@ + l.href + ")"@
            };
            WalkerView { md: buf_push_str(md1, piece), link: None, ..w }
        },
        None => w,
    }
}

/// `a` and `b` as consecutive blocks: separated by one extra newline when
/// both are non-empty.
pub open spec fn join_blocks(a: Seq<char>, b: Seq<char>) -> Seq<char> {
    if a.len() == 0 {
        b
    } else if b.len() == 0 {
        a
    } else {
        a + seq!['\n'] + b
    }
}

/// A closed table as blocks: its own rendering, then the tables that were
/// nested in its cells.
pub open spec fn table_blocks(tc: TableView, plain: bool) -> Seq<char> {
    if plain {
        join_blocks(render_table_spec(tc, true), tc.nested_plain)
    } else {
        join_blocks(render_table_spec(tc, false), tc.nested_md)
    }
}

/// Closing a table: it is rendered. Inside an open cell of an enclosing
/// table its blocks are kept for after that table (a nested table stands as
/// its own block, not inside the cell); otherwise they are written out.
pub open spec fn close_table(w: WalkerView) -> WalkerView {
    if w.tables.len() == 0 {
        w
    } else {
        let tc = w.tables.last();
        let rest = w.tables.drop_last();
        let md_t = table_blocks(tc, false);
        let pl_t = table_blocks(tc, true);
        if rest.len() > 0 && rest.last().in_cell {
            let parent = rest.last();
            let parent2 = TableView {
                nested_md: join_blocks(parent.nested_md, md_t),
                nested_plain: join_blocks(parent.nested_plain, pl_t),
                ..parent
            };
            WalkerView { tables: rest.drop_last().push(parent2), ..w }
        } else {
            WalkerView {
                tables: rest,
                md: buf_push_str(w.md, md_t),
                plain: buf_push_str(w.plain, pl_t),
                ..w
            }
        }
    }
}

/// Closing `ul`/`ol`: the list context goes; after the outermost list a
/// blank line follows.
pub open spec fn close_list(w: WalkerView) -> WalkerView {
    let w1 = if w.lists.len() > 0 {
        WalkerView { lists: w.lists.drop_last(), ..w }
    } else {
        w
    };
    if w1.lists.len() == 0 {
        both_blank(w1)
    } else {
        w1
    }
}

/// Closing an element outside any skipped element.
pub open spec fn close_element(w: WalkerView, tag: Tag) -> WalkerView {
    let top = w.tables.last();
    match tag {
        Tag::Heading(_) => close_heading(w),
        Tag::P => if in_cell(w) {
            w
        } else {
            both_blank(w)
        },
        Tag::A => close_link(w),
        Tag::Strong => set_md(w, buf_push_str(w.md, "**"@)),
        Tag::Em => set_md(w, buf_push_str(w.md, "*"@)),
        Tag::Code => if w.in_pre {
            w
        } else {
            set_md(w, buf_push_str(w.md, "`"@))
        },
        Tag::Pre => WalkerView {
            md: buf_push_str(buf_ensure_newline(w.md), "```\n"@),
            plain: buf_ensure_newline(w.plain),
            in_pre: false,
            ..w
        },
        Tag::Ul => close_list(w),
        Tag::Ol => close_list(w),
        Tag::Li => both_newline(w),
        Tag::Table => close_table(w),
        Tag::Thead => on_top(w, TableView { in_header: false, ..top }),
        Tag::Tr => on_top(
            w,
            TableView { rows: top.rows.push(top.current_row), current_row: empty_row_view(), ..top },
        ),
        Tag::Cell => on_top(
            w,
            TableView {
                current_row: RowView {
                    cells: top.current_row.cells.push(
                        CellView { content: trim(top.current_cell.content), ..top.current_cell },
                    ),
                    ..top.current_row
                },
                current_cell: empty_cell_view(),
                in_cell: false,
                ..top
            },
        ),
        Tag::Blockquote => both_newline(
            WalkerView {
                bq_depth: if w.bq_depth > 0 {
                    (w.bq_depth - 1) as usize
                } else {
                    0
                },
                ..w
            },
        ),
        _ => w,
    }
}

/// Closing an element.
pub open spec fn close_step(w: WalkerView, tag: Tag) -> WalkerView {
    match tag {
        Tag::Skip => WalkerView {
            skip_depth: if w.skip_depth > 0 {
                (w.skip_depth - 1) as usize
            } else {
                0
            },
            ..w
        },
        _ => if w.skip_depth > 0 {
            w
        } else {
            close_element(w, tag)
        },
    }
}

// ---------------------------------------------------------------------------
// Text
// ---------------------------------------------------------------------------

/// Runs of ASCII whitespace replaced by a single space (ends kept).
pub open spec fn collapse_ascii(s: Seq<char>) -> Seq<char>
    decreases s.len(),
{
    if s.len() == 0 {
        Seq::empty()
    } else {
        let r = collapse_ascii(s.drop_last());
        if is_ascii_ws(s.last()) {
            if s.len() >= 2 && is_ascii_ws(s[s.len() - 2]) {
                r
            } else {
                r.push(' ')
            }
        } else {
            r.push(s.last())
        }
    }
}

/// Every ASCII whitespace character of `t` is a space, and no two of them
/// are adjacent.
pub open spec fn ascii_ws_collapsed(t: Seq<char>) -> bool {
    &&& forall|i: int| 0 <= i < t.len() && is_ascii_ws(#[trigger] t[i]) ==> t[i] == ' '
    &&& forall|i: int|
        0 <= i < t.len() - 1 ==> !(is_ascii_ws(#[trigger] t[i]) && is_ascii_ws(t[i + 1]))
}

proof fn lemma_collapse_ascii_shape(s: Seq<char>)
    ensures
        collapse_ascii(s).len() <= s.len(),
        (collapse_ascii(s).len() == 0) == (s.len() == 0),
        s.len() > 0 ==> (is_ascii_ws(collapse_ascii(s).last()) == is_ascii_ws(s.last())),
        ascii_ws_collapsed(collapse_ascii(s)),
    decreases s.len(),
{
    if s.len() > 0 {
        let q = s.drop_last();
        lemma_collapse_ascii_shape(q);
        let r = collapse_ascii(q);
        let t = collapse_ascii(s);
        if q.len() > 0 {
            assert(q.last() == s[s.len() - 2]);
        }
        assert forall|i: int| 0 <= i < t.len() && is_ascii_ws(#[trigger] t[i]) implies t[i] == ' ' by {
            if i < r.len() {
                assert(t[i] == r[i]);
            }
        }
        assert forall|i: int| 0 <= i < t.len() - 1 implies !(is_ascii_ws(#[trigger] t[i])
            && is_ascii_ws(t[i + 1])) by {
            if i + 1 < r.len() {
                assert(t[i] == r[i] && t[i + 1] == r[i + 1]);
            } else if i < r.len() {
                assert(t[i] == r[i]);
                assert(r[i] == r.last());
            }
        }
    }
}

proof fn lemma_collapse_ascii_fixed(t: Seq<char>)
    requires
        ascii_ws_collapsed(t),
    ensures
        collapse_ascii(t) == t,
    decreases t.len(),
{
    if t.len() > 0 {
        let q = t.drop_last();
        assert forall|i: int| 0 <= i < q.len() && is_ascii_ws(#[trigger] q[i]) implies q[i] == ' ' by {
            assert(q[i] == t[i]);
        }
        assert forall|i: int| 0 <= i < q.len() - 1 implies !(is_ascii_ws(#[trigger] q[i])
            && is_ascii_ws(q[i + 1])) by {
            assert(q[i] == t[i] && q[i + 1] == t[i + 1]);
        }
        lemma_collapse_ascii_fixed(q);
        if is_ascii_ws(t.last()) {
            assert(t[t.len() - 1] == ' ');
            if t.len() >= 2 {
                assert(!(is_ascii_ws(t[t.len() - 2]) && is_ascii_ws(t[t.len() - 1])));
            }
        }
        assert(q.push(t.last()) =~= t);
    }
}

/// Whitespace collapsing leaves no run of ASCII whitespace: each ASCII
/// whitespace character left is a single space between two other
/// characters or at an end. The result is never longer than the input,
/// and collapsing it again changes nothing.
pub proof fn collapse_ascii_laws(s: Seq<char>)
    ensures
        ascii_ws_collapsed(collapse_ascii(s)),
        collapse_ascii(s).len() <= s.len(),
        collapse_ascii(collapse_ascii(s)) == collapse_ascii(s),
{
    lemma_collapse_ascii_shape(s);
    lemma_collapse_ascii_fixed(collapse_ascii(s));
}

/// Collapse consecutive ASCII whitespace characters into a single space.
pub fn collapse_whitespace(s: &[char]) -> (r: Vec<char>)
    ensures
        r@ == collapse_ascii(s@),
{
    let mut r: Vec<char> = Vec::new();
    let mut prev_ws = false;
    for i in 0..s.len()
        invariant
            r@ == collapse_ascii(s@.take(i as int)),
            prev_ws == (i > 0 && is_ascii_ws(s@[i - 1])),
    {
        let c = s[i];
        let ghost t = s@.take(i + 1);
        assert(t.drop_last() =~= s@.take(i as int));
        assert(t.last() == c);
        if i > 0 {
            assert(t[t.len() - 2] == s@[i - 1]);
        }
        if c == ' ' || c == '\t' || c == '\n' || c == '\x0C' || c == '\r' {
            if !prev_ws {
                r.push(' ');
            }
            prev_ws = true;
        } else {
            r.push(c);
            prev_ws = false;
        }
    }
    assert(s@.take(s.len() as int) =~= s@);
    r
}

/// `col` without its leading space when the output already ends with a
/// space or tab.
pub open spec fn strip_lead_space(col: Seq<char>, out: Seq<char>) -> Seq<char> {
    if col.len() > 0 && col[0] == ' ' && out.len() > 0 && (out.last() == ' ' || out.last()
        == '\t') {
        col.drop_first()
    } else {
        col
    }
}

/// A single space, unless the output is empty, ends a line, or already ends
/// with a space or tab.
pub open spec fn space_after(b: BufView) -> BufView {
    if b.text.len() > 0 && b.trailing == 0 && b.text.last() != ' ' && b.text.last() != '\t' {
        buf_push_char(b, ' ')
    } else {
        b
    }
}

/// A text node. Inside a table, the raw text joins the open cell (and is
/// dropped between cells); inside `<pre>` it is copied verbatim; elsewhere
/// whitespace is collapsed, and Markdown lines inside blockquotes start with
/// the quote prefix.
pub open spec fn text_step(w: WalkerView, raw: Seq<char>) -> WalkerView {
    if w.skip_depth > 0 {
        w
    } else if w.tables.len() > 0 {
        let top = w.tables.last();
        if top.in_cell {
            set_top(
                w,
                TableView {
                    current_cell: CellView {
                        content: top.current_cell.content + raw,
                        ..top.current_cell
                    },
                    ..top
                },
            )
        } else {
            w
        }
    } else if w.in_pre {
        both_push_str(w, raw)
    } else {
        let col = collapse_ascii(raw);
        if col.len() == 0 {
            w
        } else if col == seq![' '] {
            WalkerView { md: space_after(w.md), plain: space_after(w.plain), ..w }
        } else {
            let md_c = strip_lead_space(col, w.md.text);
            let pl_c = strip_lead_space(col, w.plain.text);
            let md1 = if md_c.len() > 0 {
                if w.bq_depth > 0 {
                    let b = if w.md.trailing > 0 || w.md.text.len() == 0 {
                        buf_push_str(w.md, bq_prefix(w.bq_depth))
                    } else {
                        w.md
                    };
                    buf_push_str(b, md_c)
                } else {
                    buf_push_str(w.md, md_c)
                }
            } else {
                w.md
            };
            let pl1 = if pl_c.len() > 0 {
                buf_push_str(w.plain, pl_c)
            } else {
                w.plain
            };
            WalkerView { md: md1, plain: pl1, ..w }
        }
    }
}

// ---------------------------------------------------------------------------
// Whole traversals
// ---------------------------------------------------------------------------

/// One traversal event.
pub open spec fn event_step(w: WalkerView, e: EventView) -> WalkerView {
    match e.node {
        NodeView::Element { name, attrs } => if e.opening {
            open_step(w, tag_of(name), attrs)
        } else {
            close_step(w, tag_of(name))
        },
        NodeView::Text(t) => if e.opening {
            text_step(w, t)
        } else {
            w
        },
        NodeView::Other => w,
    }
}

/// The walker state after a sequence of events.
pub open spec fn walk_state(events: Seq<EventView>) -> WalkerView
    decreases events.len(),
{
    if events.len() == 0 {
        initial_view()
    } else {
        event_step(walk_state(events.drop_last()), events.last())
    }
}

/// The final cleanup of an output: trimmed, with one closing newline unless
/// empty.
pub open spec fn finish(s: Seq<char>) -> Seq<char> {
    let t = trim(s);
    if t.len() == 0 {
        Seq::empty()
    } else {
        t.push('\n')
    }
}

/// The Markdown a traversal produces.
pub open spec fn walk_markdown(events: Seq<EventView>) -> Seq<char> {
    finish(walk_state(events).md.text)
}

/// The plain text a traversal produces.
pub open spec fn walk_plain(events: Seq<EventView>) -> Seq<char> {
    finish(walk_state(events).plain.text)
}

// ---------------------------------------------------------------------------
// Executable walker
// ---------------------------------------------------------------------------

/// The quote prefix for `n` nested blockquotes.
fn bq_prefix_chars(n: usize) -> (r: Vec<char>)
    ensures
        r@ == bq_prefix(n),
{
    let mut r: Vec<char> = Vec::new();
    let unit: [char; 2] = ['>', ' '];
    assert(unit@ =~= seq!['>', ' ']);
    push_repeat(&mut r, unit.as_slice(), n);
    assert(r@ =~= bq_prefix(n));
    r
}

/// Appends a single space unless the buffer is empty, ends a line or already
/// ends with a space or tab.
fn buffer_space_after(b: &mut TextBuffer)
    requires
        buf_wf(old(b)@),
    ensures
        final(b)@ == space_after(old(b)@),
        buf_wf(final(b)@),
{
    let n = b.text.len();
    if n > 0 && b.trailing_newlines == 0 {
        let last = b.text[n - 1];
        if last != ' ' && last != '\t' {
            b.push_char(' ');
        }
    }
}

/// A copy of `col`, without its leading space when `out` ends with a space
/// or tab.
fn strip_lead(col: &Vec<char>, out: &Vec<char>) -> (r: Vec<char>)
    ensures
        r@ == strip_lead_space(col@, out@),
{
    let n = out.len();
    if col.len() > 0 && col[0] == ' ' && n > 0 && (out[n - 1] == ' ' || out[n - 1] == '\t') {
        let r = slice_chars(col.as_slice(), 1, col.len());
        assert(r@ =~= col@.drop_first());
        r
    } else {
        let r = slice_chars(col.as_slice(), 0, col.len());
        assert(r@ =~= col@);
        r
    }
}

/// `a` followed by `b` as a separate block.
fn join_blocks_exec(a: Vec<char>, b: &[char]) -> (r: Vec<char>)
    ensures
        r@ == join_blocks(a@, b@),
{
    if a.len() == 0 {
        slice_chars(b, 0, b.len())
    } else if b.len() == 0 {
        a
    } else {
        let mut r = a;
        r.push('\n');
        push_chars(&mut r, b);
        r
    }
}

impl WalkerState {
    /// A walker that has seen no event.
    pub fn new() -> (s: WalkerState)
        ensures
            s@ == initial_view(),
            wf(s@),
    {
        let s = WalkerState {
            output: TextBuffer::new(),
            plain_output: TextBuffer::new(),
            list_stack: Vec::new(),
            in_pre: false,
            skip_depth: 0,
            blockquote_depth: 0,
            pending_heading: None,
            pending_link: None,
            table_stack: Vec::new(),
        };
        assert(s@.tables =~= Seq::<TableView>::empty());
        s
    }

    // ---- Markdown buffer helpers ----

    /// Appends text to the Markdown output.
    pub fn push_str(&mut self, s: &[char])
        requires
            wf(old(self)@),
        ensures
            final(self)@ == set_md(old(self)@, buf_push_str(old(self)@.md, s@)),
            wf(final(self)@),
    {
        self.output.push_str(s);
    }

    /// Appends a character to the Markdown output.
    pub fn push_char(&mut self, c: char)
        requires
            wf(old(self)@),
        ensures
            final(self)@ == set_md(old(self)@, buf_push_char(old(self)@.md, c)),
            wf(final(self)@),
    {
        self.output.push_char(c);
    }

    /// Ends the current Markdown line.
    pub fn ensure_newline(&mut self)
        requires
            wf(old(self)@),
        ensures
            final(self)@ == set_md(old(self)@, buf_ensure_newline(old(self)@.md)),
            wf(final(self)@),
    {
        self.output.ensure_newline();
    }

    /// Ends the Markdown paragraph with a blank line (quoted inside
    /// blockquotes).
    pub fn ensure_blank_line(&mut self)
        requires
            wf(old(self)@),
        ensures
            final(self)@ == set_md(old(self)@, md_blank(old(self)@.md, old(self)@.bq_depth)),
            wf(final(self)@),
    {
        if self.output.is_empty() {
            return;
        }
        if self.blockquote_depth > 0 {
            let prefix = bq_prefix_chars(self.blockquote_depth);
            self.output.ensure_newline();
            if self.output.trailing_newlines < 2 {
                self.output.push_str(prefix.as_slice());
                self.output.push_char('\n');
            }
        } else {
            self.output.ensure_blank_line();
        }
    }

    // ---- Plain text buffer helpers ----

    /// Appends text to the plain-text output.
    pub fn plain_push_str(&mut self, s: &[char])
        requires
            wf(old(self)@),
        ensures
            final(self)@ == set_plain(old(self)@, buf_push_str(old(self)@.plain, s@)),
            wf(final(self)@),
    {
        self.plain_output.push_str(s);
    }

    /// Appends a character to the plain-text output.
    pub fn plain_push_char(&mut self, c: char)
        requires
            wf(old(self)@),
        ensures
            final(self)@ == set_plain(old(self)@, buf_push_char(old(self)@.plain, c)),
            wf(final(self)@),
    {
        self.plain_output.push_char(c);
    }

    /// Ends the current plain-text line.
    pub fn plain_ensure_newline(&mut self)
        requires
            wf(old(self)@),
        ensures
            final(self)@ == set_plain(old(self)@, buf_ensure_newline(old(self)@.plain)),
            wf(final(self)@),
    {
        self.plain_output.ensure_newline();
    }

    /// Ends the plain-text paragraph with a blank line.
    pub fn plain_ensure_blank_line(&mut self)
        requires
            wf(old(self)@),
        ensures
            final(self)@ == set_plain(old(self)@, buf_ensure_blank(old(self)@.plain)),
            wf(final(self)@),
    {
        self.plain_output.ensure_blank_line();
    }

    // ---- Dual-buffer helpers ----

    /// Appends text to both outputs.
    pub fn both_push_str(&mut self, s: &[char])
        requires
            wf(old(self)@),
        ensures
            final(self)@ == both_push_str(old(self)@, s@),
            wf(final(self)@),
    {
        self.push_str(s);
        self.plain_push_str(s);
    }

    /// Appends a character to both outputs.
    pub fn both_push_char(&mut self, c: char)
        requires
            wf(old(self)@),
        ensures
            final(self)@ == both_push_char(old(self)@, c),
            wf(final(self)@),
    {
        self.push_char(c);
        self.plain_push_char(c);
    }

    /// Ends the current line in both outputs.
    pub fn both_ensure_newline(&mut self)
        requires
            wf(old(self)@),
        ensures
            final(self)@ == both_newline(old(self)@),
            wf(final(self)@),
    {
        self.ensure_newline();
        self.plain_ensure_newline();
    }

    /// Ends the paragraph with a blank line in both outputs.
    pub fn both_ensure_blank_line(&mut self)
        requires
            wf(old(self)@),
        ensures
            final(self)@ == both_blank(old(self)@),
            wf(final(self)@),
    {
        self.ensure_blank_line();
        self.plain_ensure_blank_line();
    }

    /// Whether a table cell is currently open.
    pub fn in_table_cell(&self) -> (b: bool)
        ensures
            b == in_cell(self@),
    {
        let n = self.table_stack.len();
        n > 0 && self.table_stack[n - 1].in_cell
    }

    // ---- Table stack helpers ----

    fn take_top(&mut self) -> (t: TableCollector)
        requires
            old(self)@.tables.len() > 0,
        ensures
            t@ == old(self)@.tables.last(),
            final(self)@ == (WalkerView { tables: old(self)@.tables.drop_last(), ..old(self)@ }),
    {
        let t = self.table_stack.pop().unwrap();
        assert(self@.tables =~= old(self)@.tables.drop_last());
        t
    }

    fn put_top(&mut self, t: TableCollector)
        ensures
            final(self)@ == (WalkerView { tables: old(self)@.tables.push(t@), ..old(self)@ }),
    {
        let ghost tv = t@;
        self.table_stack.push(t);
        assert(self@.tables =~= old(self)@.tables.push(tv));
    }

    fn push_lit(&mut self, s: &str)
        requires
            wf(old(self)@),
        ensures
            final(self)@ == set_md(old(self)@, buf_push_str(old(self)@.md, s@)),
            wf(final(self)@),
    {
        let v = crate::text::str_chars(s);
        self.output.push_str(v.as_slice());
    }

    // ---- Element handlers (open) ----

    fn open_heading(&mut self, level: u8)
        requires
            wf(old(self)@),
        ensures
            final(self)@ == open_heading(old(self)@, level),
            wf(final(self)@),
    {
        let n = self.table_stack.len();
        if n > 0 && self.table_stack[n - 1].in_cell
            && !self.table_stack[n - 1].current_cell.has_heading {
            let mut t = self.take_top();
            t.current_cell.has_heading = true;
            t.current_cell.heading_level = level;
            self.put_top(t);
        }
        if !self.in_table_cell() {
            self.both_ensure_blank_line();
            self.pending_heading = Some(
                PendingHeading {
                    level,
                    start_pos: self.output.text.len(),
                    plain_start_pos: self.plain_output.text.len(),
                },
            );
        }
    }

    fn open_list(&mut self, ordered: bool)
        requires
            wf(old(self)@),
        ensures
            final(self)@ == open_list(old(self)@, ordered),
            wf(final(self)@),
    {
        if self.list_stack.len() > 0 {
            self.both_ensure_newline();
        } else {
            self.both_ensure_blank_line();
        }
        self.list_stack.push(ListContext { ordered, item_count: 0 });
    }

    fn open_item(&mut self)
        requires
            wf(old(self)@),
            counters_ok(old(self)@),
        ensures
            final(self)@ == open_item(old(self)@),
            wf(final(self)@),
    {
        let n = self.list_stack.len();
        let level = if n > 0 {
            n - 1
        } else {
            0
        };
        let mut indent: Vec<char> = Vec::new();
        let unit: [char; 2] = [' ', ' '];
        assert(unit@ =~= seq![' ', ' ']);
        push_repeat(&mut indent, unit.as_slice(), level);
        assert(indent@ =~= item_indent(old(self)@));
        let mut prefix = slice_chars(indent.as_slice(), 0, indent.len());
        assert(prefix@ =~= indent@);
        if n > 0 {
            let top = self.list_stack[n - 1];
            assert(top == old(self)@.lists.last());
            let count = top.item_count + 1;
            self.list_stack.pop();
            self.list_stack.push(ListContext { ordered: top.ordered, item_count: count });
            if top.ordered {
                push_decimal(&mut prefix, count);
                prefix.push('.');
                prefix.push(' ');
                assert(prefix@ =~= indent@ + decimal(count as nat) + seq!['.', ' ']);
            } else {
                prefix.push('-');
                prefix.push(' ');
                assert(prefix@ =~= indent@ + seq!['-', ' ']);
            }
        } else {
            prefix.push('-');
            prefix.push(' ');
            assert(prefix@ =~= indent@ + seq!['-', ' ']);
        }
        self.push_str(prefix.as_slice());
        self.plain_push_str(indent.as_slice());
    }

    fn open_image(&mut self, attrs: &[DomAttr])
        requires
            wf(old(self)@),
        ensures
            final(self)@ == open_element(old(self)@, Tag::Img, attrs_view(attrs@)),
            wf(final(self)@),
    {
        let alt = attr_value_or_empty(attrs, "alt");
        let src = attr_value_or_empty(attrs, "src");
        let mut md: Vec<char> = Vec::new();
        push_str_chars(&mut md, "![");
        assert(md@ =~= "!["@);
        push_chars(&mut md, alt.as_slice());
        push_str_chars(&mut md, "](");
        push_chars(&mut md, src.as_slice());
        push_str_chars(&mut md, ")");
        self.push_str(md.as_slice());
        self.plain_push_str(alt.as_slice());
    }

    fn open_table_part(&mut self, tag: Tag, attrs: &[DomAttr])
        requires
            wf(old(self)@),
            tag is Thead || tag is Tbody || tag is Tr || tag is Cell,
        ensures
            final(self)@ == open_element(old(self)@, tag, attrs_view(attrs@)),
            wf(final(self)@),
    {
        let colspan = span_attr_value(attrs, "colspan");
        let colspan = if colspan > MAX_COLSPAN {
            MAX_COLSPAN
        } else {
            colspan
        };
        let rowspan = span_attr_value(attrs, "rowspan");
        if self.table_stack.len() == 0 {
            return;
        }
        let mut t = self.take_top();
        match tag {
            Tag::Thead => {
                t.in_header = true;
            },
            Tag::Tbody => {
                t.in_header = false;
            },
            Tag::Tr => {
                let mut row = empty_row();
                row.is_header_row = t.in_header;
                t.current_row = row;
            },
            _ => {
                let mut cell = empty_cell();
                cell.colspan = colspan;
                cell.rowspan = rowspan;
                t.current_cell = cell;
                t.in_cell = true;
            },
        }
        self.put_top(t);
    }

    fn open_input(&mut self, attrs: &[DomAttr])
        requires
            wf(old(self)@),
        ensures
            final(self)@ == open_element(old(self)@, Tag::Input, attrs_view(attrs@)),
            wf(final(self)@),
    {
        let is_checkbox = match find_attr(attrs, "type") {
            Some(v) => chars_eq_str(v.as_slice(), "checkbox"),
            None => false,
        };
        if is_checkbox {
            if find_attr(attrs, "checked").is_some() {
                self.push_lit("[x] ");
            } else {
                self.push_lit("[ ] ");
            }
        }
    }

    fn open_element(&mut self, tag: Tag, attrs: &[DomAttr])
        requires
            wf(old(self)@),
            counters_ok(old(self)@),
        ensures
            final(self)@ == open_element(old(self)@, tag, attrs_view(attrs@)),
            wf(final(self)@),
    {
        match tag {
            Tag::Heading(level) => self.open_heading(level),
            Tag::P => {
                if !self.in_table_cell() {
                    self.both_ensure_blank_line();
                }
            },
            Tag::A => {
                let href = attr_value_or_empty(attrs, "href");
                self.pending_link = Some(PendingLink { href, start_pos: self.output.text.len() });
            },
            Tag::Img => self.open_image(attrs),
            Tag::Strong => self.push_lit("**"),
            Tag::Em => self.push_lit("*"),
            Tag::Code => {
                if !self.in_pre {
                    self.push_lit("`");
                }
            },
            Tag::Pre => {
                self.in_pre = true;
                self.both_ensure_blank_line();
                self.push_lit("```\n");
            },
            Tag::Ul => self.open_list(false),
            Tag::Ol => self.open_list(true),
            Tag::Li => self.open_item(),
            Tag::Table => {
                self.both_ensure_blank_line();
                self.put_top(new_table());
            },
            Tag::Thead => self.open_table_part(tag, attrs),
            Tag::Tbody => self.open_table_part(tag, attrs),
            Tag::Tr => self.open_table_part(tag, attrs),
            Tag::Cell => self.open_table_part(tag, attrs),
            Tag::Blockquote => {
                self.blockquote_depth = self.blockquote_depth + 1;
                self.ensure_newline();
                self.plain_ensure_newline();
            },
            Tag::Hr => {
                self.ensure_blank_line();
                self.push_lit("---\n");
                self.plain_ensure_blank_line();
            },
            Tag::Br => {
                if self.in_pre {
                    self.both_push_char('\n');
                } else if self.in_table_cell() {
                } else {
                    self.both_push_char('\n');
                    if self.blockquote_depth > 0 {
                        let prefix = bq_prefix_chars(self.blockquote_depth);
                        self.push_str(prefix.as_slice());
                    }
                }
            },
            Tag::Input => self.open_input(attrs),
            _ => {},
        }
    }

    /// Handles entering an element.
    pub fn handle_open(&mut self, name: &Vec<char>, attrs: &[DomAttr])
        requires
            wf(old(self)@),
            counters_ok(old(self)@),
        ensures
            final(self)@ == open_step(old(self)@, tag_of(name@), attrs_view(attrs@)),
            wf(final(self)@),
    {
        let tag = classify_tag(name);
        match tag {
            Tag::Skip => {
                self.skip_depth = self.skip_depth + 1;
            },
            _ => {
                if self.skip_depth == 0 {
                    self.open_element(tag, attrs);
                }
            },
        }
    }

    // ---- Element handlers (close) ----

    fn close_heading(&mut self)
        requires
            wf(old(self)@),
        ensures
            final(self)@ == close_heading(old(self)@),
            wf(final(self)@),
    {
        let pending = self.pending_heading;
        self.pending_heading = None;
        match pending {
            Some(p) => {
                let text = self.output.cut(p.start_pos);
                let t = trimmed(text.as_slice());
                let mut heading: Vec<char> = Vec::new();
                push_heading(&mut heading, p.level, t.as_slice());
                assert(heading@ =~= heading_spec(p.level, t@));
                self.output.push_str(heading.as_slice());
                let ptext = self.plain_output.cut(p.plain_start_pos);
                let pt = trimmed(ptext.as_slice());
                if pt.len() > 0 {
                    self.plain_output.push_str(pt.as_slice());
                    self.plain_output.push_char('\n');
                }
            },
            None => {},
        }
    }

    fn close_link(&mut self)
        requires
            wf(old(self)@),
        ensures
            final(self)@ == close_link(old(self)@),
            wf(final(self)@),
    {
        let pending = self.pending_link.take();
        match pending {
            Some(l) => {
                let text = self.output.cut(l.start_pos);
                let t = trimmed(text.as_slice());
                if l.href.len() == 0 {
                    self.output.push_str(t.as_slice());
                } else {
                    let mut piece: Vec<char> = Vec::new();
                    push_str_chars(&mut piece, "[");
                    assert(piece@ =~= "["@);
                    push_chars(&mut piece, t.as_slice());
                    push_str_chars(&mut piece, "](");
                    push_chars(&mut piece, l.href.as_slice());
                    push_str_chars(&mut piece, ")");
                    self.output.push_str(piece.as_slice());
                }
            },
            None => {},
        }
    }

    fn close_table(&mut self)
        requires
            wf(old(self)@),
        ensures
            final(self)@ == close_table(old(self)@),
            wf(final(self)@),
    {
        if self.table_stack.len() == 0 {
            return;
        }
        let tc = self.take_top();
        let table_md = join_blocks_exec(render_table(&tc, false), tc.nested_md.as_slice());
        let table_plain = join_blocks_exec(render_table(&tc, true), tc.nested_plain.as_slice());
        if self.in_table_cell() {
            let mut parent = self.take_top();
            let md = join_blocks_exec(parent.nested_md, table_md.as_slice());
            let pl = join_blocks_exec(parent.nested_plain, table_plain.as_slice());
            parent.nested_md = md;
            parent.nested_plain = pl;
            self.put_top(parent);
        } else {
            self.push_str(table_md.as_slice());
            self.plain_push_str(table_plain.as_slice());
        }
    }

    fn close_table_part(&mut self, tag: Tag)
        requires
            wf(old(self)@),
            tag is Thead || tag is Tr || tag is Cell,
        ensures
            final(self)@ == close_element(old(self)@, tag),
            wf(final(self)@),
    {
        if self.table_stack.len() == 0 {
            return;
        }
        let t = self.take_top();
        let ghost tv = t@;
        let TableCollector { mut rows, mut current_row, current_cell, in_header, in_cell, nested_md, nested_plain } = t;
        match tag {
            Tag::Thead => {
                self.put_top(
                    TableCollector { rows, current_row, current_cell, in_header: false, in_cell, nested_md, nested_plain },
                );
            },
            Tag::Tr => {
                let ghost before = rows_view(rows@);
                let ghost row_v = current_row@;
                rows.push(current_row);
                assert(rows_view(rows@) =~= before.push(row_v));
                self.put_top(
                    TableCollector {
                        rows,
                        current_row: empty_row(),
                        current_cell,
                        in_header,
                        in_cell,
                        nested_md,
                        nested_plain,
                    },
                );
            },
            _ => {
                let HtmlCell { colspan, rowspan, has_heading, heading_level, content } = current_cell;
                let cell = HtmlCell {
                    colspan,
                    rowspan,
                    has_heading,
                    heading_level,
                    content: trimmed(content.as_slice()),
                };
                let ghost before = cells_view(current_row.cells@);
                let ghost cell_v = cell@;
                current_row.cells.push(cell);
                assert(cells_view(current_row.cells@) =~= before.push(cell_v));
                self.put_top(
                    TableCollector {
                        rows,
                        current_row,
                        current_cell: empty_cell(),
                        in_header,
                        in_cell: false,
                        nested_md,
                        nested_plain,
                    },
                );
            },
        }
    }

    fn close_element(&mut self, tag: Tag)
        requires
            wf(old(self)@),
        ensures
            final(self)@ == close_element(old(self)@, tag),
            wf(final(self)@),
    {
        match tag {
            Tag::Heading(_) => self.close_heading(),
            Tag::P => {
                if !self.in_table_cell() {
                    self.both_ensure_blank_line();
                }
            },
            Tag::A => self.close_link(),
            Tag::Strong => self.push_lit("**"),
            Tag::Em => self.push_lit("*"),
            Tag::Code => {
                if !self.in_pre {
                    self.push_lit("`");
                }
            },
            Tag::Pre => {
                self.ensure_newline();
                self.push_lit("```\n");
                self.plain_ensure_newline();
                self.in_pre = false;
            },
            Tag::Ul | Tag::Ol => {
                self.list_stack.pop();
                if self.list_stack.len() == 0 {
                    self.both_ensure_blank_line();
                }
            },
            Tag::Li => self.both_ensure_newline(),
            Tag::Table => self.close_table(),
            Tag::Thead => self.close_table_part(tag),
            Tag::Tr => self.close_table_part(tag),
            Tag::Cell => self.close_table_part(tag),
            Tag::Blockquote => {
                self.blockquote_depth = self.blockquote_depth.saturating_sub(1);
                self.both_ensure_newline();
            },
            _ => {},
        }
    }

    /// Handles leaving an element.
    pub fn handle_close(&mut self, name: &Vec<char>)
        requires
            wf(old(self)@),
        ensures
            final(self)@ == close_step(old(self)@, tag_of(name@)),
            wf(final(self)@),
    {
        let tag = classify_tag(name);
        match tag {
            Tag::Skip => {
                self.skip_depth = self.skip_depth.saturating_sub(1);
            },
            _ => {
                if self.skip_depth == 0 {
                    self.close_element(tag);
                }
            },
        }
    }

    // ---- Text ----

    /// Handles a text node.
    pub fn handle_text(&mut self, raw: &[char])
        requires
            wf(old(self)@),
        ensures
            final(self)@ == text_step(old(self)@, raw@),
            wf(final(self)@),
    {
        if self.skip_depth > 0 {
            return;
        }
        let n = self.table_stack.len();
        if n > 0 {
            if self.table_stack[n - 1].in_cell {
                let mut t = self.take_top();
                push_chars(&mut t.current_cell.content, raw);
                self.put_top(t);
            }
            return;
        }
        if self.in_pre {
            self.both_push_str(raw);
            return;
        }
        let collapsed = collapse_whitespace(raw);
        if collapsed.len() == 0 {
            return;
        }
        if collapsed.len() == 1 && collapsed[0] == ' ' {
            assert(collapsed@ =~= seq![' ']);
            buffer_space_after(&mut self.output);
            buffer_space_after(&mut self.plain_output);
            return;
        }
        assert(collapsed@ != seq![' ']);
        let md_c = strip_lead(&collapsed, &self.output.text);
        let pl_c = strip_lead(&collapsed, &self.plain_output.text);
        if md_c.len() > 0 {
            if self.blockquote_depth > 0 {
                if self.output.trailing_newlines > 0 || self.output.text.len() == 0 {
                    let prefix = bq_prefix_chars(self.blockquote_depth);
                    self.output.push_str(prefix.as_slice());
                }
                self.output.push_str(md_c.as_slice());
            } else {
                self.output.push_str(md_c.as_slice());
            }
        }
        if pl_c.len() > 0 {
            self.plain_output.push_str(pl_c.as_slice());
        }
    }
}

// ---------------------------------------------------------------------------
// Whole traversals
// ---------------------------------------------------------------------------

proof fn lemma_counters_open(w: WalkerView, tag: Tag, attrs: Seq<AttrView>, n: int)
    requires
        counters_le(w, n),
    ensures
        counters_le(open_step(w, tag, attrs), n + 1),
{
    let w2 = open_step(w, tag, attrs);
    if !(tag is Skip) && w.skip_depth == 0 {
        match tag {
            Tag::Li => {
                assert(w2 == open_item(w));
                if w.lists.len() > 0 {
                    assert forall|k: int| 0 <= k < w2.lists.len() implies (
                    #[trigger] w2.lists[k]).item_count <= n + 1 by {
                        if k < w.lists.len() - 1 {
                            assert(w2.lists[k] == w.lists[k]);
                        } else {
                            assert(w.lists[w.lists.len() - 1].item_count <= n);
                        }
                    }
                } else {
                    assert(w2.lists == w.lists);
                }
            },
            Tag::Ul => {
                assert(w2 == open_list(w, false));
                assert forall|k: int| 0 <= k < w2.lists.len() implies (
                #[trigger] w2.lists[k]).item_count <= n + 1 by {
                    if k < w.lists.len() {
                        assert(w2.lists[k] == w.lists[k]);
                    }
                }
            },
            Tag::Ol => {
                assert(w2 == open_list(w, true));
                assert forall|k: int| 0 <= k < w2.lists.len() implies (
                #[trigger] w2.lists[k]).item_count <= n + 1 by {
                    if k < w.lists.len() {
                        assert(w2.lists[k] == w.lists[k]);
                    }
                }
            },
            Tag::Heading(level) => {
                assert(w2 == open_heading(w, level));
                assert(w2.lists == w.lists);
            },
            _ => {
                assert(w2.lists == w.lists);
            },
        }
    }
}

proof fn lemma_counters_close(w: WalkerView, tag: Tag, n: int)
    requires
        counters_le(w, n),
    ensures
        counters_le(close_step(w, tag), n + 1),
{
    let w2 = close_step(w, tag);
    if !(tag is Skip) && w.skip_depth == 0 {
        match tag {
            Tag::Ul => {
                assert(w2 == close_list(w));
                assert forall|k: int| 0 <= k < w2.lists.len() implies (
                #[trigger] w2.lists[k]).item_count <= n + 1 by {
                    assert(w2.lists[k] == w.lists[k]);
                }
            },
            Tag::Ol => {
                assert(w2 == close_list(w));
                assert forall|k: int| 0 <= k < w2.lists.len() implies (
                #[trigger] w2.lists[k]).item_count <= n + 1 by {
                    assert(w2.lists[k] == w.lists[k]);
                }
            },
            Tag::Heading(_) => {
                assert(w2 == close_heading(w));
                assert(w2.lists == w.lists);
            },
            Tag::A => {
                assert(w2 == close_link(w));
                assert(w2.lists == w.lists);
            },
            Tag::Table => {
                assert(w2 == close_table(w));
                assert(w2.lists == w.lists);
            },
            _ => {
                assert(w2.lists == w.lists);
            },
        }
    }
}

/// One event keeps every counter within one more than before.
pub proof fn lemma_counters_step(w: WalkerView, e: EventView, n: int)
    requires
        counters_le(w, n),
    ensures
        counters_le(event_step(w, e), n + 1),
{
    match e.node {
        NodeView::Element { name, attrs } => {
            if e.opening {
                lemma_counters_open(w, tag_of(name), attrs, n);
            } else {
                lemma_counters_close(w, tag_of(name), n);
            }
        },
        NodeView::Text(t) => {
            if e.opening {
                let w2 = text_step(w, t);
                assert(w2.lists == w.lists && w2.skip_depth == w.skip_depth && w2.bq_depth
                    == w.bq_depth);
            }
        },
        NodeView::Other => {},
    }
}

/// The final cleanup of an output: trimmed, one closing newline unless empty.
pub fn finish_output(s: &[char]) -> (r: Vec<char>)
    ensures
        r@ == finish(s@),
{
    let mut t = trimmed(s);
    if t.len() > 0 {
        t.push('\n');
    }
    t
}

/// Walk a whole traversal and return the Markdown and the plain text.
pub fn walk_dom(events: &[DomEvent]) -> (r: (String, String))
    ensures
        r.0@ == walk_markdown(events_view(events@)),
        r.1@ == walk_plain(events_view(events@)),
{
    let ghost ev = events_view(events@);
    let mut state = WalkerState::new();
    for i in 0..events.len()
        invariant
            ev == events_view(events@),
            wf(state@),
            counters_le(state@, i as int),
            state@ == walk_state(ev.take(i as int)),
    {
        let e = &events[i];
        let ghost before = state@;
        proof {
            lemma_counters_step(before, ev[i as int], i as int);
        }
        match &e.node {
            DomNode::Element { name, attrs } => {
                if e.opening {
                    state.handle_open(name, attrs.as_slice());
                } else {
                    state.handle_close(name);
                }
            },
            DomNode::Text(t) => {
                if e.opening {
                    state.handle_text(t.as_slice());
                }
            },
            DomNode::Other => {},
        }
        proof {
            let t = ev.take(i + 1);
            assert(t.drop_last() =~= ev.take(i as int));
            assert(t.last() == e@);
        }
    }
    assert(ev.take(events.len() as int) =~= ev);
    let md = finish_output(state.output.text.as_slice());
    let plain = finish_output(state.plain_output.text.as_slice());
    (chars_to_string(md.as_slice()), chars_to_string(plain.as_slice()))
}

// ---------------------------------------------------------------------------
// Laws
// ---------------------------------------------------------------------------

/// Whether an event enters or leaves a `script`, `style` or `head` element.
pub open spec fn is_skip_event(e: EventView) -> bool {
    match e.node {
        NodeView::Element { name, attrs } => tag_of(name) is Skip,
        _ => false,
    }
}

/// Inside `script`, `style` and `head`, nothing but the nesting of those
/// elements changes the walker: no output, no list, table or link state.
pub proof fn skipped_content_changes_nothing(w: WalkerView, e: EventView)
    requires
        w.skip_depth > 0,
        !is_skip_event(e),
    ensures
        event_step(w, e) == w,
{
}

/// The event that opens element `name` with attributes `attrs`.
pub open spec fn open_event(name: Seq<char>, attrs: Seq<AttrView>) -> EventView {
    EventView { opening: true, node: NodeView::Element { name, attrs } }
}

/// Opening `script`, `style` or `head` only deepens the skipping: the skip
/// depth grows by one and nothing else changes.
pub proof fn opening_skipped_element_only_deepens(w: WalkerView, name: Seq<char>, attrs: Seq<AttrView>)
    requires
        (tag_of(name) is Skip),
        w.skip_depth < usize::MAX,
    ensures
        event_step(w, open_event(name, attrs)) == (WalkerView {
            skip_depth: (w.skip_depth + 1) as usize,
            ..w
        }),
{
}

/// Opening `th`/`td` inside a table (outside skipped content) starts an
/// empty cell of the innermost table: its spans are the parsed attributes
/// (at least one; the column span at most `MAX_COLSPAN`), it has no heading
/// and no text, and neither output nor any enclosing table changes.
pub proof fn opening_cell_starts_empty_cell(w: WalkerView, name: Seq<char>, attrs: Seq<AttrView>)
    requires
        (tag_of(name) is Cell),
        w.skip_depth == 0,
        w.tables.len() > 0,
    ensures
        ({
            let w2 = event_step(w, open_event(name, attrs));
            let top = w2.tables.last();
            &&& w2.md == w.md
            &&& w2.plain == w.plain
            &&& w2.tables.len() == w.tables.len()
            &&& w2.tables.drop_last() == w.tables.drop_last()
            &&& top.in_cell
            &&& top.rows == w.tables.last().rows
            &&& top.current_row == w.tables.last().current_row
            &&& top.current_cell.colspan == at_most(span_attr(attrs, "colspan"@), MAX_COLSPAN)
            &&& top.current_cell.rowspan == span_attr(attrs, "rowspan"@)
            &&& 1 <= top.current_cell.colspan <= MAX_COLSPAN
            &&& 1 <= top.current_cell.rowspan
            &&& top.current_cell.content.len() == 0
            &&& !top.current_cell.has_heading
        }),
{
    let w2 = event_step(w, open_event(name, attrs));
    assert(w2.tables.drop_last() =~= w.tables.drop_last());
}

proof fn lemma_collapse_ascii_first(s: Seq<char>)
    requires
        s.len() > 0,
        !is_ascii_ws(s[0]),
    ensures
        collapse_ascii(s).len() > 0,
        collapse_ascii(s)[0] == s[0],
    decreases s.len(),
{
    let q = s.drop_last();
    if s.len() > 1 {
        assert(q[0] == s[0]);
        lemma_collapse_ascii_first(q);
        let r = collapse_ascii(q);
        assert(collapse_ascii(s)[0] == r[0]);
    } else {
        assert(collapse_ascii(q) =~= Seq::<char>::empty());
        assert(collapse_ascii(s) == collapse_ascii(q).push(s.last()));
    }
}

/// Inside a blockquote of depth `d`, text that starts a Markdown line (the
/// output is empty or ends a line) is preceded by `> ` repeated `d` times,
/// whatever the output held before; the Markdown written before stays as it
/// was.
pub proof fn quoted_lines_start_with_quote_prefix(w: WalkerView, raw: Seq<char>)
    requires
        w.skip_depth == 0,
        w.tables.len() == 0,
        !w.in_pre,
        w.bq_depth > 0,
        w.md.trailing > 0 || w.md.text.len() == 0,
        raw.len() > 0,
        !is_ascii_ws(raw[0]),
    ensures
        text_step(w, raw).md.text == w.md.text + repeat(seq!['>', ' '], w.bq_depth as nat)
            + collapse_ascii(raw),
        text_step(w, raw).md.text.len() > w.md.text.len() + 2 * w.bq_depth,
{
    lemma_collapse_ascii_first(raw);
    let col = collapse_ascii(raw);
    assert(col != seq![' ']) by {
        assert(col[0] != ' ');
    }
    assert(strip_lead_space(col, w.md.text) == col);
    lemma_repeat_len(seq!['>', ' '], w.bq_depth as nat);
}

proof fn lemma_repeat_len(s: Seq<char>, n: nat)
    ensures
        repeat(s, n).len() == s.len() * n,
    decreases n,
{
    if n > 0 {
        let m = (n - 1) as nat;
        lemma_repeat_len(s, m);
        assert(repeat(s, n).len() == repeat(s, m).len() + s.len());
        let l = s.len();
        assert(l * n == l * m + l) by (nonlinear_arith)
            requires
                n == m + 1,
        ;
    } else {
        let l = s.len();
        assert(l * n == 0) by (nonlinear_arith)
            requires
                n == 0,
        ;
    }
}

/// Closing a heading whose text is not blank puts that text, trimmed, on a
/// plain-text line of its own: the plain text becomes what preceded the
/// heading, the trimmed heading text, and a newline.
pub proof fn closed_heading_is_a_plain_line(w: WalkerView, level: u8)
    requires
        w.skip_depth == 0,
        w.heading is Some,
        w.heading->0.plain_start_pos <= w.plain.text.len(),
        trim(w.plain.text.skip(w.heading->0.plain_start_pos as int)).len() > 0,
    ensures
        ({
            let pos = w.heading->0.plain_start_pos as int;
            close_step(w, Tag::Heading(level)).plain.text == w.plain.text.take(pos) + trim(
                w.plain.text.skip(pos),
            ) + seq!['\n']
        }),
{
    let pos = w.heading->0.plain_start_pos as int;
    assert(buf_tail(w.plain, w.heading->0.plain_start_pos) =~= w.plain.text.skip(pos));
}

/// A link keeps the Markdown written before it: opening `<a>` and, after any
/// further Markdown, closing it leaves the earlier Markdown as it was and
/// turns only what was written in between into the link text (trimmed), as
/// `[text](href)`, or the bare text without an `href`.
pub proof fn link_keeps_earlier_markdown(w: WalkerView, attrs: Seq<AttrView>, w2: WalkerView)
    requires
        w.skip_depth == 0,
        w2.skip_depth == 0,
        w2.link == open_step(w, Tag::A, attrs).link,
        w2.md.text.len() <= usize::MAX,
        w.md.text.len() <= w2.md.text.len(),
        w2.md.text.take(w.md.text.len() as int) == w.md.text,
    ensures
        ({
            let mid = trim(w2.md.text.skip(w.md.text.len() as int));
            let href = attr_or_empty(attrs, "href"@);
            close_step(w2, Tag::A).md.text == w.md.text + (if href.len() == 0 {
                mid
            } else {
                "["@ + mid + "]("@ + href + ")"@
            })
        }),
{
    let n = w.md.text.len() as int;
    assert(buf_tail(w2.md, n as usize) =~= w2.md.text.skip(n));
    assert(buf_cut(w2.md, n as usize).text =~= w.md.text);
}

/// The event that closes element `name`.
pub open spec fn close_event(name: Seq<char>, attrs: Seq<AttrView>) -> EventView {
    EventView { opening: false, node: NodeView::Element { name, attrs } }
}

/// The walker state after `events`, starting from `w`.
pub open spec fn run_from(w: WalkerView, events: Seq<EventView>) -> WalkerView
    decreases events.len(),
{
    if events.len() == 0 {
        w
    } else {
        run_from(event_step(w, events[0]), events.drop_first())
    }
}

/// `events` opens and closes `script`/`style`/`head` elements in properly
/// nested pairs, given `d` of them already open.
pub open spec fn skip_nesting_closes(events: Seq<EventView>, d: nat) -> bool
    decreases events.len(),
{
    if events.len() == 0 {
        d == 0
    } else if is_skip_event(events[0]) && events[0].opening {
        skip_nesting_closes(events.drop_first(), d + 1)
    } else if is_skip_event(events[0]) {
        d > 0 && skip_nesting_closes(events.drop_first(), (d - 1) as nat)
    } else {
        skip_nesting_closes(events.drop_first(), d)
    }
}

proof fn lemma_run_from_push(w: WalkerView, events: Seq<EventView>, e: EventView)
    ensures
        run_from(w, events.push(e)) == event_step(run_from(w, events), e),
    decreases events.len(),
{
    if events.len() > 0 {
        assert(events.push(e)[0] == events[0]);
        assert(events.push(e).drop_first() =~= events.drop_first().push(e));
        lemma_run_from_push(event_step(w, events[0]), events.drop_first(), e);
    } else {
        assert(events.push(e)[0] == e);
        assert(events.push(e).drop_first() =~= Seq::<EventView>::empty());
        assert(run_from(event_step(w, e), Seq::<EventView>::empty()) == event_step(w, e));
    }
}

proof fn lemma_walk_state_concat(a: Seq<EventView>, b: Seq<EventView>)
    ensures
        walk_state(a + b) == run_from(walk_state(a), b),
    decreases b.len(),
{
    if b.len() == 0 {
        assert(a + b =~= a);
    } else {
        let b1 = b.drop_last();
        lemma_walk_state_concat(a, b1);
        assert((a + b).drop_last() =~= a + b1);
        assert((a + b).last() == b.last());
        lemma_run_from_push(walk_state(a), b1, b.last());
        assert(b1.push(b.last()) =~= b);
    }
}

proof fn lemma_run_from_concat(w: WalkerView, a: Seq<EventView>, b: Seq<EventView>)
    ensures
        run_from(w, a + b) == run_from(run_from(w, a), b),
    decreases a.len(),
{
    if a.len() == 0 {
        assert(a + b =~= b);
    } else {
        assert((a + b).drop_first() =~= a.drop_first() + b);
        assert((a + b)[0] == a[0]);
        lemma_run_from_concat(event_step(w, a[0]), a.drop_first(), b);
    }
}

proof fn lemma_skipped_run(w: WalkerView, inner: Seq<EventView>, k: nat)
    requires
        w.skip_depth > k,
        skip_nesting_closes(inner, k),
        w.skip_depth + inner.len() < usize::MAX,
    ensures
        run_from(w, inner) == (WalkerView { skip_depth: (w.skip_depth - k) as usize, ..w }),
    decreases inner.len(),
{
    if inner.len() > 0 {
        let e = inner[0];
        let rest = inner.drop_first();
        if is_skip_event(e) && e.opening {
            let w1 = WalkerView { skip_depth: (w.skip_depth + 1) as usize, ..w };
            assert(event_step(w, e) == w1);
            lemma_skipped_run(w1, rest, k + 1);
        } else if is_skip_event(e) {
            let w1 = WalkerView { skip_depth: (w.skip_depth - 1) as usize, ..w };
            assert(event_step(w, e) == w1);
            lemma_skipped_run(w1, rest, (k - 1) as nat);
        } else {
            skipped_content_changes_nothing(w, e);
            lemma_skipped_run(w, rest, k);
        }
    }
}

/// A `<head>` element and everything in it leave no trace: with its subtree
/// (properly nested `script`/`style`/`head` pairs inside) cut out of a
/// traversal, the walker ends in the same state, so the Markdown and the
/// plain text are the same. The nesting depth must stay below the machine
/// limit.
pub proof fn head_subtree_changes_no_output(
    pre: Seq<EventView>,
    name: Seq<char>,
    attrs: Seq<AttrView>,
    inner: Seq<EventView>,
    close_name: Seq<char>,
    close_attrs: Seq<AttrView>,
    post: Seq<EventView>,
)
    requires
        ascii_lower_seq(name) == "head"@,
        ascii_lower_seq(close_name) == "head"@,
        skip_nesting_closes(inner, 0),
        walk_state(pre).skip_depth + inner.len() + 1 < usize::MAX,
    ensures
        walk_state(pre + (seq![open_event(name, attrs)] + inner + seq![close_event(close_name, close_attrs)]) + post)
            == walk_state(pre + post),
        walk_markdown(pre + (seq![open_event(name, attrs)] + inner + seq![close_event(close_name, close_attrs)]) + post)
            == walk_markdown(pre + post),
        walk_plain(pre + (seq![open_event(name, attrs)] + inner + seq![close_event(close_name, close_attrs)]) + post)
            == walk_plain(pre + post),
{
    crate::dom::skipped_elements_are_script_style_head(name);
    crate::dom::skipped_elements_are_script_style_head(close_name);
    let open = open_event(name, attrs);
    let close = close_event(close_name, close_attrs);
    let h = seq![open] + inner + seq![close];
    let w0 = walk_state(pre);
    let w1 = WalkerView { skip_depth: (w0.skip_depth + 1) as usize, ..w0 };
    assert(event_step(w0, open) == w1);
    lemma_skipped_run(w1, inner, 0);
    assert(event_step(w1, close) == w0);
    lemma_run_from_concat(w0, seq![open], inner + seq![close]);
    assert(seq![open] + (inner + seq![close]) =~= h);
    assert(run_from(w0, seq![open]) == run_from(w1, seq![open].drop_first()));
    assert(seq![open].drop_first() =~= Seq::<EventView>::empty());
    lemma_run_from_concat(w1, inner, seq![close]);
    assert(run_from(w1, seq![close]) == run_from(w0, seq![close].drop_first()));
    assert(seq![close].drop_first() =~= Seq::<EventView>::empty());
    assert(run_from(w0, h) == w0);
    lemma_walk_state_concat(pre, h + post);
    assert(pre + h + post =~= pre + (h + post));
    lemma_run_from_concat(w0, h, post);
    lemma_walk_state_concat(pre, post);
}

/// A traversal without events produces empty Markdown and plain text.
pub proof fn empty_traversal_gives_empty_output()
    ensures
        walk_markdown(Seq::empty()) == Seq::<char>::empty(),
        walk_plain(Seq::empty()) == Seq::<char>::empty(),
{
    assert(trim(Seq::<char>::empty()) =~= Seq::<char>::empty()) by {
        assert(crate::text::trim_end(Seq::<char>::empty()) == Seq::<char>::empty());
    }
}

/// The final output is empty, or it is trimmed text followed by exactly one
/// newline.
pub proof fn finished_output_shape(s: Seq<char>)
    ensures
        finish(s).len() == 0 || ({
            let t = finish(s).drop_last();
            &&& finish(s).last() == '\n'
            &&& t.len() > 0
            &&& !crate::text::is_ws(t[0])
            &&& !crate::text::is_ws(t.last())
            &&& t == trim(s)
        }),
{
    crate::text::lemma_trim_props(s);
    if trim(s).len() > 0 {
        assert(finish(s).drop_last() =~= trim(s));
    }
}

} // verus!
