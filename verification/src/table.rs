//! Buffered HTML tables and their rendering.
//!
//! A table is collected row by row while the DOM is walked. On `</table>` it
//! is rendered either as a plain GFM table (uniform tables without spans) or,
//! for layout tables with `colspan`/`rowspan`, linearized: banner rows become
//! headings or bold paragraphs, label/value rows become `**Label:** value`,
//! contiguous rows that tile the grid become GFM tables and irregular rows
//! become small standalone tables.
//!
//! Column positions and span sums saturate at `usize::MAX`; below that bound
//! every computation is exact.
use vstd::prelude::*;

use crate::markdown::{
    build_table,
    build_table_plain,
    heading_spec,
    push_heading,
    table_md_spec,
    table_plain_spec,
    texts_view,
    text_rows_view,
};
use crate::markdown::{plain_table_adds_no_characters, texts_lack};
use crate::text::{lacks, lemma_lacks_concat, lemma_lacks_trim, push_chars, push_str_chars, slice_chars, trim, trimmed};

verus! {

// ---------------------------------------------------------------------------
// Data model
// ---------------------------------------------------------------------------

/// One buffered HTML table cell with span info and content.
pub struct HtmlCell {
    /// Columns this cell spans (`colspan`).
    pub colspan: usize,
    /// Rows this cell spans (`rowspan`).
    pub rowspan: usize,
    /// True when the cell contains a heading element (`<h1>`..`<h6>`).
    pub has_heading: bool,
    /// Heading level of the first contained heading, if any.
    pub heading_level: u8,
    /// Accumulated cell text.
    pub content: Vec<char>,
}

/// The contents of an [`HtmlCell`].
pub struct CellView {
    pub colspan: usize,
    pub rowspan: usize,
    pub has_heading: bool,
    pub heading_level: u8,
    pub content: Seq<char>,
}

impl View for HtmlCell {
    type V = CellView;

    open spec fn view(&self) -> CellView {
        CellView {
            colspan: self.colspan,
            rowspan: self.rowspan,
            has_heading: self.has_heading,
            heading_level: self.heading_level,
            content: self.content@,
        }
    }
}

/// One buffered HTML table row.
pub struct HtmlRow {
    /// Cells in document order.
    pub cells: Vec<HtmlCell>,
    /// True if this row came from `<thead>`.
    pub is_header_row: bool,
}

/// The contents of an [`HtmlRow`].
pub struct RowView {
    pub cells: Seq<CellView>,
    pub is_header_row: bool,
}

/// The views of a sequence of cells.
pub open spec fn cells_view(cells: Seq<HtmlCell>) -> Seq<CellView> {
    cells.map_values(|c: HtmlCell| c@)
}

impl View for HtmlRow {
    type V = RowView;

    open spec fn view(&self) -> RowView {
        RowView { cells: cells_view(self.cells@), is_header_row: self.is_header_row }
    }
}

/// The views of a sequence of rows.
pub open spec fn rows_view(rows: Seq<HtmlRow>) -> Seq<RowView> {
    rows.map_values(|r: HtmlRow| r@)
}

/// Buffers an HTML table while its elements are walked.
pub struct TableCollector {
    /// Completed rows, in document order.
    pub rows: Vec<HtmlRow>,
    /// In-progress row.
    pub current_row: HtmlRow,
    /// In-progress cell.
    pub current_cell: HtmlCell,
    /// Whether the current row is inside `<thead>`.
    pub in_header: bool,
    /// Whether a `<th>`/`<td>` is currently open.
    pub in_cell: bool,
    /// Markdown of the tables nested in this table's cells, in closing order,
    /// written as standalone blocks after this table.
    pub nested_md: Vec<char>,
    /// Plain text of the nested tables, likewise.
    pub nested_plain: Vec<char>,
}

/// The contents of a [`TableCollector`].
pub struct TableView {
    pub rows: Seq<RowView>,
    pub current_row: RowView,
    pub current_cell: CellView,
    pub in_header: bool,
    pub in_cell: bool,
    pub nested_md: Seq<char>,
    pub nested_plain: Seq<char>,
}

impl View for TableCollector {
    type V = TableView;

    open spec fn view(&self) -> TableView {
        TableView {
            rows: rows_view(self.rows@),
            current_row: self.current_row@,
            current_cell: self.current_cell@,
            in_header: self.in_header,
            in_cell: self.in_cell,
            nested_md: self.nested_md@,
            nested_plain: self.nested_plain@,
        }
    }
}

/// A cell with every field zero or empty.
pub open spec fn empty_cell_view() -> CellView {
    CellView { colspan: 0, rowspan: 0, has_heading: false, heading_level: 0, content: Seq::empty() }
}

/// A row with no cells, outside `<thead>`.
pub open spec fn empty_row_view() -> RowView {
    RowView { cells: Seq::empty(), is_header_row: false }
}

/// A new, empty table.
pub open spec fn new_table_view() -> TableView {
    TableView {
        rows: Seq::empty(),
        current_row: empty_row_view(),
        current_cell: empty_cell_view(),
        in_header: false,
        in_cell: false,
        nested_md: Seq::empty(),
        nested_plain: Seq::empty(),
    }
}

/// A cell with every field zero or empty.
pub fn empty_cell() -> (c: HtmlCell)
    ensures
        c@ == empty_cell_view(),
{
    HtmlCell { colspan: 0, rowspan: 0, has_heading: false, heading_level: 0, content: Vec::new() }
}

/// A row with no cells, outside `<thead>`.
pub fn empty_row() -> (r: HtmlRow)
    ensures
        r@ == empty_row_view(),
{
    let r = HtmlRow { cells: Vec::new(), is_header_row: false };
    assert(r@.cells =~= Seq::<CellView>::empty());
    r
}

/// A new, empty table.
pub fn new_table() -> (t: TableCollector)
    ensures
        t@ == new_table_view(),
{
    let t = TableCollector {
        rows: Vec::new(),
        current_row: empty_row(),
        current_cell: empty_cell(),
        in_header: false,
        in_cell: false,
        nested_md: Vec::new(),
        nested_plain: Vec::new(),
    };
    assert(t@.rows =~= Seq::<RowView>::empty());
    t
}

/// A copy of a cell.
pub fn copy_cell(c: &HtmlCell) -> (r: HtmlCell)
    ensures
        r@ == c@,
{
    let content = slice_chars(c.content.as_slice(), 0, c.content.len());
    assert(content@ =~= c.content@);
    HtmlCell {
        colspan: c.colspan,
        rowspan: c.rowspan,
        has_heading: c.has_heading,
        heading_level: c.heading_level,
        content,
    }
}

// ---------------------------------------------------------------------------
// Grid geometry
// ---------------------------------------------------------------------------

/// A span of at least one.
pub open spec fn max1(n: usize) -> usize {
    if n < 1 {
        1
    } else {
        n
    }
}

/// `a + b`, saturating at `usize::MAX`.
pub open spec fn sat_add(a: usize, b: usize) -> usize {
    if a + b > usize::MAX {
        usize::MAX
    } else {
        (a + b) as usize
    }
}

/// Columns a row covers: the sum of its cells' spans.
pub open spec fn row_width(cells: Seq<CellView>) -> usize
    decreases cells.len(),
{
    if cells.len() == 0 {
        0
    } else {
        sat_add(row_width(cells.drop_last()), max1(cells.last().colspan))
    }
}

/// Width of the table grid: the widest row.
pub open spec fn grid_width(rows: Seq<RowView>) -> usize
    decreases rows.len(),
{
    if rows.len() == 0 {
        0
    } else {
        let w = grid_width(rows.drop_last());
        let r = row_width(rows.last().cells);
        if r > w {
            r
        } else {
            w
        }
    }
}

/// Columns a row covers.
pub fn html_row_width(row: &HtmlRow) -> (w: usize)
    ensures
        w == row_width(row@.cells),
{
    let mut w: usize = 0;
    let ghost cv = row@.cells;
    for i in 0..row.cells.len()
        invariant
            cv == row@.cells,
            w == row_width(cv.take(i as int)),
    {
        let c = &row.cells[i];
        let span = if c.colspan < 1 {
            1
        } else {
            c.colspan
        };
        w = w.saturating_add(span);
        assert(cv.take(i + 1).drop_last() =~= cv.take(i as int));
    }
    assert(cv.take(row.cells.len() as int) =~= cv);
    w
}

/// Authoritative grid width of an HTML table: the maximum over rows of the
/// summed column spans.
pub fn html_grid_width(rows: &[HtmlRow]) -> (w: usize)
    ensures
        w == grid_width(rows_view(rows@)),
{
    let mut w: usize = 0;
    let ghost rv = rows_view(rows@);
    for i in 0..rows.len()
        invariant
            rv == rows_view(rows@),
            w == grid_width(rv.take(i as int)),
    {
        let r = html_row_width(&rows[i]);
        if r > w {
            w = r;
        }
        assert(rv.take(i + 1).drop_last() =~= rv.take(i as int));
    }
    assert(rv.take(rows.len() as int) =~= rv);
    w
}

/// Whether a row's cells exactly tile the full grid width.
pub open spec fn tiles(row: RowView, gw: usize) -> bool {
    gw > 0 && row_width(row.cells) == gw
}

/// Whether a row's cells exactly tile the full grid width.
pub fn html_row_tiles(row: &HtmlRow, grid_width: usize) -> (b: bool)
    ensures
        b == tiles(row@, grid_width),
{
    grid_width > 0 && html_row_width(row) == grid_width
}

/// The layout role of an HTML table row.
pub enum HtmlRowKind {
    /// One cell spanning the whole grid.
    Banner,
    /// A one-column label followed by a value spanning the rest.
    LabelValue,
    /// Cells that exactly cover the grid.
    Tiling,
    /// Anything else.
    Fallback,
}

/// The role of a row: the first matching rule wins.
pub open spec fn classify(row: RowView, gw: usize) -> HtmlRowKind {
    let cells = row.cells;
    if cells.len() == 1 && gw >= 1 && max1(cells[0].colspan) >= gw {
        HtmlRowKind::Banner
    } else if cells.len() == 2 && gw >= 3 && max1(cells[0].colspan) == 1 && max1(cells[1].colspan)
        == gw - 1 {
        HtmlRowKind::LabelValue
    } else if tiles(row, gw) {
        HtmlRowKind::Tiling
    } else {
        HtmlRowKind::Fallback
    }
}

/// Classify a single HTML row by its cell layout. First matching rule wins.
pub fn classify_html_row(row: &HtmlRow, grid_width: usize) -> (k: HtmlRowKind)
    ensures
        k == classify(row@, grid_width),
{
    let cells = &row.cells;
    if cells.len() == 1 && grid_width >= 1 {
        let s = if cells[0].colspan < 1 {
            1
        } else {
            cells[0].colspan
        };
        if s >= grid_width {
            return HtmlRowKind::Banner;
        }
    }
    if cells.len() == 2 && grid_width >= 3 {
        let s0 = if cells[0].colspan < 1 {
            1
        } else {
            cells[0].colspan
        };
        let s1 = if cells[1].colspan < 1 {
            1
        } else {
            cells[1].colspan
        };
        if s0 == 1 && s1 == grid_width - 1 {
            return HtmlRowKind::LabelValue;
        }
    }
    if html_row_tiles(row, grid_width) {
        return HtmlRowKind::Tiling;
    }
    HtmlRowKind::Fallback
}

/// A table is simple when every row has as many cells as the first and no
/// cell spans more than one row or column.
pub open spec fn is_simple(rows: Seq<RowView>) -> bool {
    rows.len() == 0 || forall|i: int|
        0 <= i < rows.len() ==> {
            &&& (#[trigger] rows[i]).cells.len() == rows[0].cells.len()
            &&& forall|j: int|
                0 <= j < rows[i].cells.len() ==> (#[trigger] rows[i].cells[j]).colspan <= 1
                    && rows[i].cells[j].rowspan <= 1
        }
}

/// Whether a table is "simple": uniform widths, no spans.
///
/// Such tables render as plain GFM tables with the first row (or the
/// `<thead>` row) as header.
pub fn html_table_is_simple(rows: &[HtmlRow]) -> (b: bool)
    ensures
        b == is_simple(rows_view(rows@)),
{
    let ghost rv = rows_view(rows@);
    if rows.len() == 0 {
        return true;
    }
    let width = rows[0].cells.len();
    for i in 0..rows.len()
        invariant
            rv == rows_view(rows@),
            rows@.len() > 0,
            width == rv[0].cells.len(),
            forall|k: int|
                0 <= k < i ==> {
                    &&& (#[trigger] rv[k]).cells.len() == width
                    &&& forall|j: int|
                        0 <= j < rv[k].cells.len() ==> (#[trigger] rv[k].cells[j]).colspan <= 1
                            && rv[k].cells[j].rowspan <= 1
                },
    {
        let r = &rows[i];
        assert(rv[i as int] == r@);
        if r.cells.len() != width {
            return false;
        }
        for j in 0..r.cells.len()
            invariant
                rv == rows_view(rows@),
                0 <= i < rv.len(),
                rv[i as int] == r@,
                forall|m: int|
                    0 <= m < j ==> (#[trigger] rv[i as int].cells[m]).colspan <= 1
                        && rv[i as int].cells[m].rowspan <= 1,
        {
            let c = &r.cells[j];
            assert(rv[i as int].cells[j as int] == c@);
            if !(c.colspan <= 1 && c.rowspan <= 1) {
                proof {
                    let cj = rv[i as int].cells[j as int];
                    assert(!(cj.colspan <= 1 && cj.rowspan <= 1));
                    if is_simple(rv) {
                        assert(rv.len() > 0);
                        let ri = rv[i as int];
                        assert(ri.cells[j as int] == cj);
                    }
                }
                return false;
            }
        }
    }
    true
}

// ---------------------------------------------------------------------------
// Rowspan normalization
// ---------------------------------------------------------------------------

/// The empty cell that stands in for a column covered from an earlier row.
pub open spec fn placeholder() -> CellView {
    CellView { colspan: 1, rowspan: 1, has_heading: false, heading_level: 0, content: Seq::empty() }
}

/// `c` with its row span reset to one.
pub open spec fn with_rowspan_one(c: CellView) -> CellView {
    CellView { rowspan: 1, ..c }
}

/// Whether a pending vertical span covers column `col`.
pub open spec fn covered(pending: Seq<(usize, usize)>, col: usize) -> bool {
    exists|i: int| 0 <= i < pending.len() && (#[trigger] pending[i]).0 == col
}

/// The pending spans a cell at `col` starts: one per spanned column, each
/// with `rowspan - 1` rows still to fill.
pub open spec fn span_entries(col: usize, span: usize, rowspan: usize) -> Seq<(usize, usize)> {
    Seq::new(span as nat, |k: int| (sat_add(col, k as usize), (rowspan - 1) as usize))
}

/// Lays out the cells of one row from column `col` on: columns covered by
/// `pending` receive placeholders, every cell gets row span one. Returns the
/// cells and the spans the row starts.
pub open spec fn lay_out(pending: Seq<(usize, usize)>, cells: Seq<CellView>, col: usize) -> (
    Seq<CellView>,
    Seq<(usize, usize)>,
)
    decreases cells.len(), usize::MAX - col,
{
    if covered(pending, col) && col < usize::MAX {
        let r = lay_out(pending, cells, (col + 1) as usize);
        (seq![placeholder()] + r.0, r.1)
    } else if cells.len() == 0 {
        (Seq::empty(), Seq::empty())
    } else {
        let c = cells[0];
        let span = max1(c.colspan);
        let mine = if c.rowspan > 1 {
            span_entries(col, span, c.rowspan)
        } else {
            Seq::empty()
        };
        let r = lay_out(pending, cells.drop_first(), sat_add(col, span));
        (seq![with_rowspan_one(c)] + r.0, mine + r.1)
    }
}

/// Pending spans after one more row: each counts down, exhausted ones drop.
pub open spec fn age_spans(p: Seq<(usize, usize)>) -> Seq<(usize, usize)>
    decreases p.len(),
{
    if p.len() == 0 {
        Seq::empty()
    } else {
        let rest = age_spans(p.drop_last());
        if p.last().1 > 1 {
            rest.push((p.last().0, (p.last().1 - 1) as usize))
        } else {
            rest
        }
    }
}

/// Normalizes `rows` given the spans still pending from earlier rows.
pub open spec fn normalize_from(rows: Seq<RowView>, pending: Seq<(usize, usize)>) -> Seq<RowView>
    decreases rows.len(),
{
    if rows.len() == 0 {
        Seq::empty()
    } else {
        let lo = lay_out(pending, rows[0].cells, 0);
        seq![RowView { cells: lo.0, is_header_row: rows[0].is_header_row }] + normalize_from(
            rows.drop_first(),
            age_spans(pending) + lo.1,
        )
    }
}

/// The rows with every vertical span re-materialized as placeholder cells.
pub open spec fn normalize_spec(rows: Seq<RowView>) -> Seq<RowView> {
    normalize_from(rows, Seq::empty())
}

fn is_covered(pending: &Vec<(usize, usize)>, col: usize) -> (b: bool)
    ensures
        b == covered(pending@, col),
{
    for i in 0..pending.len()
        invariant
            forall|k: int| 0 <= k < i ==> (#[trigger] pending@[k]).0 != col,
    {
        if pending[i].0 == col {
            assert(pending@[i as int].0 == col);
            return true;
        }
    }
    false
}

fn age_pending(p: &Vec<(usize, usize)>) -> (r: Vec<(usize, usize)>)
    ensures
        r@ == age_spans(p@),
{
    let mut r: Vec<(usize, usize)> = Vec::new();
    for i in 0..p.len()
        invariant
            r@ == age_spans(p@.take(i as int)),
    {
        let (c, n) = p[i];
        assert(p@.take(i + 1).drop_last() =~= p@.take(i as int));
        if n > 1 {
            r.push((c, n - 1));
        }
    }
    assert(p@.take(p.len() as int) =~= p@);
    r
}

/// A placeholder cell.
fn placeholder_cell() -> (c: HtmlCell)
    ensures
        c@ == placeholder(),
{
    HtmlCell { colspan: 1, rowspan: 1, has_heading: false, heading_level: 0, content: Vec::new() }
}

fn lay_out_row(pending: &Vec<(usize, usize)>, row: &HtmlRow) -> (r: (Vec<HtmlCell>, Vec<(usize, usize)>))
    ensures
        (cells_view(r.0@), r.1@) == lay_out(pending@, row@.cells, 0),
{
    let ghost cv = row@.cells;
    let ghost p = pending@;
    let mut out: Vec<HtmlCell> = Vec::new();
    let mut spans: Vec<(usize, usize)> = Vec::new();
    let mut col: usize = 0;
    let mut j: usize = 0;
    let n = row.cells.len();
    assert(cv.skip(0) =~= cv);
    while j < n || (col < usize::MAX && is_covered(pending, col))
        invariant
            cv == row@.cells,
            p == pending@,
            n == cv.len(),
            j <= n,
            lay_out(p, cv, 0) == (
                cells_view(out@) + lay_out(p, cv.skip(j as int), col).0,
                spans@ + lay_out(p, cv.skip(j as int), col).1,
            ),
        decreases n - j, usize::MAX - col,
    {
        let ghost rest = cv.skip(j as int);
        if col < usize::MAX && is_covered(pending, col) {
            let ghost r = lay_out(p, rest, (col + 1) as usize);
            let ghost old_cells = cells_view(out@);
            out.push(placeholder_cell());
            assert(cells_view(out@) =~= old_cells.push(placeholder()));
            col = col + 1;
            assert(cells_view(out@) + lay_out(p, rest, col).0 =~= old_cells + (seq![placeholder()]
                + r.0));
        } else {
            let c = &row.cells[j];
            assert(rest[0] == c@);
            assert(rest.drop_first() =~= cv.skip(j + 1));
            let span = if c.colspan < 1 {
                1
            } else {
                c.colspan
            };
            let ghost before = spans@;
            if c.rowspan > 1 {
                for k in 0..span
                    invariant
                        spans@ == before + span_entries(col, k, c.rowspan),
                        c.rowspan > 1,
                {
                    spans.push((col.saturating_add(k), c.rowspan - 1));
                    assert(spans@ =~= before + span_entries(col, (k + 1) as usize, c.rowspan));
                }
            } else {
                assert(spans@ =~= before + Seq::<(usize, usize)>::empty());
            }
            let ghost mine = spans@.skip(before.len() as int);
            assert(spans@ =~= before + mine);
            let ghost old_cells = cells_view(out@);
            let mut cell = copy_cell(c);
            cell.rowspan = 1;
            out.push(cell);
            assert(cells_view(out@) =~= old_cells.push(with_rowspan_one(c@)));
            let ghost r = lay_out(p, cv.skip(j + 1), sat_add(col, span));
            col = col.saturating_add(span);
            j = j + 1;
            assert(cells_view(out@) + r.0 =~= old_cells + (seq![with_rowspan_one(c@)] + r.0));
            assert(spans@ + r.1 =~= before + (mine + r.1));
        }
    }
    assert(cv.skip(n as int) =~= Seq::<CellView>::empty());
    assert(cells_view(out@) + Seq::<CellView>::empty() =~= cells_view(out@));
    assert(spans@ + Seq::<(usize, usize)>::empty() =~= spans@);
    (out, spans)
}

/// Resolve `rowspan` by inserting empty placeholder cells into lower rows.
///
/// HTML declares a vertical span on the top cell and omits the covered columns
/// from subsequent rows. To get a rectangular grid, each spanned column is
/// re-materialized as an empty cell in the rows it covers. Spans are tracked
/// in an ordered list of `(column, remaining_rows)`, so output stays
/// deterministic.
pub fn normalize_html_rowspans(rows: &[HtmlRow]) -> (out: Vec<HtmlRow>)
    ensures
        rows_view(out@) == normalize_spec(rows_view(rows@)),
{
    let ghost rv = rows_view(rows@);
    let mut pending: Vec<(usize, usize)> = Vec::new();
    let mut out: Vec<HtmlRow> = Vec::new();
    assert(rv.skip(0) =~= rv);
    assert(rows_view(out@) + normalize_from(rv.skip(0), pending@) =~= normalize_spec(rv));
    for i in 0..rows.len()
        invariant
            rv == rows_view(rows@),
            normalize_spec(rv) == rows_view(out@) + normalize_from(rv.skip(i as int), pending@),
    {
        let row = &rows[i];
        let ghost rest = rv.skip(i as int);
        let ghost old_pending = pending@;
        assert(rest[0] == row@);
        assert(rest.drop_first() =~= rv.skip(i + 1));
        let (cells, spans) = lay_out_row(&pending, row);
        let mut next = age_pending(&pending);
        let mut spans = spans;
        next.append(&mut spans);
        let new_row = HtmlRow { cells, is_header_row: row.is_header_row };
        let ghost old_rows = rows_view(out@);
        out.push(new_row);
        assert(rows_view(out@) =~= old_rows.push(new_row@));
        pending = next;
        assert(rows_view(out@) + normalize_from(rv.skip(i + 1), pending@) =~= old_rows
            + normalize_from(rest, old_pending));
    }
    assert(rv.skip(rows.len() as int) =~= Seq::<RowView>::empty());
    assert(rows_view(out@) + Seq::<RowView>::empty() =~= rows_view(out@));
    out
}

// ---------------------------------------------------------------------------
// Expanding rows over the grid
// ---------------------------------------------------------------------------

/// `n` empty texts.
pub open spec fn empties(n: nat) -> Seq<Seq<char>> {
    Seq::new(n, |i: int| Seq::<char>::empty())
}

/// A row's cells spread over columns: each cell's trimmed text, then one
/// empty column for every further column it spans.
pub open spec fn expand_cells(cells: Seq<CellView>) -> Seq<Seq<char>>
    decreases cells.len(),
{
    if cells.len() == 0 {
        Seq::empty()
    } else {
        expand_cells(cells.drop_last()).push(trim(cells.last().content)) + empties(
            (max1(cells.last().colspan) - 1) as nat,
        )
    }
}

/// `cols` cut or padded with empty texts to exactly `n` columns.
pub open spec fn fit_width(cols: Seq<Seq<char>>, n: usize) -> Seq<Seq<char>> {
    if cols.len() >= n {
        cols.take(n as int)
    } else {
        cols + empties((n - cols.len()) as nat)
    }
}

/// A row's column texts over a grid `gw` columns wide.
pub open spec fn expand_spec(row: RowView, gw: usize) -> Seq<Seq<char>> {
    fit_width(expand_cells(row.cells), gw)
}

/// Expand a row's cells across `grid_width` columns for GFM rendering
/// (empty-fill).
pub fn expand_html_row(row: &HtmlRow, grid_width: usize) -> (cols: Vec<Vec<char>>)
    ensures
        texts_view(cols@) == expand_spec(row@, grid_width),
        cols@.len() == grid_width,
{
    let ghost cv = row@.cells;
    let mut cols: Vec<Vec<char>> = Vec::new();
    for i in 0..row.cells.len()
        invariant
            cv == row@.cells,
            texts_view(cols@) == expand_cells(cv.take(i as int)),
    {
        let c = &row.cells[i];
        let span = if c.colspan < 1 {
            1
        } else {
            c.colspan
        };
        let ghost before = texts_view(cols@);
        let t = trimmed(c.content.as_slice());
        let ghost tv = t@;
        cols.push(t);
        assert(texts_view(cols@) =~= before.push(tv));
        let mut k: usize = 1;
        while k < span
            invariant
                1 <= k <= span,
                texts_view(cols@) == before.push(tv) + empties((k - 1) as nat),
            decreases span - k,
        {
            let ghost b2 = texts_view(cols@);
            cols.push(Vec::new());
            assert(texts_view(cols@) =~= b2.push(Seq::<char>::empty()));
            assert(texts_view(cols@) =~= before.push(tv) + empties(k as nat));
            k = k + 1;
        }
        proof {
            let t2 = cv.take(i + 1);
            assert(t2.drop_last() =~= cv.take(i as int));
            assert(t2.last() == c@);
        }
    }
    assert(cv.take(row.cells.len() as int) =~= cv);
    let ghost full = texts_view(cols@);
    if cols.len() >= grid_width {
        cols.truncate(grid_width);
        assert(texts_view(cols@) =~= full.take(grid_width as int));
    } else {
        let ghost start_len = cols.len();
        while cols.len() < grid_width
            invariant
                start_len <= cols@.len() <= grid_width,
                start_len == full.len(),
                texts_view(cols@) == full + empties((cols@.len() - start_len) as nat),
            decreases grid_width - cols.len(),
        {
            let ghost b2 = texts_view(cols@);
            cols.push(Vec::new());
            assert(texts_view(cols@) =~= b2.push(Seq::<char>::empty()));
            assert(texts_view(cols@) =~= full + empties((cols@.len() - start_len) as nat));
        }
    }
    cols
}

// ---------------------------------------------------------------------------
// Rendering
// ---------------------------------------------------------------------------

/// The rows that `run` indexes, in order.
pub open spec fn pick_rows(rows: Seq<RowView>, run: Seq<usize>) -> Seq<RowView> {
    run.map_values(|k: usize| rows[k as int])
}

/// A contiguous run of tiling rows rendered as one table, first row as
/// header.
pub open spec fn render_grid_spec(run: Seq<RowView>, gw: usize, plain: bool) -> Seq<char> {
    let ex = run.map_values(|r: RowView| expand_spec(r, gw));
    if plain {
        table_plain_spec(ex[0], ex.skip(1))
    } else {
        table_md_spec(ex[0], ex.skip(1))
    }
}

/// Render a contiguous run of tiling rows as one GFM table (row 0 = header).
pub fn render_html_grid(rows: &[HtmlRow], run: &[usize], grid_width: usize, plain: bool) -> (r: Vec<
    char,
>)
    requires
        run@.len() > 0,
        forall|k: int| 0 <= k < run@.len() ==> (#[trigger] run@[k]) < rows@.len(),
    ensures
        r@ == render_grid_spec(pick_rows(rows_view(rows@), run@), grid_width, plain),
{
    let ghost rv = rows_view(rows@);
    let ghost ex = pick_rows(rv, run@).map_values(|r: RowView| expand_spec(r, grid_width));
    let headers = expand_html_row(&rows[run[0]], grid_width);
    assert(texts_view(headers@) == ex[0]);
    let mut data: Vec<Vec<Vec<char>>> = Vec::new();
    let mut k: usize = 1;
    while k < run.len()
        invariant
            1 <= k <= run@.len(),
            rv == rows_view(rows@),
            ex == pick_rows(rv, run@).map_values(|r: RowView| expand_spec(r, grid_width)),
            forall|m: int| 0 <= m < run@.len() ==> (#[trigger] run@[m]) < rows@.len(),
            text_rows_view(data@) == ex.skip(1).take(k - 1),
        decreases run.len() - k,
    {
        let row = expand_html_row(&rows[run[k]], grid_width);
        let ghost before = text_rows_view(data@);
        data.push(row);
        assert(text_rows_view(data@) =~= before.push(texts_view(row@)));
        assert(ex.skip(1).take(k as int) =~= ex.skip(1).take(k - 1).push(ex[k as int]));
        k = k + 1;
    }
    assert(ex.skip(1).take(run.len() - 1) =~= ex.skip(1));
    if plain {
        build_table_plain(headers.as_slice(), data.as_slice())
    } else {
        build_table(headers.as_slice(), data.as_slice())
    }
}

/// The texts of a row's cells.
pub open spec fn contents(cells: Seq<CellView>) -> Seq<Seq<char>> {
    cells.map_values(|c: CellView| c.content)
}

fn row_contents(row: &HtmlRow) -> (r: Vec<Vec<char>>)
    ensures
        texts_view(r@) == contents(row@.cells),
{
    let mut r: Vec<Vec<char>> = Vec::new();
    for i in 0..row.cells.len()
        invariant
            texts_view(r@) == contents(row@.cells.take(i as int)),
    {
        let c = &row.cells[i];
        let t = slice_chars(c.content.as_slice(), 0, c.content.len());
        assert(t@ =~= c@.content);
        let ghost before = texts_view(r@);
        r.push(t);
        assert(texts_view(r@) =~= before.push(c@.content));
        assert(contents(row@.cells.take(i + 1)) =~= contents(row@.cells.take(i as int)).push(
            c@.content,
        ));
    }
    assert(row@.cells.take(row.cells.len() as int) =~= row@.cells);
    r
}

/// The first row, from index `i` on, that came from `<thead>`.
pub open spec fn header_from(rows: Seq<RowView>, i: int) -> Option<int>
    decreases rows.len() - i,
{
    if i < 0 || i >= rows.len() {
        None
    } else if rows[i].is_header_row {
        Some(i)
    } else {
        header_from(rows, i + 1)
    }
}

/// The rows that did not come from `<thead>`, in order.
pub open spec fn non_header_rows(rows: Seq<RowView>) -> Seq<RowView>
    decreases rows.len(),
{
    if rows.len() == 0 {
        Seq::empty()
    } else if rows.last().is_header_row {
        non_header_rows(rows.drop_last())
    } else {
        non_header_rows(rows.drop_last()).push(rows.last())
    }
}

/// A simple table: the first `<thead>` row (or else the first row) is the
/// header, the other rows are data.
pub open spec fn simple_spec(rows: Seq<RowView>, plain: bool) -> Seq<char> {
    let (h, data) = match header_from(rows, 0) {
        Some(i) => (rows[i], non_header_rows(rows)),
        None => (rows[0], rows.skip(1)),
    };
    let headers = contents(h.cells);
    let drows = data.map_values(|r: RowView| contents(r.cells));
    if plain {
        table_plain_spec(headers, drows)
    } else {
        table_md_spec(headers, drows)
    }
}

/// `s` without trailing colons.
pub open spec fn trim_end_colons(s: Seq<char>) -> Seq<char>
    decreases s.len(),
{
    if s.len() > 0 && s.last() == ':' {
        trim_end_colons(s.drop_last())
    } else {
        s
    }
}

/// A banner row linearized: a paragraph of its text (plain), a heading when
/// the cell held one, or else a bold paragraph. An empty banner gives nothing.
pub open spec fn banner_piece(row: RowView, plain: bool) -> Seq<char> {
    let cell = row.cells[0];
    let text = trim(cell.content);
    if text.len() == 0 {
        Seq::empty()
    } else if plain {
        text + "\n\n"@
    } else if cell.has_heading {
        heading_spec(cell.heading_level, text) + "\n"@
    } else {
        "**"@ + text + "**\n\n"@
    }
}

/// A label/value row linearized: `**Label:** value` (Markdown), or the
/// label and the value on lines of their own (plain).
pub open spec fn label_value_piece(row: RowView, plain: bool) -> Seq<char> {
    let label = trim_end_colons(trim(row.cells[0].content));
    let value = trim(row.cells[1].content);
    if plain {
        label + "\n"@ + (if value.len() > 0 {
            value + "\n"@
        } else {
            Seq::empty()
        }) + "\n"@
    } else {
        "**"@ + label + ":** "@ + value + "\n\n"@
    }
}

/// An irregular row rendered as a standalone header-only table.
pub open spec fn fallback_piece(row: RowView, plain: bool) -> Seq<char> {
    let texts = contents(row.cells);
    (if plain {
        table_plain_spec(texts, Seq::empty())
    } else {
        table_md_spec(texts, Seq::empty())
    }) + "\n"@
}

/// `out` followed by the pending grid run, if any.
pub open spec fn flush_run(out: Seq<char>, run: Seq<RowView>, gw: usize, plain: bool) -> Seq<char> {
    if run.len() == 0 {
        out
    } else {
        out + render_grid_spec(run, gw, plain) + "\n"@
    }
}

/// One row of the linearized rendering: tiling rows join the pending grid
/// run; any other row first flushes the run, then adds its own piece.
pub open spec fn hybrid_step(
    acc: (Seq<char>, Seq<RowView>),
    row: RowView,
    gw: usize,
    plain: bool,
) -> (Seq<char>, Seq<RowView>) {
    match classify(row, gw) {
        HtmlRowKind::Tiling => (acc.0, acc.1.push(row)),
        HtmlRowKind::Banner => (
            flush_run(acc.0, acc.1, gw, plain) + banner_piece(row, plain),
            Seq::empty(),
        ),
        HtmlRowKind::LabelValue => (
            flush_run(acc.0, acc.1, gw, plain) + label_value_piece(row, plain),
            Seq::empty(),
        ),
        HtmlRowKind::Fallback => (
            flush_run(acc.0, acc.1, gw, plain) + fallback_piece(row, plain),
            Seq::empty(),
        ),
    }
}

/// The linearized rendering of `rows` so far: output and pending grid run.
pub open spec fn hybrid_fold(rows: Seq<RowView>, gw: usize, plain: bool) -> (
    Seq<char>,
    Seq<RowView>,
)
    decreases rows.len(),
{
    if rows.len() == 0 {
        (Seq::empty(), Seq::empty())
    } else {
        hybrid_step(hybrid_fold(rows.drop_last(), gw, plain), rows.last(), gw, plain)
    }
}

/// The linearized rendering of a layout table.
pub open spec fn hybrid_spec(rows: Seq<RowView>, gw: usize, plain: bool) -> Seq<char> {
    let f = hybrid_fold(rows, gw, plain);
    flush_run(f.0, f.1, gw, plain)
}

/// The rendering of normalized rows.
pub open spec fn render_rows_spec(rows: Seq<RowView>, plain: bool) -> Seq<char> {
    if rows.len() == 0 {
        Seq::empty()
    } else if grid_width(rows) == 0 {
        Seq::empty()
    } else if is_simple(rows) {
        simple_spec(rows, plain)
    } else {
        hybrid_spec(rows, grid_width(rows), plain)
    }
}

/// The rendering of a collected table.
pub open spec fn render_table_spec(t: TableView, plain: bool) -> Seq<char> {
    render_rows_spec(normalize_spec(t.rows), plain)
}

fn render_simple(rows: &Vec<HtmlRow>, plain: bool) -> (r: Vec<char>)
    requires
        rows@.len() > 0,
    ensures
        r@ == simple_spec(rows_view(rows@), plain),
{
    let ghost rv = rows_view(rows@);
    let mut idx: usize = 0;
    while idx < rows.len() && !rows[idx].is_header_row
        invariant
            idx <= rows@.len(),
            rv == rows_view(rows@),
            header_from(rv, 0) == header_from(rv, idx as int),
        decreases rows.len() - idx,
    {
        assert(rv[idx as int] == rows@[idx as int]@);
        idx = idx + 1;
    }
    let found = idx < rows.len();
    if found {
        assert(rv[idx as int] == rows@[idx as int]@);
    }
    let mut data: Vec<Vec<Vec<char>>> = Vec::new();
    let headers;
    if found {
        assert(header_from(rv, 0) == Some(idx as int));
        headers = row_contents(&rows[idx]);
        for i in 0..rows.len()
            invariant
                rv == rows_view(rows@),
                text_rows_view(data@) == non_header_rows(rv.take(i as int)).map_values(
                    |r: RowView| contents(r.cells),
                ),
        {
            let ghost t = rv.take(i + 1);
            assert(t.drop_last() =~= rv.take(i as int));
            assert(t.last() == rows@[i as int]@);
            let ghost before = text_rows_view(data@);
            if !rows[i].is_header_row {
                let c = row_contents(&rows[i]);
                data.push(c);
                assert(text_rows_view(data@) =~= before.push(texts_view(c@)));
                assert(non_header_rows(t).map_values(|r: RowView| contents(r.cells))
                    =~= non_header_rows(rv.take(i as int)).map_values(
                    |r: RowView| contents(r.cells),
                ).push(contents(rows@[i as int]@.cells)));
            }
        }
        assert(rv.take(rows.len() as int) =~= rv);
    } else {
        assert(header_from(rv, 0) is None);
        headers = row_contents(&rows[0]);
        for i in 1..rows.len()
            invariant
                rv == rows_view(rows@),
                rows@.len() > 0,
                text_rows_view(data@) == rv.skip(1).take(i - 1).map_values(
                    |r: RowView| contents(r.cells),
                ),
        {
            let c = row_contents(&rows[i]);
            let ghost before = text_rows_view(data@);
            data.push(c);
            assert(text_rows_view(data@) =~= before.push(texts_view(c@)));
            assert(rv.skip(1).take(i as int).map_values(|r: RowView| contents(r.cells))
                =~= rv.skip(1).take(i - 1).map_values(|r: RowView| contents(r.cells)).push(
                contents(rows@[i as int]@.cells),
            ));
        }
        assert(rv.skip(1).take(rows.len() - 1) =~= rv.skip(1));
    }
    if plain {
        build_table_plain(headers.as_slice(), data.as_slice())
    } else {
        build_table(headers.as_slice(), data.as_slice())
    }
}

fn trimmed_colons(s: &Vec<char>) -> (r: Vec<char>)
    ensures
        r@ == trim_end_colons(s@),
{
    let mut n = s.len();
    assert(s@.take(n as int) =~= s@);
    while n > 0 && s[n - 1] == ':'
        invariant
            n <= s@.len(),
            trim_end_colons(s@) == trim_end_colons(s@.take(n as int)),
        decreases n,
    {
        assert(s@.take(n as int).drop_last() =~= s@.take(n - 1));
        n = n - 1;
    }
    let r = slice_chars(s.as_slice(), 0, n);
    assert(r@ =~= s@.take(n as int));
    r
}

fn push_banner(out: &mut Vec<char>, row: &HtmlRow, plain: bool)
    requires
        row@.cells.len() == 1,
    ensures
        final(out)@ == old(out)@ + banner_piece(row@, plain),
{
    let cell = &row.cells[0];
    assert(row@.cells[0] == cell@);
    let text = trimmed(cell.content.as_slice());
    if text.len() == 0 {
        assert(old(out)@ + banner_piece(row@, plain) =~= old(out)@);
        return;
    }
    if plain {
        push_chars(out, text.as_slice());
        push_str_chars(out, "\n\n");
    } else if cell.has_heading {
        push_heading(out, cell.heading_level, text.as_slice());
        push_str_chars(out, "\n");
    } else {
        push_str_chars(out, "**");
        push_chars(out, text.as_slice());
        push_str_chars(out, "**\n\n");
    }
    assert(final(out)@ =~= old(out)@ + banner_piece(row@, plain));
}

fn push_label_value(out: &mut Vec<char>, row: &HtmlRow, plain: bool)
    requires
        row@.cells.len() == 2,
    ensures
        final(out)@ == old(out)@ + label_value_piece(row@, plain),
{
    assert(row@.cells[0] == row.cells[0]@);
    assert(row@.cells[1] == row.cells[1]@);
    let l0 = trimmed(row.cells[0].content.as_slice());
    let label = trimmed_colons(&l0);
    let value = trimmed(row.cells[1].content.as_slice());
    if plain {
        push_chars(out, label.as_slice());
        push_str_chars(out, "\n");
        if value.len() > 0 {
            push_chars(out, value.as_slice());
            push_str_chars(out, "\n");
        }
        push_str_chars(out, "\n");
    } else {
        push_str_chars(out, "**");
        push_chars(out, label.as_slice());
        push_str_chars(out, ":** ");
        push_chars(out, value.as_slice());
        push_str_chars(out, "\n\n");
    }
    assert(final(out)@ =~= old(out)@ + label_value_piece(row@, plain));
}

fn push_fallback(out: &mut Vec<char>, row: &HtmlRow, plain: bool)
    ensures
        final(out)@ == old(out)@ + fallback_piece(row@, plain),
{
    let texts = row_contents(row);
    let none: Vec<Vec<Vec<char>>> = Vec::new();
    assert(text_rows_view(none@) =~= Seq::<Seq<Seq<char>>>::empty());
    let t = if plain {
        build_table_plain(texts.as_slice(), none.as_slice())
    } else {
        build_table(texts.as_slice(), none.as_slice())
    };
    push_chars(out, t.as_slice());
    push_str_chars(out, "\n");
    assert(final(out)@ =~= old(out)@ + fallback_piece(row@, plain));
}

fn flush_grid(
    out: &mut Vec<char>,
    run: &mut Vec<usize>,
    rows: &Vec<HtmlRow>,
    grid_width: usize,
    plain: bool,
)
    requires
        forall|k: int| 0 <= k < old(run)@.len() ==> (#[trigger] old(run)@[k]) < rows@.len(),
    ensures
        final(out)@ == flush_run(
            old(out)@,
            pick_rows(rows_view(rows@), old(run)@),
            grid_width,
            plain,
        ),
        final(run)@.len() == 0,
{
    if run.len() > 0 {
        let g = render_html_grid(rows.as_slice(), run.as_slice(), grid_width, plain);
        push_chars(out, g.as_slice());
        push_str_chars(out, "\n");
        run.clear();
    }
}

fn render_hybrid(rows: &Vec<HtmlRow>, grid_width: usize, plain: bool) -> (r: Vec<char>)
    ensures
        r@ == hybrid_spec(rows_view(rows@), grid_width, plain),
{
    let ghost rv = rows_view(rows@);
    let mut out: Vec<char> = Vec::new();
    let mut run: Vec<usize> = Vec::new();
    for i in 0..rows.len()
        invariant
            rv == rows_view(rows@),
            forall|k: int| 0 <= k < run@.len() ==> (#[trigger] run@[k]) < i,
            (out@, pick_rows(rv, run@)) == hybrid_fold(rv.take(i as int), grid_width, plain),
    {
        let row = &rows[i];
        let ghost t = rv.take(i + 1);
        assert(t.drop_last() =~= rv.take(i as int));
        assert(t.last() == row@);
        let ghost acc = hybrid_fold(rv.take(i as int), grid_width, plain);
        match classify_html_row(row, grid_width) {
            HtmlRowKind::Tiling => {
                let ghost before = run@;
                run.push(i);
                assert(pick_rows(rv, run@) =~= pick_rows(rv, before).push(rv[i as int]));
            },
            HtmlRowKind::Banner => {
                flush_grid(&mut out, &mut run, rows, grid_width, plain);
                push_banner(&mut out, row, plain);
                assert(pick_rows(rv, run@) =~= Seq::<RowView>::empty());
            },
            HtmlRowKind::LabelValue => {
                flush_grid(&mut out, &mut run, rows, grid_width, plain);
                push_label_value(&mut out, row, plain);
                assert(pick_rows(rv, run@) =~= Seq::<RowView>::empty());
            },
            HtmlRowKind::Fallback => {
                flush_grid(&mut out, &mut run, rows, grid_width, plain);
                push_fallback(&mut out, row, plain);
                assert(pick_rows(rv, run@) =~= Seq::<RowView>::empty());
            },
        }
    }
    assert(rv.take(rows.len() as int) =~= rv);
    flush_grid(&mut out, &mut run, rows, grid_width, plain);
    out
}

/// Render the normalized rows of a table.
pub fn render_rows(rows: &Vec<HtmlRow>, plain: bool) -> (r: Vec<char>)
    ensures
        r@ == render_rows_spec(rows_view(rows@), plain),
{
    if rows.len() == 0 {
        return Vec::new();
    }
    let grid_width = html_grid_width(rows.as_slice());
    if grid_width == 0 {
        return Vec::new();
    }
    if html_table_is_simple(rows.as_slice()) {
        render_simple(rows, plain)
    } else {
        render_hybrid(rows, grid_width, plain)
    }
}

/// Render a completed table collector into a table string.
///
/// Simple tables use the GFM path. Spanned/layout tables are linearized:
/// banner rows become headings/bold paragraphs, label/value rows become
/// `**Label:** value`, contiguous tiling rows become GFM tables, and
/// irregular rows become small standalone tables. When `plain` is true the
/// linearized parts flatten fully and grid parts stay tab-separated.
pub fn render_table(tc: &TableCollector, plain: bool) -> (r: Vec<char>)
    ensures
        r@ == render_table_spec(tc@, plain),
{
    let rows = normalize_html_rowspans(tc.rows.as_slice());
    render_rows(&rows, plain)
}

// ---------------------------------------------------------------------------
// Laws
// ---------------------------------------------------------------------------

proof fn lemma_lay_out_rowspan_one(p: Seq<(usize, usize)>, cells: Seq<CellView>, col: usize)
    ensures
        forall|k: int|
            0 <= k < lay_out(p, cells, col).0.len() ==> (#[trigger] lay_out(p, cells, col).0[k]).rowspan
                == 1,
    decreases cells.len(), usize::MAX - col,
{
    let r = lay_out(p, cells, col);
    if covered(p, col) && col < usize::MAX {
        lemma_lay_out_rowspan_one(p, cells, (col + 1) as usize);
        let q = lay_out(p, cells, (col + 1) as usize);
        assert forall|k: int| 0 <= k < r.0.len() implies (#[trigger] r.0[k]).rowspan == 1 by {
            if k > 0 {
                assert(r.0[k] == q.0[k - 1]);
            }
        }
    } else if cells.len() > 0 {
        let span = max1(cells[0].colspan);
        lemma_lay_out_rowspan_one(p, cells.drop_first(), sat_add(col, span));
        let q = lay_out(p, cells.drop_first(), sat_add(col, span));
        assert forall|k: int| 0 <= k < r.0.len() implies (#[trigger] r.0[k]).rowspan == 1 by {
            if k > 0 {
                assert(r.0[k] == q.0[k - 1]);
            }
        }
    }
}

proof fn lemma_normalize_from_shape(rows: Seq<RowView>, p: Seq<(usize, usize)>)
    ensures
        normalize_from(rows, p).len() == rows.len(),
        forall|i: int|
            0 <= i < rows.len() ==> (#[trigger] normalize_from(rows, p)[i]).is_header_row
                == rows[i].is_header_row,
        forall|i: int, j: int|
            0 <= i < rows.len() && 0 <= j < normalize_from(rows, p)[i].cells.len() ==> (
            #[trigger] normalize_from(rows, p)[i].cells[j]).rowspan == 1,
    decreases rows.len(),
{
    if rows.len() > 0 {
        let lo = lay_out(p, rows[0].cells, 0);
        let np = age_spans(p) + lo.1;
        lemma_normalize_from_shape(rows.drop_first(), np);
        lemma_lay_out_rowspan_one(p, rows[0].cells, 0);
        let out = normalize_from(rows, p);
        let rest = normalize_from(rows.drop_first(), np);
        assert forall|i: int| 0 <= i < rows.len() implies (#[trigger] out[i]).is_header_row
            == rows[i].is_header_row by {
            if i > 0 {
                assert(out[i] == rest[i - 1]);
                assert(rows.drop_first()[i - 1] == rows[i]);
            }
        }
        assert forall|i: int, j: int|
            0 <= i < rows.len() && 0 <= j < out[i].cells.len() implies (
            #[trigger] out[i].cells[j]).rowspan == 1 by {
            if i > 0 {
                assert(out[i] == rest[i - 1]);
            } else {
                assert(out[0].cells == lo.0);
            }
        }
    }
}

/// Rowspan normalization keeps the rows: as many rows, each with its header
/// flag, and every cell afterwards spans exactly one row.
pub proof fn normalized_rows_keep_shape(rows: Seq<RowView>)
    ensures
        normalize_spec(rows).len() == rows.len(),
        forall|i: int|
            0 <= i < rows.len() ==> (#[trigger] normalize_spec(rows)[i]).is_header_row
                == rows[i].is_header_row,
        forall|i: int, j: int|
            0 <= i < rows.len() && 0 <= j < normalize_spec(rows)[i].cells.len() ==> (
            #[trigger] normalize_spec(rows)[i].cells[j]).rowspan == 1,
{
    lemma_normalize_from_shape(rows, Seq::empty());
}

/// No cell of any row spans more than one row.
pub open spec fn no_vertical_spans(rows: Seq<RowView>) -> bool {
    forall|i: int, j: int|
        0 <= i < rows.len() && 0 <= j < rows[i].cells.len() ==> (#[trigger] rows[i].cells[j]).rowspan
            <= 1
}

/// A row with every cell's row span reset to one.
pub open spec fn row_with_rowspan_one(r: RowView) -> RowView {
    RowView { cells: r.cells.map_values(|c: CellView| with_rowspan_one(c)), ..r }
}

proof fn lemma_lay_out_without_spans(cells: Seq<CellView>, col: usize)
    requires
        forall|j: int| 0 <= j < cells.len() ==> (#[trigger] cells[j]).rowspan <= 1,
    ensures
        lay_out(Seq::empty(), cells, col) == (
            cells.map_values(|c: CellView| with_rowspan_one(c)),
            Seq::<(usize, usize)>::empty(),
        ),
    decreases cells.len(),
{
    let p = Seq::<(usize, usize)>::empty();
    assert(!covered(p, col));
    if cells.len() == 0 {
        assert(cells.map_values(|c: CellView| with_rowspan_one(c)) =~= Seq::<CellView>::empty());
    } else {
        let rest = cells.drop_first();
        assert forall|j: int| 0 <= j < rest.len() implies (#[trigger] rest[j]).rowspan <= 1 by {
            assert(rest[j] == cells[j + 1]);
        }
        let span = max1(cells[0].colspan);
        lemma_lay_out_without_spans(rest, sat_add(col, span));
        assert(cells[0].rowspan <= 1);
        assert(seq![with_rowspan_one(cells[0])] + rest.map_values(
            |c: CellView| with_rowspan_one(c),
        ) =~= cells.map_values(|c: CellView| with_rowspan_one(c)));
        assert(Seq::<(usize, usize)>::empty() + Seq::<(usize, usize)>::empty() =~= Seq::<
            (usize, usize),
        >::empty());
    }
}

proof fn lemma_normalize_without_spans(rows: Seq<RowView>)
    requires
        no_vertical_spans(rows),
    ensures
        normalize_from(rows, Seq::empty()) == rows.map_values(|r: RowView| row_with_rowspan_one(r)),
    decreases rows.len(),
{
    let p = Seq::<(usize, usize)>::empty();
    if rows.len() == 0 {
        assert(rows.map_values(|r: RowView| row_with_rowspan_one(r)) =~= Seq::<RowView>::empty());
    } else {
        let rest = rows.drop_first();
        assert forall|i: int, j: int| 0 <= i < rest.len() && 0 <= j < rest[i].cells.len() implies (
        #[trigger] rest[i].cells[j]).rowspan <= 1 by {
            assert(rest[i] == rows[i + 1]);
        }
        lemma_normalize_without_spans(rest);
        assert forall|j: int| 0 <= j < rows[0].cells.len() implies (
        #[trigger] rows[0].cells[j]).rowspan <= 1 by {
            assert(rows[0].cells[j].rowspan <= 1);
        }
        lemma_lay_out_without_spans(rows[0].cells, 0);
        assert(age_spans(p) =~= p);
        assert(age_spans(p) + p =~= p);
        assert(seq![row_with_rowspan_one(rows[0])] + rest.map_values(
            |r: RowView| row_with_rowspan_one(r),
        ) =~= rows.map_values(|r: RowView| row_with_rowspan_one(r)));
    }
}

/// A table without vertical spans gains no placeholder cells: every row keeps
/// its cells, only their row spans are reset to one.
pub proof fn rows_without_vertical_spans_are_kept(rows: Seq<RowView>)
    requires
        no_vertical_spans(rows),
    ensures
        normalize_spec(rows) == rows.map_values(|r: RowView| row_with_rowspan_one(r)),
{
    lemma_normalize_without_spans(rows);
}

/// The vertical spans pending when row `j` is laid out: those started by
/// the rows above and not yet exhausted, as `(column, rows still covered)`.
pub open spec fn pending_at(rows: Seq<RowView>, j: int) -> Seq<(usize, usize)>
    decreases j,
{
    if j <= 0 {
        Seq::empty()
    } else {
        let p = pending_at(rows, j - 1);
        age_spans(p) + lay_out(p, rows[j - 1].cells, 0).1
    }
}

/// The columns at which [`lay_out`] puts placeholders, in order.
pub open spec fn placeholder_cols(pending: Seq<(usize, usize)>, cells: Seq<CellView>, col: usize) -> Seq<
    usize,
>
    decreases cells.len(), usize::MAX - col,
{
    if covered(pending, col) && col < usize::MAX {
        seq![col] + placeholder_cols(pending, cells, (col + 1) as usize)
    } else if cells.len() == 0 {
        Seq::empty()
    } else {
        placeholder_cols(pending, cells.drop_first(), sat_add(col, max1(cells[0].colspan)))
    }
}

/// The column at which [`lay_out`] puts cell `m` of `cells`.
pub open spec fn cell_col(pending: Seq<(usize, usize)>, cells: Seq<CellView>, col: usize, m: int) -> usize
    decreases cells.len(), usize::MAX - col,
{
    if covered(pending, col) && col < usize::MAX {
        cell_col(pending, cells, (col + 1) as usize, m)
    } else if cells.len() == 0 || m <= 0 {
        col
    } else {
        cell_col(pending, cells.drop_first(), sat_add(col, max1(cells[0].colspan)), m - 1)
    }
}

/// Column `c` lies under cell `m` of row `i`: the cell starts at its laid-out
/// column, `c` is its `k`-th spanned column, and its row span reaches past
/// row `j`.
pub open spec fn spanned_from(rows: Seq<RowView>, i: int, m: int, k: int, j: int, c: usize) -> bool {
    &&& 0 <= i < j
    &&& 0 <= m < rows[i].cells.len()
    &&& j < i + rows[i].cells[m].rowspan
    &&& 0 <= k < max1(rows[i].cells[m].colspan)
    &&& c == sat_add(cell_col(pending_at(rows, i), rows[i].cells, 0, m), k as usize)
}

/// Column `c` of row `j` lies under a cell of an earlier row whose row span
/// reaches past row `j`.
pub open spec fn under_vertical_span(rows: Seq<RowView>, j: int, c: usize) -> bool {
    exists|i: int, m: int, k: int| #[trigger] spanned_from(rows, i, m, k, j, c)
}

/// Entry `e` of the spans a row starts comes from one of its cells.
pub open spec fn started_by_some(p: Seq<(usize, usize)>, cells: Seq<CellView>, col: usize, e: (usize, usize)) -> bool {
    exists|m: int, k: int| #[trigger] started_by(p, cells, col, m, k, e)
}

/// Entry `e` of the spans a row starts comes from its cell `m`, column `k`.
pub open spec fn started_by(
    p: Seq<(usize, usize)>,
    cells: Seq<CellView>,
    col: usize,
    m: int,
    k: int,
    e: (usize, usize),
) -> bool {
    &&& 0 <= m < cells.len()
    &&& cells[m].rowspan > 1
    &&& 0 <= k < max1(cells[m].colspan)
    &&& e.0 == sat_add(cell_col(p, cells, col, m), k as usize)
    &&& e.1 == cells[m].rowspan - 1
}

proof fn lemma_lay_out_span_origin(p: Seq<(usize, usize)>, cells: Seq<CellView>, col: usize)
    ensures
        forall|x: int|
            0 <= x < lay_out(p, cells, col).1.len() ==> started_by_some(
                p,
                cells,
                col,
                #[trigger] lay_out(p, cells, col).1[x],
            ),
    decreases cells.len(), usize::MAX - col,
{
    let lo = lay_out(p, cells, col);
    if covered(p, col) && col < usize::MAX {
        let c1 = (col + 1) as usize;
        lemma_lay_out_span_origin(p, cells, c1);
        assert forall|x: int| 0 <= x < lay_out(p, cells, col).1.len() implies started_by_some(
            p,
            cells,
            col,
            #[trigger] lay_out(p, cells, col).1[x],
        ) by {
            let e = lo.1[x];
            assert(lo.1 == lay_out(p, cells, c1).1);
            assert(e == lay_out(p, cells, c1).1[x]);
            assert(started_by_some(p, cells, c1, lay_out(p, cells, c1).1[x]));
            let (m, k) = choose|m: int, k: int| #[trigger] started_by(p, cells, c1, m, k, e);
            assert(cell_col(p, cells, col, m) == cell_col(p, cells, c1, m));
            assert(started_by(p, cells, col, m, k, e));
            assert(started_by_some(p, cells, col, e));
        }
    } else if cells.len() == 0 {
    } else {
        let c = cells[0];
        let span = max1(c.colspan);
        let mine = if c.rowspan > 1 {
            span_entries(col, span, c.rowspan)
        } else {
            Seq::empty()
        };
        let rest = cells.drop_first();
        let c2 = sat_add(col, span);
        let r = lay_out(p, rest, c2);
        assert(lo.1 == mine + r.1);
        lemma_lay_out_span_origin(p, rest, c2);
        assert forall|x: int| 0 <= x < lay_out(p, cells, col).1.len() implies started_by_some(
            p,
            cells,
            col,
            #[trigger] lay_out(p, cells, col).1[x],
        ) by {
            let e = lo.1[x];
            if x < mine.len() {
                assert(e == mine[x]);
                assert(cell_col(p, cells, col, 0) == col);
                assert(started_by(p, cells, col, 0, x, e));
                assert(started_by_some(p, cells, col, e));
            } else {
                assert(e == r.1[x - mine.len()]);
                assert(started_by_some(p, rest, c2, r.1[x - mine.len()]));
                let (m, k) = choose|m: int, k: int| #[trigger] started_by(p, rest, c2, m, k, e);
                assert(cells[m + 1] == rest[m]);
                assert(cell_col(p, cells, col, m + 1) == cell_col(p, rest, c2, m));
                assert(started_by(p, cells, col, m + 1, k, e));
                assert(started_by_some(p, cells, col, e));
            }
        }
    }
}

proof fn lemma_age_spans_origin(p: Seq<(usize, usize)>)
    ensures
        forall|x: int|
            0 <= x < age_spans(p).len() ==> #[trigger] age_spans(p)[x].1 >= 1 && exists|y: int|
                0 <= y < p.len() && p[y].0 == age_spans(p)[x].0 && p[y].1 == age_spans(p)[x].1 + 1,
    decreases p.len(),
{
    if p.len() > 0 {
        let q = p.drop_last();
        lemma_age_spans_origin(q);
        let a = age_spans(p);
        assert forall|x: int| 0 <= x < a.len() implies #[trigger] a[x].1 >= 1 && exists|y: int|
            0 <= y < p.len() && p[y].0 == a[x].0 && p[y].1 == a[x].1 + 1 by {
            if x < age_spans(q).len() {
                assert(a[x] == age_spans(q)[x]);
                let y = choose|y: int|
                    0 <= y < q.len() && q[y].0 == age_spans(q)[x].0 && q[y].1 == age_spans(q)[x].1 + 1;
                assert(p[y] == q[y]);
            } else {
                assert(p[p.len() - 1] == p.last());
            }
        }
    }
}

proof fn lemma_pending_origin(rows: Seq<RowView>, j: int)
    requires
        0 <= j <= rows.len(),
    ensures
        forall|x: int|
            0 <= x < pending_at(rows, j).len() ==> #[trigger] pending_at(rows, j)[x].1 >= 1
                && exists|i: int, m: int, k: int|
                #[trigger] spanned_from(rows, i, m, k, j, pending_at(rows, j)[x].0)
                    && pending_at(rows, j)[x].1 == i + rows[i].cells[m].rowspan - j,
    decreases j,
{
    if j > 0 {
        lemma_pending_origin(rows, j - 1);
        let p = pending_at(rows, j - 1);
        let ag = age_spans(p);
        let lo = lay_out(p, rows[j - 1].cells, 0);
        let pj = pending_at(rows, j);
        assert(pj == ag + lo.1);
        lemma_age_spans_origin(p);
        lemma_lay_out_span_origin(p, rows[j - 1].cells, 0);
        assert forall|x: int| 0 <= x < pj.len() implies #[trigger] pj[x].1 >= 1 && exists|
            i: int,
            m: int,
            k: int,
        | #[trigger] spanned_from(rows, i, m, k, j, pj[x].0) && pj[x].1 == i + rows[i].cells[m].rowspan
            - j by {
            let e = pj[x];
            if x < ag.len() {
                assert(e == ag[x]);
                assert(ag[x].1 >= 1);
                let y = choose|y: int| 0 <= y < p.len() && p[y].0 == ag[x].0 && p[y].1 == ag[x].1 + 1;
                assert(p[y].1 >= 1);
                let (i, m, k) = choose|i: int, m: int, k: int|
                    #[trigger] spanned_from(rows, i, m, k, j - 1, p[y].0) && p[y].1 == i
                        + rows[i].cells[m].rowspan - (j - 1);
                assert(spanned_from(rows, i, m, k, j, e.0));
            } else {
                assert(e == lo.1[x - ag.len()]);
                assert(started_by_some(p, rows[j - 1].cells, 0, lo.1[x - ag.len()]));
                let (m, k) = choose|m: int, k: int|
                    #[trigger] started_by(p, rows[j - 1].cells, 0, m, k, e);
                assert(spanned_from(rows, j - 1, m, k, j, e.0));
            }
        }
    }
}

proof fn lemma_placeholder_cols_covered(p: Seq<(usize, usize)>, cells: Seq<CellView>, col: usize)
    ensures
        forall|x: int|
            0 <= x < placeholder_cols(p, cells, col).len() ==> covered(
                p,
                #[trigger] placeholder_cols(p, cells, col)[x],
            ),
        lay_out(p, cells, col).0.len() == cells.len() + placeholder_cols(p, cells, col).len(),
    decreases cells.len(), usize::MAX - col,
{
    let pc = placeholder_cols(p, cells, col);
    if covered(p, col) && col < usize::MAX {
        let c1 = (col + 1) as usize;
        lemma_placeholder_cols_covered(p, cells, c1);
        assert forall|x: int| 0 <= x < pc.len() implies covered(p, #[trigger] pc[x]) by {
            if x > 0 {
                assert(pc[x] == placeholder_cols(p, cells, c1)[x - 1]);
            }
        }
    } else if cells.len() > 0 {
        let c2 = sat_add(col, max1(cells[0].colspan));
        lemma_placeholder_cols_covered(p, cells.drop_first(), c2);
    }
}

proof fn lemma_normalize_suffix(rows: Seq<RowView>, j: int)
    requires
        0 <= j <= rows.len(),
    ensures
        normalize_spec(rows).skip(j) == normalize_from(rows.skip(j), pending_at(rows, j)),
    decreases j,
{
    if j == 0 {
        assert(rows.skip(0) =~= rows);
        assert(normalize_spec(rows).skip(0) =~= normalize_spec(rows));
    } else {
        lemma_normalize_suffix(rows, j - 1);
        lemma_normalize_from_shape(rows, Seq::empty());
        let p = pending_at(rows, j - 1);
        let s = rows.skip(j - 1);
        assert(s[0] == rows[j - 1]);
        assert(s.drop_first() =~= rows.skip(j));
        let nf = normalize_from(s, p);
        assert(nf.drop_first() == normalize_from(rows.skip(j), pending_at(rows, j)));
        assert(normalize_spec(rows).skip(j) =~= normalize_spec(rows).skip(j - 1).drop_first());
    }
}

/// Which cells [`lay_out`] inserts as placeholders (`true`) and which it
/// takes from the row (`false`), in output order.
pub open spec fn inserted(pending: Seq<(usize, usize)>, cells: Seq<CellView>, col: usize) -> Seq<bool>
    decreases cells.len(), usize::MAX - col,
{
    if covered(pending, col) && col < usize::MAX {
        seq![true] + inserted(pending, cells, (col + 1) as usize)
    } else if cells.len() == 0 {
        Seq::empty()
    } else {
        seq![false] + inserted(pending, cells.drop_first(), sat_add(col, max1(cells[0].colspan)))
    }
}

/// The cells of `out` not marked in `marks`, in order.
pub open spec fn unmarked(out: Seq<CellView>, marks: Seq<bool>) -> Seq<CellView>
    decreases out.len(),
{
    if out.len() == 0 || marks.len() == 0 {
        Seq::empty()
    } else if marks[0] {
        unmarked(out.drop_first(), marks.drop_first())
    } else {
        seq![out[0]] + unmarked(out.drop_first(), marks.drop_first())
    }
}

proof fn lemma_lay_out_keeps_cells(p: Seq<(usize, usize)>, cells: Seq<CellView>, col: usize)
    ensures
        inserted(p, cells, col).len() == lay_out(p, cells, col).0.len(),
        forall|i: int|
            0 <= i < lay_out(p, cells, col).0.len() && #[trigger] inserted(p, cells, col)[i]
                ==> lay_out(p, cells, col).0[i] == placeholder(),
        unmarked(lay_out(p, cells, col).0, inserted(p, cells, col)) == cells.map_values(
            |c: CellView| with_rowspan_one(c),
        ),
    decreases cells.len(), usize::MAX - col,
{
    let out = lay_out(p, cells, col).0;
    let mk = inserted(p, cells, col);
    if covered(p, col) && col < usize::MAX {
        let c1 = (col + 1) as usize;
        lemma_lay_out_keeps_cells(p, cells, c1);
        let ro = lay_out(p, cells, c1).0;
        let rm = inserted(p, cells, c1);
        assert(out.drop_first() =~= ro);
        assert(mk.drop_first() =~= rm);
        assert forall|i: int| 0 <= i < out.len() && #[trigger] mk[i] implies out[i] == placeholder() by {
            if i > 0 {
                assert(mk[i] == rm[i - 1] && out[i] == ro[i - 1]);
            }
        }
    } else if cells.len() == 0 {
        assert(cells.map_values(|c: CellView| with_rowspan_one(c)) =~= Seq::<CellView>::empty());
    } else {
        let rest = cells.drop_first();
        let c2 = sat_add(col, max1(cells[0].colspan));
        lemma_lay_out_keeps_cells(p, rest, c2);
        let ro = lay_out(p, rest, c2).0;
        let rm = inserted(p, rest, c2);
        assert(out.drop_first() =~= ro);
        assert(mk.drop_first() =~= rm);
        assert forall|i: int| 0 <= i < out.len() && #[trigger] mk[i] implies out[i] == placeholder() by {
            if i > 0 {
                assert(mk[i] == rm[i - 1] && out[i] == ro[i - 1]);
            }
        }
        assert(seq![with_rowspan_one(cells[0])] + rest.map_values(|c: CellView| with_rowspan_one(c))
            =~= cells.map_values(|c: CellView| with_rowspan_one(c)));
    }
}

/// Rowspan normalization keeps each row's own cells: leaving out the cells
/// it inserted, row `j` of the result is row `j`'s cells in order (each with
/// row span one), and every inserted cell is an empty placeholder.
pub proof fn normalized_rows_keep_own_cells(rows: Seq<RowView>, j: int)
    requires
        0 <= j < rows.len(),
    ensures
        inserted(pending_at(rows, j), rows[j].cells, 0).len() == normalize_spec(rows)[j].cells.len(),
        forall|i: int|
            0 <= i < normalize_spec(rows)[j].cells.len() && #[trigger] inserted(
                pending_at(rows, j),
                rows[j].cells,
                0,
            )[i] ==> normalize_spec(rows)[j].cells[i] == placeholder(),
        unmarked(normalize_spec(rows)[j].cells, inserted(pending_at(rows, j), rows[j].cells, 0))
            == rows[j].cells.map_values(|c: CellView| with_rowspan_one(c)),
{
    placeholders_sit_under_vertical_spans(rows, j);
    lemma_lay_out_keeps_cells(pending_at(rows, j), rows[j].cells, 0);
}

/// Rowspan normalization puts a placeholder only under a vertical span. Row
/// `j` of the result is row `j` laid out against the spans pending from the
/// rows above; it holds the row's cells plus one placeholder per column of
/// [`placeholder_cols`]; and each such column lies under a cell `m` of an
/// earlier row `i` whose row span reaches past row `j` (`i < j < i +
/// rowspan`), as its `k`-th spanned column.
pub proof fn placeholders_sit_under_vertical_spans(rows: Seq<RowView>, j: int)
    requires
        0 <= j < rows.len(),
    ensures
        normalize_spec(rows)[j] == (RowView {
            cells: lay_out(pending_at(rows, j), rows[j].cells, 0).0,
            is_header_row: rows[j].is_header_row,
        }),
        normalize_spec(rows)[j].cells.len() == rows[j].cells.len() + placeholder_cols(
            pending_at(rows, j),
            rows[j].cells,
            0,
        ).len(),
        forall|x: int|
            0 <= x < placeholder_cols(pending_at(rows, j), rows[j].cells, 0).len() ==> under_vertical_span(
                rows,
                j,
                #[trigger] placeholder_cols(pending_at(rows, j), rows[j].cells, 0)[x],
            ),
{
    let pj = pending_at(rows, j);
    let pc = placeholder_cols(pj, rows[j].cells, 0);
    lemma_normalize_suffix(rows, j);
    lemma_normalize_from_shape(rows, Seq::empty());
    let s = rows.skip(j);
    assert(s[0] == rows[j]);
    assert(normalize_spec(rows)[j] == normalize_spec(rows).skip(j)[0]);
    assert(normalize_from(s, pj)[0] == (RowView {
        cells: lay_out(pj, rows[j].cells, 0).0,
        is_header_row: rows[j].is_header_row,
    }));
    lemma_placeholder_cols_covered(pj, rows[j].cells, 0);
    lemma_pending_origin(rows, j);
    assert forall|x: int| 0 <= x < pc.len() implies under_vertical_span(rows, j, #[trigger] pc[x]) by {
        assert(covered(pj, pc[x]));
        let y = choose|y: int| 0 <= y < pj.len() && (#[trigger] pj[y]).0 == pc[x];
        assert(pj[y].1 >= 1);
        let (i, m, k) = choose|i: int, m: int, k: int|
            #[trigger] spanned_from(rows, i, m, k, j, pj[y].0) && pj[y].1 == i + rows[i].cells[m].rowspan - j;
        assert(spanned_from(rows, i, m, k, j, pc[x]));
    }
}

/// No cell text contains `c`.
pub open spec fn cells_lack(cells: Seq<CellView>, c: char) -> bool {
    forall|j: int| 0 <= j < cells.len() ==> lacks(#[trigger] cells[j].content, c)
}

/// No cell text of any row contains `c`.
pub open spec fn rows_lack(rows: Seq<RowView>, c: char) -> bool {
    forall|i: int| 0 <= i < rows.len() ==> cells_lack(#[trigger] rows[i].cells, c)
}

proof fn lemma_lay_out_lacks(p: Seq<(usize, usize)>, cells: Seq<CellView>, col: usize, c: char)
    requires
        cells_lack(cells, c),
    ensures
        cells_lack(lay_out(p, cells, col).0, c),
    decreases cells.len(), usize::MAX - col,
{
    let r = lay_out(p, cells, col);
    if covered(p, col) && col < usize::MAX {
        lemma_lay_out_lacks(p, cells, (col + 1) as usize, c);
        let q = lay_out(p, cells, (col + 1) as usize);
        assert forall|j: int| 0 <= j < r.0.len() implies lacks(#[trigger] r.0[j].content, c) by {
            if j > 0 {
                assert(r.0[j] == q.0[j - 1]);
            } else {
                assert(r.0[0] == placeholder());
            }
        }
    } else if cells.len() > 0 {
        let rest = cells.drop_first();
        assert forall|j: int| 0 <= j < rest.len() implies lacks(#[trigger] rest[j].content, c) by {
            assert(rest[j] == cells[j + 1]);
        }
        let span = max1(cells[0].colspan);
        lemma_lay_out_lacks(p, rest, sat_add(col, span), c);
        let q = lay_out(p, rest, sat_add(col, span));
        assert forall|j: int| 0 <= j < r.0.len() implies lacks(#[trigger] r.0[j].content, c) by {
            if j > 0 {
                assert(r.0[j] == q.0[j - 1]);
            } else {
                assert(r.0[0].content == cells[0].content);
            }
        }
    }
}

proof fn lemma_normalize_lacks(rows: Seq<RowView>, p: Seq<(usize, usize)>, c: char)
    requires
        rows_lack(rows, c),
    ensures
        rows_lack(normalize_from(rows, p), c),
    decreases rows.len(),
{
    if rows.len() > 0 {
        let rest = rows.drop_first();
        assert forall|i: int| 0 <= i < rest.len() implies cells_lack(#[trigger] rest[i].cells, c) by {
            assert(rest[i] == rows[i + 1]);
        }
        let lo = lay_out(p, rows[0].cells, 0);
        assert(cells_lack(rows[0].cells, c));
        lemma_lay_out_lacks(p, rows[0].cells, 0, c);
        lemma_normalize_lacks(rest, age_spans(p) + lo.1, c);
        let out = normalize_from(rows, p);
        let tail = normalize_from(rest, age_spans(p) + lo.1);
        assert forall|i: int| 0 <= i < out.len() implies cells_lack(#[trigger] out[i].cells, c) by {
            if i > 0 {
                assert(out[i] == tail[i - 1]);
            }
        }
    }
}

proof fn lemma_expand_lacks(cells: Seq<CellView>, c: char)
    requires
        cells_lack(cells, c),
    ensures
        texts_lack(expand_cells(cells), c),
    decreases cells.len(),
{
    if cells.len() > 0 {
        let a = cells.drop_last();
        assert forall|j: int| 0 <= j < a.len() implies lacks(#[trigger] a[j].content, c) by {
            assert(a[j] == cells[j]);
        }
        lemma_expand_lacks(a, c);
        assert(lacks(cells[cells.len() - 1].content, c));
        lemma_lacks_trim(cells.last().content, c);
        let e = expand_cells(a).push(trim(cells.last().content));
        let f = e + empties((max1(cells.last().colspan) - 1) as nat);
        assert forall|k: int| 0 <= k < f.len() implies lacks(#[trigger] f[k], c) by {
            if k < expand_cells(a).len() {
                assert(f[k] == expand_cells(a)[k]);
            } else if k == expand_cells(a).len() {
                assert(f[k] == trim(cells.last().content));
            } else {
                assert(f[k] == Seq::<char>::empty());
            }
        }
    }
}

proof fn lemma_expand_spec_lacks(row: RowView, gw: usize, c: char)
    requires
        cells_lack(row.cells, c),
    ensures
        texts_lack(expand_spec(row, gw), c),
{
    lemma_expand_lacks(row.cells, c);
    let cols = expand_cells(row.cells);
    let f = fit_width(cols, gw);
    assert forall|k: int| 0 <= k < f.len() implies lacks(#[trigger] f[k], c) by {
        if k < cols.len() {
            assert(f[k] == cols[k]);
        } else {
            assert(f[k] == Seq::<char>::empty());
        }
    }
}

proof fn lemma_grid_plain_lacks(run: Seq<RowView>, gw: usize, c: char)
    requires
        rows_lack(run, c),
        run.len() > 0,
        c != ' ',
        c != '\t',
        c != '\n',
    ensures
        lacks(render_grid_spec(run, gw, true), c),
{
    let ex = run.map_values(|r: RowView| expand_spec(r, gw));
    assert forall|k: int| 0 <= k < ex.len() implies texts_lack(#[trigger] ex[k], c) by {
        assert(cells_lack(run[k].cells, c));
        lemma_expand_spec_lacks(run[k], gw, c);
    }
    let data = ex.skip(1);
    assert forall|r: int| 0 <= r < data.len() implies texts_lack(#[trigger] data[r], c) by {
        assert(data[r] == ex[r + 1]);
    }
    assert(texts_lack(ex[0], c));
    plain_table_adds_no_characters(ex[0], data, c);
}

proof fn lemma_contents_lack(cells: Seq<CellView>, c: char)
    requires
        cells_lack(cells, c),
    ensures
        texts_lack(contents(cells), c),
{
    assert forall|k: int| 0 <= k < contents(cells).len() implies lacks(#[trigger] contents(cells)[k], c) by {
        assert(contents(cells)[k] == cells[k].content);
    }
}

proof fn lemma_header_from_range(rows: Seq<RowView>, i: int)
    ensures
        header_from(rows, i) matches Some(k) ==> 0 <= k < rows.len(),
    decreases rows.len() - i,
{
    if 0 <= i < rows.len() && !rows[i].is_header_row {
        lemma_header_from_range(rows, i + 1);
    }
}

proof fn lemma_non_header_rows_lack(rows: Seq<RowView>, c: char)
    requires
        rows_lack(rows, c),
    ensures
        rows_lack(non_header_rows(rows), c),
    decreases rows.len(),
{
    if rows.len() > 0 {
        let a = rows.drop_last();
        assert forall|i: int| 0 <= i < a.len() implies cells_lack(#[trigger] a[i].cells, c) by {
            assert(a[i] == rows[i]);
        }
        lemma_non_header_rows_lack(a, c);
        let n = non_header_rows(a);
        if !rows.last().is_header_row {
            let m = n.push(rows.last());
            assert forall|i: int| 0 <= i < m.len() implies cells_lack(#[trigger] m[i].cells, c) by {
                if i < n.len() {
                    assert(m[i] == n[i]);
                } else {
                    assert(m[i] == rows[rows.len() - 1]);
                }
            }
        }
    }
}

proof fn lemma_simple_plain_lacks(rows: Seq<RowView>, c: char)
    requires
        rows_lack(rows, c),
        rows.len() > 0,
        c != ' ',
        c != '\t',
        c != '\n',
    ensures
        lacks(simple_spec(rows, true), c),
{
    lemma_header_from_range(rows, 0);
    let (h, data) = match header_from(rows, 0) {
        Some(i) => (rows[i], non_header_rows(rows)),
        None => (rows[0], rows.skip(1)),
    };
    assert(cells_lack(h.cells, c));
    lemma_contents_lack(h.cells, c);
    if header_from(rows, 0) is Some {
        lemma_non_header_rows_lack(rows, c);
    } else {
        assert forall|i: int| 0 <= i < data.len() implies cells_lack(#[trigger] data[i].cells, c) by {
            assert(data[i] == rows[i + 1]);
        }
    }
    let drows = data.map_values(|r: RowView| contents(r.cells));
    assert forall|r: int| 0 <= r < drows.len() implies texts_lack(#[trigger] drows[r], c) by {
        assert(cells_lack(data[r].cells, c));
        lemma_contents_lack(data[r].cells, c);
    }
    plain_table_adds_no_characters(contents(h.cells), drows, c);
}

proof fn lemma_trim_end_colons_lacks(s: Seq<char>, c: char)
    requires
        lacks(s, c),
    ensures
        lacks(trim_end_colons(s), c),
    decreases s.len(),
{
    if s.len() > 0 && s.last() == ':' {
        assert(lacks(s.drop_last(), c)) by {
            assert forall|i: int| 0 <= i < s.drop_last().len() implies #[trigger] s.drop_last()[i]
                != c by {
                assert(s.drop_last()[i] == s[i]);
            }
        }
        lemma_trim_end_colons_lacks(s.drop_last(), c);
    }
}

proof fn lemma_newlines_lack(c: char)
    requires
        c != '\n',
    ensures
        lacks("\n"@, c),
        lacks("\n\n"@, c),
{
    reveal_strlit("\n");
    reveal_strlit("\n\n");
}

proof fn lemma_piece_lacks(row: RowView, gw: usize, c: char)
    requires
        cells_lack(row.cells, c),
        c != ' ',
        c != '\t',
        c != '\n',
    ensures
        classify(row, gw) is Banner ==> lacks(banner_piece(row, true), c),
        classify(row, gw) is LabelValue ==> lacks(label_value_piece(row, true), c),
        lacks(fallback_piece(row, true), c),
{
    lemma_newlines_lack(c);
    if row.cells.len() >= 1 {
        assert(lacks(row.cells[0].content, c));
        lemma_lacks_trim(row.cells[0].content, c);
        let text = trim(row.cells[0].content);
        if text.len() > 0 {
            lemma_lacks_concat(text, "\n\n"@, c);
        }
    }
    if row.cells.len() == 2 {
        assert(lacks(row.cells[1].content, c));
        lemma_lacks_trim(row.cells[1].content, c);
        let label = trim_end_colons(trim(row.cells[0].content));
        let value = trim(row.cells[1].content);
        lemma_trim_end_colons_lacks(trim(row.cells[0].content), c);
        lemma_lacks_concat(label, "\n"@, c);
        lemma_lacks_concat(value, "\n"@, c);
        let mid = if value.len() > 0 {
            value + "\n"@
        } else {
            Seq::empty()
        };
        lemma_lacks_concat(label + "\n"@, mid, c);
        lemma_lacks_concat(label + "\n"@ + mid, "\n"@, c);
    }
    lemma_contents_lack(row.cells, c);
    plain_table_adds_no_characters(contents(row.cells), Seq::empty(), c);
    lemma_lacks_concat(table_plain_spec(contents(row.cells), Seq::empty()), "\n"@, c);
}

proof fn lemma_flush_lacks(out: Seq<char>, run: Seq<RowView>, gw: usize, c: char)
    requires
        lacks(out, c),
        rows_lack(run, c),
        c != ' ',
        c != '\t',
        c != '\n',
    ensures
        lacks(flush_run(out, run, gw, true), c),
{
    if run.len() > 0 {
        lemma_newlines_lack(c);
        lemma_grid_plain_lacks(run, gw, c);
        lemma_lacks_concat(out, render_grid_spec(run, gw, true), c);
        lemma_lacks_concat(out + render_grid_spec(run, gw, true), "\n"@, c);
    }
}

proof fn lemma_hybrid_lacks(rows: Seq<RowView>, gw: usize, c: char)
    requires
        rows_lack(rows, c),
        c != ' ',
        c != '\t',
        c != '\n',
    ensures
        lacks(hybrid_fold(rows, gw, true).0, c),
        rows_lack(hybrid_fold(rows, gw, true).1, c),
    decreases rows.len(),
{
    if rows.len() > 0 {
        let a = rows.drop_last();
        assert forall|i: int| 0 <= i < a.len() implies cells_lack(#[trigger] a[i].cells, c) by {
            assert(a[i] == rows[i]);
        }
        lemma_hybrid_lacks(a, gw, c);
        let acc = hybrid_fold(a, gw, true);
        let row = rows.last();
        assert(cells_lack(rows[rows.len() - 1].cells, c));
        lemma_piece_lacks(row, gw, c);
        lemma_flush_lacks(acc.0, acc.1, gw, c);
        let fl = flush_run(acc.0, acc.1, gw, true);
        match classify(row, gw) {
            HtmlRowKind::Tiling => {
                let run = acc.1.push(row);
                assert forall|i: int| 0 <= i < run.len() implies cells_lack(#[trigger] run[i].cells, c) by {
                    if i < acc.1.len() {
                        assert(run[i] == acc.1[i]);
                    }
                }
            },
            HtmlRowKind::Banner => {
                lemma_lacks_concat(fl, banner_piece(row, true), c);
            },
            HtmlRowKind::LabelValue => {
                lemma_lacks_concat(fl, label_value_piece(row, true), c);
            },
            HtmlRowKind::Fallback => {
                lemma_lacks_concat(fl, fallback_piece(row, true), c);
            },
        }
    }
}

/// The plain-text rendering of a table holds no character that no cell
/// holds, other than spaces, tabs and newlines: in particular no `|`, `*` or
/// `#` of Markdown table, emphasis or heading syntax.
pub proof fn plain_table_rendering_adds_no_characters(t: TableView, c: char)
    requires
        rows_lack(t.rows, c),
        c != ' ',
        c != '\t',
        c != '\n',
    ensures
        lacks(render_table_spec(t, true), c),
{
    let rows = normalize_spec(t.rows);
    lemma_normalize_lacks(t.rows, Seq::empty(), c);
    if rows.len() > 0 && grid_width(rows) != 0 {
        if is_simple(rows) {
            lemma_simple_plain_lacks(rows, c);
        } else {
            let gw = grid_width(rows);
            lemma_hybrid_lacks(rows, gw, c);
            let f = hybrid_fold(rows, gw, true);
            lemma_flush_lacks(f.0, f.1, gw, c);
        }
    }
}

proof fn lemma_row_width_rowspan_one(cells: Seq<CellView>)
    ensures
        row_width(cells.map_values(|c: CellView| with_rowspan_one(c))) == row_width(cells),
        cells.len() > 0 ==> row_width(cells) >= 1,
    decreases cells.len(),
{
    if cells.len() > 0 {
        let m = cells.map_values(|c: CellView| with_rowspan_one(c));
        lemma_row_width_rowspan_one(cells.drop_last());
        assert(m.drop_last() =~= cells.drop_last().map_values(|c: CellView| with_rowspan_one(c)));
        assert(m.last() == with_rowspan_one(cells.last()));
    }
}

proof fn lemma_grid_width_rowspan_one(rows: Seq<RowView>)
    ensures
        grid_width(rows.map_values(|r: RowView| row_with_rowspan_one(r))) == grid_width(rows),
        forall|i: int| 0 <= i < rows.len() ==> row_width((#[trigger] rows[i]).cells) <= grid_width(rows),
    decreases rows.len(),
{
    if rows.len() > 0 {
        let m = rows.map_values(|r: RowView| row_with_rowspan_one(r));
        lemma_grid_width_rowspan_one(rows.drop_last());
        assert(m.drop_last() =~= rows.drop_last().map_values(|r: RowView| row_with_rowspan_one(r)));
        lemma_row_width_rowspan_one(rows.last().cells);
        assert forall|i: int| 0 <= i < rows.len() implies row_width((#[trigger] rows[i]).cells)
            <= grid_width(rows) by {
            if i < rows.len() - 1 {
                assert(rows[i] == rows.drop_last()[i]);
            }
        }
    }
}

proof fn lemma_header_from_rowspan_one(rows: Seq<RowView>, i: int)
    ensures
        header_from(rows.map_values(|r: RowView| row_with_rowspan_one(r)), i) == header_from(rows, i),
    decreases rows.len() - i,
{
    if 0 <= i < rows.len() && !rows[i].is_header_row {
        lemma_header_from_rowspan_one(rows, i + 1);
    }
}

proof fn lemma_contents_rowspan_one(cells: Seq<CellView>)
    ensures
        contents(cells.map_values(|c: CellView| with_rowspan_one(c))) == contents(cells),
{
    assert(contents(cells.map_values(|c: CellView| with_rowspan_one(c))) =~= contents(cells));
}

proof fn lemma_non_header_rowspan_one(rows: Seq<RowView>)
    ensures
        non_header_rows(rows.map_values(|r: RowView| row_with_rowspan_one(r))).map_values(
            |r: RowView| contents(r.cells),
        ) == non_header_rows(rows).map_values(|r: RowView| contents(r.cells)),
    decreases rows.len(),
{
    if rows.len() > 0 {
        let m = rows.map_values(|r: RowView| row_with_rowspan_one(r));
        lemma_non_header_rowspan_one(rows.drop_last());
        assert(m.drop_last() =~= rows.drop_last().map_values(|r: RowView| row_with_rowspan_one(r)));
        assert(m.last() == row_with_rowspan_one(rows.last()));
        lemma_contents_rowspan_one(rows.last().cells);
        if !rows.last().is_header_row {
            assert(non_header_rows(m).map_values(|r: RowView| contents(r.cells)) =~= non_header_rows(
                m.drop_last(),
            ).map_values(|r: RowView| contents(r.cells)).push(contents(m.last().cells)));
            assert(non_header_rows(rows).map_values(|r: RowView| contents(r.cells))
                =~= non_header_rows(rows.drop_last()).map_values(|r: RowView| contents(r.cells)).push(
                contents(rows.last().cells),
            ));
        }
    }
}

/// A simple table (uniform row lengths, no spans) with a non-empty first row
/// renders as one table of its cell texts: the first `<thead>` row, or else
/// the first row, as header and the other rows as data, exactly as without
/// any span handling.
pub proof fn simple_tables_render_as_plain_grids(t: TableView, plain: bool)
    requires
        is_simple(t.rows),
        t.rows.len() > 0,
        t.rows[0].cells.len() > 0,
    ensures
        render_table_spec(t, plain) == simple_spec(t.rows, plain),
{
    let rows = t.rows;
    assert(no_vertical_spans(rows)) by {
        assert forall|i: int, j: int| 0 <= i < rows.len() && 0 <= j < rows[i].cells.len() implies (
        #[trigger] rows[i].cells[j]).rowspan <= 1 by {
            assert(rows[i].cells.len() == rows[0].cells.len());
        }
    }
    lemma_normalize_without_spans(rows);
    let m = rows.map_values(|r: RowView| row_with_rowspan_one(r));
    assert(normalize_spec(rows) == m);
    lemma_grid_width_rowspan_one(rows);
    lemma_row_width_rowspan_one(rows[0].cells);
    assert(grid_width(m) >= 1);
    assert(is_simple(m)) by {
        assert forall|i: int| 0 <= i < m.len() implies {
            &&& (#[trigger] m[i]).cells.len() == m[0].cells.len()
            &&& forall|j: int|
                0 <= j < m[i].cells.len() ==> (#[trigger] m[i].cells[j]).colspan <= 1
                    && m[i].cells[j].rowspan <= 1
        } by {
            assert(rows[i].cells.len() == rows[0].cells.len());
            assert forall|j: int| 0 <= j < m[i].cells.len() implies (
            #[trigger] m[i].cells[j]).colspan <= 1 && m[i].cells[j].rowspan <= 1 by {
                assert(m[i].cells[j] == with_rowspan_one(rows[i].cells[j]));
            }
        }
    }
    lemma_header_from_rowspan_one(rows, 0);
    lemma_header_from_range(rows, 0);
    match header_from(rows, 0) {
        Some(i) => {
            lemma_contents_rowspan_one(rows[i].cells);
            lemma_non_header_rowspan_one(rows);
        },
        None => {
            lemma_contents_rowspan_one(rows[0].cells);
            assert(m.skip(1).map_values(|r: RowView| contents(r.cells)) =~= rows.skip(1).map_values(
                |r: RowView| contents(r.cells),
            )) by {
                assert forall|k: int| 0 <= k < rows.len() - 1 implies contents(
                    #[trigger] m.skip(1)[k].cells,
                ) == contents(rows.skip(1)[k].cells) by {
                    lemma_contents_rowspan_one(rows[k + 1].cells);
                }
            }
        },
    }
}

} // verus!
