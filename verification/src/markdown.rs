//! Markdown building blocks: ATX headings and GFM / tab-separated tables.
use vstd::prelude::*;

use crate::text::{lacks, lemma_lacks_concat, push_chars, push_repeat, push_str_chars, repeat};

verus! {

/// The views of a list of character vectors.
pub open spec fn texts_view(v: Seq<Vec<char>>) -> Seq<Seq<char>> {
    v.map_values(|t: Vec<char>| t@)
}

/// The views of a list of rows of character vectors.
pub open spec fn text_rows_view(v: Seq<Vec<Vec<char>>>) -> Seq<Seq<Seq<char>>> {
    v.map_values(|r: Vec<Vec<char>>| texts_view(r@))
}

/// A heading level forced into the range `1..=6`.
pub open spec fn clamp_level(level: u8) -> nat {
    if level < 1 {
        1
    } else if level > 6 {
        6
    } else {
        level as nat
    }
}

/// An ATX heading line: `level` hashes, a space, the text and a newline.
/// Empty text gives no heading at all.
pub open spec fn heading_spec(level: u8, text: Seq<char>) -> Seq<char> {
    if text.len() == 0 {
        Seq::empty()
    } else {
        repeat(seq!['#'], clamp_level(level)) + seq![' '] + text + seq!['\n']
    }
}

/// Appends the heading line for `text` at `level`.
pub fn push_heading(out: &mut Vec<char>, level: u8, text: &[char])
    ensures
        final(out)@ == old(out)@ + heading_spec(level, text@),
{
    if text.len() == 0 {
        assert(old(out)@ + heading_spec(level, text@) =~= old(out)@);
        return;
    }
    let n: usize = if level < 1 {
        1
    } else if level > 6 {
        6
    } else {
        level as usize
    };
    let hash: [char; 1] = ['#'];
    assert(hash@ =~= seq!['#']);
    push_repeat(out, hash.as_slice(), n);
    out.push(' ');
    push_chars(out, text);
    out.push('\n');
    assert(final(out)@ =~= old(out)@ + heading_spec(level, text@));
}

/// A table cell kept on one line: newlines become spaces.
pub open spec fn one_line(c: Seq<char>) -> Seq<char> {
    c.map_values(|ch: char| if ch == '\n' { ' ' } else { ch })
}

/// The inside of a GFM row: ` cell |` for every cell.
pub open spec fn md_cells(cells: Seq<Seq<char>>) -> Seq<char>
    decreases cells.len(),
{
    if cells.len() == 0 {
        Seq::empty()
    } else {
        md_cells(cells.drop_last()) + seq![' '] + one_line(cells.last()) + seq![' ', '|']
    }
}

/// One GFM table row.
pub open spec fn md_row(cells: Seq<Seq<char>>) -> Seq<char> {
    seq!['|'] + md_cells(cells) + seq!['\n']
}

/// Several GFM table rows.
pub open spec fn md_rows(rows: Seq<Seq<Seq<char>>>) -> Seq<char>
    decreases rows.len(),
{
    if rows.len() == 0 {
        Seq::empty()
    } else {
        md_rows(rows.drop_last()) + md_row(rows.last())
    }
}

/// The GFM delimiter row for `n` columns: `|---|---|`.
pub open spec fn md_separator(n: nat) -> Seq<char> {
    seq!['|'] + repeat(seq!['-', '-', '-', '|'], n) + seq!['\n']
}

/// A GFM table: header row, delimiter row, data rows. No header cells gives
/// no table.
pub open spec fn table_md_spec(headers: Seq<Seq<char>>, rows: Seq<Seq<Seq<char>>>) -> Seq<char> {
    if headers.len() == 0 {
        Seq::empty()
    } else {
        md_row(headers) + md_separator(headers.len()) + md_rows(rows)
    }
}

/// Cells joined by tabs.
pub open spec fn tab_join(cells: Seq<Seq<char>>) -> Seq<char>
    decreases cells.len(),
{
    if cells.len() == 0 {
        Seq::empty()
    } else if cells.len() == 1 {
        one_line(cells[0])
    } else {
        tab_join(cells.drop_last()) + seq!['\t'] + one_line(cells.last())
    }
}

/// One tab-separated line.
pub open spec fn plain_row(cells: Seq<Seq<char>>) -> Seq<char> {
    tab_join(cells) + seq!['\n']
}

/// Several tab-separated lines.
pub open spec fn plain_rows(rows: Seq<Seq<Seq<char>>>) -> Seq<char>
    decreases rows.len(),
{
    if rows.len() == 0 {
        Seq::empty()
    } else {
        plain_rows(rows.drop_last()) + plain_row(rows.last())
    }
}

/// A table as tab-separated lines, header first. No header cells gives
/// nothing.
pub open spec fn table_plain_spec(headers: Seq<Seq<char>>, rows: Seq<Seq<Seq<char>>>) -> Seq<
    char,
> {
    if headers.len() == 0 {
        Seq::empty()
    } else {
        plain_row(headers) + plain_rows(rows)
    }
}

fn push_one_line(out: &mut Vec<char>, c: &[char])
    ensures
        final(out)@ == old(out)@ + one_line(c@),
{
    let ghost start = out@;
    for i in 0..c.len()
        invariant
            out@ == start + one_line(c@.take(i as int)),
    {
        let ch = c[i];
        out.push(if ch == '\n' {
            ' '
        } else {
            ch
        });
        assert(one_line(c@.take(i + 1)) =~= one_line(c@.take(i as int)).push(
            if ch == '\n' {
                ' '
            } else {
                ch
            },
        ));
    }
    assert(c@.take(c@.len() as int) =~= c@);
}

fn push_md_row(out: &mut Vec<char>, cells: &[Vec<char>])
    ensures
        final(out)@ == old(out)@ + md_row(texts_view(cells@)),
{
    let ghost start = out@;
    let ghost cv = texts_view(cells@);
    out.push('|');
    for i in 0..cells.len()
        invariant
            cv == texts_view(cells@),
            out@ == start + seq!['|'] + md_cells(cv.take(i as int)),
    {
        out.push(' ');
        push_one_line(out, cells[i].as_slice());
        out.push(' ');
        out.push('|');
        proof {
            let t = cv.take(i + 1);
            assert(t.drop_last() =~= cv.take(i as int));
            assert(t.last() == cells@[i as int]@);
            assert(out@ =~= start + seq!['|'] + md_cells(t));
        }
    }
    assert(cv.take(cells@.len() as int) =~= cv);
    out.push('\n');
    assert(out@ =~= start + md_row(cv));
}

fn push_plain_row(out: &mut Vec<char>, cells: &[Vec<char>])
    ensures
        final(out)@ == old(out)@ + plain_row(texts_view(cells@)),
{
    let ghost start = out@;
    let ghost cv = texts_view(cells@);
    for i in 0..cells.len()
        invariant
            cv == texts_view(cells@),
            out@ == start + tab_join(cv.take(i as int)),
    {
        if i > 0 {
            out.push('\t');
        }
        push_one_line(out, cells[i].as_slice());
        proof {
            let t = cv.take(i + 1);
            assert(t.drop_last() =~= cv.take(i as int));
            assert(t.last() == cells@[i as int]@);
            if i == 0 {
                assert(t.len() == 1);
                assert(out@ =~= start + tab_join(t));
            } else {
                assert(out@ =~= start + tab_join(t));
            }
        }
    }
    assert(cv.take(cells@.len() as int) =~= cv);
    out.push('\n');
}

/// Build a GFM table from header cells and data rows.
pub fn build_table(headers: &[Vec<char>], rows: &[Vec<Vec<char>>]) -> (r: Vec<char>)
    ensures
        r@ == table_md_spec(texts_view(headers@), text_rows_view(rows@)),
{
    let mut out: Vec<char> = Vec::new();
    if headers.len() == 0 {
        return out;
    }
    push_md_row(&mut out, headers);
    out.push('|');
    let sep: [char; 4] = ['-', '-', '-', '|'];
    assert(sep@ =~= seq!['-', '-', '-', '|']);
    push_repeat(&mut out, sep.as_slice(), headers.len());
    out.push('\n');
    let ghost head = out@;
    assert(head =~= md_row(texts_view(headers@)) + md_separator(headers@.len()));
    let ghost rv = text_rows_view(rows@);
    for i in 0..rows.len()
        invariant
            rv == text_rows_view(rows@),
            out@ == head + md_rows(rv.take(i as int)),
    {
        push_md_row(&mut out, rows[i].as_slice());
        proof {
            let t = rv.take(i + 1);
            assert(t.drop_last() =~= rv.take(i as int));
            assert(t.last() == texts_view(rows@[i as int]@));
            assert(out@ =~= head + md_rows(t));
        }
    }
    assert(rv.take(rows@.len() as int) =~= rv);
    assert(texts_view(headers@).len() == headers@.len());
    out
}

/// Build a tab-separated table from header cells and data rows.
pub fn build_table_plain(headers: &[Vec<char>], rows: &[Vec<Vec<char>>]) -> (r: Vec<char>)
    ensures
        r@ == table_plain_spec(texts_view(headers@), text_rows_view(rows@)),
{
    let mut out: Vec<char> = Vec::new();
    if headers.len() == 0 {
        return out;
    }
    push_plain_row(&mut out, headers);
    let ghost head = out@;
    assert(head =~= plain_row(texts_view(headers@)));
    let ghost rv = text_rows_view(rows@);
    for i in 0..rows.len()
        invariant
            rv == text_rows_view(rows@),
            out@ == head + plain_rows(rv.take(i as int)),
    {
        push_plain_row(&mut out, rows[i].as_slice());
        proof {
            let t = rv.take(i + 1);
            assert(t.drop_last() =~= rv.take(i as int));
            assert(t.last() == texts_view(rows@[i as int]@));
            assert(out@ =~= head + plain_rows(t));
        }
    }
    assert(rv.take(rows@.len() as int) =~= rv);
    out
}

// ---------------------------------------------------------------------------
// Laws
// ---------------------------------------------------------------------------

/// None of the texts contains `c`.
pub open spec fn texts_lack(ts: Seq<Seq<char>>, c: char) -> bool {
    forall|k: int| 0 <= k < ts.len() ==> lacks(#[trigger] ts[k], c)
}

proof fn lemma_one_line_lacks(s: Seq<char>, c: char)
    requires
        lacks(s, c),
        c != ' ',
    ensures
        lacks(one_line(s), c),
{
    assert forall|i: int| 0 <= i < one_line(s).len() implies #[trigger] one_line(s)[i] != c by {
        assert(s[i] != c);
    }
}

proof fn lemma_tab_join_lacks(cells: Seq<Seq<char>>, c: char)
    requires
        texts_lack(cells, c),
        c != ' ',
        c != '\t',
    ensures
        lacks(tab_join(cells), c),
    decreases cells.len(),
{
    if cells.len() == 1 {
        assert(lacks(cells[0], c));
        lemma_one_line_lacks(cells[0], c);
    } else if cells.len() > 1 {
        let a = cells.drop_last();
        assert forall|k: int| 0 <= k < a.len() implies lacks(#[trigger] a[k], c) by {
            assert(a[k] == cells[k]);
        }
        lemma_tab_join_lacks(a, c);
        assert(lacks(cells[cells.len() - 1], c));
        lemma_one_line_lacks(cells.last(), c);
        lemma_lacks_concat(tab_join(a), seq!['\t'], c);
        lemma_lacks_concat(tab_join(a) + seq!['\t'], one_line(cells.last()), c);
    }
}

proof fn lemma_plain_rows_lack(rows: Seq<Seq<Seq<char>>>, c: char)
    requires
        forall|r: int| 0 <= r < rows.len() ==> texts_lack(#[trigger] rows[r], c),
        c != ' ',
        c != '\t',
        c != '\n',
    ensures
        lacks(plain_rows(rows), c),
    decreases rows.len(),
{
    if rows.len() > 0 {
        let a = rows.drop_last();
        assert forall|r: int| 0 <= r < a.len() implies texts_lack(#[trigger] a[r], c) by {
            assert(a[r] == rows[r]);
        }
        lemma_plain_rows_lack(a, c);
        assert(texts_lack(rows[rows.len() - 1], c));
        lemma_tab_join_lacks(rows.last(), c);
        lemma_lacks_concat(tab_join(rows.last()), seq!['\n'], c);
        lemma_lacks_concat(plain_rows(a), plain_row(rows.last()), c);
    }
}

/// A tab-separated table holds no character that none of its cells holds,
/// other than tabs, spaces and newlines.
pub proof fn plain_table_adds_no_characters(
    headers: Seq<Seq<char>>,
    rows: Seq<Seq<Seq<char>>>,
    c: char,
)
    requires
        texts_lack(headers, c),
        forall|r: int| 0 <= r < rows.len() ==> texts_lack(#[trigger] rows[r], c),
        c != ' ',
        c != '\t',
        c != '\n',
    ensures
        lacks(table_plain_spec(headers, rows), c),
{
    if headers.len() > 0 {
        lemma_tab_join_lacks(headers, c);
        lemma_lacks_concat(tab_join(headers), seq!['\n'], c);
        lemma_plain_rows_lack(rows, c);
        lemma_lacks_concat(plain_row(headers), plain_rows(rows), c);
    }
}

} // verus!
