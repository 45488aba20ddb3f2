//! A table of text whose columns are shown vertically aligned.

use crate::text::{push_spaces, spaces};
use vstd::prelude::*;
use vstd::string::*;

verus! {

/// What a row holds: the cells of its columns, and the text that spans the
/// rest of the row, if there is one.
pub struct RowView {
    pub cells: Seq<Seq<char>>,
    pub span: Option<Seq<char>>,
}

/// One row in a table.
///
/// A row holds any number of cells, one for each column. A cell is shown
/// moved to the right edge of its column.
///
/// The last item may span the rest of the row. It is shown as it is, and no
/// cell can follow it.
pub struct Row {
    cells: Vec<String>,
    span: Option<String>,
}

/// A table of rows that shows its columns vertically aligned.
pub struct Table {
    t: Vec<Row>,
}

impl View for Row {
    type V = RowView;

    closed spec fn view(&self) -> RowView {
        RowView {
            cells: self.cells@.map_values(|s: String| s@),
            span: match self.span {
                Some(s) => Some(s@),
                None => None,
            },
        }
    }
}

impl View for Table {
    type V = Seq<RowView>;

    closed spec fn view(&self) -> Seq<RowView> {
        self.t@.map_values(|r: Row| r@)
    }
}

/// The number of columns of the table: the largest number of cells that a
/// row has.
pub open spec fn column_count(rows: Seq<RowView>) -> nat
    decreases rows.len(),
{
    if rows.len() == 0 {
        0
    } else {
        let before = column_count(rows.drop_last());
        if rows.last().cells.len() > before {
            rows.last().cells.len()
        } else {
            before
        }
    }
}

/// The width of column `col`: the number of characters of the longest cell
/// that a row has in this column, 0 where no row has one.
pub open spec fn column_width(rows: Seq<RowView>, col: int) -> nat
    decreases rows.len(),
{
    if rows.len() == 0 {
        0
    } else {
        let before = column_width(rows.drop_last(), col);
        let cells = rows.last().cells;
        if 0 <= col < cells.len() && cells[col].len() > before {
            cells[col].len()
        } else {
            before
        }
    }
}

/// Where column `col` starts in a line: after the gutters and widths of the
/// columns before it.
pub open spec fn column_start(rows: Seq<RowView>, col: int) -> nat
    decreases col,
{
    if col <= 0 {
        0
    } else {
        column_start(rows, col - 1) + 2 + column_width(rows, col - 1)
    }
}

/// A cell as shown in a column of the given width: a gutter of two spaces,
/// spaces that fill the column, and the cell at the right edge.
pub open spec fn shown_cell(cell: Seq<char>, width: nat) -> Seq<char> {
    spaces(2) + spaces((width - cell.len()) as nat) + cell
}

/// The first `count` cells of a row as shown in the columns of the table
/// `rows`.
pub open spec fn shown_cells(cells: Seq<Seq<char>>, rows: Seq<RowView>, count: int) -> Seq<char>
    decreases count,
{
    if count <= 0 {
        Seq::empty()
    } else {
        shown_cells(cells, rows, count - 1) + shown_cell(
            cells[count - 1],
            column_width(rows, count - 1),
        )
    }
}

/// A span as shown: a gutter of two spaces, and the text as it is.
pub open spec fn shown_span(span: Option<Seq<char>>) -> Seq<char> {
    match span {
        Some(s) => spaces(2) + s,
        None => Seq::empty(),
    }
}

/// The line of one row in the table `rows`: its cells, its span, a line
/// break.
pub open spec fn shown_row(row: RowView, rows: Seq<RowView>) -> Seq<char> {
    shown_cells(row.cells, rows, row.cells.len() as int) + shown_span(row.span) + seq!['\n']
}

/// The lines of the first `count` rows of the table `rows`.
pub open spec fn shown_rows(rows: Seq<RowView>, count: int) -> Seq<char>
    decreases count,
{
    if count <= 0 {
        Seq::empty()
    } else {
        shown_rows(rows, count - 1) + shown_row(rows[count - 1], rows)
    }
}

/// The whole table as text: the line of each row, in the order of the rows.
pub open spec fn shown_table(rows: Seq<RowView>) -> Seq<char> {
    shown_rows(rows, rows.len() as int)
}

/// A row has no more cells than the table has columns, and none of them is
/// longer than its column is wide.
pub proof fn lemma_cell_fits(rows: Seq<RowView>, r: int, c: int)
    requires
        0 <= r < rows.len(),
        0 <= c < rows[r].cells.len(),
    ensures
        c < column_count(rows),
        rows[r].cells[c].len() <= column_width(rows, c),
    decreases rows.len(),
{
    if r < rows.len() - 1 {
        lemma_cell_fits(rows.drop_last(), r, c);
    }
}

/// Some row has, in a column of the table, a cell as long as the column is
/// wide.
pub proof fn lemma_width_is_reached(rows: Seq<RowView>, c: int) -> (q: int)
    requires
        0 <= c < column_count(rows),
    ensures
        0 <= q < rows.len(),
        c < rows[q].cells.len(),
        rows[q].cells[c].len() == column_width(rows, c),
    decreases rows.len(),
{
    let before = rows.drop_last();
    let cells = rows.last().cells;
    if c < cells.len() && cells[c].len() >= column_width(before, c) {
        rows.len() - 1
    } else {
        if c >= column_count(before) {
            lemma_no_such_column(before, c);
        }
        lemma_width_is_reached(before, c)
    }
}

/// The first `count` cells of a row fill the line up to where column `count`
/// starts, and stay in the line as further cells follow.
pub proof fn lemma_cells_fill_columns(rows: Seq<RowView>, r: int, count: int, more: int)
    requires
        0 <= r < rows.len(),
        0 <= count <= more <= rows[r].cells.len(),
    ensures
        shown_cells(rows[r].cells, rows, count).len() == column_start(rows, count),
        column_start(rows, count) <= column_start(rows, more),
        shown_cells(rows[r].cells, rows, count) == shown_cells(rows[r].cells, rows, more).take(
            column_start(rows, count) as int,
        ),
    decreases more,
{
    let cells = rows[r].cells;
    if more > count {
        lemma_cells_fill_columns(rows, r, count, more - 1);
        lemma_cells_fill_columns(rows, r, more - 1, more - 1);
        assert(shown_cells(cells, rows, count) =~= shown_cells(cells, rows, more).take(
            column_start(rows, count) as int,
        ));
    } else {
        if count > 0 {
            lemma_cells_fill_columns(rows, r, count - 1, count - 1);
            lemma_cell_fits(rows, r, count - 1);
        }
        assert(shown_cells(cells, rows, count) =~= shown_cells(cells, rows, count).take(
            column_start(rows, count) as int,
        ));
    }
}

/// Columns are aligned.
///
/// Take any cell of any row. Its column is as wide as the longest cell that
/// a row has in it, so the cell is no longer than that. In the line of the
/// row the cell takes the characters from where its column starts to where
/// the next one starts, places that are the same for every row: a gutter of
/// two spaces, then spaces up to the width, then the cell itself at the
/// right edge.
pub proof fn lemma_columns_aligned(rows: Seq<RowView>, r: int, c: int)
    requires
        0 <= r < rows.len(),
        0 <= c < rows[r].cells.len(),
    ensures
        c < column_count(rows),
        rows[r].cells[c].len() <= column_width(rows, c),
        exists|q: int|
            0 <= q < rows.len() && c < rows[q].cells.len() && (#[trigger] rows[q]).cells[c].len()
                == column_width(rows, c),
        column_start(rows, c + 1) == column_start(rows, c) + 2 + column_width(rows, c),
        shown_row(rows[r], rows).subrange(
            column_start(rows, c) as int,
            column_start(rows, c + 1) as int,
        ) == spaces((2 + column_width(rows, c) - rows[r].cells[c].len()) as nat)
            + rows[r].cells[c],
{
    let row = rows[r];
    let cells = row.cells;
    let width = column_width(rows, c);
    let start = column_start(rows, c) as int;
    lemma_cell_fits(rows, r, c);
    let q = lemma_width_is_reached(rows, c);
    assert(rows[q].cells[c].len() == width);
    lemma_cells_fill_columns(rows, r, c, c + 1);
    lemma_cells_fill_columns(rows, r, c + 1, cells.len() as int);
    lemma_cells_fill_columns(rows, r, cells.len() as int, cells.len() as int);
    let line = shown_row(row, rows);
    let all = shown_cells(cells, rows, cells.len() as int);
    let upto = shown_cells(cells, rows, c + 1);
    assert(upto == shown_cells(cells, rows, c) + shown_cell(cells[c], width));
    assert(line.subrange(start, start + 2 + width) =~= upto.subrange(start, start + 2 + width));
    assert(upto.subrange(start, start + 2 + width) =~= shown_cell(cells[c], width));
    assert(shown_cell(cells[c], width) =~= spaces((2 + width - cells[c].len()) as nat) + cells[c]);
}

/// A span is never padded.
///
/// In the line of a row that has a span, the gutter of two spaces stands
/// where the column after the last cell of the row would start. The span
/// follows as it is, and the line break ends the line.
pub proof fn lemma_span_follows_cells(rows: Seq<RowView>, r: int)
    requires
        0 <= r < rows.len(),
        rows[r].span is Some,
    ensures
        shown_row(rows[r], rows).skip(column_start(rows, rows[r].cells.len() as int) as int)
            == spaces(2) + rows[r].span->0 + seq!['\n'],
{
    let row = rows[r];
    let count = row.cells.len() as int;
    lemma_cells_fill_columns(rows, r, count, count);
    assert(shown_row(row, rows).skip(column_start(rows, count) as int) =~= spaces(2)
        + row.span->0 + seq!['\n']);
}

impl Row {
    /// Creates a row without cells and without a span.
    pub fn new() -> (row: Row)
        ensures
            row@ == (RowView { cells: Seq::empty(), span: None }),
    {
        let row = Row { cells: Vec::new(), span: None };
        assert(row@.cells =~= Seq::empty());
        row
    }

    /// Whether the row has a span, after which no cell can be pushed.
    pub fn has_span(&self) -> (b: bool)
        ensures
            b == (self@.span is Some),
    {
        self.span.is_some()
    }

    /// Adds a cell for the next column.
    ///
    /// A row that has a span takes no more cells.
    pub fn push(&mut self, s: &str)
        requires
            old(self)@.span is None,
        ensures
            final(self)@ == (RowView { cells: old(self)@.cells.push(s@), span: None }),
    {
        self.cells.push(s.to_owned());
        assert(self@.cells =~= old(self)@.cells.push(s@));
    }

    /// Sets the text that spans the rest of the row, in place of an earlier
    /// one.
    pub fn push_span(&mut self, s: &str)
        ensures
            final(self)@ == (RowView { cells: old(self)@.cells, span: Some(s@) }),
    {
        self.span = Some(s.to_owned());
    }
}

impl Table {
    /// Creates a table without rows.
    pub fn new() -> (table: Table)
        ensures
            table@ == Seq::<RowView>::empty(),
    {
        let table = Table { t: Vec::new() };
        assert(table@ =~= Seq::<RowView>::empty());
        table
    }

    /// Adds a row below the rows of the table.
    pub fn push(&mut self, row: Row)
        ensures
            final(self)@ == old(self)@.push(row@),
    {
        self.t.push(row);
        assert(self@ =~= old(self)@.push(row@));
    }

    /// The width of each column of the table.
    pub fn measure(&self) -> (widths: Vec<usize>)
        ensures
            widths.len() == column_count(self@),
            forall|i: int| 0 <= i < widths.len() ==> widths[i] == column_width(self@, i),
    {
        let mut widths: Vec<usize> = Vec::new();
        let mut r: usize = 0;
        assert(self@.take(0) =~= Seq::<RowView>::empty());
        while r < self.t.len()
            invariant
                r <= self.t.len(),
                self.t.len() == self@.len(),
                widths.len() == column_count(self@.take(r as int)),
                forall|i: int|
                    0 <= i < widths.len() ==> widths[i] == column_width(self@.take(r as int), i),
            decreases self.t.len() - r,
        {
            let row = &self.t[r];
            let ghost seen = self@.take(r as int);
            let ghost cells = row@.cells;
            assert(self@.take(r + 1).drop_last() =~= seen);
            assert(self@.take(r + 1).last() == row@);
            let mut i: usize = 0;
            while i < row.cells.len()
                invariant
                    i <= row.cells.len(),
                    r < self@.len(),
                    cells == row@.cells,
                    cells.len() == row.cells.len(),
                    forall|j: int| 0 <= j < cells.len() ==> cells[j] == row.cells[j]@,
                    seen == self@.take(r as int),
                    self@.take(r + 1).drop_last() == seen,
                    self@.take(r + 1).last() == row@,
                    widths.len() == (if i > column_count(seen) {
                        i as nat
                    } else {
                        column_count(seen)
                    }),
                    forall|j: int|
                        0 <= j < i ==> widths[j] == column_width(self@.take(r + 1), j),
                    forall|j: int|
                        i <= j < widths.len() ==> widths[j] == column_width(seen, j),
                decreases row.cells.len() - i,
            {
                let w = row.cells[i].as_str().unicode_len();
                if widths.len() == i {
                    proof {
                        lemma_no_such_column(seen, i as int);
                    }
                    widths.push(w);
                } else if widths[i] < w {
                    widths.set(i, w);
                }
                assert(widths[i as int] == column_width(self@.take(r + 1), i as int));
                i = i + 1;
            }
            proof {
                assert forall|j: int| i <= j < widths.len() implies widths[j] == column_width(
                    self@.take(r + 1),
                    j,
                ) by {
                    assert(column_width(self@.take(r + 1), j) == column_width(seen, j));
                }
            }
            r = r + 1;
        }
        assert(self@.take(r as int) =~= self@);
        widths
    }

    /// The table as text: one line for each row, with the cells of each
    /// column moved to its right edge.
    pub fn print(&self) -> (text: String)
        ensures
            text@ == shown_table(self@),
    {
        let widths = self.measure();
        let mut text = String::new();
        let mut r: usize = 0;
        while r < self.t.len()
            invariant
                r <= self.t.len(),
                self.t.len() == self@.len(),
                widths.len() == column_count(self@),
                forall|i: int| 0 <= i < widths.len() ==> widths[i] == column_width(self@, i),
                text@ == shown_rows(self@, r as int),
            decreases self.t.len() - r,
        {
            let row = &self.t[r];
            let ghost lines = text@;
            let ghost cells = row@.cells;
            let mut i: usize = 0;
            while i < row.cells.len()
                invariant
                    i <= row.cells.len(),
                    r < self@.len(),
                    self@[r as int] == row@,
                    cells == row@.cells,
                    cells.len() == row.cells.len(),
                    forall|j: int| 0 <= j < cells.len() ==> cells[j] == row.cells[j]@,
                    widths.len() == column_count(self@),
                    forall|j: int| 0 <= j < widths.len() ==> widths[j] == column_width(self@, j),
                    text@ == lines + shown_cells(cells, self@, i as int),
                decreases row.cells.len() - i,
            {
                proof {
                    lemma_cell_fits(self@, r as int, i as int);
                }
                let cell = row.cells[i].as_str();
                let w = widths[i];
                push_spaces(&mut text, 2);
                push_spaces(&mut text, w - cell.unicode_len());
                text.append(cell);
                i = i + 1;
            }
            match &row.span {
                Some(s) => {
                    push_spaces(&mut text, 2);
                    text.append(s.as_str());
                },
                None => {},
            }
            text.push('\n');
            r = r + 1;
        }
        text
    }
}

/// A column beyond the last one has width 0.
proof fn lemma_no_such_column(rows: Seq<RowView>, col: int)
    requires
        col >= column_count(rows),
    ensures
        column_width(rows, col) == 0,
    decreases rows.len(),
{
    if rows.len() > 0 {
        lemma_no_such_column(rows.drop_last(), col);
    }
}

} // verus!
