//! A pipe table under construction, and its rendering into aligned text.
use vstd::prelude::*;
use crate::text::{display_width, display_width_of, push_all, trim, trim_chars, views};

verus! {

/// How a column's cells are aligned, as its separator cell marks it.
#[derive(Clone, Copy, PartialEq, Eq, Structural, Debug)]
pub enum TableAlignment {
    Plain,
    Left,
    Center,
    Right,
}

/// One column: its alignment and its cells, the header first, then the body rows in order.
pub struct TableColumn {
    pub alignment: TableAlignment,
    pub lines: Vec<Vec<char>>,
}

/// What a column holds.
pub struct ColumnModel {
    pub alignment: TableAlignment,
    pub lines: Seq<Seq<char>>,
}

impl View for TableColumn {
    type V = ColumnModel;

    open spec fn view(&self) -> ColumnModel {
        ColumnModel { alignment: self.alignment, lines: views(self.lines@) }
    }
}

/// A table whose header and separator rows have been read.
pub struct Table {
    pub columns: Vec<TableColumn>,
}

impl View for Table {
    type V = Seq<ColumnModel>;

    open spec fn view(&self) -> Seq<ColumnModel> {
        self.columns@.map_values(|c: TableColumn| c@)
    }
}

/// At least one column, each with the same number of cells, at least the header.
pub open spec fn table_wf(t: Seq<ColumnModel>) -> bool {
    t.len() >= 1 && t[0].lines.len() >= 1 && forall|j: int|
        0 <= j < t.len() ==> #[trigger] t[j].lines.len() == t[0].lines.len()
}

/// The number of rows, the header included.
pub open spec fn row_count(t: Seq<ColumnModel>) -> nat {
    t[0].lines.len()
}

/// The width of a column: the largest display width of its trimmed cells, and at least 1.
pub open spec fn col_width(lines: Seq<Seq<char>>) -> nat
    decreases lines.len(),
{
    if lines.len() == 0 {
        1
    } else {
        let w = col_width(lines.drop_last());
        let d = display_width_of(trim(lines.last()));
        if w >= d {
            w
        } else {
            d
        }
    }
}

pub proof fn lemma_col_width_bounds(lines: Seq<Seq<char>>, k: int)
    requires
        0 <= k < lines.len(),
    ensures
        display_width_of(trim(lines[k])) <= col_width(lines),
    decreases lines.len(),
{
    if k < lines.len() - 1 {
        lemma_col_width_bounds(lines.drop_last(), k);
    }
}

/// The width of each column.
pub open spec fn col_widths(t: Seq<ColumnModel>) -> Seq<nat> {
    Seq::new(t.len(), |j: int| col_width(t[j].lines))
}

/// Widths as numbers.
pub open spec fn nats(w: Seq<usize>) -> Seq<nat> {
    w.map_values(|x: usize| x as nat)
}

/// Every trimmed cell of row `k` fits the width given for its column.
pub open spec fn row_fits(t: Seq<ColumnModel>, ws: Seq<nat>, k: int) -> bool {
    forall|j: int| 0 <= j < t.len() ==> display_width_of(trim(#[trigger] t[j].lines[k])) <= ws[j]
}

pub open spec fn repeat(c: char, n: nat) -> Seq<char> {
    Seq::new(n, |_i: int| c)
}

/// A cell's text: one space, the trimmed cell, then spaces up to `w + 2` columns in all.
pub open spec fn padded(cell: Seq<char>, w: nat) -> Seq<char> {
    seq![' '] + trim(cell) + repeat(' ', (w + 1 - display_width_of(trim(cell))) as nat)
}

/// The first `j` cells of row `k`, padded to the widths `ws`, each followed by a border.
pub open spec fn row_cells(t: Seq<ColumnModel>, ws: Seq<nat>, k: int, j: int) -> Seq<char>
    decreases j,
{
    if j <= 0 {
        Seq::empty()
    } else {
        row_cells(t, ws, k, j - 1) + padded(t[j - 1].lines[k], ws[j - 1]) + seq!['|']
    }
}

/// Row `k` of the table as a line of text, with the column widths `ws`.
pub open spec fn row_line(t: Seq<ColumnModel>, ws: Seq<nat>, k: int) -> Seq<char> {
    seq!['|'] + row_cells(t, ws, k, t.len() as int) + seq!['\n']
}

pub open spec fn left_mark(a: TableAlignment) -> char {
    if a == TableAlignment::Left || a == TableAlignment::Center {
        ':'
    } else {
        '-'
    }
}

pub open spec fn right_mark(a: TableAlignment) -> char {
    if a == TableAlignment::Right || a == TableAlignment::Center {
        ':'
    } else {
        '-'
    }
}

/// The separator cell of a column of width `w`: its alignment marks around a run of `w`
/// dashes, followed by a border.
pub open spec fn rule_cell(a: TableAlignment, w: nat) -> Seq<char> {
    seq![left_mark(a)] + repeat('-', w) + seq![right_mark(a), '|']
}

pub open spec fn rule_cells(t: Seq<ColumnModel>, ws: Seq<nat>, j: int) -> Seq<char>
    decreases j,
{
    if j <= 0 {
        Seq::empty()
    } else {
        rule_cells(t, ws, j - 1) + rule_cell(t[j - 1].alignment, ws[j - 1])
    }
}

/// The separator row under the header, with the column widths `ws`.
pub open spec fn rule_line(t: Seq<ColumnModel>, ws: Seq<nat>) -> Seq<char> {
    seq!['|'] + rule_cells(t, ws, t.len() as int) + seq!['\n']
}

/// Body rows 1 up to, not including, `k`.
pub open spec fn body_lines(t: Seq<ColumnModel>, ws: Seq<nat>, k: int) -> Seq<char>
    decreases k,
{
    if k <= 1 {
        Seq::empty()
    } else {
        body_lines(t, ws, k - 1) + row_line(t, ws, k - 1)
    }
}

/// The table as aligned text: the header row, the separator row, then the body rows, each
/// column as wide as its widest trimmed cell.
pub open spec fn render(t: Seq<ColumnModel>) -> Seq<char> {
    let ws = col_widths(t);
    row_line(t, ws, 0) + rule_line(t, ws) + body_lines(t, ws, row_count(t) as int)
}

/// A cell padded to a column of width `width`, given the cell's own display width.
pub fn pad_measured(elem: &[char], elem_width: usize, width: usize) -> (r: Vec<char>)
    requires
        elem_width <= width,
    ensures
        r@ == seq![' '] + elem@ + repeat(' ', (width - elem_width + 1) as nat),
{
    let mut r: Vec<char> = Vec::new();
    r.push(' ');
    let mut i: usize = 0;
    while i < elem.len()
        invariant
            i <= elem@.len(),
            r@ =~= seq![' '] + elem@.take(i as int),
        decreases elem@.len() - i,
    {
        r.push(elem[i]);
        i = i + 1;
    }
    assert(elem@.take(elem@.len() as int) =~= elem@);
    r.push(' ');
    let extra = width - elem_width;
    let mut k: usize = 0;
    while k < extra
        invariant
            k <= extra == width - elem_width,
            r@ =~= seq![' '] + elem@ + repeat(' ', (k + 1) as nat),
        decreases extra - k,
    {
        r.push(' ');
        k = k + 1;
    }
    r
}

/// A cell padded to a column of width `width`: one space, the trimmed cell, then spaces.
pub fn pad_cell_content(elem: &[char], width: usize) -> (r: Vec<char>)
    requires
        display_width_of(trim(elem@)) <= width,
    ensures
        r@ == padded(elem@, width as nat),
        r@ == seq![' '] + trim(elem@) + repeat(' ', (width + 1 - display_width_of(trim(elem@))) as nat),
{
    let trimmed = trim_chars(elem);
    let w = display_width(trimmed.as_slice());
    pad_measured(trimmed.as_slice(), w, width)
}

impl Table {
    pub open spec fn wf(&self) -> bool {
        table_wf(self@)
    }

    /// The width of each column: the largest display width of its trimmed cells, at least 1.
    pub fn column_widths(&self) -> (r: Vec<usize>)
        ensures
            r@.len() == self@.len(),
            nats(r@) == col_widths(self@),
    {
        let mut r: Vec<usize> = Vec::new();
        let mut j: usize = 0;
        while j < self.columns.len()
            invariant
                j <= self@.len(),
                self@.len() == self.columns@.len(),
                nats(r@) =~= col_widths(self@).take(j as int),
            decreases self.columns@.len() - j,
        {
            let lines = &self.columns[j].lines;
            let ghost ls = self@[j as int].lines;
            assert(ls == views(lines@));
            let mut w: usize = 1;
            let mut k: usize = 0;
            assert(ls.take(0) =~= Seq::<Seq<char>>::empty());
            while k < lines.len()
                invariant
                    k <= lines@.len(),
                    ls == views(lines@),
                    w as nat == col_width(ls.take(k as int)),
                decreases lines@.len() - k,
            {
                let cell = trim_chars(lines[k].as_slice());
                let d = display_width(cell.as_slice());
                assert(ls.take(k + 1).drop_last() =~= ls.take(k as int));
                assert(ls.take(k + 1).last() == lines@[k as int]@);
                if d > w {
                    w = d;
                }
                k = k + 1;
            }
            assert(ls.take(lines@.len() as int) =~= ls);
            let ghost old_r = r@;
            r.push(w);
            assert(nats(r@) =~= nats(old_r).push(w as nat));
            assert(col_widths(self@).take(j + 1) =~= col_widths(self@).take(j as int).push(
                col_width(ls),
            ));
            j = j + 1;
        }
        assert(col_widths(self@).take(j as int) =~= col_widths(self@));
        r
    }

    /// Appends row `index` of the table, each trimmed cell padded to the width given for its
    /// column.
    pub fn write_output_line(&self, output: &mut Vec<char>, widths: &[usize], index: usize)
        requires
            table_wf(self@),
            widths@.len() == self@.len(),
            index < row_count(self@),
            row_fits(self@, nats(widths@), index as int),
        ensures
            final(output)@ == old(output)@ + row_line(self@, nats(widths@), index as int),
    {
        let ghost ws = nats(widths@);
        output.push('|');
        let mut j: usize = 0;
        while j < self.columns.len()
            invariant
                table_wf(self@),
                j <= self@.len(),
                self@.len() == self.columns@.len(),
                widths@.len() == self@.len(),
                ws == nats(widths@),
                index < row_count(self@),
                row_fits(self@, ws, index as int),
                output@ == old(output)@ + seq!['|'] + row_cells(self@, ws, index as int, j as int),
            decreases self.columns@.len() - j,
        {
            let ghost t = self@;
            assert(t[j as int].lines.len() == t[0].lines.len());
            let elem = &self.columns[j].lines[index];
            assert(elem@ == t[j as int].lines[index as int]);
            assert(ws[j as int] == widths@[j as int] as nat);
            let cell = pad_cell_content(elem.as_slice(), widths[j]);
            push_all(output, cell.as_slice());
            output.push('|');
            j = j + 1;
            assert(output@ =~= old(output)@ + seq!['|'] + row_cells(self@, ws, index as int, j as int));
        }
        output.push('\n');
        assert(output@ =~= old(output)@ + row_line(self@, ws, index as int));
    }

    /// Appends the separator row: for each column, its alignment marks around a run of as
    /// many dashes as the width given for it.
    pub fn write_subhead_line(&self, output: &mut Vec<char>, widths: &[usize])
        requires
            widths@.len() == self@.len(),
        ensures
            final(output)@ == old(output)@ + rule_line(self@, nats(widths@)),
    {
        let ghost ws = nats(widths@);
        output.push('|');
        let mut j: usize = 0;
        while j < self.columns.len()
            invariant
                j <= self@.len(),
                self@.len() == self.columns@.len(),
                widths@.len() == self@.len(),
                ws == nats(widths@),
                output@ == old(output)@ + seq!['|'] + rule_cells(self@, ws, j as int),
            decreases self.columns@.len() - j,
        {
            let ghost before = output@;
            let alignment = self.columns[j].alignment;
            assert(alignment == self@[j as int].alignment);
            match alignment {
                TableAlignment::Left | TableAlignment::Center => output.push(':'),
                _ => output.push('-'),
            }
            let width = widths[j];
            let mut k: usize = 0;
            while k < width
                invariant
                    k <= width,
                    output@ =~= before + seq![left_mark(alignment)] + repeat('-', k as nat),
                decreases width - k,
            {
                output.push('-');
                k = k + 1;
            }
            match alignment {
                TableAlignment::Right | TableAlignment::Center => output.push(':'),
                _ => output.push('-'),
            }
            output.push('|');
            assert(ws[j as int] == width as nat);
            assert(output@ =~= before + rule_cell(alignment, ws[j as int]));
            j = j + 1;
            assert(output@ =~= old(output)@ + seq!['|'] + rule_cells(self@, ws, j as int));
        }
        output.push('\n');
        assert(output@ =~= old(output)@ + rule_line(self@, ws));
    }

    /// Appends the whole table as aligned text.
    pub fn write_output(&self, output: &mut Vec<char>)
        requires
            self.wf(),
        ensures
            final(output)@ == old(output)@ + render(self@),
    {
        let widths = self.column_widths();
        let ghost ws = col_widths(self@);
        let lines = self.columns[0].lines.len();
        assert(lines == row_count(self@));
        proof { lemma_rows_fit(self@, 0); }
        self.write_output_line(output, widths.as_slice(), 0);
        self.write_subhead_line(output, widths.as_slice());
        let mut i: usize = 1;
        while i < lines
            invariant
                self.wf(),
                1 <= i <= lines == row_count(self@),
                nats(widths@) == ws,
                ws == col_widths(self@),
                widths@.len() == self@.len(),
                output@ == old(output)@ + row_line(self@, ws, 0) + rule_line(self@, ws) + body_lines(
                    self@,
                    ws,
                    i as int,
                ),
            decreases lines - i,
        {
            proof { lemma_rows_fit(self@, i as int); }
            self.write_output_line(output, widths.as_slice(), i);
            i = i + 1;
            assert(output@ =~= old(output)@ + row_line(self@, ws, 0) + rule_line(self@, ws) + body_lines(
                self@,
                ws,
                i as int,
            ));
        }
        assert(output@ =~= old(output)@ + render(self@));
    }
}

/// Every row fits the columns' own widths.
pub proof fn lemma_rows_fit(t: Seq<ColumnModel>, k: int)
    requires
        table_wf(t),
        0 <= k < row_count(t),
    ensures
        row_fits(t, col_widths(t), k),
{
    assert forall|j: int| 0 <= j < t.len() implies display_width_of(trim(#[trigger] t[j].lines[k]))
        <= col_widths(t)[j] by {
        assert(t[j].lines.len() == t[0].lines.len());
        lemma_col_width_bounds(t[j].lines, k);
    }
}

} // verus!
