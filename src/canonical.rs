//! Reading rendered text back: a table's rendered rows give back its cells and its
//! alignments, so that formatting a rendered table again leaves it as it is.
use vstd::prelude::*;
use crate::format::{
    add_row, formatted_text, header_columns, is_separator_for, join_lines, mach,
    reading_state, run_chunks, run_document, run_lines, step, StateModel,
};
use crate::laws::lemma_no_fence;
use crate::row::{alignment_of, dashes_between, fields, is_row, sep_align};
use crate::table::{
    body_lines, col_width, col_widths, left_mark, padded, render, repeat, right_mark, row_cells, row_count,
    row_line, rule_cell, rule_cells, rule_line, table_wf, ColumnModel,
};
use crate::text::{
    fence_at, fence_split, is_ws, lemma_split_nonempty, lines, split, strip_cr, trim, trim_end,
    trim_start,
};

verus! {

pub proof fn lemma_split_push(x: Seq<char>, c: char, d: char)
    ensures
        split(x.push(c), d) == (if c == d {
            split(x, d).push(Seq::empty())
        } else {
            split(x, d).update(split(x, d).len() - 1, split(x, d).last().push(c))
        }),
{
    assert(x.push(c).drop_last() =~= x);
}

/// Appending text free of the delimiter extends the last piece.
pub proof fn lemma_split_append(x: Seq<char>, p: Seq<char>, d: char)
    requires
        forall|i: int| 0 <= i < p.len() ==> p[i] != d,
    ensures
        split(x + p, d) == split(x, d).update(split(x, d).len() - 1, split(x, d).last() + p),
    decreases p.len(),
{
    lemma_split_nonempty(x, d);
    let s = split(x, d);
    if p.len() == 0 {
        assert(x + p =~= x);
        assert(s.last() + p =~= s.last());
        assert(s.update(s.len() - 1, s.last() + p) =~= s);
    } else {
        let q = p.drop_last();
        lemma_split_append(x, q, d);
        assert(x + p =~= (x + q).push(p.last()));
        lemma_split_push(x + q, p.last(), d);
        assert(s.last() + q + seq![p.last()] =~= s.last() + p);
        assert((s.last() + q).push(p.last()) =~= s.last() + p);
        assert(split(x + p, d) =~= s.update(s.len() - 1, s.last() + p));
    }
}

/// A piece free of the delimiter, then the delimiter.
pub proof fn lemma_split_field(x: Seq<char>, p: Seq<char>, d: char)
    requires
        forall|i: int| 0 <= i < p.len() ==> p[i] != d,
    ensures
        split(x + p + seq![d], d) == split(x, d).update(split(x, d).len() - 1, split(x, d).last() + p).push(
            Seq::empty(),
        ),
{
    lemma_split_append(x, p, d);
    assert(x + p + seq![d] =~= (x + p).push(d));
    lemma_split_push(x + p, d, d);
}

pub proof fn lemma_trim_start_spaces(s: Seq<char>)
    requires
        forall|i: int| 0 <= i < s.len() ==> is_ws(s[i]),
    ensures
        trim_start(s) == Seq::<char>::empty(),
    decreases s.len(),
{
    if s.len() > 0 {
        lemma_trim_start_spaces(s.drop_first());
    } else {
        assert(s =~= Seq::<char>::empty());
    }
}

pub proof fn lemma_trim_end_spaces(c: Seq<char>, s: Seq<char>)
    requires
        forall|i: int| 0 <= i < s.len() ==> is_ws(s[i]),
    ensures
        trim_end(c + s) == trim_end(c),
    decreases s.len(),
{
    if s.len() > 0 {
        assert((c + s).drop_last() =~= c + s.drop_last());
        lemma_trim_end_spaces(c, s.drop_last());
    } else {
        assert(c + s =~= c);
    }
}

/// Text with no whitespace at either end.
pub open spec fn is_trimmed(c: Seq<char>) -> bool {
    c.len() == 0 || (!is_ws(c[0]) && !is_ws(c.last()))
}

/// Trimmed text is its own trim.
pub proof fn lemma_trim_trimmed(c: Seq<char>)
    requires
        is_trimmed(c),
    ensures
        trim(c) == c,
{
    assert(trim_start(c) == c);
}

/// A padded cell trims back to the cell.
pub proof fn lemma_trim_padded(c: Seq<char>, w: nat)
    requires
        is_trimmed(c),
    ensures
        trim(padded(c, w)) == c,
{
    lemma_trim_trimmed(c);
    let sp = repeat(' ', (w + 1 - crate::text::display_width_of(c)) as nat);
    let p = padded(c, w);
    assert(p.drop_first() =~= c + sp);
    assert(is_ws(p[0]));
    assert(trim_start(p) == trim_start(c + sp));
    lemma_trim_end_spaces(c, sp);
    if c.len() == 0 {
        assert(c + sp =~= sp);
        lemma_trim_start_spaces(sp);
        assert(c =~= Seq::<char>::empty());
    } else {
        assert((c + sp)[0] == c[0]);
        assert(trim_start(c + sp) == c + sp);
    }
}

/// A cell that reads back as itself: trimmed, with no pipe and no newline.
pub open spec fn plain_cell(c: Seq<char>) -> bool {
    is_trimmed(c) && forall|i: int| 0 <= i < c.len() ==> c[i] != '|' && c[i] != '\n'
}

/// The padded cells of the first `j` columns of row `k`.
pub open spec fn padded_row(t: Seq<ColumnModel>, k: int, j: int) -> Seq<Seq<char>> {
    Seq::new(j as nat, |i: int| padded(t[i].lines[k], col_width(t[i].lines)))
}

pub proof fn lemma_padded_no_pipe(c: Seq<char>, w: nat)
    requires
        plain_cell(c),
    ensures
        forall|i: int| 0 <= i < padded(c, w).len() ==> padded(c, w)[i] != '|' && padded(c, w)[i] != '\n',
{
    let p = padded(c, w);
    lemma_trim_trimmed(c);
    assert forall|i: int| 0 <= i < p.len() implies p[i] != '|' && p[i] != '\n' by {
        if 1 <= i < 1 + c.len() {
            assert(p[i] == c[i - 1]);
        }
    }
}

pub proof fn lemma_split_row_cells(t: Seq<ColumnModel>, k: int, j: int)
    requires
        0 <= j <= t.len(),
        forall|i: int| 0 <= i < j ==> plain_cell(#[trigger] t[i].lines[k]),
    ensures
        split(row_cells(t, col_widths(t), k, j), '|') == padded_row(t, k, j).push(Seq::empty()),
    decreases j,
{
    if j == 0 {
        assert(padded_row(t, k, j).push(Seq::empty()) =~= seq![Seq::<char>::empty()]);
    } else {
        lemma_split_row_cells(t, k, j - 1);
        let x = row_cells(t, col_widths(t), k, j - 1);
        let p = padded(t[j - 1].lines[k], col_width(t[j - 1].lines));
        lemma_padded_no_pipe(t[j - 1].lines[k], col_width(t[j - 1].lines));
        lemma_split_field(x, p, '|');
        assert(Seq::<char>::empty() + p =~= p);
        assert(padded_row(t, k, j - 1).push(Seq::empty()).update(j - 1, Seq::<char>::empty() + p).push(
            Seq::empty(),
        ) =~= padded_row(t, k, j).push(Seq::empty()));
    }
}

/// Row `k` as a line, without its newline.
pub open spec fn row_text(t: Seq<ColumnModel>, k: int) -> Seq<char> {
    seq!['|'] + row_cells(t, col_widths(t), k, t.len() as int)
}

/// The cells of row `k`.
pub open spec fn row_of(t: Seq<ColumnModel>, k: int) -> Seq<Seq<char>> {
    Seq::new(t.len(), |i: int| t[i].lines[k])
}

/// A line that begins and ends with a pipe is its own trim.
pub proof fn lemma_trim_piped(l: Seq<char>)
    requires
        l.len() >= 2,
        l[0] == '|',
        l.last() == '|',
    ensures
        trim(l) == l,
{
    assert(trim_start(l) == l);
}

/// A rendered row reads back as a pipe row whose fields are the row's cells.
pub proof fn lemma_row_fields(t: Seq<ColumnModel>, k: int)
    requires
        t.len() >= 1,
        forall|i: int| 0 <= i < t.len() ==> plain_cell(#[trigger] t[i].lines[k]),
    ensures
        is_row(row_text(t, k)),
        fields(row_text(t, k)) == row_of(t, k),
{
    let n = t.len() as int;
    let l = row_text(t, k);
    let x = row_cells(t, col_widths(t), k, n - 1);
    let p = padded(t[n - 1].lines[k], col_width(t[n - 1].lines));
    assert(row_cells(t, col_widths(t), k, n) == x + p + seq!['|']);
    assert(l.last() == '|');
    lemma_trim_piped(l);
    assert(l.subrange(1, l.len() - 1) =~= x + p);
    lemma_split_row_cells(t, k, n - 1);
    lemma_padded_no_pipe(t[n - 1].lines[k], col_width(t[n - 1].lines));
    lemma_split_append(x, p, '|');
    assert(Seq::<char>::empty() + p =~= p);
    assert(split(x + p, '|') =~= padded_row(t, k, n));
    assert forall|i: int| 0 <= i < n implies #[trigger] fields(l)[i] == row_of(t, k)[i] by {
        lemma_trim_padded(t[i].lines[k], col_width(t[i].lines));
    }
    assert(fields(l) =~= row_of(t, k));
}

pub proof fn lemma_col_width_positive(lines: Seq<Seq<char>>)
    ensures
        col_width(lines) >= 1,
    decreases lines.len(),
{
    if lines.len() > 0 {
        lemma_col_width_positive(lines.drop_last());
    }
}

/// A separator cell without its border.
pub open spec fn rule_piece(c: ColumnModel) -> Seq<char> {
    seq![left_mark(c.alignment)] + repeat('-', col_width(c.lines)) + seq![right_mark(c.alignment)]
}

/// A rendered separator cell reads back as the column's alignment.
pub proof fn lemma_rule_piece(c: ColumnModel)
    ensures
        sep_align(rule_piece(c)) == Some(c.alignment),
        trim(rule_piece(c)) == rule_piece(c),
        forall|i: int| 0 <= i < rule_piece(c).len() ==> rule_piece(c)[i] != '|',
{
    let q = rule_piece(c);
    let w = col_width(c.lines);
    lemma_col_width_positive(c.lines);
    assert(q.len() == w + 2);
    assert(q[0] == left_mark(c.alignment));
    assert(q.last() == right_mark(c.alignment));
    assert(trim_start(q) == q);
    let left = q[0] == ':';
    let right = q.last() == ':';
    let start: int = if left { 1 } else { 0 };
    let end: int = if right { q.len() - 1 } else { q.len() as int };
    assert forall|i: int| start <= i < end implies q[i] == '-' by {
        if 1 <= i < 1 + w {
            assert(q[i] == '-');
        }
    }
    assert(dashes_between(q, start, end));
    assert(alignment_of(left, right) == c.alignment);
    assert forall|i: int| 0 <= i < q.len() implies q[i] != '|' by {
        if 1 <= i < 1 + w {
            assert(q[i] == '-');
        }
    }
}

pub proof fn lemma_split_rule_cells(t: Seq<ColumnModel>, j: int)
    requires
        0 <= j <= t.len(),
    ensures
        split(rule_cells(t, col_widths(t), j), '|') == Seq::new(j as nat, |i: int| rule_piece(t[i])).push(Seq::empty()),
    decreases j,
{
    if j == 0 {
        assert(Seq::new(j as nat, |i: int| rule_piece(t[i])).push(Seq::empty()) =~= seq![
            Seq::<char>::empty(),
        ]);
    } else {
        lemma_split_rule_cells(t, j - 1);
        let x = rule_cells(t, col_widths(t), j - 1);
        let q = rule_piece(t[j - 1]);
        lemma_rule_piece(t[j - 1]);
        assert(rule_cell(t[j - 1].alignment, col_widths(t)[j - 1]) =~= q + seq!['|']);
        assert(rule_cells(t, col_widths(t), j) =~= x + q + seq!['|']);
        lemma_split_field(x, q, '|');
        assert(Seq::<char>::empty() + q =~= q);
        assert(Seq::new((j - 1) as nat, |i: int| rule_piece(t[i])).push(Seq::empty()).update(
            j - 1,
            Seq::<char>::empty() + q,
        ).push(Seq::empty()) =~= Seq::new(j as nat, |i: int| rule_piece(t[i])).push(Seq::empty()));
    }
}

/// The separator row as a line, without its newline.
pub open spec fn rule_text(t: Seq<ColumnModel>) -> Seq<char> {
    seq!['|'] + rule_cells(t, col_widths(t), t.len() as int)
}

/// A rendered separator row reads back as a pipe row whose fields give each column's
/// alignment.
pub proof fn lemma_rule_fields(t: Seq<ColumnModel>)
    requires
        t.len() >= 1,
    ensures
        is_row(rule_text(t)),
        fields(rule_text(t)).len() == t.len(),
        forall|i: int| 0 <= i < t.len() ==> #[trigger] sep_align(fields(rule_text(t))[i]) == Some(t[i].alignment),
{
    let n = t.len() as int;
    let l = rule_text(t);
    let x = rule_cells(t, col_widths(t), n - 1);
    let q = rule_piece(t[n - 1]);
    lemma_rule_piece(t[n - 1]);
    assert(rule_cells(t, col_widths(t), n) =~= x + q + seq!['|']);
    assert(l.last() == '|');
    lemma_trim_piped(l);
    assert(l.subrange(1, l.len() - 1) =~= x + q);
    lemma_split_rule_cells(t, n - 1);
    lemma_split_append(x, q, '|');
    assert(Seq::<char>::empty() + q =~= q);
    assert(split(x + q, '|') =~= Seq::new(n as nat, |i: int| rule_piece(t[i])));
    assert forall|i: int| 0 <= i < n implies #[trigger] sep_align(fields(l)[i]) == Some(t[i].alignment) by {
        lemma_rule_piece(t[i]);
    }
}

/// A line that the line splitter gives back as it is: no newline in it, and it ends in a
/// pipe.
pub open spec fn piped_line(l: Seq<char>) -> bool {
    l.len() >= 1 && l.last() == '|' && forall|i: int| 0 <= i < l.len() ==> l[i] != '\n'
}

pub proof fn lemma_split_join(ls: Seq<Seq<char>>)
    requires
        forall|i: int| 0 <= i < ls.len() ==> piped_line(#[trigger] ls[i]),
    ensures
        split(join_lines(ls), '\n') == ls.push(Seq::empty()),
    decreases ls.len(),
{
    if ls.len() == 0 {
        assert(ls.push(Seq::empty()) =~= seq![Seq::<char>::empty()]);
    } else {
        let init = ls.drop_last();
        assert forall|i: int| 0 <= i < init.len() implies piped_line(#[trigger] init[i]) by {
            assert(init[i] == ls[i]);
        }
        lemma_split_join(init);
        assert(piped_line(ls[ls.len() - 1]));
        lemma_split_field(join_lines(init), ls.last(), '\n');
        assert(Seq::<char>::empty() + ls.last() =~= ls.last());
        assert(init.push(Seq::empty()).update(init.len() as int, Seq::<char>::empty() + ls.last()).push(
            Seq::empty(),
        ) =~= ls.push(Seq::empty()));
    }
}

/// Lines joined with newlines split back into the same lines.
pub proof fn lemma_lines_join(ls: Seq<Seq<char>>)
    requires
        forall|i: int| 0 <= i < ls.len() ==> piped_line(#[trigger] ls[i]),
    ensures
        lines(join_lines(ls)) == ls,
{
    lemma_split_join(ls);
    let p = ls.push(Seq::<char>::empty());
    assert(p.drop_last() =~= ls);
    assert forall|i: int| 0 <= i < ls.len() implies strip_cr(#[trigger] ls[i]) == ls[i] by {
        assert(piped_line(ls[i]));
    }
    assert(ls.map_values(|l: Seq<char>| strip_cr(l)) =~= ls);
}

pub proof fn lemma_row_cells_no_nl(t: Seq<ColumnModel>, k: int, j: int)
    requires
        0 <= j <= t.len(),
        forall|i: int| 0 <= i < t.len() ==> plain_cell(#[trigger] t[i].lines[k]),
    ensures
        forall|i: int| 0 <= i < row_cells(t, col_widths(t), k, j).len() ==> row_cells(t, col_widths(t), k, j)[i] != '\n',
    decreases j,
{
    if j > 0 {
        lemma_row_cells_no_nl(t, k, j - 1);
        let x = row_cells(t, col_widths(t), k, j - 1);
        let p = padded(t[j - 1].lines[k], col_width(t[j - 1].lines));
        lemma_padded_no_pipe(t[j - 1].lines[k], col_width(t[j - 1].lines));
        let r = row_cells(t, col_widths(t), k, j);
        assert forall|i: int| 0 <= i < r.len() implies r[i] != '\n' by {
            if i < x.len() {
                assert(r[i] == x[i]);
            } else if i < x.len() + p.len() {
                assert(r[i] == p[i - x.len()]);
            }
        }
    }
}

pub proof fn lemma_rule_cells_no_nl(t: Seq<ColumnModel>, j: int)
    requires
        0 <= j <= t.len(),
    ensures
        forall|i: int| 0 <= i < rule_cells(t, col_widths(t), j).len() ==> rule_cells(t, col_widths(t), j)[i] != '\n',
    decreases j,
{
    if j > 0 {
        lemma_rule_cells_no_nl(t, j - 1);
        let x = rule_cells(t, col_widths(t), j - 1);
        let c = rule_cell(t[j - 1].alignment, col_widths(t)[j - 1]);
        let r = rule_cells(t, col_widths(t), j);
        let w = col_width(t[j - 1].lines);
        assert forall|i: int| 0 <= i < r.len() implies r[i] != '\n' by {
            if i < x.len() {
                assert(r[i] == x[i]);
            } else {
                assert(r[i] == c[i - x.len()]);
                if 1 <= i - x.len() < 1 + w {
                    assert(c[i - x.len()] == '-');
                }
            }
        }
    }
}

/// The lines of a rendered table: the header row, the separator row, the body rows.
pub open spec fn rendered_lines(t: Seq<ColumnModel>) -> Seq<Seq<char>> {
    Seq::new(
        row_count(t) + 1,
        |i: int|
            if i == 0 {
                row_text(t, 0)
            } else if i == 1 {
                rule_text(t)
            } else {
                row_text(t, i - 1)
            },
    )
}

/// The table's cells all read back as themselves.
pub open spec fn plain_table(t: Seq<ColumnModel>) -> bool {
    table_wf(t) && forall|j: int, r: int|
        0 <= j < t.len() && 0 <= r < row_count(t) ==> plain_cell(#[trigger] t[j].lines[r])
}

pub proof fn lemma_row_text_plain(t: Seq<ColumnModel>, k: int)
    requires
        plain_table(t),
        0 <= k < row_count(t),
    ensures
        forall|i: int| 0 <= i < t.len() ==> plain_cell(#[trigger] t[i].lines[k]),
{
    assert forall|i: int| 0 <= i < t.len() implies plain_cell(#[trigger] t[i].lines[k]) by {
        assert(t[i].lines.len() == t[0].lines.len());
    }
}

pub proof fn lemma_render_lines(t: Seq<ColumnModel>)
    requires
        plain_table(t),
    ensures
        render(t) == join_lines(rendered_lines(t)),
        lines(render(t)) == rendered_lines(t),
{
    let ls = rendered_lines(t);
    let m = row_count(t) as int;
    assert forall|i: int| 0 <= i < ls.len() implies piped_line(#[trigger] ls[i]) by {
        if i == 1 {
            lemma_rule_cells_no_nl(t, t.len() as int);
            lemma_rule_fields(t);
            let l = rule_text(t);
            assert forall|q: int| 0 <= q < l.len() implies l[q] != '\n' by {
                if q > 0 {
                    assert(l[q] == rule_cells(t, col_widths(t), t.len() as int)[q - 1]);
                }
            }
        } else {
            let k = if i == 0 { 0 } else { i - 1 };
            lemma_row_text_plain(t, k);
            lemma_row_cells_no_nl(t, k, t.len() as int);
            lemma_row_fields(t, k);
            let l = row_text(t, k);
            assert forall|q: int| 0 <= q < l.len() implies l[q] != '\n' by {
                if q > 0 {
                    assert(l[q] == row_cells(t, col_widths(t), k, t.len() as int)[q - 1]);
                }
            }
        }
    }
    lemma_render_prefix(t, m);
    assert(ls.take(m + 1) =~= ls);
    lemma_lines_join(ls);
}

pub proof fn lemma_render_prefix(t: Seq<ColumnModel>, k: int)
    requires
        1 <= k <= row_count(t),
    ensures
        join_lines(rendered_lines(t).take(k + 1)) == row_line(t, col_widths(t), 0) + rule_line(t, col_widths(t)) + body_lines(t, col_widths(t), k),
    decreases k,
{
    let ls = rendered_lines(t);
    if k == 1 {
        let two = ls.take(2);
        assert(two.drop_last() =~= seq![row_text(t, 0)]);
        assert(two.drop_last().drop_last() =~= Seq::<Seq<char>>::empty());
        assert(two.last() == rule_text(t));
        assert(two.drop_last().last() == row_text(t, 0));
        assert(join_lines(two.drop_last().drop_last()) == Seq::<char>::empty());
        assert(join_lines(two.drop_last()) == join_lines(two.drop_last().drop_last()) + row_text(t, 0)
            + seq!['\n']);
        assert(join_lines(two.drop_last()) =~= row_text(t, 0) + seq!['\n']);
        assert(join_lines(two) =~= row_text(t, 0) + seq!['\n'] + rule_text(t) + seq!['\n']);
        assert(body_lines(t, col_widths(t), k) =~= Seq::<char>::empty());
        assert(join_lines(two) =~= row_line(t, col_widths(t), 0) + rule_line(t, col_widths(t)) + body_lines(t, col_widths(t), k));
    } else {
        lemma_render_prefix(t, k - 1);
        assert(ls.take(k + 1).drop_last() =~= ls.take(k));
        assert(join_lines(ls.take(k + 1)) =~= row_line(t, col_widths(t), 0) + rule_line(t, col_widths(t)) + body_lines(t, col_widths(t), k));
    }
}

/// The table cut to its first `r` rows.
pub open spec fn table_upto(t: Seq<ColumnModel>, r: int) -> Seq<ColumnModel> {
    Seq::new(t.len(), |j: int| ColumnModel { alignment: t[j].alignment, lines: t[j].lines.take(r) })
}

/// Reading the first `k + 1` lines of a rendered table leaves its first `k` rows in the
/// state, and nothing in the output.
pub proof fn lemma_run_rendered(t: Seq<ColumnModel>, k: int, strict: bool)
    requires
        plain_table(t),
        1 <= k <= row_count(t),
    ensures
        run_lines(
            mach(Seq::empty(), StateModel::Text, Seq::empty()),
            rendered_lines(t).take(k + 1),
            strict,
        ) == mach(
            Seq::empty(),
            reading_state(rendered_lines(t).take(k + 1), table_upto(t, k)),
            Seq::empty(),
        ),
    decreases k,
{
    let m0 = mach(Seq::empty(), StateModel::Text, Seq::empty());
    let ls = rendered_lines(t);
    let n = t.len() as int;
    if k == 1 {
        let two = ls.take(2);
        assert(two.drop_last() =~= seq![row_text(t, 0)]);
        assert(two.drop_last().drop_last() =~= Seq::<Seq<char>>::empty());
        lemma_row_text_plain(t, 0);
        lemma_row_fields(t, 0);
        lemma_rule_fields(t);
        let m1 = run_lines(m0, two.drop_last(), strict);
        assert(run_lines(m0, two.drop_last().drop_last(), strict) == m0);
        assert(m1 == step(m0, row_text(t, 0), strict));
        assert(m1 == mach(
            Seq::empty(),
            StateModel::Header { source: row_text(t, 0), headers: row_of(t, 0) },
            Seq::empty(),
        ));
        assert(is_separator_for(row_of(t, 0), rule_text(t)));
        assert(header_columns(row_of(t, 0), fields(rule_text(t))) =~~= table_upto(t, 1)) by {
            assert forall|j: int| 0 <= j < n implies #[trigger] t[j].lines.take(1) =~= seq![t[j].lines[0]] by {
                assert(t[j].lines.len() == t[0].lines.len());
            }
        }
        assert(seq![row_text(t, 0), rule_text(t)] =~= two);
    } else {
        lemma_run_rendered(t, k - 1, strict);
        let prev = ls.take(k);
        assert(ls.take(k + 1).drop_last() =~= prev);
        assert(ls.take(k + 1).last() == row_text(t, k - 1));
        lemma_row_text_plain(t, k - 1);
        lemma_row_fields(t, k - 1);
        assert(add_row(table_upto(t, k - 1), row_of(t, k - 1)) =~~= table_upto(t, k)) by {
            assert forall|j: int| 0 <= j < n implies #[trigger] t[j].lines.take(k - 1).push(t[j].lines[k - 1])
                =~= t[j].lines.take(k) by {
                assert(t[j].lines.len() == t[0].lines.len());
            }
        }
        assert(prev.push(row_text(t, k - 1)) =~= ls.take(k + 1));
    }
}

/// Formatting is idempotent on a rendered table: formatting the rendered text of a table
/// whose cells are trimmed and hold no pipe and no newline, and in which no code fence
/// appears, gives back the same text.
pub proof fn law_rendered_table_is_fixed(t: Seq<ColumnModel>, strict: bool)
    requires
        plain_table(t),
        forall|i: int| !#[trigger] fence_at(render(t), i),
    ensures
        formatted_text(render(t), strict) == render(t),
        run_document(render(t), strict).warnings.len() == 0,
{
    let m0 = mach(Seq::empty(), StateModel::Text, Seq::empty());
    let m = row_count(t) as int;
    let doc = render(t);
    lemma_no_fence(doc);
    lemma_render_lines(t);
    let cs = fence_split(doc);
    assert(cs.drop_last() =~= Seq::<Seq<char>>::empty());
    assert(run_chunks(m0, cs.drop_last(), strict) == m0);
    assert(run_document(doc, strict) == run_lines(m0, rendered_lines(t), strict));
    lemma_run_rendered(t, m, strict);
    assert(rendered_lines(t).take(m + 1) =~= rendered_lines(t));
    assert(table_upto(t, m) =~~= t) by {
        assert forall|j: int| 0 <= j < t.len() implies #[trigger] t[j].lines.take(m) =~= t[j].lines by {
            assert(t[j].lines.len() == t[0].lines.len());
        }
    }
    assert(Seq::<char>::empty() + render(t) =~= render(t));
}

} // verus!
