//! Classifying a line: a pipe row and its fields, and the cells of a separator row.
use vstd::prelude::*;
use crate::table::TableAlignment;
use crate::text::{copy_range, split, split_on, trim, trim_chars, views};

verus! {

/// A pipe row: once trimmed, the line starts and ends with a `|` and holds at least one field.
pub open spec fn is_row(line: Seq<char>) -> bool {
    let t = trim(line);
    t.len() >= 2 && t[0] == '|' && t.last() == '|'
}

/// The fields of a pipe row: what lies between its pipes, each trimmed.
pub open spec fn fields(line: Seq<char>) -> Seq<Seq<char>> {
    let t = trim(line);
    split(t.subrange(1, t.len() - 1), '|').map_values(|f: Seq<char>| trim(f))
}

/// The fields of `line` when it is a pipe row, and `None` when it is not.
pub fn row_fields(line: &[char]) -> (r: Option<Vec<Vec<char>>>)
    ensures
        r is Some == is_row(line@),
        r matches Some(f) ==> views(f@) == fields(line@),
{
    let t = trim_chars(line);
    let n = t.len();
    if n < 2 || t[0] != '|' || t[n - 1] != '|' {
        return None;
    }
    let inner = copy_range(t.as_slice(), 1, n - 1);
    let pieces = split_on(inner.as_slice(), '|');
    let ghost p = views(pieces@);
    let mut out: Vec<Vec<char>> = Vec::new();
    let mut k: usize = 0;
    while k < pieces.len()
        invariant
            k <= pieces@.len(),
            p == views(pieces@),
            views(out@) =~= p.take(k as int).map_values(|f: Seq<char>| trim(f)),
        decreases pieces@.len() - k,
    {
        let f = trim_chars(pieces[k].as_slice());
        let ghost old_out = views(out@);
        out.push(f);
        assert(views(out@) =~= old_out.push(f@));
        assert(p.take(k + 1).map_values(|f: Seq<char>| trim(f)) =~= p.take(k as int).map_values(
            |f: Seq<char>| trim(f),
        ).push(trim(p[k as int])));
        k = k + 1;
    }
    assert(p.take(p.len() as int) =~= p);
    Some(out)
}

pub open spec fn alignment_of(left: bool, right: bool) -> TableAlignment {
    if left && right {
        TableAlignment::Center
    } else if left {
        TableAlignment::Left
    } else if right {
        TableAlignment::Right
    } else {
        TableAlignment::Plain
    }
}

pub open spec fn dashes_between(c: Seq<char>, start: int, end: int) -> bool {
    forall|i: int| start <= i < end ==> c[i] == '-'
}

/// The alignment that a separator cell marks, or `None` when the cell is not one: a
/// separator cell has at least three characters, an optional leading `:`, an optional
/// trailing `:`, and dashes only between them.
pub open spec fn sep_align(c: Seq<char>) -> Option<TableAlignment> {
    if c.len() < 3 {
        None
    } else {
        let left = c[0] == ':';
        let right = c.last() == ':';
        let start: int = if left { 1 } else { 0 };
        let end: int = if right { c.len() - 1 } else { c.len() as int };
        if dashes_between(c, start, end) {
            Some(alignment_of(left, right))
        } else {
            None
        }
    }
}

/// Reads one cell of a separator row.
pub fn separator_alignment(c: &[char]) -> (r: Option<TableAlignment>)
    ensures
        r == sep_align(c@),
{
    let n = c.len();
    if n < 3 {
        return None;
    }
    let left = c[0] == ':';
    let right = c[n - 1] == ':';
    let start: usize = if left { 1 } else { 0 };
    let end: usize = if right { n - 1 } else { n };
    let mut i: usize = start;
    while i < end
        invariant
            start <= i <= end <= n == c@.len(),
            n >= 3,
            left == (c@[0] == ':'),
            right == (c@.last() == ':'),
            start == (if left { 1usize } else { 0usize }),
            end == (if right { (n - 1) as usize } else { n }),
            forall|k: int| start <= k < i ==> c@[k] == '-',
        decreases end - i,
    {
        if c[i] != '-' {
            assert(!dashes_between(c@, start as int, end as int));
            return None;
        }
        i = i + 1;
    }
    assert(dashes_between(c@, start as int, end as int));
    let a = if left && right {
        TableAlignment::Center
    } else if left {
        TableAlignment::Left
    } else if right {
        TableAlignment::Right
    } else {
        TableAlignment::Plain
    };
    Some(a)
}

} // verus!
