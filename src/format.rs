//! The line-by-line state machine that finds pipe tables in a document and rewrites them,
//! and the document-level driver that keeps fenced code blocks out of its reach.
use vstd::prelude::*;
use crate::row::{fields, is_row, row_fields, sep_align, separator_alignment};
use crate::table::{nats, render, row_count, table_wf, ColumnModel, Table, TableColumn};
use crate::text::{
    chars_of, copy_range, fence, fence_split, lemma_split_nonempty, lines, push_all, split_fences,
    split_lines, string_of, trim, views,
};

verus! {

/// What the parser holds between lines.
pub enum StateModel {
    /// Outside any table.
    Text,
    /// A pipe row was read; the next line decides whether it is a table's header.
    Header { source: Seq<char>, headers: Seq<Seq<char>> },
    /// Inside a table: the lines read so far, as written, and the table they make.
    Reading { source_lines: Seq<Seq<char>>, table: Seq<ColumnModel> },
}

/// The parser's state together with the output and the warnings produced so far.
pub struct Machine {
    pub out: Seq<char>,
    pub state: StateModel,
    pub warnings: Seq<nat>,
}

pub open spec fn state_wf(s: StateModel) -> bool {
    match s {
        StateModel::Text => true,
        StateModel::Header { headers, .. } => headers.len() >= 1,
        StateModel::Reading { source_lines, table } => table_wf(table) && source_lines.len() == row_count(table)
            + 1,
    }
}

/// The state that a line starts when read outside a table.
pub open spec fn classify(line: Seq<char>) -> StateModel {
    if is_row(line) {
        StateModel::Header { source: line, headers: fields(line) }
    } else {
        StateModel::Text
    }
}

/// Whether `line` is a separator row for a header with the given fields.
pub open spec fn is_separator_for(headers: Seq<Seq<char>>, line: Seq<char>) -> bool {
    is_row(line) && fields(line).len() == headers.len() && forall|j: int|
        0 <= j < headers.len() ==> (#[trigger] sep_align(fields(line)[j])) is Some
}

/// The columns that a header row and its separator row start.
pub open spec fn header_columns(headers: Seq<Seq<char>>, cells: Seq<Seq<char>>) -> Seq<ColumnModel> {
    Seq::new(
        headers.len(),
        |j: int| ColumnModel { alignment: sep_align(cells[j])->0, lines: seq![headers[j]] },
    )
}

/// The table with one more row.
pub open spec fn add_row(t: Seq<ColumnModel>, cells: Seq<Seq<char>>) -> Seq<ColumnModel> {
    Seq::new(
        t.len(),
        |j: int| ColumnModel { alignment: t[j].alignment, lines: t[j].lines.push(cells[j]) },
    )
}

/// Lines of text, each followed by a newline.
pub open spec fn join_lines(ls: Seq<Seq<char>>) -> Seq<char>
    decreases ls.len(),
{
    if ls.len() == 0 {
        Seq::empty()
    } else {
        join_lines(ls.drop_last()) + ls.last() + seq!['\n']
    }
}

/// The number of newlines in `s`.
pub open spec fn count_nl(s: Seq<char>) -> nat
    decreases s.len(),
{
    if s.len() == 0 {
        0
    } else {
        count_nl(s.drop_last()) + if s.last() == '\n' {
            1nat
        } else {
            0nat
        }
    }
}

/// What reading `line` does before the line itself is passed through: the new state, and
/// what a table or a header that the line ends leaves in the output.
pub open spec fn advance(m: Machine, line: Seq<char>, strict: bool) -> Machine {
    match m.state {
        StateModel::Text => Machine { state: classify(line), ..m },
        StateModel::Header { source, headers } => if is_separator_for(headers, line) {
            Machine {
                state: StateModel::Reading {
                    source_lines: seq![source, line],
                    table: header_columns(headers, fields(line)),
                },
                ..m
            }
        } else {
            Machine { out: m.out + source + seq!['\n'], state: classify(line), ..m }
        },
        StateModel::Reading { source_lines, table } => if !is_row(line) {
            Machine { out: m.out + render(table), state: StateModel::Text, ..m }
        } else if fields(line).len() != table.len() {
            Machine {
                out: m.out + join_lines(source_lines),
                state: classify(line),
                warnings: if strict {
                    m.warnings.push(count_nl(m.out) + 1)
                } else {
                    m.warnings
                },
            }
        } else {
            Machine {
                state: StateModel::Reading {
                    source_lines: source_lines.push(line),
                    table: add_row(table, fields(line)),
                },
                ..m
            }
        },
    }
}

/// Reading one line: advance, then pass the line through when no table holds it.
pub open spec fn step(m: Machine, line: Seq<char>, strict: bool) -> Machine {
    let a = advance(m, line, strict);
    if a.state is Text {
        Machine { out: a.out + line + seq!['\n'], ..a }
    } else {
        a
    }
}

/// Reading the lines in order.
pub open spec fn run_lines(m: Machine, ls: Seq<Seq<char>>, strict: bool) -> Machine
    decreases ls.len(),
{
    if ls.len() == 0 {
        m
    } else {
        step(run_lines(m, ls.drop_last(), strict), ls.last(), strict)
    }
}

/// The parser's state, as its view gives it.
pub enum ParseState {
    RegularText,
    CheckingHeader { source_header: Vec<char>, headers: Vec<Vec<char>> },
    ReadingTable { source_table: Vec<Vec<char>>, table: Table },
}

impl View for ParseState {
    type V = StateModel;

    open spec fn view(&self) -> StateModel {
        match self {
            ParseState::RegularText => StateModel::Text,
            ParseState::CheckingHeader { source_header, headers } => StateModel::Header {
                source: source_header@,
                headers: views(headers@),
            },
            ParseState::ReadingTable { source_table, table } => StateModel::Reading {
                source_lines: views(source_table@),
                table: table@,
            },
        }
    }
}

impl ParseState {
    pub open spec fn wf(&self) -> bool {
        state_wf(self@)
    }

    /// The state before the first line.
    pub fn new() -> (r: Self)
        ensures
            r@ == StateModel::Text,
    {
        ParseState::RegularText
    }
}

/// Appends a line and a newline.
fn emit_line(output: &mut Vec<char>, line: &[char])
    ensures
        final(output)@ == old(output)@ + line@ + seq!['\n'],
{
    push_all(output, line);
    output.push('\n');
}

pub proof fn lemma_fields_nonempty(line: Seq<char>)
    ensures
        fields(line).len() >= 1,
{
    let t = trim(line);
    lemma_split_nonempty(t.subrange(1, t.len() - 1), '|');
}

/// The state that a line starts outside a table.
pub fn process_regular_text(line: &[char]) -> (r: ParseState)
    ensures
        r@ == classify(line@),
        r.wf(),
{
    match row_fields(line) {
        Some(headers) => {
            proof { lemma_fields_nonempty(line@); }
            let source_header = copy_range(line, 0, line.len());
            assert(source_header@ =~= line@);
            ParseState::CheckingHeader { source_header, headers }
        },
        None => ParseState::RegularText,
    }
}

pub open spec fn mach(out: Seq<char>, state: StateModel, warnings: Seq<nat>) -> Machine {
    Machine { out, state, warnings }
}

/// Reads the line after a candidate header row. When it is a separator row with as many
/// cells, a table starts; otherwise the header line goes to the output as it was written
/// and the line is read afresh.
pub fn process_header(
    line: &[char],
    output: &mut Vec<char>,
    source_header: Vec<char>,
    headers: Vec<Vec<char>>,
) -> (r: ParseState)
    requires
        headers@.len() >= 1,
    ensures
        final(output)@ == advance(
            mach(old(output)@, header_state(source_header@, views(headers@)), seq![]),
            line@,
            false,
        ).out,
        r@ == advance(
            mach(old(output)@, header_state(source_header@, views(headers@)), seq![]),
            line@,
            false,
        ).state,
        r.wf(),
{
    let subs = match row_fields(line) {
        Some(subs) => subs,
        None => {
            emit_line(output, source_header.as_slice());
            return process_regular_text(line);
        },
    };
    if subs.len() != headers.len() {
        emit_line(output, source_header.as_slice());
        return process_regular_text(line);
    }
    let n = subs.len();
    let ghost cells = views(subs@);
    let ghost hs = views(headers@);
    let mut columns: Vec<TableColumn> = Vec::new();
    let mut j: usize = 0;
    while j < n
        invariant
            n == subs@.len() == headers@.len(),
            output@ == old(output)@,
            cells == views(subs@),
            cells == fields(line@),
            is_row(line@),
            hs == views(headers@),
            j <= n,
            forall|k: int| 0 <= k < j ==> (#[trigger] sep_align(cells[k])) is Some,
            columns@.map_values(|c: TableColumn| c@) =~~= header_columns(hs, cells).take(j as int),
        decreases n - j,
    {
        match separator_alignment(subs[j].as_slice()) {
            None => {
                emit_line(output, source_header.as_slice());
                assert(sep_align(fields(line@)[j as int]) is None);
                return process_regular_text(line);
            },
            Some(a) => {
                let mut lines: Vec<Vec<char>> = Vec::new();
                let h = copy_range(headers[j].as_slice(), 0, headers[j].len());
                assert(h@ =~= hs[j as int]);
                lines.push(h);
                assert(views(lines@) =~= seq![hs[j as int]]);
                assert(subs@[j as int]@ == cells[j as int]);
                let col = TableColumn { alignment: a, lines };
                assert(col@ =~~= header_columns(hs, cells)[j as int]);
                let ghost old_cols = columns@;
                columns.push(col);
                assert(columns@ =~= old_cols.push(col));
                assert(header_columns(hs, cells).take(j + 1) =~= header_columns(hs, cells).take(
                    j as int,
                ).push(header_columns(hs, cells)[j as int]));
            },
        }
        j = j + 1;
    }
    assert(header_columns(hs, cells).take(n as int) =~= header_columns(hs, cells));
    assert(is_separator_for(hs, line@));
    let mut source_table: Vec<Vec<char>> = Vec::new();
    let copy = copy_range(line, 0, line.len());
    assert(copy@ =~= line@);
    let ghost sh = source_header@;
    source_table.push(source_header);
    source_table.push(copy);
    assert(views(source_table@) =~= seq![sh, line@]);
    let table = Table { columns };
    assert(table@ =~~= header_columns(hs, cells));
    ParseState::ReadingTable { source_table, table }
}

pub open spec fn header_state(source: Seq<char>, headers: Seq<Seq<char>>) -> StateModel {
    StateModel::Header { source, headers }
}

pub open spec fn reading_state(source_lines: Seq<Seq<char>>, table: Seq<ColumnModel>) -> StateModel {
    StateModel::Reading { source_lines, table }
}

/// The number of newlines among the first `end` characters of `s`.
fn count_newlines(s: &[char], end: usize) -> (r: usize)
    requires
        end <= s@.len(),
    ensures
        r as nat == count_nl(s@.take(end as int)),
        r <= end,
{
    let mut c: usize = 0;
    let mut i: usize = 0;
    assert(s@.take(0) =~= Seq::<char>::empty());
    while i < end
        invariant
            i <= end <= s@.len(),
            c <= i,
            c as nat == count_nl(s@.take(i as int)),
        decreases end - i,
    {
        assert(s@.take(i + 1).drop_last() =~= s@.take(i as int));
        if s[i] == '\n' {
            c = c + 1;
        }
        i = i + 1;
    }
    c
}

/// Reads a line inside a table. A line that is no pipe row ends the table, which is
/// rendered. A pipe row with another number of fields shows the table to be broken: its
/// lines go to the output as they were written, a warning is recorded in strict mode, and
/// the line is read afresh. Any other pipe row is one more row of the table.
pub fn process_table(
    line: &[char],
    output: &mut Vec<char>,
    warnings: &mut Vec<usize>,
    source_table: Vec<Vec<char>>,
    table: Table,
    strict: bool,
) -> (r: ParseState)
    requires
        state_wf(reading_state(views(source_table@), table@)),
    ensures
        final(output)@ == advance(
            mach(old(output)@, reading_state(views(source_table@), table@), nats(old(warnings)@)),
            line@,
            strict,
        ).out,
        r@ == advance(
            mach(old(output)@, reading_state(views(source_table@), table@), nats(old(warnings)@)),
            line@,
            strict,
        ).state,
        nats(final(warnings)@) == advance(
            mach(old(output)@, reading_state(views(source_table@), table@), nats(old(warnings)@)),
            line@,
            strict,
        ).warnings,
        !strict ==> final(warnings)@ == old(warnings)@,
        r.wf(),
{
    let cols = match row_fields(line) {
        Some(cols) => cols,
        None => {
            table.write_output(output);
            return ParseState::RegularText;
        },
    };
    let ghost src = views(source_table@);
    if cols.len() != table.columns.len() {
        let start = output.len();
        let mut k: usize = 0;
        assert(src.take(0) =~= Seq::<Seq<char>>::empty());
        while k < source_table.len()
            invariant
                k <= source_table@.len(),
                src == views(source_table@),
                start == old(output)@.len(),
                output@ == old(output)@ + join_lines(src.take(k as int)),
                k > 0 ==> output@.len() > start,
            decreases source_table@.len() - k,
        {
            emit_line(output, source_table[k].as_slice());
            assert(src.take(k + 1).drop_last() =~= src.take(k as int));
            k = k + 1;
        }
        assert(src.take(src.len() as int) =~= src);
        if strict {
            let total = output.len();
            let c = count_newlines(output.as_slice(), start);
            assert(output@.take(start as int) =~= old(output)@);
            let ghost old_w = warnings@;
            warnings.push(c + 1);
            assert(nats(warnings@) =~= nats(old_w).push(c as nat + 1));
        }
        return process_regular_text(line);
    }
    let n = cols.len();
    let ghost cells = views(cols@);
    let ghost t0 = table@;
    let mut source_table = source_table;
    let copy = copy_range(line, 0, line.len());
    assert(copy@ =~= line@);
    source_table.push(copy);
    assert(views(source_table@) =~= src.push(line@));
    let mut table = table;
    let mut j: usize = 0;
    while j < n
        invariant
            n == cols@.len() == t0.len() == table.columns@.len(),
            cells == views(cols@),
            j <= n,
            forall|k: int| 0 <= k < j ==> #[trigger] table@[k] == add_row(t0, cells)[k],
            forall|k: int| j <= k < n ==> #[trigger] table@[k] == t0[k],
        decreases n - j,
    {
        let cell = copy_range(cols[j].as_slice(), 0, cols[j].len());
        assert(cell@ =~= cells[j as int]);
        let ghost before = table.columns@[j as int];
        let ghost old_cols = table.columns@;
        let ghost old_view = table@;
        assert(table@[j as int] == t0[j as int]);
        assert(before@ == t0[j as int]);
        table.columns[j].lines.push(cell);
        assert(table.columns@[j as int].lines@ == before.lines@.push(cell));
        assert(views(table.columns@[j as int].lines@) =~= views(before.lines@).push(cell@));
        assert(table@[j as int] =~~= add_row(t0, cells)[j as int]);
        assert(table@[j as int] == add_row(t0, cells)[j as int]);
        assert forall|k: int| 0 <= k <= j implies #[trigger] table@[k] == add_row(t0, cells)[k] by {
            if k < j {
                assert(table@[k] == old_view[k]);
                assert(old_view[k] == add_row(t0, cells)[k]);
            }
        }
        assert(forall|k: int| 0 <= k < n && k != j ==> table.columns@[k] == old_cols[k]);
        assert(forall|k: int| 0 <= k < n && k != j ==> table@[k] == old_view[k]);
        assert(forall|k: int| 0 <= k < j ==> old_view[k] == add_row(t0, cells)[k]);
        assert(forall|k: int| j < k < n ==> old_view[k] == t0[k]);
        j = j + 1;
    }
    assert(table@ =~~= add_row(t0, cells));
    ParseState::ReadingTable { source_table, table }
}

/// Reads the lines of a span that lies outside code fences, carrying the state from the
/// spans before it.
pub fn format_chunk(
    chunk: &[char],
    state: ParseState,
    output: &mut Vec<char>,
    warnings: &mut Vec<usize>,
    strict: bool,
) -> (r: ParseState)
    requires
        state.wf(),
    ensures
        mach(final(output)@, r@, nats(final(warnings)@)) == run_lines(
            mach(old(output)@, state@, nats(old(warnings)@)),
            lines(chunk@),
            strict,
        ),
        !strict ==> final(warnings)@ == old(warnings)@,
        r.wf(),
{
    let ls = split_lines(chunk);
    let ghost m0 = mach(old(output)@, state@, nats(old(warnings)@));
    let ghost lv = views(ls@);
    let mut state = state;
    let mut k: usize = 0;
    assert(lv.take(0) =~= Seq::<Seq<char>>::empty());
    while k < ls.len()
        invariant
            k <= ls@.len(),
            lv == views(ls@),
            lv == lines(chunk@),
            state.wf(),
            mach(output@, state@, nats(warnings@)) == run_lines(m0, lv.take(k as int), strict),
            !strict ==> warnings@ == old(warnings)@,
        decreases ls@.len() - k,
    {
        let line = ls[k].as_slice();
        let ghost m = mach(output@, state@, nats(warnings@));
        let ghost a = advance(m, line@, strict);
        state = match state {
            ParseState::RegularText => process_regular_text(line),
            ParseState::CheckingHeader { source_header, headers } => process_header(
                line,
                output,
                source_header,
                headers,
            ),
            ParseState::ReadingTable { source_table, table } => process_table(
                line,
                output,
                warnings,
                source_table,
                table,
                strict,
            ),
        };
        assert(output@ == a.out);
        assert(state@ == a.state);
        assert(nats(warnings@) == a.warnings);
        if matches!(state, ParseState::RegularText) {
            emit_line(output, line);
        }
        assert(lv.take(k + 1).drop_last() =~= lv.take(k as int));
        assert(lv.take(k + 1).last() == line@);
        assert(mach(output@, state@, nats(warnings@)) == step(m, line@, strict));
        k = k + 1;
    }
    assert(lv.take(lv.len() as int) =~= lv);
    state
}

/// The state and output after the spans: spans at odd positions lie between code fences
/// and are copied as they are; the others are read line by line. Each span after the
/// first is preceded by the fence that separated it from the one before.
pub open spec fn run_chunks(m: Machine, chunks: Seq<Seq<char>>, strict: bool) -> Machine
    decreases chunks.len(),
{
    if chunks.len() == 0 {
        m
    } else {
        let k = chunks.len() - 1;
        let prev = run_chunks(m, chunks.drop_last(), strict);
        let fenced = if k > 0 {
            mach(prev.out + fence(), prev.state, prev.warnings)
        } else {
            prev
        };
        if k % 2 == 1 {
            mach(fenced.out + chunks[k], fenced.state, fenced.warnings)
        } else {
            run_lines(fenced, lines(chunks[k]), strict)
        }
    }
}

/// The output once what the state still holds is written out: a pending header line as it
/// was written, a table rendered.
pub open spec fn flush(m: Machine) -> Seq<char> {
    match m.state {
        StateModel::Text => m.out,
        StateModel::Header { source, .. } => m.out + source + seq!['\n'],
        StateModel::Reading { table, .. } => m.out + render(table),
    }
}

/// The machine after the whole document, before the final flush.
pub open spec fn run_document(content: Seq<char>, strict: bool) -> Machine {
    run_chunks(mach(Seq::empty(), StateModel::Text, Seq::empty()), fence_split(content), strict)
}

/// The formatted document.
pub open spec fn formatted_text(content: Seq<char>, strict: bool) -> Seq<char> {
    flush(run_document(content, strict))
}

/// The formatted document and, in strict mode, the line of the output at which each broken
/// table begins, counting from 1.
pub struct Formatted {
    pub text: String,
    pub warnings: Vec<usize>,
}

/// Formats every pipe table of a document, leaving the rest of it as it was.
pub fn format_content(content: &str, strict: bool) -> (r: Formatted)
    ensures
        r.text@ == formatted_text(content@, strict),
        nats(r.warnings@) == run_document(content@, strict).warnings,
        !strict ==> r.warnings@.len() == 0,
{
    let chars = chars_of(content);
    let chunks = split_fences(chars.as_slice());
    let ghost cs = views(chunks@);
    let ghost m0 = mach(Seq::empty(), StateModel::Text, Seq::empty());
    let mut output: Vec<char> = Vec::new();
    let mut warnings: Vec<usize> = Vec::new();
    let mut state = ParseState::new();
    let mut i: usize = 0;
    assert(cs.take(0) =~= Seq::<Seq<char>>::empty());
    assert(nats(warnings@) =~= Seq::<nat>::empty());
    while i < chunks.len()
        invariant
            i <= chunks@.len(),
            cs == views(chunks@),
            cs == fence_split(content@),
            state.wf(),
            mach(output@, state@, nats(warnings@)) == run_chunks(m0, cs.take(i as int), strict),
            !strict ==> warnings@.len() == 0,
        decreases chunks@.len() - i,
    {
        let ghost prev = mach(output@, state@, nats(warnings@));
        if i > 0 {
            output.push('`');
            output.push('`');
            output.push('`');
            assert(output@ =~= prev.out + fence());
        }
        assert(cs.take(i + 1).drop_last() =~= cs.take(i as int));
        if i % 2 == 1 {
            push_all(&mut output, chunks[i].as_slice());
        } else {
            state = format_chunk(chunks[i].as_slice(), state, &mut output, &mut warnings, strict);
        }
        i = i + 1;
    }
    assert(cs.take(cs.len() as int) =~= cs);
    match state {
        ParseState::RegularText => {},
        ParseState::CheckingHeader { source_header, .. } => {
            emit_line(&mut output, source_header.as_slice());
        },
        ParseState::ReadingTable { table, .. } => {
            table.write_output(&mut output);
        },
    }
    Formatted { text: string_of(output.as_slice()), warnings }
}

} // verus!
