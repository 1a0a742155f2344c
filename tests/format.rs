use mdfmt::format::{format_content, ParseState};
use mdfmt::row::{row_fields, separator_alignment};
use mdfmt::table::{pad_cell_content, pad_measured, Table, TableAlignment, TableColumn};
use mdfmt::text::{split_fences, split_lines, trim_chars};

fn fmt(s: &str) -> String {
    format_content(s, false).text
}

fn chars(s: &str) -> Vec<char> {
    s.chars().collect()
}

#[test]
fn simple_table_is_aligned() {
    assert_eq!(
        fmt("|A|B|\n|---|---|\n|1|22|\n"),
        "| A | B  |\n|---|----|\n| 1 | 22 |\n"
    );
}

#[test]
fn formatting_twice_changes_nothing() {
    let docs = [
        "|A|B|\n|---|---|\n|1|22|\n",
        "intro\n|Name|Qty|\n|:---|---:|\n|apple|10|\nafter\n",
        "|A|B|\n|---|---|\n|x|y|z|\ntext\n",
        "x ```|a|\n|---|``` y\n|q|\n|:-:|\n",
        "| |x|\n|---|---|\n",
    ];
    for d in docs.iter() {
        let once = fmt(d);
        assert_eq!(fmt(&once), once);
    }
}

#[test]
fn fenced_block_is_copied_verbatim() {
    let doc = "```\n|a|\n|---|\n```\n";
    assert_eq!(fmt(doc), doc);
}

#[test]
fn unmatched_fence_keeps_the_rest_verbatim() {
    let doc = "x\n```\n|a|\n|---|\n";
    assert_eq!(fmt(doc), doc);
}

#[test]
fn fenced_block_between_tables() {
    assert_eq!(
        fmt("|a|\n|---|\n\n```\n|b|\n|---|\n```\n"),
        "| a |\n|---|\n\n```\n|b|\n|---|\n```\n"
    );
}

#[test]
fn text_without_tables_passes_through() {
    assert_eq!(fmt("# Title\n\nsome *text*\n"), "# Title\n\nsome *text*\n");
    assert_eq!(fmt("hello\r\nworld"), "hello\nworld\n");
    assert_eq!(fmt(""), "");
}

#[test]
fn malformed_separator_falls_back() {
    assert_eq!(fmt("|A|B|\n|--|notdash|\n"), "|A|B|\n|--|notdash|\n");
}

#[test]
fn header_without_separator_at_end() {
    assert_eq!(fmt("|a|"), "|a|\n");
    assert_eq!(fmt("|a|\ntext\n"), "|a|\ntext\n");
}

#[test]
fn column_count_mismatch_mid_table() {
    let doc = "|A|B|\n|---|---|\n|1|2|\n|x|y|z|\ntext\n";
    assert_eq!(fmt(doc), doc);
}

#[test]
fn mismatched_row_starts_a_new_table() {
    assert_eq!(
        fmt("|A|B|\n|---|---|\n|x|y|z|\n|:--|---|--:|\n"),
        "|A|B|\n|---|---|\n| x | y | z |\n|:--|---|--:|\n"
    );
}

#[test]
fn strict_mode_reports_broken_table_line() {
    let doc = "intro\n|A|B|\n|---|---|\n|1|2|\n|x|y|z|\n";
    let strict = format_content(doc, true);
    let quiet = format_content(doc, false);
    assert_eq!(strict.text, quiet.text);
    assert_eq!(strict.warnings, vec![2]);
    assert!(quiet.warnings.is_empty());
}

#[test]
fn alignment_markers_round_trip() {
    assert_eq!(
        fmt("|A|B|C|D|\n|:--|--:|:-:|---|\n|1|2|3|4|\n"),
        "| A | B | C | D |\n|:--|--:|:-:|---|\n| 1 | 2 | 3 | 4 |\n"
    );
    assert_eq!(
        fmt("|Name|Qty|\n|:---|---:|\n|apple|10|\n"),
        "| Name  | Qty |\n|:------|----:|\n| apple | 10  |\n"
    );
}

#[test]
fn two_character_separator_cells_are_not_separators() {
    let doc = "|A|B|C|D|\n|:-|-:|:-:|---|\n|1|2|3|4|\n";
    assert_eq!(fmt(doc), doc);
}

#[test]
fn wide_characters_count_two_columns() {
    assert_eq!(
        fmt("|名前|x|\n|---|---|\n|ab|y|\n"),
        "| 名前 | x |\n|------|---|\n| ab   | y |\n"
    );
}

#[test]
fn table_at_end_of_input_is_flushed() {
    assert_eq!(fmt("|A|\n|---|\n|b|"), "| A |\n|---|\n| b |\n");
}

#[test]
fn non_row_line_ends_table() {
    assert_eq!(
        fmt("|a|\n|---|\n|b|\ntext\n"),
        "| a |\n|---|\n| b |\ntext\n"
    );
    assert_eq!(fmt("|a|\n|---|\n|\n"), "| a |\n|---|\n|\n");
}

#[test]
fn empty_cell_gets_width_one() {
    assert_eq!(fmt("| |x|\n|---|---|\n"), "|   | x |\n|---|---|\n");
}

#[test]
fn indented_rows_are_tables() {
    assert_eq!(fmt("  | a |  \n |---|\n"), "| a |\n|---|\n");
}

#[test]
fn write_output_renders_columns() {
    let table = Table {
        columns: vec![
            TableColumn { alignment: TableAlignment::Center, lines: vec![chars("h"), chars("long")] },
            TableColumn { alignment: TableAlignment::Right, lines: vec![chars("x"), chars("")] },
        ],
    };
    let mut out = Vec::new();
    table.write_output(&mut out);
    let s: String = out.iter().collect();
    assert_eq!(s, "| h    | x |\n|:----:|--:|\n| long |   |\n");
}

#[test]
fn new_state_is_regular_text() {
    assert!(matches!(ParseState::new(), ParseState::RegularText));
}

#[test]
fn padding_fills_to_width() {
    let p: String = pad_measured(&chars("ab"), 2, 5).iter().collect();
    assert_eq!(p, " ab    ");
    let q: String = pad_cell_content(&chars("名"), 3).iter().collect();
    assert_eq!(q, " 名  ");
}

#[test]
fn separator_cells() {
    assert_eq!(separator_alignment(&chars("---")), Some(TableAlignment::Plain));
    assert_eq!(separator_alignment(&chars(":--")), Some(TableAlignment::Left));
    assert_eq!(separator_alignment(&chars("--:")), Some(TableAlignment::Right));
    assert_eq!(separator_alignment(&chars(":-:")), Some(TableAlignment::Center));
    assert_eq!(separator_alignment(&chars(":-")), None);
    assert_eq!(separator_alignment(&chars(":::")), None);
    assert_eq!(separator_alignment(&chars("-x-")), None);
}

#[test]
fn row_fields_split_and_trim() {
    assert_eq!(row_fields(&chars(" | a |b|| ")), Some(vec![chars("a"), chars("b"), chars("")]));
    assert_eq!(row_fields(&chars("|")), None);
    assert_eq!(row_fields(&chars("a|b|")), None);
    assert_eq!(row_fields(&chars("||")), Some(vec![chars("")]));
}

#[test]
fn text_helpers() {
    assert_eq!(trim_chars(&chars("\t a b \u{3000}")), chars("a b"));
    assert_eq!(split_lines(&chars("a\r\nb\n\nc\r")), vec![chars("a"), chars("b"), chars(""), chars("c\r")]);
    assert_eq!(split_lines(&chars("a\n")), vec![chars("a")]);
    assert_eq!(split_fences(&chars("a````b```")), vec![chars("a"), chars("`b"), chars("")]);
}

#[test]
fn padding_uses_the_trimmed_cell() {
    let p: String = pad_cell_content(&chars(" a"), 1).iter().collect();
    assert_eq!(p, " a ");
    let q: String = pad_cell_content(&chars("  名 "), 2).iter().collect();
    assert_eq!(q, " 名 ");
}

#[test]
fn untrimmed_cells_are_measured_trimmed() {
    let table = Table {
        columns: vec![TableColumn {
            alignment: TableAlignment::Plain,
            lines: vec![chars(" x"), chars("yy  ")],
        }],
    };
    let mut out = Vec::new();
    table.write_output(&mut out);
    let s: String = out.iter().collect();
    assert_eq!(s, "| x  |\n|----|\n| yy |\n");
}

#[test]
fn rows_take_the_widths_given() {
    let table = Table {
        columns: vec![
            TableColumn { alignment: TableAlignment::Left, lines: vec![chars("a")] },
            TableColumn { alignment: TableAlignment::Right, lines: vec![chars(" b ")] },
        ],
    };
    let mut row = Vec::new();
    table.write_output_line(&mut row, &[3, 1], 0);
    let r: String = row.iter().collect();
    assert_eq!(r, "| a   | b |\n");
    let mut rule = Vec::new();
    table.write_subhead_line(&mut rule, &[2, 0]);
    let s: String = rule.iter().collect();
    assert_eq!(s, "|:---|-:|\n");
}
