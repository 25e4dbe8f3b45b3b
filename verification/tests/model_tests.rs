use bluecsv::columns::{settle_column, tally_model, ColumnType};
use bluecsv::model::{Model, Position, Range};
use bluecsv::types::CellType;

fn pos(line: u32, ch: u32) -> Position {
    Position::new(line, ch)
}

fn infer_model(m: &Model, has_header: bool) -> Vec<ColumnType> {
    tally_model(m, has_header)
        .iter()
        .map(|t| {
            let n = t.non_empty.len();
            let ok = n > 0 && t.best_count as f32 / n as f32 >= 0.9;
            settle_column(t, ok)
        })
        .collect()
}

#[test]
fn parses_simple_rows_with_ranges() {
    let m = Model::parse("a,bb,ccc\nd,e,f\n");
    assert_eq!(m.cells.len(), 2);
    let r0 = &m.cells[0];
    assert_eq!(r0[0].value, "a");
    assert_eq!(r0[0].range, Range::new(pos(0, 0), pos(0, 1)));
    assert_eq!(r0[1].value, "bb");
    assert_eq!(r0[1].range, Range::new(pos(0, 2), pos(0, 4)));
    assert_eq!(r0[2].value, "ccc");
    assert_eq!(r0[2].range, Range::new(pos(0, 5), pos(0, 8)));
}

#[test]
fn parses_empty_fields() {
    let m = Model::parse("a,,c\n");
    assert_eq!(m.cells[0].len(), 3);
    assert_eq!(m.cells[0][1].value, "");
    assert_eq!(m.cells[0][1].range, Range::new(pos(0, 2), pos(0, 2)));
}

#[test]
fn parses_quoted_field_and_normalizes_value() {
    let m = Model::parse("\"a,b\",\"he said \"\"hi\"\"\"\n");
    assert_eq!(m.cells[0][0].value, "a,b");
    assert_eq!(m.cells[0][1].value, "he said \"hi\"");
}

#[test]
fn model_parses_crlf() {
    let m = Model::parse("a,b\r\nc,d\r\n");
    assert_eq!(m.cells.len(), 2);
    assert_eq!(m.cells[1][0].value, "c");
    assert_eq!(m.cells[1][0].range.start, pos(1, 0));
}

#[test]
fn parses_embedded_newline_in_quoted_advances_line() {
    let m = Model::parse("\"a\nb\",c\n");
    assert_eq!(m.cells.len(), 1);
    assert_eq!(m.cells[0][0].value, "a\nb");
    assert_eq!(m.cells[0][1].range.start, pos(1, 3));
}

#[test]
fn trailing_padding_is_stripped_in_canonical_value() {
    let m = Model::parse("id,name \n1 ,Alice\n");
    assert_eq!(m.cells[0][1].value, "name");
    assert_eq!(m.cells[1][0].value, "1");
}

#[test]
fn cell_at_finds_cell_under_cursor() {
    let m = Model::parse("a,bb,ccc\n");
    assert_eq!(m.cell_at(pos(0, 0)).unwrap().value, "a");
    assert_eq!(m.cell_at(pos(0, 3)).unwrap().value, "bb");
    assert_eq!(m.cell_at(pos(0, 7)).unwrap().value, "ccc");
}

#[test]
fn cell_at_returns_none_outside_any_cell() {
    let m = Model::parse("a\n");
    assert!(m.cell_at(pos(1, 5)).is_none());
}

#[test]
fn column_values_excluding_skips_header_and_current_row() {
    let m = Model::parse("name\nalice\nbob\nalice\n");
    let vals = m.column_values_excluding(0, Some(1), true);
    assert_eq!(
        vals.into_iter().collect::<Vec<_>>(),
        vec!["alice".to_string(), "bob".to_string()]
    );
}

#[test]
fn find_in_column_returns_all_matches() {
    let m = Model::parse("name\nalice\nbob\nalice\n");
    let hits = m.find_in_column(0, "alice", true);
    assert_eq!(hits.len(), 2);
    assert_eq!(hits[0].row, 1);
    assert_eq!(hits[1].row, 3);
}

#[test]
fn header_returns_first_row_value() {
    let m = Model::parse("id,name\n1,a\n");
    assert_eq!(m.header(0), Some("id"));
    assert_eq!(m.header(1), Some("name"));
    assert_eq!(m.header(2), None);
}

#[test]
fn skips_header_row() {
    let m = Model::parse("id,when\n1,2024-01-01\n2,2024-02-01\n3,2024-03-01\n");
    let cols = infer_model(&m, true);
    assert_eq!(cols[0].primary, CellType::Int);
    assert_eq!(cols[1].primary, CellType::Date);
}

#[test]
fn includes_row_zero_when_no_header() {
    let m = Model::parse("1\n2\n3\n4\n");
    let cols = infer_model(&m, false);
    assert_eq!(cols[0].primary, CellType::Int);
}

// Further cases.

#[test]
fn trailing_empty_field_range_starts_at_previous_field() {
    let m = Model::parse("a,");
    assert_eq!(m.cells.len(), 1);
    assert_eq!(m.cells[0].len(), 2);
    assert_eq!(m.cells[0][1].raw, "");
    assert_eq!(m.cells[0][1].range, Range::new(pos(0, 0), pos(0, 2)));
}

#[test]
fn columns_count_utf16_units() {
    let m = Model::parse("\u{1F600},x\n");
    assert_eq!(m.cells[0][0].range, Range::new(pos(0, 0), pos(0, 2)));
    assert_eq!(m.cells[0][1].range, Range::new(pos(0, 3), pos(0, 4)));
}

#[test]
fn lone_carriage_return_ends_a_line() {
    let m = Model::parse("a\rb\n");
    assert_eq!(m.cells.len(), 2);
    assert_eq!(m.cells[1][0].range.start, pos(1, 0));
}

#[test]
fn raw_keeps_quotes_and_padding() {
    let m = Model::parse("\"x\"  ,y\n");
    assert_eq!(m.cells[0][0].raw, "\"x\"  ");
    assert_eq!(m.cells[0][0].value, "x");
}

#[test]
fn cell_at_prefers_the_first_of_touching_ranges() {
    let m = Model::parse("a,b\n");
    assert_eq!(m.cell_at(pos(0, 1)).unwrap().value, "a");
}

#[test]
fn column_values_are_sorted_and_distinct() {
    let m = Model::parse("k\nc\na\n\nb\na\n");
    let vals = m.column_values_excluding(0, None, true);
    assert_eq!(vals, vec!["a".to_string(), "b".to_string(), "c".to_string()]);
}
