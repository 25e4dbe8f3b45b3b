use bluecsv::markdown::{from_markdown_table, to_markdown_table};
use bluecsv::model::canonical;
use bluecsv::transforms::{
    add_column, delete_column, duplicate_row, quote_field, sort_by_column,
};

#[test]
fn add_column_appends_empty_field_and_generated_header() {
    let out = add_column("id,name\n1,alice\n2,bob\n", true);
    assert_eq!(out, "id,name,column_3\n1,alice,\n2,bob,\n");
}

#[test]
fn add_column_without_header_appends_empty_everywhere() {
    let out = add_column("1,alice\n2,bob\n", false);
    assert_eq!(out, "1,alice,\n2,bob,\n");
}

#[test]
fn add_column_pads_ragged_rows_before_appending() {
    let out = add_column("a,b,c\nd,e\n", false);
    assert_eq!(out, "a,b,c,\nd,e,,\n");
}

#[test]
fn delete_column_removes_field_from_every_row() {
    let out = delete_column("id,name,email\n1,alice,a@x\n2,bob,b@x\n", 1);
    assert_eq!(out, "id,email\n1,a@x\n2,b@x\n");
}

#[test]
fn delete_column_out_of_range_is_noop() {
    let input = "a,b\nc,d\n";
    assert_eq!(delete_column(input, 5), input);
}

#[test]
fn duplicate_row_inserts_copy_after_target() {
    let out = duplicate_row("id,name\n1,alice\n2,bob\n", 1);
    assert_eq!(out, "id,name\n1,alice\n1,alice\n2,bob\n");
}

#[test]
fn duplicate_row_out_of_range_is_noop() {
    let input = "a\nb\n";
    assert_eq!(duplicate_row(input, 9), input);
}

#[test]
fn sort_by_column_preserves_header_and_sorts_ascending() {
    let out = sort_by_column("name\ncarol\nalice\nbob\n", 0, true, true);
    assert_eq!(out, "name\nalice\nbob\ncarol\n");
}

#[test]
fn sort_by_column_descending() {
    let out = sort_by_column("name\ncarol\nalice\nbob\n", 0, false, true);
    assert_eq!(out, "name\ncarol\nbob\nalice\n");
}

#[test]
fn sort_by_column_uses_canonical_value_through_quotes_and_padding() {
    let out = sort_by_column("name\n\"carol\"\nalice \nbob\n", 0, true, true);
    assert_eq!(out, "name\nalice \nbob\n\"carol\"\n");
}

#[test]
fn sort_by_column_without_header_sorts_every_row() {
    let out = sort_by_column("b\na\nc\n", 0, true, false);
    assert_eq!(out, "a\nb\nc\n");
}

#[test]
fn preserves_trailing_newline_absence() {
    let out = add_column("a,b", false);
    assert!(!out.ends_with('\n'));
}

#[test]
fn quote_field_wraps_and_doubles_embedded_quotes() {
    assert_eq!(quote_field("abc"), "\"abc\"");
    assert_eq!(quote_field("a\"b"), "\"a\"\"b\"");
    assert_eq!(quote_field("a,b"), "\"a,b\"");
}

#[test]
fn to_markdown_table_basic() {
    let out = to_markdown_table("id,name\n1,alice\n22,bob\n");
    let expected = "\
| id  | name  |
| --- | ----- |
| 1   | alice |
| 22  | bob   |
";
    assert_eq!(out, expected);
}

#[test]
fn to_markdown_table_pads_ragged_rows() {
    let out = to_markdown_table("a,b,c\nd,e\n");
    let expected = "\
| a   | b   | c   |
| --- | --- | --- |
| d   | e   |     |
";
    assert_eq!(out, expected);
}

#[test]
fn to_markdown_table_escapes_pipes_and_newlines() {
    let out = to_markdown_table("x\n\"a|b\"\n\"a\nb\"\n");
    let expected = "\
| x      |
| ------ |
| a\\|b   |
| a<br>b |
";
    assert_eq!(out, expected);
}

#[test]
fn from_markdown_table_basic() {
    let md = "\
| id  | name  |
| --- | ----- |
| 1   | alice |
| 22  | bob   |
";
    assert_eq!(from_markdown_table(md), "id,name\n1,alice\n22,bob\n");
}

#[test]
fn from_markdown_table_tolerates_alignment_colons() {
    let md = "| a | b |\n| :-- | ---: |\n| 1 | 2 |\n";
    assert_eq!(from_markdown_table(md), "a,b\n1,2\n");
}

#[test]
fn from_markdown_table_tolerates_missing_outer_pipes() {
    let md = "a | b\n--- | ---\n1 | 2\n";
    assert_eq!(from_markdown_table(md), "a,b\n1,2\n");
}

#[test]
fn from_markdown_table_csv_quotes_when_needed() {
    let md = "| a | b |\n| --- | --- |\n| 1 | has, comma |\n| 2 | has \"quote\" |\n";
    assert_eq!(
        from_markdown_table(md),
        "a,b\n1,\"has, comma\"\n2,\"has \"\"quote\"\"\"\n"
    );
}

#[test]
fn from_markdown_table_restores_pipes_and_newlines() {
    let md = "| a    |\n| ---- |\n| a\\|b |\n| a<br>b |\n";
    assert_eq!(from_markdown_table(md), "a\na|b\n\"a\nb\"\n");
}

#[test]
fn round_trip_csv_md_csv_simple() {
    let csv = "id,name,email\n1,alice,a@x\n22,bob,b@x\n";
    let back = from_markdown_table(&to_markdown_table(csv));
    assert_eq!(back, csv);
}

#[test]
fn round_trip_csv_md_csv_canonicalizes_unnecessary_quotes() {
    let csv = "a,b\n\"x|y\",\"m\nn\"\n";
    let back = from_markdown_table(&to_markdown_table(csv));
    assert_eq!(back, "a,b\nx|y,\"m\nn\"\n");
}

#[test]
fn round_trip_lossy_trims_field_whitespace() {
    let csv = "a,b\n\"  x  \",y\n";
    let back = from_markdown_table(&to_markdown_table(csv));
    assert_eq!(back, "a,b\nx,y\n");
}

// Further cases.

#[test]
fn canonical_strips_quotes_and_padding() {
    assert_eq!(canonical("\"a\"\"b\"  "), "a\"b");
    assert_eq!(canonical("  \"a\"  "), "  \"a\"");
    assert_eq!(canonical(" plain "), " plain");
    assert_eq!(canonical(""), "");
}

#[test]
fn add_column_on_empty_input_is_unchanged() {
    assert_eq!(add_column("", true), "");
}

#[test]
fn delete_column_keeps_short_rows() {
    assert_eq!(delete_column("a,b,c\nd\n", 2), "a,b\nd\n");
}

#[test]
fn duplicate_row_without_trailing_newline() {
    assert_eq!(duplicate_row("a\nb", 1), "a\nb\nb");
}

#[test]
fn sort_by_column_is_stable_for_equal_keys() {
    let out = sort_by_column("k,v\nb,1\na,2\nb,3\na,4\n", 0, true, true);
    assert_eq!(out, "k,v\na,2\na,4\nb,1\nb,3\n");
    let out = sort_by_column("k,v\nb,1\na,2\nb,3\na,4\n", 0, false, true);
    assert_eq!(out, "k,v\nb,1\nb,3\na,2\na,4\n");
}

#[test]
fn sort_by_column_missing_field_sorts_as_empty() {
    let out = sort_by_column("b,1\na\nc,2\n", 1, true, false);
    assert_eq!(out, "a\nb,1\nc,2\n");
}

#[test]
fn from_markdown_table_skips_lines_without_pipes() {
    let md = "Title\n\n| a |\n| - |\n| 1 |\n";
    assert_eq!(from_markdown_table(md), "a\n1\n");
}

#[test]
fn to_markdown_table_of_empty_input_is_empty() {
    assert_eq!(to_markdown_table(""), "");
}

#[test]
fn quoted_field_reads_back_as_its_text() {
    for raw in ["abc", "a\"b", "\"\"", "", "a,b", " x "] {
        assert_eq!(canonical(&quote_field(raw)), raw);
    }
}

#[test]
fn round_trip_csv_md_csv_keeps_pipes_and_line_feeds() {
    let csv = "a,b\nx|y,\"m\nn\"\n\"p,q\",\"say \"\"hi\"\"\"\n";
    assert_eq!(from_markdown_table(&to_markdown_table(csv)), csv);
}

#[test]
fn round_trip_csv_md_csv_drops_dash_rows() {
    // A row of dashes reads back as a separator row, so it is not kept.
    let csv = "a\n---\nb\n";
    assert_eq!(from_markdown_table(&to_markdown_table(csv)), "a\nb\n");
}
