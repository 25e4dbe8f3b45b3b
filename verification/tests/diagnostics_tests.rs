use bluecsv::columns::{settle_column, tally_model, ColumnType};
use bluecsv::diagnostics::{scan, scan_types, truncate_for_message, Severity};
use bluecsv::model::{Model, Position};

fn types_for(text: &str, has_header: bool) -> (Model, Vec<ColumnType>) {
    let m = Model::parse(text);
    let types = tally_model(&m, has_header)
        .iter()
        .map(|t| {
            let n = t.non_empty.len();
            let ok = n > 0 && t.best_count as f32 / n as f32 >= 0.9;
            settle_column(t, ok)
        })
        .collect();
    (m, types)
}

#[test]
fn clean_input_no_diagnostics() {
    assert!(scan("a,b,c\nd,e,f\n").is_empty());
}

#[test]
fn row_width_mismatch_flagged() {
    let diags = scan("a,b,c\nd,e\n");
    assert_eq!(diags.len(), 1);
    assert_eq!(diags[0].severity, Severity::Warning);
    assert_eq!(diags[0].range.start.line, 1);
}

#[test]
fn unterminated_quote_flagged() {
    let diags = scan("a,\"oops\nmore\n");
    assert_eq!(diags.len(), 1);
    assert_eq!(diags[0].severity, Severity::Error);
    assert_eq!(diags[0].range.start, Position::new(0, 2));
}

#[test]
fn blank_trailing_line_is_ignored() {
    assert!(scan("a,b\nc,d\n\n").is_empty());
}

#[test]
fn quoted_embedded_newline_does_not_break_rows() {
    assert!(scan("\"a\nb\",c\nd,e\n").is_empty());
}

#[test]
fn no_trailing_newline_still_counts_last_row() {
    let diags = scan("a,b\nc");
    assert_eq!(diags.len(), 1);
}

#[test]
fn type_mismatch_flags_outlier_in_int_column() {
    let (m, types) = types_for(
        "id,age\n1,30\n2,25\n3,42\n4,oops\n5,28\n6,31\n7,33\n8,29\n9,40\n10,19\n",
        true,
    );
    let diags = scan_types(&m, &types, true, Severity::Warning);
    assert_eq!(diags.len(), 1);
    assert!(diags[0].message.contains("int"));
    assert_eq!(diags[0].range.start.line, 4);
}

#[test]
fn string_columns_produce_no_diagnostics() {
    let (m, types) = types_for("name\nalice\nbob\ncarol\n", true);
    let diags = scan_types(&m, &types, true, Severity::Warning);
    assert!(diags.is_empty());
}

#[test]
fn int_cell_in_float_column_is_not_flagged() {
    let (m, types) = types_for(
        "price\n1.5\n2.5\n3\n4.25\n5.75\n6\n7.1\n8.2\n9\n10.3\n",
        true,
    );
    let diags = scan_types(&m, &types, true, Severity::Warning);
    assert!(diags.is_empty());
}

#[test]
fn empty_cells_are_never_flagged() {
    let (m, types) = types_for("id\n1\n\n3\n4\n\n6\n7\n8\n9\n10\n", true);
    let diags = scan_types(&m, &types, true, Severity::Warning);
    assert!(diags.is_empty());
}

// Further cases.

#[test]
fn width_warning_message_and_range() {
    let diags = scan("a,b,c\nd,e\n\"x\ny\"\n");
    assert_eq!(diags.len(), 2);
    assert_eq!(diags[0].message, "Row has 2 fields; expected 3.");
    assert_eq!(diags[0].range.start, Position::new(1, 0));
    assert_eq!(diags[0].range.end, Position::new(2, 0));
    assert_eq!(diags[1].message, "Row has 1 fields; expected 3.");
    assert_eq!(diags[1].range.start, Position::new(2, 0));
    assert_eq!(diags[1].range.end, Position::new(4, 0));
}

#[test]
fn unterminated_quote_message_and_end() {
    let diags = scan("a,b\nc,d,e\n\"x");
    assert_eq!(diags.len(), 1);
    assert_eq!(diags[0].message, "Unterminated quoted field.");
    assert_eq!(diags[0].range.start, Position::new(2, 0));
    assert_eq!(diags[0].range.end, Position::new(2, 2));
}

#[test]
fn leading_blank_lines_do_not_set_the_width() {
    assert!(scan("\n\na,b\nc,d\n").is_empty());
}

#[test]
fn mismatch_message_quotes_a_shortened_value() {
    let (m, types) = types_for(
        "n\n1\n2\n3\n4\n5\n6\n7\n8\n9\nabcdefghijklmnopqrstuvwxyz\n",
        true,
    );
    let diags = scan_types(&m, &types, true, Severity::Hint);
    assert_eq!(diags.len(), 1);
    assert_eq!(
        diags[0].message,
        "Value \"abcdefghijklmnopqrstuvwx\u{2026}\" doesn't match column type int."
    );
    assert_eq!(diags[0].severity, Severity::Hint);
}

#[test]
fn truncation_keeps_short_values() {
    let s: Vec<char> = "short".chars().collect();
    assert_eq!(truncate_for_message(&s), s);
    let long: Vec<char> = "x".repeat(25).chars().collect();
    let t: String = truncate_for_message(&long).into_iter().collect();
    assert_eq!(t, format!("{}\u{2026}", "x".repeat(24)));
}
