use bluecsv::columns::{settle_column, tally_column, tally_table, ColumnType};
use bluecsv::types::{classifiable, classify_cell, CellType};

fn confidence_reached(matched: usize, sampled: usize) -> bool {
    sampled > 0 && matched as f32 / sampled as f32 >= 0.9
}

fn column(vals: &[&str]) -> ColumnType {
    let values: Vec<(usize, Vec<char>)> = vals
        .iter()
        .enumerate()
        .map(|(i, v)| (i + 1, v.chars().collect()))
        .collect();
    let tally = tally_column(&values);
    let ok = confidence_reached(tally.best_count, tally.non_empty.len());
    settle_column(&tally, ok)
}

fn table(rows: &[&[&str]], has_header: bool) -> Vec<ColumnType> {
    let rows: Vec<Vec<String>> = rows
        .iter()
        .map(|r| r.iter().map(|s| s.to_string()).collect())
        .collect();
    tally_table(&rows, has_header)
        .iter()
        .map(|t| settle_column(t, confidence_reached(t.best_count, t.non_empty.len())))
        .collect()
}

#[test]
fn empty_and_whitespace() {
    assert_eq!(classify_cell(""), CellType::Empty);
    assert_eq!(classify_cell("   "), CellType::Empty);
    assert_eq!(classify_cell("\t"), CellType::Empty);
}

#[test]
fn ints() {
    assert_eq!(classify_cell("0"), CellType::Int);
    assert_eq!(classify_cell("42"), CellType::Int);
    assert_eq!(classify_cell("-17"), CellType::Int);
    assert_eq!(classify_cell("+5"), CellType::Int);
    assert_eq!(classify_cell("  99  "), CellType::Int);
}

#[test]
fn floats() {
    assert_eq!(classify_cell("1.5"), CellType::Float);
    assert_eq!(classify_cell("-0.1"), CellType::Float);
    assert_eq!(classify_cell("1e9"), CellType::Float);
    assert_eq!(classify_cell("1.2E-3"), CellType::Float);
    assert_eq!(classify_cell(".5"), CellType::Float);
}

#[test]
fn float_rejects_nan_inf_hex() {
    assert_eq!(classify_cell("NaN"), CellType::String);
    assert_eq!(classify_cell("inf"), CellType::String);
    assert_eq!(classify_cell("0x10"), CellType::String);
}

#[test]
fn int_not_classified_as_float() {
    assert_eq!(classify_cell("42"), CellType::Int);
}

#[test]
fn iso_dates() {
    assert_eq!(classify_cell("2024-01-15"), CellType::Date);
    assert_eq!(classify_cell("2024/01/15"), CellType::Date);
    assert_eq!(classify_cell("2024-01-15T09:30:00"), CellType::Date);
    assert_eq!(classify_cell("2024-01-15T09:30:00Z"), CellType::Date);
    assert_eq!(classify_cell("2024-01-15T09:30:00+05:30"), CellType::Date);
    assert_eq!(classify_cell("2024-01-15T09:30:00-08:00"), CellType::Date);
}

#[test]
fn not_dates() {
    assert_eq!(classify_cell("01/15/2024"), CellType::String);
    assert_eq!(classify_cell("15-01-2024"), CellType::String);
    assert_eq!(classify_cell("2024-1-15"), CellType::String);
    assert_eq!(classify_cell("2024-01-15T09:30"), CellType::String);
    assert_eq!(classify_cell("2024-01-15 09:30:00"), CellType::String);
}

#[test]
fn mixed_separators_rejected() {
    assert_eq!(classify_cell("2024-01/15"), CellType::String);
}

#[test]
fn arbitrary_strings() {
    assert_eq!(classify_cell("alice"), CellType::String);
    assert_eq!(classify_cell("a1b2"), CellType::String);
    assert_eq!(classify_cell("true"), CellType::String);
}

#[test]
fn all_ints_is_int_column() {
    let c = column(&["1", "2", "3", "4"]);
    assert_eq!(c.primary, CellType::Int);
    assert_eq!(c.empty_count, 0);
    assert!(c.mismatch_rows.is_empty());
}

#[test]
fn int_plus_float_promotes_to_float() {
    let c = column(&["1", "2.5", "3", "4.25"]);
    assert_eq!(c.primary, CellType::Float);
    assert!(c.mismatch_rows.is_empty());
}

#[test]
fn empty_cells_do_not_count_against_type() {
    let c = column(&["1", "", "2", "", "3"]);
    assert_eq!(c.primary, CellType::Int);
    assert_eq!(c.empty_count, 2);
    assert!(c.mismatch_rows.is_empty());
}

#[test]
fn outlier_is_flagged_when_column_typed() {
    let mut vals: Vec<&str> = (0..9).map(|_| "1").collect();
    vals.push("oops");
    let c = column(&vals);
    assert_eq!(c.primary, CellType::Int);
    assert_eq!(c.mismatch_rows, vec![10]);
}

#[test]
fn below_threshold_becomes_string_no_warnings() {
    let c = column(&["1", "2", "oops"]);
    assert_eq!(c.primary, CellType::String);
    assert!(c.mismatch_rows.is_empty());
}

#[test]
fn fewer_than_three_rows_stays_string() {
    let c = column(&["1", "2"]);
    assert_eq!(c.primary, CellType::String);
    assert!(c.mismatch_rows.is_empty());
}

#[test]
fn all_empty_column() {
    let c = column(&["", "", ""]);
    assert_eq!(c.primary, CellType::Empty);
    assert_eq!(c.empty_count, 3);
}

#[test]
fn infer_table_skips_header() {
    let cols = table(
        &[
            &["id", "when"],
            &["1", "2024-01-01"],
            &["2", "2024-02-01"],
            &["3", "2024-03-01"],
        ],
        true,
    );
    assert_eq!(cols.len(), 2);
    assert_eq!(cols[0].primary, CellType::Int);
    assert_eq!(cols[1].primary, CellType::Date);
}

#[test]
fn infer_table_without_header_uses_row_zero() {
    let cols = table(&[&["1"], &["2"], &["3"], &["4"]], false);
    assert_eq!(cols[0].primary, CellType::Int);
}

#[test]
fn infer_table_handles_ragged_rows() {
    let cols = table(&[&["a", "b", "c"], &["1"], &["2", "x"], &["3", "y", "z"]], true);
    assert_eq!(cols.len(), 3);
}

// Further cases.

#[test]
fn labels_name_each_kind() {
    assert_eq!(CellType::Empty.label(), "empty");
    assert_eq!(CellType::Int.label(), "int");
    assert_eq!(CellType::Float.label(), "float");
    assert_eq!(CellType::Date.label(), "date");
    assert_eq!(CellType::String.label(), "string");
}

#[test]
fn float_shapes_agree_with_std_parsing() {
    let samples = [
        "1.", ".5", "5.", "1e5", "1E+5", "1e-5", "-.5", "+.5e2", ".", "e5", "1e", "1e+", "1.2.3",
        "1..2", "--1", "+-1", "1e5e5", "1.5E", "12", "-", "+", ".e1", "1.e1", "0.0", "00.00",
        "1-2", "1+2", "e", "E1", "1.5e1.5", "9e99999", "-0", "1_000",
    ];
    for s in samples {
        let expected_float = s.parse::<i64>().is_err()
            && s.bytes().all(|b| b.is_ascii_digit() || b"+-.eE".contains(&b))
            && s.parse::<f64>().is_ok();
        let got = classify_cell(s);
        if got == CellType::Int {
            assert!(
                s.trim_start_matches(['+', '-']).bytes().all(|b| b.is_ascii_digit()),
                "{s}"
            );
        } else {
            assert_eq!(got == CellType::Float, expected_float, "{s}");
        }
    }
}

#[test]
fn timestamp_offsets() {
    assert_eq!(classify_cell("2024-01-15T09:30:00+0530"), CellType::String);
    assert_eq!(classify_cell("2024-01-15T09:30:00ZZ"), CellType::String);
    assert_eq!(classify_cell("2024-01-15T9:30:00Z"), CellType::String);
    assert_eq!(classify_cell("2024-01-15T"), CellType::String);
    assert_eq!(classify_cell(" 2024-01-15T09:30:00Z "), CellType::Date);
}

#[test]
fn cells_that_cannot_be_classified() {
    assert!(!classifiable("2024-01-15T\u{e9}12345"));
    assert!(classifiable("2024-01-15T\u{e9}1234"));
    assert!(classifiable("2024-01-15T\u{e9}12345Z"));
    assert!(classifiable("x\u{e9}12345"));
    assert!(classifiable("2024-01-15T09:30:00"));
    assert_eq!(classify_cell("2024-01-15T\u{e9}1234"), CellType::String);
}

#[test]
fn tally_counts_and_best_kind() {
    let values: Vec<(usize, Vec<char>)> = ["1", "", "x", "2.5", "2024-01-01", "3"]
        .iter()
        .enumerate()
        .map(|(i, v)| (i, v.chars().collect()))
        .collect();
    let t = tally_column(&values);
    assert_eq!(t.empty_count, 1);
    assert_eq!(
        t.non_empty,
        vec![
            (0, CellType::Int),
            (2, CellType::String),
            (3, CellType::Float),
            (4, CellType::Date),
            (5, CellType::Int)
        ]
    );
    assert_eq!(t.best, CellType::Float);
    assert_eq!(t.best_count, 3);
    let c = settle_column(&t, true);
    assert_eq!(c.primary, CellType::Float);
    assert_eq!(c.mismatch_rows, vec![2, 4]);
    assert_eq!(c.matched, 3);
    assert_eq!(c.sampled, 5);
    let c = settle_column(&t, false);
    assert_eq!(c.primary, CellType::String);
    assert!(c.mismatch_rows.is_empty());
}

#[test]
fn ties_go_to_the_earlier_kind() {
    let values: Vec<(usize, Vec<char>)> = ["2024-01-01", "x", "2024-01-02", "y"]
        .iter()
        .enumerate()
        .map(|(i, v)| (i, v.chars().collect()))
        .collect();
    let t = tally_column(&values);
    assert_eq!(t.best, CellType::Date);
    assert_eq!(t.best_count, 2);
}
