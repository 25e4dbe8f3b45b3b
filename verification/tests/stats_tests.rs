use bluecsv::stats::{summarize_values, ValueSummary};
use bluecsv::types::CellType;

struct Stats {
    summary: ValueSummary,
    min: Option<String>,
    max: Option<String>,
    sum: Option<f64>,
    mean: Option<f64>,
}

fn format_number(n: f64, ty: CellType) -> String {
    if ty == CellType::Int && n.fract() == 0.0 && n.abs() < 1e16 {
        format!("{}", n as i64)
    } else {
        format!("{n}")
    }
}

fn stats(vals: &[&str], ty: CellType) -> Stats {
    let values: Vec<String> = vals.iter().map(|s| s.to_string()).collect();
    let summary = summarize_values(&values, ty);
    let numbers: Vec<f64> = summary.numbers.iter().filter_map(|s| s.parse::<f64>().ok()).collect();
    let numeric = ty == CellType::Int || ty == CellType::Float;
    let (min, max, sum, mean) = if numeric && !numbers.is_empty() {
        let lo = numbers.iter().copied().fold(f64::INFINITY, f64::min);
        let hi = numbers.iter().copied().fold(f64::NEG_INFINITY, f64::max);
        let s: f64 = numbers.iter().sum();
        (
            Some(format_number(lo, ty)),
            Some(format_number(hi, ty)),
            Some(s),
            Some(s / numbers.len() as f64),
        )
    } else {
        (summary.min.clone(), summary.max.clone(), None, None)
    };
    Stats { summary, min, max, sum, mean }
}

#[test]
fn int_column_stats() {
    let s = stats(&["1", "2", "3", "4"], CellType::Int);
    assert_eq!(s.summary.count, 4);
    assert_eq!(s.summary.distinct.len(), 4);
    assert_eq!(s.min.as_deref(), Some("1"));
    assert_eq!(s.max.as_deref(), Some("4"));
    assert_eq!(s.sum, Some(10.0));
    assert_eq!(s.mean, Some(2.5));
}

#[test]
fn float_column_stats() {
    let s = stats(&["1.5", "2.5", "3.0"], CellType::Float);
    assert_eq!(s.summary.count, 3);
    assert_eq!(s.sum, Some(7.0));
    assert_eq!(s.mean, Some(7.0 / 3.0));
    assert_eq!(s.min.as_deref(), Some("1.5"));
    assert_eq!(s.max.as_deref(), Some("3"));
}

#[test]
fn date_column_stats_lexical() {
    let s = stats(&["2024-03-01", "2024-01-15", "2024-02-10"], CellType::Date);
    assert_eq!(s.min.as_deref(), Some("2024-01-15"));
    assert_eq!(s.max.as_deref(), Some("2024-03-01"));
    assert_eq!(s.sum, None);
    assert_eq!(s.mean, None);
}

#[test]
fn string_column_stats() {
    let s = stats(&["banana", "apple", "cherry"], CellType::String);
    assert_eq!(s.min.as_deref(), Some("apple"));
    assert_eq!(s.max.as_deref(), Some("cherry"));
    assert_eq!(s.summary.distinct.len(), 3);
}

#[test]
fn empties_counted_separately() {
    let s = stats(&["1", "", "2", ""], CellType::Int);
    assert_eq!(s.summary.count, 2);
    assert_eq!(s.summary.empty, 2);
    assert_eq!(s.summary.distinct.len(), 2);
}

#[test]
fn distinct_deduplicates() {
    let s = stats(&["a", "a", "b", "a"], CellType::String);
    assert_eq!(s.summary.count, 4);
    assert_eq!(s.summary.distinct.len(), 2);
}

#[test]
fn all_empty() {
    let s = stats(&["", "", ""], CellType::Empty);
    assert_eq!(s.summary.count, 0);
    assert_eq!(s.summary.empty, 3);
    assert_eq!(s.min, None);
    assert_eq!(s.max, None);
}

#[test]
fn outlier_string_in_int_column_ignored_for_numeric_stats() {
    let s = stats(&["1", "2", "oops", "4"], CellType::Int);
    assert_eq!(s.sum, Some(7.0));
    assert_eq!(s.summary.count, 4);
    assert_eq!(s.summary.distinct.len(), 4);
}

// Further cases.

#[test]
fn values_are_trimmed_before_counting() {
    let values: Vec<String> = vec![" b ".into(), "b".into(), "\t".into(), "a".into()];
    let s = summarize_values(&values, CellType::String);
    assert_eq!(s.count, 3);
    assert_eq!(s.empty, 1);
    assert_eq!(s.distinct, vec!["a".to_string(), "b".to_string()]);
    assert_eq!(s.min.as_deref(), Some("a"));
    assert_eq!(s.max.as_deref(), Some("b"));
    assert!(s.numbers.is_empty());
}

#[test]
fn numeric_columns_hand_back_their_values() {
    let values: Vec<String> = vec![" 3 ".into(), "".into(), "x".into(), "1.5".into()];
    let s = summarize_values(&values, CellType::Float);
    assert_eq!(s.numbers, vec!["3".to_string(), "x".to_string(), "1.5".to_string()]);
    assert_eq!(s.min, None);
    assert_eq!(s.max, None);
}
