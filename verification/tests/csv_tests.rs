use bluecsv::csv::{align, parse, parse_chars, serialize, unalign};

#[test]
fn parses_simple_rows() {
    let rows = parse("a,b,c\nd,e,f\n");
    assert_eq!(rows, vec![vec!["a", "b", "c"], vec!["d", "e", "f"]]);
}

#[test]
fn parses_quoted_field_with_comma() {
    let rows = parse("a,\"b,c\",d\n");
    assert_eq!(rows, vec![vec!["a", "\"b,c\"", "d"]]);
}

#[test]
fn parses_escaped_quote() {
    let rows = parse("\"he said \"\"hi\"\"\",x\n");
    assert_eq!(rows, vec![vec!["\"he said \"\"hi\"\"\"", "x"]]);
}

#[test]
fn parses_embedded_newline_in_quoted() {
    let rows = parse("\"line1\nline2\",x\n");
    assert_eq!(rows, vec![vec!["\"line1\nline2\"", "x"]]);
}

#[test]
fn lib_parses_crlf() {
    let rows = parse("a,b\r\nc,d\r\n");
    assert_eq!(rows, vec![vec!["a", "b"], vec!["c", "d"]]);
}

#[test]
fn parses_trailing_empty_field() {
    let rows = parse("a,b,\n");
    assert_eq!(rows, vec![vec!["a", "b", ""]]);
}

#[test]
fn parses_no_trailing_newline() {
    let rows = parse("a,b");
    assert_eq!(rows, vec![vec!["a", "b"]]);
}

#[test]
fn align_pads_to_column_width() {
    let input = "id,name\n1,Alice\n22,Bob\n";
    let expected = "id,name \n1 ,Alice\n22,Bob  \n";
    assert_eq!(align(input), expected);
}

#[test]
fn align_preserves_quoted_fields() {
    let input = "a,\"b,c\"\nxx,y\n";
    let expected = "a ,\"b,c\"\nxx,y    \n";
    assert_eq!(align(input), expected);
}

#[test]
fn align_preserves_trailing_newline_absence() {
    let out = align("a,b\nc,d");
    assert!(!out.ends_with('\n'));
}

#[test]
fn unalign_strips_trailing_spaces() {
    let aligned = "id,name \n1 ,Alice\n22,Bob  \n";
    let expected = "id,name\n1,Alice\n22,Bob\n";
    assert_eq!(unalign(aligned), expected);
}

#[test]
fn round_trip_basic() {
    let canonical = "id,name,email\n1,Alice,a@x\n22,Bob,b@x\n";
    assert_eq!(unalign(&align(canonical)), canonical);
}

#[test]
fn round_trip_with_quoted_and_embedded_comma() {
    let canonical = "a,\"b,c\",d\nxx,\"y\",zz\n";
    assert_eq!(unalign(&align(canonical)), canonical);
}

#[test]
fn round_trip_with_ragged_rows() {
    let canonical = "a,b,c\nd,e\nf\n";
    assert_eq!(unalign(&align(canonical)), canonical);
}

#[test]
fn round_trip_empty_fields() {
    let canonical = "a,,c\n,,\nx,y,z\n";
    assert_eq!(unalign(&align(canonical)), canonical);
}

#[test]
fn round_trip_escaped_quotes() {
    let canonical = "\"a\"\"b\",c\nx,y\n";
    assert_eq!(unalign(&align(canonical)), canonical);
}

#[test]
fn round_trip_no_trailing_newline() {
    let canonical = "a,b\nc,d";
    assert_eq!(unalign(&align(canonical)), canonical);
}

// Edge cases of the reader.

#[test]
fn parses_empty_input_as_no_rows() {
    assert!(parse("").is_empty());
}

#[test]
fn parses_blank_line_as_one_empty_field() {
    assert_eq!(parse("\n"), vec![vec![""]]);
}

#[test]
fn parses_lone_comma_as_two_empty_fields() {
    assert_eq!(parse(","), vec![vec!["", ""]]);
}

#[test]
fn parses_bare_carriage_return_as_line_break() {
    assert_eq!(parse("a\rb"), vec![vec!["a"], vec!["b"]]);
}

#[test]
fn parses_text_after_closing_quote_into_the_field() {
    assert_eq!(parse("\"a\"  ,b"), vec![vec!["\"a\"  ", "b"]]);
}

#[test]
fn parses_unterminated_quote_to_end_of_input() {
    assert_eq!(parse("x,\"a\nb"), vec![vec!["x", "\"a\nb"]]);
}

#[test]
fn align_counts_characters_not_bytes() {
    assert_eq!(align("é,x\nab,y\n"), "é ,x\nab,y\n");
}

#[test]
fn align_of_empty_input_is_empty() {
    assert_eq!(align(""), "");
    assert_eq!(unalign(""), "");
}

#[test]
fn unalign_is_noop_on_unpadded_text() {
    let text = "id,name\n1,Alice\n";
    assert_eq!(unalign(text), text);
}

#[test]
fn aligned_columns_line_up() {
    let out = align("a,bbb\ncc,d\n");
    let rows = parse(&out);
    for row in &rows {
        assert_eq!(row[0].chars().count(), 2);
        assert_eq!(row[1].chars().count(), 3);
    }
}

#[test]
fn aligning_twice_is_aligning_once() {
    for input in ["a,bb\nccc,d\n", "\"x,y\",z\ne\n", "a,,c\n,,\nx,y,z", "id , n\n1,Alice  \n"] {
        let once = align(input);
        assert_eq!(align(&once), once);
    }
}

#[test]
fn unalign_after_align_is_unalign() {
    for input in ["a ,b\nccc,d  \n", "\"q\"  ,r\ns,t", "x\n"] {
        assert_eq!(unalign(&align(input)), unalign(input));
    }
}

#[test]
fn unalign_keeps_crlf_line_breaks() {
    assert_eq!(unalign("a\r\n"), "a\r\n");
    assert_eq!(unalign("a ,b\r\nc,d  \r\n"), "a,b\r\nc,d\r\n");
    assert_eq!(unalign("x\ry \r"), "x\ry\r");
}

#[test]
fn align_keeps_crlf_line_breaks() {
    assert_eq!(align("a,bb\r\nccc,d\r\n"), "a  ,bb\r\nccc,d \r\n");
    let c = "id,name\r\n1,Alice\r\n22,Bob\r\n";
    assert_eq!(unalign(&align(c)), c);
}

#[test]
fn never_aligned_text_is_unchanged_by_unalign() {
    for c in ["a,b\nc", "\"q, r\",s\r\n", "\"open\nquote", "a\r\r\nb\n\n"] {
        assert_eq!(unalign(c), c);
    }
}

#[test]
fn writing_back_parsed_rows_gives_the_text() {
    for c in ["a,b\nc\n", "x,\"y,z\"\n\"q\nr\",s", "", "\n\n", ",\n\"a\"\"b\" ,c"] {
        let chars: Vec<char> = c.chars().collect();
        let rows = parse_chars(&chars);
        assert_eq!(serialize(&rows, c.ends_with('\n')), c);
    }
}

#[test]
fn align_laws_hold_with_any_line_breaks() {
    for c in ["a,bb\r\nccc,d\r\n", "x\ry ,z\r", "\"q\r\nr\",s\n,\r\n", "a,b\nc"] {
        let once = align(c);
        assert_eq!(align(&once), once);
        assert_eq!(unalign(&once), unalign(c));
        assert_eq!(parse(&once).len(), parse(c).len());
    }
}
