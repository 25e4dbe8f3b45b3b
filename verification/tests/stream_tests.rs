use bluecsv::csv::{align, unalign};
use bluecsv::stream::{AlignWriter, Event, StreamReader, UnalignWriter, WidthTally};

fn chunks(input: &str, size: usize) -> Vec<String> {
    let chars: Vec<char> = input.chars().collect();
    chars.chunks(size).map(|c| c.iter().collect()).collect()
}

fn events(input: &str, size: usize) -> Vec<Event> {
    let mut reader = StreamReader::new();
    let mut out = Vec::new();
    for chunk in chunks(input, size) {
        out.extend(reader.feed(&chunk));
    }
    out.extend(reader.finish());
    out
}

fn run_unalign(input: &str) -> String {
    let mut w = UnalignWriter::new();
    let mut out = String::new();
    for ev in events(input, 3) {
        out.push_str(&w.write(&ev));
    }
    out
}

fn run_align(input: &str) -> String {
    let mut tally = WidthTally::new();
    for ev in events(input, 3) {
        tally.observe(&ev);
    }
    let mut w = AlignWriter::new(tally.widths.clone());
    let mut out = String::new();
    for ev in events(input, 4) {
        out.push_str(&w.write(&ev));
    }
    out
}

#[test]
fn unalign_simple() {
    let aligned = "id,name \n1 ,Alice\n22,Bob  \n";
    assert_eq!(run_unalign(aligned), unalign(aligned));
}

#[test]
fn unalign_no_trailing_newline() {
    let aligned = "id,name \n1 ,Alice\n22,Bob  ";
    assert_eq!(run_unalign(aligned), unalign(aligned));
}

#[test]
fn align_simple() {
    let input = "id,name\n1,Alice\n22,Bob\n";
    assert_eq!(run_align(input), align(input));
}

#[test]
fn align_no_trailing_newline() {
    let input = "id,name\n1,Alice\n22,Bob";
    assert_eq!(run_align(input), align(input));
}

#[test]
fn align_quoted_with_comma() {
    let input = "a,\"b,c\"\nxx,y\n";
    assert_eq!(run_align(input), align(input));
}

#[test]
fn align_embedded_newline_in_quoted() {
    let input = "\"a\nb\",c\nxx,yy\n";
    assert_eq!(run_align(input), align(input));
}

#[test]
fn align_crlf() {
    let input = "a,b\r\nc,d\r\n";
    assert_eq!(run_align(input), align(input));
}

#[test]
fn unalign_ragged_rows() {
    let input = "a,b,c\nd,e\nf\n";
    assert_eq!(run_unalign(input), unalign(input));
}

#[test]
fn align_empty_fields() {
    let input = "a,,c\n,,\nx,y,z\n";
    assert_eq!(run_align(input), align(input));
}

#[test]
fn align_escaped_quotes() {
    let input = "\"a\"\"b\",c\nx,y\n";
    assert_eq!(run_align(input), align(input));
}

// Further cases.

#[test]
fn events_do_not_depend_on_chunking() {
    let input = "a,\"b\r\nc\",d\r\ne,f\rg";
    let whole: Vec<String> = events(input, 1000).iter().map(describe).collect();
    for size in 1..8 {
        let split: Vec<String> = events(input, size).iter().map(describe).collect();
        assert_eq!(split, whole);
    }
    assert_eq!(
        whole,
        vec![
            "F:a", "F:\"b\r\nc\"", "F:d", "E:true", "B:\r", "B:\n", "F:e", "F:f", "E:true", "B:\r", "F:g",
            "E:false"
        ]
    );
}

fn describe(ev: &Event) -> String {
    match ev {
        Event::Field(f) => format!("F:{f}"),
        Event::RowEnd(nl) => format!("E:{nl}"),
        Event::LineBreak(c) => format!("B:{c}"),
    }
}

#[test]
fn carriage_return_at_the_end_keeps_its_line_break() {
    assert_eq!(run_unalign("a \r"), "a\r");
    assert_eq!(run_align("ab,c\rd\r"), "ab,c\rd \r");
    assert_eq!(run_align("ab,c\rd\r"), align("ab,c\rd\r"));
}

#[test]
fn empty_input_writes_nothing() {
    assert_eq!(run_unalign(""), "");
    assert_eq!(run_align(""), "");
}

#[test]
fn line_breaks_are_written_as_read() {
    let input = "ab,c\r\nd \re,f\n\"g\r\nh\"";
    assert_eq!(run_unalign(input), unalign(input));
    assert_eq!(run_align(input), align(input));
    assert_eq!(run_unalign(input), "ab,c\r\nd\re,f\n\"g\r\nh\"");
}
