//! Problems found in a CSV buffer: an unterminated quoted field, rows whose
//! width differs from the first row's, and cells whose kind does not fit
//! their column's.

use vstd::prelude::*;
use crate::text::{chars_of, push_all, push_char, push_decimal, decimal, slice_chars, push_text};
use crate::csv::{Mode, Act, Scan, next_mode, next_mode_exec, scan_from, fresh, csv_rows, advance};
use crate::model::{
    Position, Range, Cell, Model, pos_after, utf16_len, spans_of, spans_step, field_spans, spans_match,
    Spans, lemma_pos_bound, lemma_utf16_len_prefix,
};
use crate::types::{CellType, cell_type, classify_panics, classify_chars};
use crate::columns::{ColumnType, fits, matches_as, header_skip, out_of_place};

verus! {

/// How serious a problem is.
#[derive(Clone, Copy, Debug, PartialEq, Eq, Structural)]
pub enum Severity {
    Error,
    Warning,
    Information,
    Hint,
}

/// A problem at a place in the buffer.
#[derive(Clone, Debug)]
pub struct Diagnostic {
    pub range: Range,
    pub severity: Severity,
    pub message: String,
}

impl View for Diagnostic {
    type V = (Range, Severity, Seq<char>);

    open spec fn view(&self) -> (Range, Severity, Seq<char>) {
        (self.range, self.severity, self.message@)
    }
}

/// The line of the character at index `k` of `s`.
pub open spec fn line_at(s: Seq<char>, k: int) -> nat {
    pos_after(s.take(k)).0
}

/// A row holds something: a delimiter, or a non-empty field.
pub open spec fn has_content(row: Seq<Seq<char>>) -> bool {
    row.len() > 1 || (row.len() == 1 && row[0].len() > 0)
}

/// The width of the first row that holds something.
pub open spec fn baseline(rows: Seq<Seq<Seq<char>>>) -> Option<nat>
    decreases rows.len(),
{
    if rows.len() == 0 {
        None
    } else {
        let b = baseline(rows.drop_last());
        if b is Some {
            b
        } else if has_content(rows.last()) {
            Some(rows.last().len())
        } else {
            None
        }
    }
}

/// `n + 1`, or the largest `u32` when that does not fit.
pub open spec fn next_line(n: nat) -> u32 {
    if n + 1 > u32::MAX { u32::MAX } else { (n + 1) as u32 }
}

/// The message for a row of `n` fields where `expected` were expected.
pub open spec fn width_message(n: nat, expected: nat) -> Seq<char> {
    "Row has "@ + decimal(n) + " fields; expected "@ + decimal(expected) + "."@
}

/// The warning for row `i` of `s`, which has a width other than `expected`:
/// it covers the row's lines, from the start of its first line to the start
/// of the line after its last.
pub open spec fn width_warning(s: Seq<char>, i: int, expected: nat) -> (Range, Severity, Seq<char>) {
    let sp = field_spans(s)[i];
    let first = line_at(s, sp[0].0);
    let last = line_at(s, sp.last().1);
    (
        Range {
            start: Position { line: first as u32, character: 0 },
            end: Position { line: next_line(last), character: 0 },
        },
        Severity::Warning,
        width_message(csv_rows(s)[i].len(), expected),
    )
}

/// The width warnings for the first `n` rows of `s`, row by row.
pub open spec fn width_warnings(s: Seq<char>, expected: nat, n: int) -> Seq<(Range, Severity, Seq<char>)>
    decreases n,
{
    if n <= 0 {
        seq![]
    } else {
        let prev = width_warnings(s, expected, n - 1);
        let row = csv_rows(s)[n - 1];
        if has_content(row) && row.len() != expected {
            prev.push(width_warning(s, n - 1, expected))
        } else {
            prev
        }
    }
}

/// The message for a quoted field that is never closed.
pub open spec fn unterminated_message() -> Seq<char> {
    "Unterminated quoted field."@
}

/// What [`scan`] reports on `s`: when the text ends inside a quoted field,
/// one error from its opening quote to the end of the text, and nothing
/// else; otherwise a warning for each row that holds something and whose
/// width differs from that of the first such row.
pub open spec fn scan_findings(s: Seq<char>) -> Seq<(Range, Severity, Seq<char>)> {
    if scan_from(fresh(), s).mode == Mode::Quoted {
        let q = pos_after(s.take(spans_of(s).start));
        let e = pos_after(s);
        seq![(
            Range {
                start: Position { line: q.0 as u32, character: q.1 as u32 },
                end: Position { line: e.0 as u32, character: e.1 as u32 },
            },
            Severity::Error,
            unterminated_message(),
        )]
    } else {
        match baseline(csv_rows(s)) {
            None => seq![],
            Some(b) => width_warnings(s, b, csv_rows(s).len() as int),
        }
    }
}

proof fn lemma_baseline_none(rows: Seq<Seq<Seq<char>>>)
    requires
        forall|i: int| 0 <= i < rows.len() ==> !has_content(#[trigger] rows[i]),
    ensures
        baseline(rows) is None,
    decreases rows.len(),
{
    if rows.len() > 0 {
        let rp = rows.drop_last();
        assert forall|i: int| 0 <= i < rp.len() implies !has_content(#[trigger] rp[i]) by {
            assert(rp[i] == rows[i]);
        }
        lemma_baseline_none(rp);
        assert(rows.last() == rows[rows.len() - 1]);
    }
}

proof fn lemma_baseline_first(rows: Seq<Seq<Seq<char>>>, f: int)
    requires
        0 <= f < rows.len(),
        has_content(rows[f]),
        forall|i: int| 0 <= i < f ==> !has_content(#[trigger] rows[i]),
    ensures
        baseline(rows) == Some(rows[f].len()),
    decreases rows.len(),
{
    let rp = rows.drop_last();
    if f < rows.len() - 1 {
        assert(rp[f] == rows[f]);
        assert forall|i: int| 0 <= i < f implies !has_content(#[trigger] rp[i]) by {
            assert(rp[i] == rows[i]);
        }
        lemma_baseline_first(rp, f);
    } else {
        assert forall|i: int| 0 <= i < rp.len() implies !has_content(#[trigger] rp[i]) by {
            assert(rp[i] == rows[i]);
        }
        lemma_baseline_none(rp);
        assert(rows.last() == rows[f]);
    }
}

/// `x` is the width warning for a row of `s` that holds something and whose
/// width is not `expected`.
pub open spec fn warned_row(s: Seq<char>, expected: nat, x: (Range, Severity, Seq<char>)) -> bool {
    exists|i: int| 0 <= i < csv_rows(s).len() && has_content(csv_rows(s)[i]) && csv_rows(s)[i].len() != expected
        && #[trigger] width_warning(s, i, expected) == x
}

proof fn lemma_width_warnings(s: Seq<char>, e: nat, n: int)
    requires
        n <= csv_rows(s).len(),
    ensures
        forall|i: int| 0 <= i < n && has_content(csv_rows(s)[i]) && csv_rows(s)[i].len() != e
            ==> width_warnings(s, e, n).contains(#[trigger] width_warning(s, i, e)),
        forall|m: int| 0 <= m < width_warnings(s, e, n).len()
            ==> warned_row(s, e, #[trigger] width_warnings(s, e, n)[m]),
    decreases n,
{
    if n > 0 {
        lemma_width_warnings(s, e, n - 1);
        let prev = width_warnings(s, e, n - 1);
        let cur = width_warnings(s, e, n);
        assert forall|i: int| 0 <= i < n && has_content(csv_rows(s)[i]) && csv_rows(s)[i].len() != e
            implies cur.contains(#[trigger] width_warning(s, i, e)) by {
            if i < n - 1 {
                let x = width_warning(s, i, e);
                assert(prev.contains(x));
                let m = choose|m: int| 0 <= m < prev.len() && prev[m] == x;
                assert(cur[m] == prev[m]);
            } else {
                assert(cur.last() == width_warning(s, i, e));
            }
        }
        assert forall|m: int| 0 <= m < cur.len() implies warned_row(s, e, #[trigger] cur[m]) by {
            if m < prev.len() {
                assert(cur[m] == prev[m]);
            } else {
                assert(width_warning(s, n - 1, e) == cur[m]);
            }
        }
    } else {
        assert(width_warnings(s, e, n) =~= Seq::<(Range, Severity, Seq<char>)>::empty());
    }
}

/// The width that rows are held to is that of the first row that holds
/// something: every later row that holds something and has another width
/// gets a warning, and every warning is for such a row (so no row as wide
/// as the first gets one).
pub proof fn law_width_follows_first_row(s: Seq<char>, f: int)
    requires
        scan_from(fresh(), s).mode != Mode::Quoted,
        0 <= f < csv_rows(s).len(),
        has_content(csv_rows(s)[f]),
        forall|i: int| 0 <= i < f ==> !has_content(#[trigger] csv_rows(s)[i]),
    ensures
        forall|i: int| 0 <= i < csv_rows(s).len() && has_content(csv_rows(s)[i]) && csv_rows(s)[i].len() != csv_rows(s)[f].len()
            ==> scan_findings(s).contains(#[trigger] width_warning(s, i, csv_rows(s)[f].len())),
        forall|m: int| 0 <= m < scan_findings(s).len()
            ==> warned_row(s, csv_rows(s)[f].len(), #[trigger] scan_findings(s)[m]),
{
    let rows = csv_rows(s);
    lemma_baseline_first(rows, f);
    lemma_width_warnings(s, rows[f].len(), rows.len() as int);
}

/// A text none of whose rows holds anything, and that does not end inside
/// a quoted field, gets no finding.
pub proof fn law_no_content_no_findings(s: Seq<char>)
    requires
        scan_from(fresh(), s).mode != Mode::Quoted,
        forall|i: int| 0 <= i < csv_rows(s).len() ==> !has_content(#[trigger] csv_rows(s)[i]),
    ensures
        scan_findings(s).len() == 0,
{
    lemma_baseline_none(csv_rows(s));
}

/// The line, width and contents of one row.
struct RowInfo {
    start_line: u32,
    end_line: u32,
    fields: usize,
    has_content: bool,
}

/// `r` records row `a` of the reader's rows and spans over `s`.
spec fn records(r: RowInfo, s: Seq<char>, row: Seq<Seq<char>>, span: Seq<(int, int)>) -> bool {
    &&& r.start_line as nat == line_at(s, span[0].0)
    &&& r.end_line as nat == line_at(s, span.last().1)
    &&& r.fields == row.len()
    &&& r.has_content == has_content(row)
}

proof fn lemma_pos_bound_take(s: Seq<char>, k: int)
    requires
        0 <= k <= s.len(),
    ensures
        pos_after(s.take(k)).0 + pos_after(s.take(k)).1 <= utf16_len(s),
{
    lemma_pos_bound(s.take(k));
    lemma_utf16_len_prefix(s, k);
}

proof fn lemma_utf16_len_ge(s: Seq<char>)
    ensures
        utf16_len(s) >= s.len(),
    decreases s.len(),
{
    if s.len() > 0 {
        lemma_utf16_len_ge(s.drop_last());
    }
}

proof fn lemma_row_count_bound(s: Seq<char>)
    ensures
        scan_from(fresh(), s).field.len() + scan_from(fresh(), s).row.len() + scan_from(fresh(), s).rows.len()
            <= s.len(),
    decreases s.len(),
{
    if s.len() > 0 {
        lemma_row_count_bound(s.drop_last());
    }
}

/// Reads the rows of `text`: their lines, widths and contents, and where an
/// unterminated quoted field opens, if the text ends inside one.
fn read_rows(text: &Vec<char>) -> (r: (Vec<RowInfo>, Option<Position>, Position))
    requires
        utf16_len(text@) < u32::MAX,
    ensures
        r.0@.len() == csv_rows(text@).len(),
        forall|a: int| 0 <= a < r.0@.len() ==> records(#[trigger] r.0@[a], text@, csv_rows(text@)[a], field_spans(text@)[a]),
        (scan_from(fresh(), text@).mode == Mode::Quoted) == (r.1 is Some),
        r.1 matches Some(q) ==> q.line as nat == pos_after(text@.take(spans_of(text@).start)).0
            && q.character as nat == pos_after(text@.take(spans_of(text@).start)).1,
        r.2.line as nat == pos_after(text@).0,
        r.2.character as nat == pos_after(text@).1,
{
    let ghost t = text@;
    let mut rows: Vec<RowInfo> = Vec::new();
    let mut mode = Mode::Start;
    let mut field_len: usize = 0;
    let mut row_len: usize = 0;
    let mut field_start = Position { line: 0, character: 0 };
    let mut row_start_line: u32 = 0;
    let mut line: u32 = 0;
    let mut col: u32 = 0;
    let ghost mut st = fresh();
    let ghost mut sp = Spans { start: 0, row: seq![], rows: seq![] };
    let mut i: usize = 0;
    assert(t.take(0) =~= Seq::<char>::empty());
    while i < text.len()
        invariant
            t == text@,
            utf16_len(t) < u32::MAX,
            i <= text.len(),
            st == scan_from(fresh(), t.take(i as int)),
            sp == spans_of(t.take(i as int)),
            st.mode == mode,
            st.field.len() == field_len,
            st.row.len() == row_len,
            field_len + row_len <= i,
            spans_match(st, sp),
            0 <= sp.start <= i,
            field_start.line as nat == pos_after(t.take(sp.start)).0,
            field_start.character as nat == pos_after(t.take(sp.start)).1,
            row_len > 0 ==> row_start_line as nat == line_at(t, sp.row[0].0),
            line as nat == pos_after(t.take(i as int)).0,
            col as nat == pos_after(t.take(i as int)).1,
            rows@.len() == st.rows.len(),
            forall|a: int| 0 <= a < st.rows.len() ==> #[trigger] st.rows[a].len() > 0,
            forall|a: int| 0 <= a < rows@.len() ==> records(#[trigger] rows@[a], t, st.rows[a], sp.rows[a]),
        decreases text.len() - i,
    {
        let c = text[i];
        let here = Position { line, character: col };
        let ghost prev = t.take(i as int);
        assert(t.take(i + 1).drop_last() =~= prev);
        assert(t.take(i + 1).last() == c);
        proof {
            lemma_row_count_bound(t.take(i + 1));
            lemma_pos_bound_take(t, i + 1);
        }
        let (m, act) = next_mode_exec(mode, c);
        if (mode == Mode::Start || mode == Mode::CrSeen) && act != Act::Skip {
            field_start = here;
        }
        match act {
            Act::Append => {
                field_len = field_len + 1;
            },
            Act::EndField => {
                if row_len == 0 {
                    row_start_line = field_start.line;
                }
                row_len = row_len + 1;
                field_len = 0;
            },
            Act::EndRow => {
                let start_line = if row_len == 0 { field_start.line } else { row_start_line };
                let fields = row_len + 1;
                let has_content = row_len > 0 || field_len > 0;
                rows.push(RowInfo { start_line, end_line: line, fields, has_content });
                row_len = 0;
                field_len = 0;
            },
            Act::Skip => {},
        }
        mode = m;
        if c == '\r' {
            line = line + 1;
            col = 0;
        } else if c == '\n' {
            if i == 0 || text[i - 1] != '\r' {
                line = line + 1;
                col = 0;
            }
        } else {
            let w: u32 = if (c as u32) < 0x10000 { 1 } else { 2 };
            col = col + w;
        }
        proof {
            if i > 0 {
                assert(t.take(i + 1)[i - 1] == t[i - 1]);
            }
            let ghost st2 = advance(st, c);
            let ghost sp2 = spans_step(sp, st.mode, c, i as int);
            assert(scan_from(fresh(), t.take(i + 1)) == st2);
            assert(spans_of(t.take(i + 1)) == sp2);
            st = st2;
            sp = sp2;
        }
        i += 1;
    }
    assert(t.take(text.len() as int) =~= t);
    proof { lemma_utf16_len_ge(t); }
    let quote = if mode == Mode::Quoted { Some(field_start) } else { None };
    let end = Position { line, character: col };
    if field_len > 0 || row_len > 0 {
        let start_line = if row_len == 0 { field_start.line } else { row_start_line };
        rows.push(RowInfo { start_line, end_line: line, fields: row_len + 1, has_content: true });
    }
    (rows, quote, end)
}

/// Checks the shape of a buffer: an unterminated quoted field is an error
/// (and then nothing else is reported); otherwise each row that holds
/// something and whose width differs from that of the first such row gets a
/// warning.
pub fn scan(input: &str) -> (out: Vec<Diagnostic>)
    requires
        utf16_len(input@) < u32::MAX,
    ensures
        out@.len() == scan_findings(input@).len(),
        forall|k: int| 0 <= k < out@.len() ==> #[trigger] out@[k]@ == scan_findings(input@)[k],
{
    let text = chars_of(input);
    let ghost t = text@;
    let (rows, quote, end) = read_rows(&text);
    let mut out: Vec<Diagnostic> = Vec::new();
    match quote {
        Some(q) => {
            let mut message = String::new();
            push_text(&mut message, "Unterminated quoted field.");
            out.push(Diagnostic { range: Range { start: q, end }, severity: Severity::Error, message });
            assert(out@[0]@ == scan_findings(t)[0]);
            return out;
        },
        None => {},
    }
    let ghost rs = csv_rows(t);
    let mut expected: Option<usize> = None;
    let mut i: usize = 0;
    while i < rows.len()
        invariant
            t == input@,
            rs == csv_rows(t),
            rows@.len() == rs.len(),
            forall|a: int| 0 <= a < rows@.len() ==> records(#[trigger] rows@[a], t, rs[a], field_spans(t)[a]),
            i <= rows@.len(),
            expected matches Some(e) ==> baseline(rs.take(i as int)) == Some(e as nat),
            expected is None ==> baseline(rs.take(i as int)) is None,
        decreases rows@.len() - i,
    {
        assert(rs.take(i + 1).drop_last() =~= rs.take(i as int));
        assert(records(rows@[i as int], t, rs[i as int], field_spans(t)[i as int]));
        if expected.is_none() && rows[i].has_content {
            expected = Some(rows[i].fields);
        }
        i += 1;
    }
    assert(rs.take(rows.len() as int) =~= rs);
    match expected {
        None => {
            out
        },
        Some(e) => {
            let mut k: usize = 0;
            while k < rows.len()
                invariant
                    t == input@,
                    rs == csv_rows(t),
                    rows@.len() == rs.len(),
                    forall|a: int| 0 <= a < rows@.len() ==> records(#[trigger] rows@[a], t, rs[a], field_spans(t)[a]),
                    k <= rows@.len(),
                    out@.len() == width_warnings(t, e as nat, k as int).len(),
                    forall|x: int| 0 <= x < out@.len() ==> #[trigger] out@[x]@ == width_warnings(t, e as nat, k as int)[x],
                decreases rows@.len() - k,
            {
                assert(records(rows@[k as int], t, rs[k as int], field_spans(t)[k as int]));
                if rows[k].has_content && rows[k].fields != e {
                    let mut message = String::new();
                    push_text(&mut message, "Row has ");
                    push_decimal(&mut message, rows[k].fields);
                    push_text(&mut message, " fields; expected ");
                    push_decimal(&mut message, e);
                    push_text(&mut message, ".");
                    let end_line = if rows[k].end_line < u32::MAX { rows[k].end_line + 1 } else { u32::MAX };
                    let range = Range {
                        start: Position { line: rows[k].start_line, character: 0 },
                        end: Position { line: end_line, character: 0 },
                    };
                    let ghost before = out@;
                    out.push(Diagnostic { range, severity: Severity::Warning, message });
                    assert(out@.last()@ == width_warning(t, k as int, e as nat));
                    assert forall|x: int| 0 <= x < out@.len() implies #[trigger] out@[x]@ == width_warnings(t, e as nat, k + 1)[x] by {
                        if x < before.len() {
                            assert(out@[x] == before[x]);
                        }
                    }
                }
                k += 1;
            }
            out
        },
    }
}

// ---------------------------------------------------------------------------
// Cells that do not fit their column
// ---------------------------------------------------------------------------

/// The longest value quoted whole in a message.
pub const MAX_QUOTED: usize = 24;

/// A value as quoted in a message: whole when at most [`MAX_QUOTED`]
/// characters long, else its first [`MAX_QUOTED`] characters and `…`.
pub open spec fn truncated(s: Seq<char>) -> Seq<char> {
    if s.len() <= MAX_QUOTED { s } else { s.take(MAX_QUOTED as int).push('…') }
}

/// Shortens a value for a message (see [`truncated`]).
pub fn truncate_for_message(s: &Vec<char>) -> (r: Vec<char>)
    ensures
        r@ == truncated(s@),
{
    if s.len() <= MAX_QUOTED {
        slice_chars(s, 0, s.len())
    } else {
        let mut r = slice_chars(s, 0, MAX_QUOTED);
        r.push('…');
        r
    }
}

/// The message for a value that does not fit a column of kind `column`.
pub open spec fn mismatch_message(value: Seq<char>, column: CellType) -> Seq<char> {
    "Value \""@ + truncated(value) + "\" doesn't match column type "@ + column.label_text() + "."@
}

/// A column of this kind gets no complaints.
pub open spec fn untyped(kind: CellType) -> bool {
    kind == CellType::String || kind == CellType::Empty
}

/// No value that [`scan_types`] classifies is one classification refuses:
/// those below the header row, in columns whose kind is neither plain text
/// nor empty.
pub open spec fn types_classifiable(cells: Seq<Vec<Cell>>, types: Seq<ColumnType>, skip: int) -> bool {
    forall|i: int, j: int| skip <= i < cells.len() && 0 <= j < cells[i]@.len() && j < types.len()
        && !untyped(types[j].primary) ==> !classify_panics(#[trigger] cells[i]@[j].value@)
}

/// The complaints about the first `n` rows of column `col`, of kind
/// `column`: one for each non-empty value, from row `skip` on, whose kind
/// does not fit.
pub open spec fn column_complaints(cells: Seq<Vec<Cell>>, col: int, column: CellType, skip: int, severity: Severity, n: int)
    -> Seq<(Range, Severity, Seq<char>)>
    decreases n,
{
    if n <= 0 {
        seq![]
    } else {
        let prev = column_complaints(cells, col, column, skip, severity, n - 1);
        let i = n - 1;
        if i >= skip && 0 <= col < cells[i]@.len() {
            let c = cells[i]@[col];
            let t = cell_type(c.value@);
            if t != CellType::Empty && !fits(t, column) {
                prev.push((c.range, severity, mismatch_message(c.value@, column)))
            } else {
                prev
            }
        } else {
            prev
        }
    }
}

/// The complaints about the first `k` columns, column by column.
pub open spec fn type_complaints(cells: Seq<Vec<Cell>>, types: Seq<ColumnType>, skip: int, severity: Severity, k: int)
    -> Seq<(Range, Severity, Seq<char>)>
    decreases k,
{
    if k <= 0 {
        seq![]
    } else {
        let prev = type_complaints(cells, types, skip, severity, k - 1);
        let kind = types[k - 1].primary;
        if untyped(kind) {
            prev
        } else {
            prev + column_complaints(cells, k - 1, kind, skip, severity, cells.len() as int)
        }
    }
}

/// The complaint about cell `i` of column `col`, when its value's kind is
/// out of place in a column of kind `column`.
pub open spec fn complaint_about(cells: Seq<Vec<Cell>>, col: int, column: CellType, severity: Severity, i: int)
    -> (Range, Severity, Seq<char>)
{
    (cells[i]@[col].range, severity, mismatch_message(cells[i]@[col].value@, column))
}

/// `x` is the complaint about a non-empty cell of column `col`, from row
/// `skip` on, whose kind is out of place in the column.
pub open spec fn justified(cells: Seq<Vec<Cell>>, col: int, column: CellType, skip: int, severity: Severity,
    x: (Range, Severity, Seq<char>)) -> bool
{
    exists|i: int| skip <= i < cells.len() && 0 <= col < cells[i]@.len()
        && cell_type(cells[i]@[col].value@) != CellType::Empty && out_of_place(cell_type(cells[i]@[col].value@), column)
        && #[trigger] complaint_about(cells, col, column, severity, i) == x
}

/// Every non-empty cell of a column, from row `skip` on, whose kind differs
/// from the column's (an integer in a decimal column aside) gets a
/// complaint, and every complaint is about such a cell: an integer in a date
/// column, say, is complained about.
pub proof fn law_complaints_are_strict(cells: Seq<Vec<Cell>>, col: int, column: CellType, skip: int, severity: Severity, n: int)
    requires
        0 <= skip,
        n <= cells.len(),
    ensures
        forall|i: int| skip <= i < n && 0 <= col < cells[i]@.len()
            && cell_type(cells[i]@[col].value@) != CellType::Empty && out_of_place(cell_type(cells[i]@[col].value@), column)
            ==> column_complaints(cells, col, column, skip, severity, n).contains(
                #[trigger] complaint_about(cells, col, column, severity, i)),
        forall|m: int| 0 <= m < column_complaints(cells, col, column, skip, severity, n).len()
            ==> justified(cells, col, column, skip, severity, #[trigger] column_complaints(cells, col, column, skip, severity, n)[m]),
    decreases n,
{
    if n > 0 {
        law_complaints_are_strict(cells, col, column, skip, severity, n - 1);
        let prev = column_complaints(cells, col, column, skip, severity, n - 1);
        let cur = column_complaints(cells, col, column, skip, severity, n);
        assert forall|i: int| skip <= i < n && 0 <= col < cells[i]@.len()
            && cell_type(cells[i]@[col].value@) != CellType::Empty && out_of_place(cell_type(cells[i]@[col].value@), column)
            implies cur.contains(#[trigger] complaint_about(cells, col, column, severity, i)) by {
            if i < n - 1 {
                let x = complaint_about(cells, col, column, severity, i);
                assert(prev.contains(x));
                let m = choose|m: int| 0 <= m < prev.len() && prev[m] == x;
                assert(cur[m] == prev[m]);
            } else {
                assert(!fits(cell_type(cells[i]@[col].value@), column));
                assert(cur.last() == complaint_about(cells, col, column, severity, i));
            }
        }
        assert forall|m: int| 0 <= m < cur.len() implies justified(cells, col, column, skip, severity, #[trigger] cur[m]) by {
            if m < prev.len() {
                assert(cur[m] == prev[m]);
                assert(justified(cells, col, column, skip, severity, prev[m]));
            } else {
                let i = n - 1;
                let t = cell_type(cells[i]@[col].value@);
                assert(t != CellType::Empty && !fits(t, column));
                assert(out_of_place(t, column));
                assert(complaint_about(cells, col, column, severity, i) == cur[m]);
            }
        }
    } else {
        assert(column_complaints(cells, col, column, skip, severity, n) =~= Seq::<(Range, Severity, Seq<char>)>::empty());
    }
}

/// Complains, with the given severity, about each non-empty cell whose kind
/// does not fit its column's; columns of plain text or empty columns get no
/// complaints, and the header row is left out when `has_header`.
pub fn scan_types(model: &Model, column_types: &Vec<ColumnType>, has_header: bool, severity: Severity) -> (out: Vec<Diagnostic>)
    requires
        types_classifiable(model.cells@, column_types@, header_skip(has_header)),
    ensures
        out@.len() == type_complaints(model.cells@, column_types@, header_skip(has_header), severity,
            column_types@.len() as int).len(),
        forall|k: int| 0 <= k < out@.len() ==> #[trigger] out@[k]@ == type_complaints(model.cells@,
            column_types@, header_skip(has_header), severity, column_types@.len() as int)[k],
{
    let skip: usize = if has_header { 1 } else { 0 };
    let ghost cs = model.cells@;
    let ghost ts = column_types@;
    let mut out: Vec<Diagnostic> = Vec::new();
    let mut c: usize = 0;
    while c < column_types.len()
        invariant
            cs == model.cells@,
            ts == column_types@,
            skip == header_skip(has_header),
            types_classifiable(cs, ts, skip as int),
            c <= ts.len(),
            out@.len() == type_complaints(cs, ts, skip as int, severity, c as int).len(),
            forall|k: int| 0 <= k < out@.len() ==> #[trigger] out@[k]@ == type_complaints(cs, ts, skip as int, severity, c as int)[k],
        decreases ts.len() - c,
    {
        let kind = column_types[c].primary;
        if kind == CellType::String || kind == CellType::Empty {
            c += 1;
            continue;
        }
        let ghost base = out@;
        let mut i: usize = 0;
        while i < model.cells.len()
            invariant
                cs == model.cells@,
                ts == column_types@,
                skip == header_skip(has_header),
                types_classifiable(cs, ts, skip as int),
                c < ts.len(),
                kind == ts[c as int].primary,
                !untyped(kind),
                i <= cs.len(),
                out@.len() == base.len() + column_complaints(cs, c as int, kind, skip as int, severity, i as int).len(),
                forall|k: int| 0 <= k < base.len() ==> #[trigger] out@[k] == base[k],
                forall|k: int| 0 <= k < column_complaints(cs, c as int, kind, skip as int, severity, i as int).len()
                    ==> #[trigger] out@[base.len() + k]@ == column_complaints(cs, c as int, kind, skip as int, severity, i as int)[k],
            decreases cs.len() - i,
        {
            if i >= skip && c < model.cells[i].len() {
                let cell = &model.cells[i][c];
                let v = chars_of(cell.value.as_str());
                assert(!classify_panics(cs[i as int]@[c as int].value@));
                let t = classify_chars(&v);
                if t != CellType::Empty && !matches_as(t, kind) {
                    let mut message = String::new();
                    push_text(&mut message, "Value \"");
                    push_all(&mut message, &truncate_for_message(&v));
                    push_text(&mut message, "\" doesn't match column type ");
                    push_text(&mut message, kind.label());
                    push_text(&mut message, ".");
                    let ghost before = out@;
                    out.push(Diagnostic { range: cell.range, severity, message });
                    assert(forall|k: int| 0 <= k < before.len() ==> #[trigger] out@[k] == before[k]);
                }
            }
            i += 1;
        }
        proof {
            let cc = column_complaints(cs, c as int, kind, skip as int, severity, cs.len() as int);
            assert forall|k: int| 0 <= k < out@.len() implies #[trigger] out@[k]@ == type_complaints(cs, ts, skip as int, severity, c + 1)[k] by {
                if k >= base.len() {
                    assert(out@[base.len() + (k - base.len())]@ == cc[k - base.len()]);
                }
            }
        }
        c += 1;
    }
    out
}

} // verus!
