//! Reading and writing CSV text.
//!
//! The reader is a character automaton. Quoted fields keep their
//! surrounding quotes and any doubled inner quotes; characters between a
//! closing quote and the next delimiter stay in the field, so padding added
//! by [`align`] survives a re-read and [`unalign`] can strip it again.
//! Both write every row back followed by the line break it had: `\n`,
//! `\r\n` or a lone `\r`.

use vstd::prelude::*;
use crate::text::{chars_of, string_of, push_char, push_all, lemma_chars_deep_view, lemma_deep_view_push};

verus! {

/// Where the reader stands with respect to the current field.
#[derive(PartialEq, Eq, Clone, Copy, Debug, Structural)]
pub enum Mode {
    /// Nothing of the current field has been read yet.
    Start,
    /// Inside a field that did not begin with a quote.
    Unquoted,
    /// Inside a quoted field.
    Quoted,
    /// A quote was read inside a quoted field: either it closes the field or
    /// the next character is a second quote that escapes it.
    QuoteSeen,
    /// After the closing quote of a quoted field.
    AfterQuote,
    /// A row ended with a carriage return; a line feed right after it belongs
    /// to the same line break.
    CrSeen,
}

/// What the reader does with one character.
#[derive(PartialEq, Eq, Clone, Copy, Debug, Structural)]
pub enum Act {
    /// The character belongs to the current field.
    Append,
    /// The current field ends (a delimiter).
    EndField,
    /// The current field and the current row end (a line break).
    EndRow,
    /// The character is the second half of a `\r\n` line break.
    Skip,
}

/// The reader's state: the mode, the field being read, the fields of the
/// current row, and the rows completed so far.
pub struct Scan {
    pub mode: Mode,
    pub field: Seq<char>,
    pub row: Seq<Seq<char>>,
    pub rows: Seq<Seq<Seq<char>>>,
}

/// One transition of the automaton.
pub open spec fn next_mode(m: Mode, c: char) -> (Mode, Act) {
    if m == Mode::Quoted {
        if c == '"' { (Mode::QuoteSeen, Act::Append) } else { (Mode::Quoted, Act::Append) }
    } else if m == Mode::QuoteSeen && c == '"' {
        (Mode::Quoted, Act::Append)
    } else if m == Mode::CrSeen && c == '\n' {
        (Mode::Start, Act::Skip)
    } else if c == ',' {
        (Mode::Start, Act::EndField)
    } else if c == '\n' {
        (Mode::Start, Act::EndRow)
    } else if c == '\r' {
        (Mode::CrSeen, Act::EndRow)
    } else if m == Mode::Start || m == Mode::CrSeen {
        if c == '"' { (Mode::Quoted, Act::Append) } else { (Mode::Unquoted, Act::Append) }
    } else if m == Mode::Unquoted {
        (Mode::Unquoted, Act::Append)
    } else {
        (Mode::AfterQuote, Act::Append)
    }
}

/// The reader's state after one more character.
pub open spec fn advance(st: Scan, c: char) -> Scan {
    let (m, act) = next_mode(st.mode, c);
    match act {
        Act::Append => Scan { mode: m, field: st.field.push(c), row: st.row, rows: st.rows },
        Act::EndField => Scan { mode: m, field: seq![], row: st.row.push(st.field), rows: st.rows },
        Act::EndRow => Scan {
            mode: m,
            field: seq![],
            row: seq![],
            rows: st.rows.push(st.row.push(st.field)),
        },
        Act::Skip => Scan { mode: m, field: st.field, row: st.row, rows: st.rows },
    }
}

/// The reader's state after reading `s` from `st`.
pub open spec fn scan_from(st: Scan, s: Seq<char>) -> Scan
    decreases s.len(),
{
    if s.len() == 0 {
        st
    } else {
        advance(scan_from(st, s.drop_last()), s.last())
    }
}

/// The state before any input.
pub open spec fn fresh() -> Scan {
    Scan { mode: Mode::Start, field: seq![], row: seq![], rows: seq![] }
}

/// The rows once the input is exhausted: an unfinished row is kept when it
/// holds anything (a non-empty field, or at least one delimiter).
pub open spec fn close(st: Scan) -> Seq<Seq<Seq<char>>> {
    if st.field.len() > 0 || st.row.len() > 0 {
        st.rows.push(st.row.push(st.field))
    } else {
        st.rows
    }
}

/// The rows of raw field text in the CSV text `s`.
pub open spec fn csv_rows(s: Seq<char>) -> Seq<Seq<Seq<char>>> {
    close(scan_from(fresh(), s))
}

/// One transition of the automaton (executable form of [`next_mode`]).
pub fn next_mode_exec(m: Mode, c: char) -> (r: (Mode, Act))
    ensures
        r == next_mode(m, c),
{
    if m == Mode::Quoted {
        if c == '"' { (Mode::QuoteSeen, Act::Append) } else { (Mode::Quoted, Act::Append) }
    } else if m == Mode::QuoteSeen && c == '"' {
        (Mode::Quoted, Act::Append)
    } else if m == Mode::CrSeen && c == '\n' {
        (Mode::Start, Act::Skip)
    } else if c == ',' {
        (Mode::Start, Act::EndField)
    } else if c == '\n' {
        (Mode::Start, Act::EndRow)
    } else if c == '\r' {
        (Mode::CrSeen, Act::EndRow)
    } else if m == Mode::Start || m == Mode::CrSeen {
        if c == '"' { (Mode::Quoted, Act::Append) } else { (Mode::Unquoted, Act::Append) }
    } else if m == Mode::Unquoted {
        (Mode::Unquoted, Act::Append)
    } else {
        (Mode::AfterQuote, Act::Append)
    }
}

/// Reads the CSV text `s` (as characters) into rows of raw fields.
pub fn parse_chars(s: &Vec<char>) -> (rows: Vec<Vec<Vec<char>>>)
    ensures
        rows.deep_view() == csv_rows(s@),
{
    let mut mode = Mode::Start;
    let mut field: Vec<char> = Vec::new();
    let mut row: Vec<Vec<char>> = Vec::new();
    let mut rows: Vec<Vec<Vec<char>>> = Vec::new();
    let mut i: usize = 0;
    assert(row.deep_view() =~= Seq::<Seq<char>>::empty());
    assert(rows.deep_view() =~= Seq::<Seq<Seq<char>>>::empty());
    assert(s@.take(0) =~= Seq::<char>::empty());
    while i < s.len()
        invariant
            i <= s.len(),
            scan_from(fresh(), s@.take(i as int)) == (Scan {
                mode,
                field: field@,
                row: row.deep_view(),
                rows: rows.deep_view(),
            }),
        decreases s.len() - i,
    {
        let c = s[i];
        let ghost before = Scan { mode, field: field@, row: row.deep_view(), rows: rows.deep_view() };
        let (m, act) = next_mode_exec(mode, c);
        match act {
            Act::Append => {
                field.push(c);
            },
            Act::EndField => {
                let ghost r0 = row;
                proof { lemma_chars_deep_view(field); }
                let ghost f0 = field;
                row.push(field);
                proof { lemma_deep_view_push(r0, row, f0); }
                field = Vec::new();
            },
            Act::EndRow => {
                let ghost r0 = row;
                let ghost rs0 = rows;
                proof { lemma_chars_deep_view(field); }
                let ghost f0 = field;
                row.push(field);
                proof { lemma_deep_view_push(r0, row, f0); }
                field = Vec::new();
                let ghost full = row;
                rows.push(row);
                proof { lemma_deep_view_push(rs0, rows, full); }
                row = Vec::new();
                assert(row.deep_view() =~= Seq::<Seq<char>>::empty());
            },
            Act::Skip => {},
        }
        mode = m;
        proof {
            assert(s@.take(i + 1).drop_last() =~= s@.take(i as int));
            assert(field@ =~= advance(before, c).field);
        }
        i += 1;
    }
    proof {
        assert(s@.take(s.len() as int) =~= s@);
    }
    if field.len() > 0 || row.len() > 0 {
        let ghost r0 = row;
        let ghost rs0 = rows;
        proof { lemma_chars_deep_view(field); }
        let ghost f0 = field;
        row.push(field);
        proof { lemma_deep_view_push(r0, row, f0); }
        let ghost full = row;
        rows.push(row);
        proof { lemma_deep_view_push(rs0, rows, full); }
    }
    rows
}

/// Parses `input` into rows of raw field text. Quoted fields keep their
/// surrounding quotes and any escaped inner quotes; whitespace between a
/// closing quote and the next delimiter is preserved so [`unalign`] can
/// round-trip a previously-aligned buffer.
pub fn parse(input: &str) -> (rows: Vec<Vec<String>>)
    ensures
        rows.deep_view() == csv_rows(input@),
{
    let chars = chars_of(input);
    let table = parse_chars(&chars);
    let mut out: Vec<Vec<String>> = Vec::new();
    let mut i: usize = 0;
    while i < table.len()
        invariant
            i <= table.len(),
            table.deep_view() == csv_rows(input@),
            out.len() == i,
            forall|k: int| 0 <= k < i ==> #[trigger] out@[k].deep_view() == table@[k].deep_view(),
        decreases table.len() - i,
    {
        let mut row: Vec<String> = Vec::new();
        let mut j: usize = 0;
        while j < table[i].len()
            invariant
                i < table.len(),
                j <= table[i as int].len(),
                row.len() == j,
                forall|k: int| 0 <= k < j ==> #[trigger] row@[k]@ == table@[i as int]@[k]@,
            decreases table[i as int].len() - j,
        {
            let f = string_of(&table[i][j]);
            row.push(f);
            j += 1;
        }
        assert(row.deep_view() =~= table@[i as int].deep_view()) by {
            assert forall|k: int| 0 <= k < j implies #[trigger] row.deep_view()[k] == table@[i as int].deep_view()[k] by {
                lemma_chars_deep_view(table@[i as int]@[k]);
            }
        }
        out.push(row);
        i += 1;
    }
    assert(out.deep_view() =~= table.deep_view());
    out
}


// ---------------------------------------------------------------------------
// Writing rows back as text
// ---------------------------------------------------------------------------

/// The fields of a row joined by commas.
pub open spec fn join_row(r: Seq<Seq<char>>) -> Seq<char>
    decreases r.len(),
{
    if r.len() == 0 {
        seq![]
    } else if r.len() == 1 {
        r[0]
    } else {
        join_row(r.drop_last()) + seq![','] + r.last()
    }
}

/// Every row as a line terminated by `\n`.
pub open spec fn lines_of(rows: Seq<Seq<Seq<char>>>) -> Seq<char>
    decreases rows.len(),
{
    if rows.len() == 0 {
        seq![]
    } else {
        lines_of(rows.drop_last()) + join_row(rows.last()) + seq!['\n']
    }
}

/// The text of `rows`; without `nl` the final line break is left off.
pub open spec fn emit(rows: Seq<Seq<Seq<char>>>, nl: bool) -> Seq<char> {
    let t = lines_of(rows);
    if !nl && t.len() > 0 {
        t.drop_last()
    } else {
        t
    }
}

/// The line break `brk[i]`, or nothing where `brk` has no entry.
pub open spec fn break_at(brk: Seq<Seq<char>>, i: int) -> Seq<char> {
    if 0 <= i < brk.len() { brk[i] } else { Seq::<char>::empty() }
}

/// The text of `rows` with each row `i` followed by its line break
/// `brk[i]` (and by nothing where `brk` has no entry).
pub open spec fn lines_with(rows: Seq<Seq<Seq<char>>>, brk: Seq<Seq<char>>) -> Seq<char>
    decreases rows.len(),
{
    if rows.len() == 0 {
        seq![]
    } else {
        lines_with(rows.drop_last(), brk) + join_row(rows.last()) + break_at(brk, rows.len() - 1)
    }
}

/// The line breaks met reading `s` from `st`, one per row completed, as
/// they are written: `\n`, `\r\n` or `\r`.
pub open spec fn breaks_from(st: Scan, s: Seq<char>) -> Seq<Seq<char>>
    decreases s.len(),
{
    if s.len() == 0 {
        seq![]
    } else {
        let b = breaks_from(st, s.drop_last());
        let c = s.last();
        let act = next_mode(scan_from(st, s.drop_last()).mode, c).1;
        if act == Act::EndRow {
            b.push(seq![c])
        } else if act == Act::Skip && b.len() > 0 {
            b.update(b.len() - 1, b.last().push(c))
        } else {
            b
        }
    }
}

/// The line breaks that end the rows of the CSV text `s`, as written.
pub open spec fn line_breaks(s: Seq<char>) -> Seq<Seq<char>> {
    breaks_from(fresh(), s)
}

/// Whether the text ends with a line feed.
pub open spec fn ends_nl(s: Seq<char>) -> bool {
    s.len() > 0 && s.last() == '\n'
}

/// The view of a table of character vectors, row by row and field by field.
pub proof fn lemma_table_view(rows: Vec<Vec<Vec<char>>>)
    ensures
        rows.deep_view().len() == rows@.len(),
        forall|i: int| 0 <= i < rows@.len() ==> #[trigger] rows.deep_view()[i].len() == rows@[i]@.len(),
        forall|i: int, j: int| 0 <= i < rows@.len() && 0 <= j < rows@[i]@.len()
            ==> #[trigger] rows.deep_view()[i][j] == rows@[i]@[j]@,
{
    assert forall|i: int, j: int| 0 <= i < rows@.len() && 0 <= j < rows@[i]@.len()
        implies #[trigger] rows.deep_view()[i][j] == rows@[i]@[j]@ by {
        lemma_chars_deep_view(rows@[i]@[j]);
    }
}

proof fn lemma_join_row_step(r: Seq<Seq<char>>, j: int)
    requires
        0 <= j < r.len(),
    ensures
        join_row(r.take(j + 1)) == if j == 0 { r[0] } else { join_row(r.take(j)) + seq![','] + r[j] },
{
    assert(r.take(j + 1).drop_last() =~= r.take(j));
}

proof fn lemma_lines_of_step(rows: Seq<Seq<Seq<char>>>, i: int)
    requires
        0 <= i < rows.len(),
    ensures
        lines_of(rows.take(i + 1)) == lines_of(rows.take(i)) + join_row(rows[i]) + seq!['\n'],
{
    assert(rows.take(i + 1).drop_last() =~= rows.take(i));
}

/// Writes `rows` as CSV text: fields joined by commas, each row followed
/// by `\n`, except that the last row has none unless `nl`.
pub fn serialize(rows: &Vec<Vec<Vec<char>>>, nl: bool) -> (out: String)
    ensures
        out@ == emit(rows.deep_view(), nl),
{
    let ghost t = rows.deep_view();
    proof { lemma_table_view(*rows); }
    let mut out = String::new();
    let mut i: usize = 0;
    assert(t.take(0) =~= Seq::<Seq<Seq<char>>>::empty());
    while i < rows.len()
        invariant
            i <= rows.len(),
            t == rows.deep_view(),
            t.len() == rows@.len(),
            forall|a: int| 0 <= a < rows@.len() ==> #[trigger] t[a].len() == rows@[a]@.len(),
            forall|a: int, b: int| 0 <= a < rows@.len() && 0 <= b < rows@[a]@.len()
                ==> #[trigger] t[a][b] == rows@[a]@[b]@,
            out@ == lines_of(t.take(i as int)),
            !nl && i > 0 ==> i < rows.len(),
        decreases rows.len() - i,
    {
        let row = &rows[i];
        let ghost start = out@;
        let mut j: usize = 0;
        assert(t[i as int].take(0) =~= Seq::<Seq<char>>::empty());
        while j < row.len()
            invariant
                i < rows.len(),
                t.len() == rows@.len(),
                row == rows@[i as int],
                j <= row.len(),
                t[i as int].len() == row@.len(),
                forall|b: int| 0 <= b < row@.len() ==> #[trigger] t[i as int][b] == row@[b]@,
                out@ == start + join_row(t[i as int].take(j as int)),
            decreases row.len() - j,
        {
            proof { lemma_join_row_step(t[i as int], j as int); }
            if j > 0 {
                push_char(&mut out, ',');
            }
            push_all(&mut out, &row[j]);
            j += 1;
        }
        assert(t[i as int].take(row.len() as int) =~= t[i as int]);
        proof { lemma_lines_of_step(t, i as int); }
        if i + 1 < rows.len() || nl {
            push_char(&mut out, '\n');
        } else {
            assert(t.take(i + 1) =~= t);
            assert(out@ =~= lines_of(t).drop_last());
            return out;
        }
        i += 1;
    }
    assert(t.take(rows.len() as int) =~= t);
    out
}

// ---------------------------------------------------------------------------
// Alignment
// ---------------------------------------------------------------------------

/// The larger of two naturals.
pub open spec fn max_nat(a: nat, b: nat) -> nat {
    if a >= b { a } else { b }
}

/// The number of fields in the widest row.
pub open spec fn max_cols(rows: Seq<Seq<Seq<char>>>) -> nat
    decreases rows.len(),
{
    if rows.len() == 0 {
        0
    } else {
        max_nat(max_cols(rows.drop_last()), rows.last().len())
    }
}

/// The length (in characters) of the longest field in column `j`.
pub open spec fn col_width(rows: Seq<Seq<Seq<char>>>, j: int) -> nat
    decreases rows.len(),
{
    if rows.len() == 0 {
        0
    } else {
        let f: nat = if 0 <= j < rows.last().len() { rows.last()[j].len() } else { 0 };
        max_nat(col_width(rows.drop_last(), j), f)
    }
}

/// `n` spaces.
pub open spec fn spaces(n: nat) -> Seq<char> {
    Seq::new(n, |_k: int| ' ')
}

/// `f` followed by as many spaces as bring it to `w` characters.
pub open spec fn pad(f: Seq<char>, w: nat) -> Seq<char> {
    if w > f.len() { f + spaces((w - f.len()) as nat) } else { f }
}

/// Every field padded to the width of its column.
pub open spec fn padded_rows(rows: Seq<Seq<Seq<char>>>) -> Seq<Seq<Seq<char>>> {
    Seq::new(rows.len(), |i: int| Seq::new(rows[i].len(), |j: int| pad(rows[i][j], col_width(rows, j))))
}

/// `f` without its trailing spaces.
pub open spec fn trim_spaces(f: Seq<char>) -> Seq<char>
    decreases f.len(),
{
    if f.len() > 0 && f.last() == ' ' {
        trim_spaces(f.drop_last())
    } else {
        f
    }
}

/// Every field without its trailing spaces.
pub open spec fn trimmed_rows(rows: Seq<Seq<Seq<char>>>) -> Seq<Seq<Seq<char>>> {
    Seq::new(rows.len(), |i: int| Seq::new(rows[i].len(), |j: int| trim_spaces(rows[i][j])))
}

/// The aligned form of the CSV text `s`: every field padded to its
/// column's width, every row followed by the line break it had.
pub open spec fn aligned(s: Seq<char>) -> Seq<char> {
    lines_with(padded_rows(csv_rows(s)), line_breaks(s))
}

/// The unaligned form of the CSV text `s`: every field without its
/// trailing spaces, every row followed by the line break it had.
pub open spec fn unaligned(s: Seq<char>) -> Seq<char> {
    lines_with(trimmed_rows(csv_rows(s)), line_breaks(s))
}

/// Whether the characters end with a line feed.
pub fn ends_with_newline(s: &Vec<char>) -> (b: bool)
    ensures
        b == ends_nl(s@),
{
    s.len() > 0 && s[s.len() - 1] == '\n'
}

/// The width of every column: the character count of its longest field.
pub fn column_widths(rows: &Vec<Vec<Vec<char>>>) -> (widths: Vec<usize>)
    ensures
        widths.len() == max_cols(rows.deep_view()),
        forall|j: int| 0 <= j < widths.len() ==> #[trigger] widths[j] == col_width(rows.deep_view(), j),
{
    let ghost t = rows.deep_view();
    proof { lemma_table_view(*rows); }
    let mut mc: usize = 0;
    let mut i: usize = 0;
    while i < rows.len()
        invariant
            i <= rows.len(),
            t == rows.deep_view(),
            t.len() == rows@.len(),
            forall|a: int| 0 <= a < rows@.len() ==> #[trigger] t[a].len() == rows@[a]@.len(),
            mc == max_cols(t.take(i as int)),
        decreases rows.len() - i,
    {
        assert(t.take(i + 1).drop_last() =~= t.take(i as int));
        if rows[i].len() > mc {
            mc = rows[i].len();
        }
        i += 1;
    }
    assert(t.take(rows.len() as int) =~= t);
    let mut widths: Vec<usize> = Vec::new();
    let mut j: usize = 0;
    while j < mc
        invariant
            j <= mc,
            mc == max_cols(t),
            t == rows.deep_view(),
            t.len() == rows@.len(),
            forall|a: int| 0 <= a < rows@.len() ==> #[trigger] t[a].len() == rows@[a]@.len(),
            forall|a: int, b: int| 0 <= a < rows@.len() && 0 <= b < rows@[a]@.len()
                ==> #[trigger] t[a][b] == rows@[a]@[b]@,
            widths.len() == j,
            forall|k: int| 0 <= k < j ==> #[trigger] widths[k] == col_width(t, k),
        decreases mc - j,
    {
        let mut w: usize = 0;
        let mut r: usize = 0;
        while r < rows.len()
            invariant
                r <= rows.len(),
                t.len() == rows@.len(),
                forall|a: int| 0 <= a < rows@.len() ==> #[trigger] t[a].len() == rows@[a]@.len(),
                forall|a: int, b: int| 0 <= a < rows@.len() && 0 <= b < rows@[a]@.len()
                    ==> #[trigger] t[a][b] == rows@[a]@[b]@,
                w == col_width(t.take(r as int), j as int),
            decreases rows.len() - r,
        {
            assert(t.take(r + 1).drop_last() =~= t.take(r as int));
            if j < rows[r].len() && rows[r][j].len() > w {
                w = rows[r][j].len();
            }
            r += 1;
        }
        assert(t.take(rows.len() as int) =~= t);
        widths.push(w);
        j += 1;
    }
    widths
}


/// No row is wider than the widest row.
pub proof fn lemma_row_len_le_max_cols(rows: Seq<Seq<Seq<char>>>, i: int)
    requires
        0 <= i < rows.len(),
    ensures
        rows[i].len() <= max_cols(rows),
    decreases rows.len(),
{
    if i < rows.len() - 1 {
        lemma_row_len_le_max_cols(rows.drop_last(), i);
    }
}

/// `f` padded with spaces to `w` characters.
pub fn padded_field(f: &Vec<char>, w: usize) -> (g: Vec<char>)
    ensures
        g@ == pad(f@, w as nat),
{
    let mut g = f.clone();
    assert(g@ =~= f@);
    let mut k = f.len();
    while k < w
        invariant
            f.len() <= k <= w || (k == f.len() && w <= f.len()),
            g@ == f@ + spaces((k - f.len()) as nat),
        decreases w - k,
    {
        g.push(' ');
        assert(g@ =~= f@ + spaces((k + 1 - f.len()) as nat));
        k += 1;
    }
    assert(w > f.len() ==> k == w);
    assert(w <= f.len() ==> g@ =~= f@);
    g
}

/// `f` without its trailing spaces.
pub fn trimmed_field(f: &Vec<char>) -> (g: Vec<char>)
    ensures
        g@ == trim_spaces(f@),
{
    let mut k = f.len();
    assert(f@.take(k as int) =~= f@);
    while k > 0 && f[k - 1] == ' '
        invariant
            k <= f.len(),
            trim_spaces(f@.take(k as int)) == trim_spaces(f@),
        decreases k,
    {
        assert(f@.take(k as int).drop_last() =~= f@.take(k - 1));
        k -= 1;
    }
    let mut g: Vec<char> = Vec::new();
    let mut i: usize = 0;
    while i < k
        invariant
            i <= k <= f.len(),
            g@ == f@.take(i as int),
        decreases k - i,
    {
        g.push(f[i]);
        assert(f@.take(i + 1) =~= f@.take(i as int).push(f@[i as int]));
        i += 1;
    }
    g
}

/// Every field padded to its column's width.
fn pad_rows(rows: &Vec<Vec<Vec<char>>>, widths: &Vec<usize>) -> (out: Vec<Vec<Vec<char>>>)
    requires
        widths.len() == max_cols(rows.deep_view()),
        forall|j: int| 0 <= j < widths.len() ==> #[trigger] widths[j] == col_width(rows.deep_view(), j),
    ensures
        out.deep_view() == padded_rows(rows.deep_view()),
{
    let ghost t = rows.deep_view();
    proof { lemma_table_view(*rows); }
    let mut out: Vec<Vec<Vec<char>>> = Vec::new();
    let mut i: usize = 0;
    while i < rows.len()
        invariant
            i <= rows.len(),
            t == rows.deep_view(),
            widths.len() == max_cols(t),
            forall|j: int| 0 <= j < widths.len() ==> #[trigger] widths[j] == col_width(t, j),
            t.len() == rows@.len(),
            forall|a: int| 0 <= a < rows@.len() ==> #[trigger] t[a].len() == rows@[a]@.len(),
            forall|a: int, b: int| 0 <= a < rows@.len() && 0 <= b < rows@[a]@.len()
                ==> #[trigger] t[a][b] == rows@[a]@[b]@,
            out@.len() == i,
            forall|a: int| 0 <= a < i ==> #[trigger] out@[a].deep_view() == padded_rows(t)[a],
        decreases rows.len() - i,
    {
        proof { lemma_row_len_le_max_cols(t, i as int); }
        let mut row: Vec<Vec<char>> = Vec::new();
        let mut j: usize = 0;
        while j < rows[i].len()
            invariant
                i < rows.len(),
                t.len() == rows@.len(),
                t[i as int].len() == rows@[i as int]@.len(),
                rows@[i as int]@.len() <= widths.len(),
                forall|j: int| 0 <= j < widths.len() ==> #[trigger] widths[j] == col_width(t, j),
                forall|b: int| 0 <= b < rows@[i as int]@.len() ==> #[trigger] t[i as int][b] == rows@[i as int]@[b]@,
                j <= rows@[i as int]@.len(),
                row@.len() == j,
                forall|b: int| 0 <= b < j ==> #[trigger] row@[b]@ == pad(t[i as int][b], col_width(t, b)),
            decreases rows@[i as int]@.len() - j,
        {
            let g = padded_field(&rows[i][j], widths[j]);
            row.push(g);
            j += 1;
        }
        assert(row.deep_view() =~= padded_rows(t)[i as int]) by {
            assert forall|b: int| 0 <= b < j implies #[trigger] row.deep_view()[b] == padded_rows(t)[i as int][b] by {
                lemma_chars_deep_view(row@[b]);
            }
        }
        out.push(row);
        i += 1;
    }
    assert(out.deep_view() =~= padded_rows(t));
    out
}

/// Every field with its trailing spaces removed.
fn trim_rows(rows: &Vec<Vec<Vec<char>>>) -> (out: Vec<Vec<Vec<char>>>)
    ensures
        out.deep_view() == trimmed_rows(rows.deep_view()),
{
    let ghost t = rows.deep_view();
    proof { lemma_table_view(*rows); }
    let mut out: Vec<Vec<Vec<char>>> = Vec::new();
    let mut i: usize = 0;
    while i < rows.len()
        invariant
            i <= rows.len(),
            t == rows.deep_view(),
            t.len() == rows@.len(),
            forall|a: int| 0 <= a < rows@.len() ==> #[trigger] t[a].len() == rows@[a]@.len(),
            forall|a: int, b: int| 0 <= a < rows@.len() && 0 <= b < rows@[a]@.len()
                ==> #[trigger] t[a][b] == rows@[a]@[b]@,
            out@.len() == i,
            forall|a: int| 0 <= a < i ==> #[trigger] out@[a].deep_view() == trimmed_rows(t)[a],
        decreases rows.len() - i,
    {
        let mut row: Vec<Vec<char>> = Vec::new();
        let mut j: usize = 0;
        while j < rows[i].len()
            invariant
                i < rows.len(),
                t.len() == rows@.len(),
                t[i as int].len() == rows@[i as int]@.len(),
                forall|b: int| 0 <= b < rows@[i as int]@.len() ==> #[trigger] t[i as int][b] == rows@[i as int]@[b]@,
                j <= rows@[i as int]@.len(),
                row@.len() == j,
                forall|b: int| 0 <= b < j ==> #[trigger] row@[b]@ == trim_spaces(t[i as int][b]),
            decreases rows@[i as int]@.len() - j,
        {
            let g = trimmed_field(&rows[i][j]);
            row.push(g);
            j += 1;
        }
        assert(row.deep_view() =~= trimmed_rows(t)[i as int]) by {
            assert forall|b: int| 0 <= b < j implies #[trigger] row.deep_view()[b] == trimmed_rows(t)[i as int][b] by {
                lemma_chars_deep_view(row@[b]);
            }
        }
        out.push(row);
        i += 1;
    }
    assert(out.deep_view() =~= trimmed_rows(t));
    out
}

/// The line breaks that end the rows of `s`, as written.
pub fn read_breaks(s: &Vec<char>) -> (brk: Vec<Vec<char>>)
    ensures
        brk.deep_view() == line_breaks(s@),
{
    let mut mode = Mode::Start;
    let mut brk: Vec<Vec<char>> = Vec::new();
    let mut i: usize = 0;
    assert(s@.take(0) =~= Seq::<char>::empty());
    assert(brk.deep_view() =~= Seq::<Seq<char>>::empty());
    while i < s.len()
        invariant
            i <= s.len(),
            mode == scan_from(fresh(), s@.take(i as int)).mode,
            brk.deep_view() == breaks_from(fresh(), s@.take(i as int)),
        decreases s.len() - i,
    {
        let c = s[i];
        let ghost t = s@.take(i as int);
        let ghost b0 = brk.deep_view();
        proof {
            assert(s@.take(i + 1).drop_last() =~= t);
            assert(s@.take(i + 1).last() == c);
        }
        let (m, act) = next_mode_exec(mode, c);
        match act {
            Act::EndRow => {
                let mut one: Vec<char> = Vec::new();
                one.push(c);
                let ghost old_brk = brk;
                brk.push(one);
                proof {
                    lemma_deep_view_push(old_brk, brk, one);
                    lemma_chars_deep_view(one);
                    assert(one@ =~= seq![c]);
                }
            },
            Act::Skip => {
                let n = brk.len();
                if n > 0 {
                    let mut last = brk[n - 1].clone();
                    assert(last@ =~= brk@[n - 1]@);
                    last.push(c);
                    let ghost old_brk = brk;
                    brk.set(n - 1, last);
                    proof {
                        assert(brk.deep_view() =~= b0.update(n - 1, b0.last().push(c))) by {
                            assert forall|k: int| 0 <= k < brk.len() implies #[trigger] brk.deep_view()[k]
                                == b0.update(n - 1, b0.last().push(c))[k] by {
                                lemma_chars_deep_view(brk@[k]);
                                lemma_chars_deep_view(old_brk@[k]);
                            }
                        }
                    }
                }
            },
            _ => {},
        }
        mode = m;
        i += 1;
    }
    assert(s@.take(s.len() as int) =~= s@);
    brk
}

/// Writes `rows` as CSV text, each row followed by its line break in `brk`.
pub fn write_lines(rows: &Vec<Vec<Vec<char>>>, brk: &Vec<Vec<char>>) -> (out: String)
    ensures
        out@ == lines_with(rows.deep_view(), brk.deep_view()),
{
    let ghost t = rows.deep_view();
    let ghost bv = brk.deep_view();
    proof { lemma_table_view(*rows); }
    let mut out = String::new();
    let mut i: usize = 0;
    assert(t.take(0) =~= Seq::<Seq<Seq<char>>>::empty());
    while i < rows.len()
        invariant
            i <= rows.len(),
            t == rows.deep_view(),
            bv == brk.deep_view(),
            t.len() == rows@.len(),
            forall|a: int| 0 <= a < rows@.len() ==> #[trigger] t[a].len() == rows@[a]@.len(),
            forall|a: int, b: int| 0 <= a < rows@.len() && 0 <= b < rows@[a]@.len()
                ==> #[trigger] t[a][b] == rows@[a]@[b]@,
            out@ == lines_with(t.take(i as int), bv),
        decreases rows.len() - i,
    {
        let row = &rows[i];
        let ghost start = out@;
        let mut j: usize = 0;
        assert(t[i as int].take(0) =~= Seq::<Seq<char>>::empty());
        while j < row.len()
            invariant
                i < rows.len(),
                t.len() == rows@.len(),
                row == rows@[i as int],
                j <= row.len(),
                t[i as int].len() == row@.len(),
                forall|b: int| 0 <= b < row@.len() ==> #[trigger] t[i as int][b] == row@[b]@,
                out@ == start + join_row(t[i as int].take(j as int)),
            decreases row.len() - j,
        {
            proof { lemma_join_row_step(t[i as int], j as int); }
            if j > 0 {
                push_char(&mut out, ',');
            }
            push_all(&mut out, &row[j]);
            j += 1;
        }
        assert(t[i as int].take(row.len() as int) =~= t[i as int]);
        if i < brk.len() {
            proof { lemma_chars_deep_view(brk@[i as int]); }
            push_all(&mut out, &brk[i]);
        }
        proof {
            assert(t.take(i + 1).drop_last() =~= t.take(i as int));
            assert(t.take(i + 1).last() == t[i as int]);
        }
        i += 1;
    }
    assert(t.take(rows.len() as int) =~= t);
    out
}

/// Pads every field with trailing spaces so columns line up.
pub fn align(input: &str) -> (out: String)
    ensures
        out@ == aligned(input@),
{
    let chars = chars_of(input);
    let rows = parse_chars(&chars);
    let widths = column_widths(&rows);
    let padded = pad_rows(&rows, &widths);
    write_lines(&padded, &read_breaks(&chars))
}

/// Strips trailing spaces added by [`align`]. For an input that was never
/// aligned (no trailing padding) this is a no-op.
pub fn unalign(input: &str) -> (out: String)
    ensures
        out@ == unaligned(input@),
{
    let chars = chars_of(input);
    let rows = parse_chars(&chars);
    let trimmed = trim_rows(&rows);
    write_lines(&trimmed, &read_breaks(&chars))
}


/// A row holds at most one field more than the text has characters.
pub proof fn lemma_row_width_bound(s: Seq<char>)
    ensures
        forall|i: int| 0 <= i < csv_rows(s).len() ==> #[trigger] csv_rows(s)[i].len() <= s.len() + 1,
        max_cols(csv_rows(s)) <= s.len() + 1,
{
    lemma_scan_width_bound(s);
    let rows = csv_rows(s);
    lemma_max_cols_bound(rows, s.len() + 1);
}

proof fn lemma_scan_width_bound(s: Seq<char>)
    ensures
        scan_from(fresh(), s).row.len() <= s.len(),
        forall|i: int| 0 <= i < scan_from(fresh(), s).rows.len()
            ==> #[trigger] scan_from(fresh(), s).rows[i].len() <= s.len(),
    decreases s.len(),
{
    if s.len() > 0 {
        lemma_scan_width_bound(s.drop_last());
    }
}

proof fn lemma_max_cols_bound(rows: Seq<Seq<Seq<char>>>, k: nat)
    requires
        forall|i: int| 0 <= i < rows.len() ==> #[trigger] rows[i].len() <= k,
    ensures
        max_cols(rows) <= k,
    decreases rows.len(),
{
    if rows.len() > 0 {
        let rp = rows.drop_last();
        assert forall|i: int| 0 <= i < rp.len() implies #[trigger] rp[i].len() <= k by {
            assert(rp[i] == rows[i]);
        }
        lemma_max_cols_bound(rp, k);
        assert(rows.last() == rows[rows.len() - 1]);
    }
}

/// A copy of a row.
pub fn copy_row(r: &Vec<Vec<char>>) -> (c: Vec<Vec<char>>)
    ensures
        c.deep_view() == r.deep_view(),
{
    let mut c: Vec<Vec<char>> = Vec::new();
    let mut j: usize = 0;
    while j < r.len()
        invariant
            j <= r.len(),
            c@.len() == j,
            forall|b: int| 0 <= b < j ==> #[trigger] c@[b]@ == r@[b]@,
        decreases r.len() - j,
    {
        let f = r[j].clone();
        assert(f@ =~= r@[j as int]@);
        c.push(f);
        j += 1;
    }
    assert(c.deep_view() =~= r.deep_view()) by {
        assert forall|b: int| 0 <= b < r.len() implies #[trigger] c.deep_view()[b] == r.deep_view()[b] by {
            lemma_chars_deep_view(c@[b]);
            lemma_chars_deep_view(r@[b]);
        }
    }
    c
}

} // verus!
