//! Positional model of a CSV buffer: every field with its raw text, its
//! value, and where it stands in the text in editor coordinates (zero-based
//! line, column counted in UTF-16 code units).

use vstd::prelude::*;
use crate::text::{chars_of, string_of, lemma_chars_deep_view, chars_eq, listed, strictly_sorted, insert_distinct};
use crate::csv::{Mode, Act, Scan, next_mode, next_mode_exec, scan_from, fresh, csv_rows, advance};
use crate::transforms::{canonical_value, canonical_chars};
use crate::columns::header_skip;

verus! {

// ---------------------------------------------------------------------------
// Positions
// ---------------------------------------------------------------------------

/// A place in the text: zero-based line and UTF-16 column.
#[derive(Clone, Copy, Debug, PartialEq, Eq, Structural)]
pub struct Position {
    pub line: u32,
    pub character: u32,
}

impl Position {
    /// The position at `line`, `character`.
    pub fn new(line: u32, character: u32) -> (p: Position)
        ensures
            p.line == line,
            p.character == character,
    {
        Position { line, character }
    }
}

/// A stretch of text between two positions, both included.
#[derive(Clone, Copy, Debug, PartialEq, Eq, Structural)]
pub struct Range {
    pub start: Position,
    pub end: Position,
}

impl Range {
    /// The range from `start` to `end`.
    pub fn new(start: Position, end: Position) -> (r: Range)
        ensures
            r.start == start,
            r.end == end,
    {
        Range { start, end }
    }
}

/// The number of UTF-16 code units of `c`.
pub open spec fn utf16_width(c: char) -> nat {
    if (c as u32) < 0x10000 { 1 } else { 2 }
}

/// The number of UTF-16 code units of `s`.
pub open spec fn utf16_len(s: Seq<char>) -> nat
    decreases s.len(),
{
    if s.len() == 0 { 0 } else { utf16_len(s.drop_last()) + utf16_width(s.last()) }
}

/// Line and column reached after the text `s`. Each of `\n`, `\r\n` and a
/// lone `\r` ends a line.
pub open spec fn pos_after(s: Seq<char>) -> (nat, nat)
    decreases s.len(),
{
    if s.len() == 0 {
        (0, 0)
    } else {
        let (l, c) = pos_after(s.drop_last());
        let x = s.last();
        if x == '\r' {
            (l + 1, 0)
        } else if x == '\n' {
            if s.len() >= 2 && s[s.len() - 2] == '\r' { (l, c) } else { (l + 1, 0) }
        } else {
            (l, c + utf16_width(x))
        }
    }
}

/// `p` is the position of the character at index `k` of `s` (or of the end,
/// for `k == s.len()`).
pub open spec fn is_position_of(p: Position, s: Seq<char>, k: int) -> bool {
    p.line as nat == pos_after(s.take(k)).0 && p.character as nat == pos_after(s.take(k)).1
}

/// `pos` lies within `range`, ends included.
pub open spec fn in_range(pos: Position, range: Range) -> bool {
    &&& (pos.line > range.start.line || (pos.line == range.start.line && pos.character >= range.start.character))
    &&& (pos.line < range.end.line || (pos.line == range.end.line && pos.character <= range.end.character))
}

/// Whether `pos` lies within `range`, ends included.
pub fn position_in_range(pos: Position, range: Range) -> (b: bool)
    ensures
        b == in_range(pos, range),
{
    let after_start = pos.line > range.start.line
        || (pos.line == range.start.line && pos.character >= range.start.character);
    let before_end = pos.line < range.end.line
        || (pos.line == range.end.line && pos.character <= range.end.character);
    after_start && before_end
}

/// Lines and columns never outnumber the UTF-16 code units read.
pub proof fn lemma_pos_bound(s: Seq<char>)
    ensures
        pos_after(s).0 + pos_after(s).1 <= utf16_len(s),
    decreases s.len(),
{
    if s.len() > 0 {
        lemma_pos_bound(s.drop_last());
    }
}

/// A prefix is no longer in UTF-16 than the whole.
pub proof fn lemma_utf16_len_prefix(s: Seq<char>, k: int)
    requires
        0 <= k <= s.len(),
    ensures
        utf16_len(s.take(k)) <= utf16_len(s),
    decreases s.len() - k,
{
    if k < s.len() {
        assert(s.take(k + 1).drop_last() =~= s.take(k));
        lemma_utf16_len_prefix(s, k + 1);
    } else {
        assert(s.take(k) =~= s);
    }
}

// ---------------------------------------------------------------------------
// Where each field stands
// ---------------------------------------------------------------------------

/// Where the fields read so far begin and end, as character indices: the
/// index at which the current field's range starts, the spans of the fields
/// of the current row, and those of the rows completed.
pub struct Spans {
    pub start: int,
    pub row: Seq<(int, int)>,
    pub rows: Seq<Seq<(int, int)>>,
}

/// The spans after reading character `c` at index `k` in mode `m`. A
/// field's range starts at the last character read at the start of a field
/// (the first character of the field, or the delimiter or line break that
/// ends it when it is empty) and ends where the delimiter or line break that
/// ends it is.
pub open spec fn spans_step(sp: Spans, m: Mode, c: char, k: int) -> Spans {
    let (m2, act) = next_mode(m, c);
    let start = if (m == Mode::Start || m == Mode::CrSeen) && act != Act::Skip { k } else { sp.start };
    match act {
        Act::Append => Spans { start, row: sp.row, rows: sp.rows },
        Act::EndField => Spans { start, row: sp.row.push((start, k)), rows: sp.rows },
        Act::EndRow => Spans { start, row: seq![], rows: sp.rows.push(sp.row.push((start, k))) },
        Act::Skip => sp,
    }
}

/// The spans after reading the text `s`.
pub open spec fn spans_of(s: Seq<char>) -> Spans
    decreases s.len(),
{
    if s.len() == 0 {
        Spans { start: 0, row: seq![], rows: seq![] }
    } else {
        spans_step(spans_of(s.drop_last()), scan_from(fresh(), s.drop_last()).mode, s.last(), s.len() - 1)
    }
}

/// The span of every field of `s`, row by row; an unfinished last row ends
/// at the end of the text.
pub open spec fn field_spans(s: Seq<char>) -> Seq<Seq<(int, int)>> {
    let st = scan_from(fresh(), s);
    let sp = spans_of(s);
    if st.field.len() > 0 || st.row.len() > 0 {
        sp.rows.push(sp.row.push((sp.start, s.len() as int)))
    } else {
        sp.rows
    }
}

// ---------------------------------------------------------------------------
// The model
// ---------------------------------------------------------------------------

/// One field of the buffer.
#[derive(Debug, Clone, PartialEq)]
pub struct Cell {
    /// Its row, from zero.
    pub row: usize,
    /// Its column, from zero.
    pub col: usize,
    /// Its text as written, quotes and padding included.
    pub raw: String,
    /// The value it stands for (see [`canonical_value`]).
    pub value: String,
    /// Where it stands in the text.
    pub range: Range,
}

/// Every field of a buffer, row by row.
#[derive(Debug, Clone)]
pub struct Model {
    pub cells: Vec<Vec<Cell>>,
}

/// `c` is the field at row `i`, column `j` of `s`, whose raw text is `raw`
/// and whose range spans `span`.
pub open spec fn cell_fits(c: Cell, s: Seq<char>, i: int, j: int, raw: Seq<char>, span: (int, int)) -> bool {
    &&& c.row == i
    &&& c.col == j
    &&& c.raw@ == raw
    &&& c.value@ == canonical_value(raw)
    &&& is_position_of(c.range.start, s, span.0)
    &&& is_position_of(c.range.end, s, span.1)
}

impl Cell {
    /// This is the field at row `i`, column `j` of the text `s`.
    pub open spec fn describes(&self, s: Seq<char>, i: int, j: int) -> bool {
        cell_fits(*self, s, i, j, csv_rows(s)[i][j], field_spans(s)[i][j])
    }
}

impl Model {
    /// Every cell knows its own row and column.
    pub open spec fn indexed(&self) -> bool {
        forall|i: int, j: int| 0 <= i < self.cells@.len() && 0 <= j < self.cells@[i]@.len()
            ==> #[trigger] self.cells@[i]@[j].row == i && self.cells@[i]@[j].col == j
    }

    /// The model holds exactly the fields of the text `s`, in the rows and
    /// columns [`csv_rows`] reads.
    pub open spec fn reads(&self, s: Seq<char>) -> bool {
        &&& self.cells@.len() == csv_rows(s).len()
        &&& forall|i: int| 0 <= i < self.cells@.len() ==> #[trigger] self.cells@[i]@.len() == csv_rows(s)[i].len()
        &&& forall|i: int, j: int| 0 <= i < self.cells@.len() && 0 <= j < self.cells@[i]@.len()
            ==> #[trigger] self.cells@[i]@[j].describes(s, i, j)
    }
}

/// The spans step with the reader: the same number of rows, and of fields
/// in each row.
pub open spec fn spans_match(st: Scan, sp: Spans) -> bool {
    &&& sp.row.len() == st.row.len()
    &&& sp.rows.len() == st.rows.len()
    &&& forall|a: int| 0 <= a < sp.rows.len() ==> #[trigger] sp.rows[a].len() == st.rows[a].len()
}

fn make_cell(field: &Vec<char>, row: usize, col: usize, start: Position, end: Position) -> (c: Cell)
    ensures
        c.row == row,
        c.col == col,
        c.raw@ == field@,
        c.value@ == canonical_value(field@),
        c.range.start == start,
        c.range.end == end,
{
    let raw = string_of(field);
    let value = string_of(&canonical_chars(field));
    Cell { row, col, raw, value, range: Range { start, end } }
}

/// The value a raw field stands for: trailing padding dropped, surrounding
/// quotes removed and doubled inner quotes collapsed.
pub fn canonical(raw: &str) -> (v: String)
    ensures
        v@ == canonical_value(raw@),
{
    let chars = chars_of(raw);
    string_of(&canonical_chars(&chars))
}

impl Model {
    /// Reads a buffer into its fields, each with its raw text, its value and
    /// its range.
    pub fn parse(text: &str) -> (m: Model)
        requires
            utf16_len(text@) <= u32::MAX,
        ensures
            m.reads(text@),
            m.indexed(),
    {
        let s = chars_of(text);
        let ghost t = s@;
        let mut cells: Vec<Vec<Cell>> = Vec::new();
        let mut row_cells: Vec<Cell> = Vec::new();
        let mut field: Vec<char> = Vec::new();
        let mut mode = Mode::Start;
        let mut field_start = Position { line: 0, character: 0 };
        let mut line: u32 = 0;
        let mut col: u32 = 0;
        let ghost mut st = fresh();
        let ghost mut sp = Spans { start: 0, row: seq![], rows: seq![] };
        let mut i: usize = 0;
        assert(t.take(0) =~= Seq::<char>::empty());
        while i < s.len()
            invariant
                t == s@,
                t == text@,
                utf16_len(t) <= u32::MAX,
                i <= s.len(),
                st == scan_from(fresh(), t.take(i as int)),
                sp == spans_of(t.take(i as int)),
                st.mode == mode,
                st.field == field@,
                spans_match(st, sp),
                0 <= sp.start <= i,
                is_position_of(field_start, t, sp.start),
                line as nat == pos_after(t.take(i as int)).0,
                col as nat == pos_after(t.take(i as int)).1,
                cells@.len() == st.rows.len(),
                row_cells@.len() == st.row.len(),
                forall|a: int| 0 <= a < cells@.len() ==> #[trigger] cells@[a]@.len() == st.rows[a].len(),
                forall|a: int, b: int| 0 <= a < cells@.len() && 0 <= b < cells@[a]@.len()
                    ==> cell_fits(#[trigger] cells@[a]@[b], t, a, b, st.rows[a][b], sp.rows[a][b]),
                forall|b: int| 0 <= b < row_cells@.len()
                    ==> cell_fits(#[trigger] row_cells@[b], t, cells@.len() as int, b, st.row[b], sp.row[b]),
            decreases s.len() - i,
        {
            let c = s[i];
            let here = Position { line, character: col };
            let ghost prev = t.take(i as int);
            assert(t.take(i + 1).drop_last() =~= prev);
            assert(t.take(i + 1).last() == c);
            let (m, act) = next_mode_exec(mode, c);
            if (mode == Mode::Start || mode == Mode::CrSeen) && act != Act::Skip {
                field_start = here;
            }
            match act {
                Act::Append => {
                    field.push(c);
                },
                Act::EndField => {
                    let cell = make_cell(&field, cells.len(), row_cells.len(), field_start, here);
                    row_cells.push(cell);
                    field = Vec::new();
                },
                Act::EndRow => {
                    let cell = make_cell(&field, cells.len(), row_cells.len(), field_start, here);
                    row_cells.push(cell);
                    field = Vec::new();
                    cells.push(row_cells);
                    row_cells = Vec::new();
                },
                Act::Skip => {},
            }
            mode = m;
            proof {
                lemma_pos_bound(t.take(i + 1));
                lemma_utf16_len_prefix(t, i + 1);
            }
            if c == '\r' {
                line = line + 1;
                col = 0;
            } else if c == '\n' {
                if i == 0 || s[i - 1] != '\r' {
                    line = line + 1;
                    col = 0;
                }
            } else {
                let w: u32 = if (c as u32) < 0x10000 { 1 } else { 2 };
                col = col + w;
            }
            proof {
                if i > 0 {
                    assert(t.take(i + 1)[i - 1] == t[i - 1]);
                }
                let ghost st2 = advance(st, c);
                let ghost sp2 = spans_step(sp, st.mode, c, i as int);
                assert(scan_from(fresh(), t.take(i + 1)) == st2);
                assert(spans_of(t.take(i + 1)) == sp2);
                st = st2;
                sp = sp2;
                assert(field@ =~= st.field);
            }
            i += 1;
        }
        assert(t.take(s.len() as int) =~= t);
        if field.len() > 0 || row_cells.len() > 0 {
            let end = Position { line, character: col };
            let cell = make_cell(&field, cells.len(), row_cells.len(), field_start, end);
            row_cells.push(cell);
            cells.push(row_cells);
        }
        Model { cells }
    }
}

// ---------------------------------------------------------------------------
// Looking things up
// ---------------------------------------------------------------------------

/// The cell at row `i`, column `j` exists and its range holds `pos`.
pub open spec fn hit(cells: Seq<Vec<Cell>>, pos: Position, i: int, j: int) -> bool {
    0 <= i < cells.len() && 0 <= j < cells[i]@.len() && in_range(pos, cells[i]@[j].range)
}

/// The cell at row `i`, column `j` is the first, row by row, whose range
/// holds `pos`.
pub open spec fn first_hit(cells: Seq<Vec<Cell>>, pos: Position, i: int, j: int) -> bool {
    &&& hit(cells, pos, i, j)
    &&& forall|a: int, b: int| #[trigger] hit(cells, pos, a, b) ==> (a > i || (a == i && b >= j))
}

/// The first cell, row by row, whose range holds `pos`, by row and column.
pub open spec fn cell_index_at(cells: Seq<Vec<Cell>>, pos: Position) -> Option<(int, int)> {
    if exists|i: int, j: int| #[trigger] first_hit(cells, pos, i, j) {
        Some(choose|i: int, j: int| #[trigger] first_hit(cells, pos, i, j))
    } else {
        None
    }
}

/// Only one cell is the first to hold a position.
pub proof fn lemma_first_hit_unique(cells: Seq<Vec<Cell>>, pos: Position, i: int, j: int)
    requires
        first_hit(cells, pos, i, j),
    ensures
        cell_index_at(cells, pos) == Some((i, j)),
{
    let (a, b) = choose|a: int, b: int| #[trigger] first_hit(cells, pos, a, b);
    assert(hit(cells, pos, a, b));
    assert(hit(cells, pos, i, j));
}

/// The cell [`cell_index_at`] finds is the first to hold the position.
pub proof fn lemma_cell_index_at(cells: Seq<Vec<Cell>>, pos: Position)
    ensures
        cell_index_at(cells, pos) matches Some(ij) ==> first_hit(cells, pos, ij.0, ij.1),
{
}

/// The values of column `col` from row `skip` on, for the rows that have
/// that column, row by row, as cells whose value is `value`.
pub open spec fn column_hits(cells: Seq<Vec<Cell>>, col: int, value: Seq<char>, skip: int) -> Seq<Cell>
    decreases cells.len(),
{
    if cells.len() == 0 {
        seq![]
    } else {
        let prev = column_hits(cells.drop_last(), col, value, skip);
        let i = cells.len() - 1;
        if i >= skip && 0 <= col < cells.last()@.len() && cells.last()@[col].value@ == value {
            prev.push(cells.last()@[col])
        } else {
            prev
        }
    }
}

/// Row `i` is one whose value in column `col` is offered: past the header
/// rows, not the excluded row, having that column with a non-empty value.
pub open spec fn offers(cells: Seq<Vec<Cell>>, col: int, exclude: Option<usize>, skip: int, i: int) -> bool {
    &&& skip <= i < cells.len()
    &&& exclude != Some(i as usize)
    &&& 0 <= col < cells[i]@.len()
    &&& cells[i]@[col].value@.len() > 0
}

/// `v` is the value of column `col` in some row before `n` that offers one.
pub open spec fn offered_before(cells: Seq<Vec<Cell>>, col: int, exclude: Option<usize>, skip: int, n: int, v: Seq<char>) -> bool {
    exists|i: int| i < n && #[trigger] offers(cells, col, exclude, skip, i) && cells[i]@[col].value@ == v
}

/// The values offered by column `col`.
pub open spec fn offered_values(cells: Seq<Vec<Cell>>, col: int, exclude: Option<usize>, skip: int) -> Set<Seq<char>> {
    Set::new(|v: Seq<char>| offered_before(cells, col, exclude, skip, cells.len() as int, v))
}

impl Model {
    /// The first cell, row by row, whose range holds `pos`.
    pub fn cell_at(&self, pos: Position) -> (r: Option<&Cell>)
        ensures
            r is None <==> forall|a: int, b: int| !hit(self.cells@, pos, a, b),
            r is None <==> cell_index_at(self.cells@, pos) is None,
            r matches Some(c) ==> (cell_index_at(self.cells@, pos) matches Some(ij)
                && *c == self.cells@[ij.0]@[ij.1]),
    {
        let mut i: usize = 0;
        while i < self.cells.len()
            invariant
                i <= self.cells@.len(),
                forall|a: int, b: int| 0 <= a < i ==> !#[trigger] hit(self.cells@, pos, a, b),
            decreases self.cells@.len() - i,
        {
            let mut j: usize = 0;
            while j < self.cells[i].len()
                invariant
                    i < self.cells@.len(),
                    j <= self.cells@[i as int]@.len(),
                    forall|a: int, b: int| 0 <= a < i ==> !#[trigger] hit(self.cells@, pos, a, b),
                    forall|b: int| 0 <= b < j ==> !#[trigger] hit(self.cells@, pos, i as int, b),
                decreases self.cells@[i as int]@.len() - j,
            {
                if position_in_range(pos, self.cells[i][j].range) {
                    assert(first_hit(self.cells@, pos, i as int, j as int));
                    proof { lemma_first_hit_unique(self.cells@, pos, i as int, j as int); }
                    return Some(&self.cells[i][j]);
                }
                j += 1;
            }
            i += 1;
        }
        proof {
            if exists|a: int, b: int| #[trigger] first_hit(self.cells@, pos, a, b) {
                let (a, b) = choose|a: int, b: int| #[trigger] first_hit(self.cells@, pos, a, b);
                assert(hit(self.cells@, pos, a, b));
            }
        }
        None
    }

    /// The value of the first row's cell in column `col`, when there is one.
    pub fn header(&self, col: usize) -> (r: Option<&str>)
        ensures
            r is Some <==> (self.cells@.len() > 0 && col < self.cells@[0]@.len()),
            r matches Some(h) ==> h@ == self.cells@[0]@[col as int].value@,
    {
        if self.cells.len() > 0 && col < self.cells[0].len() {
            Some(self.cells[0][col].value.as_str())
        } else {
            None
        }
    }

    /// The distinct non-empty values of column `col`, in increasing order,
    /// leaving out the header row when `skip_header` and the row
    /// `exclude_row` when given.
    pub fn column_values_excluding(&self, col: usize, exclude_row: Option<usize>, skip_header: bool) -> (out: Vec<String>)
        ensures
            strictly_sorted(out@),
            forall|v: Seq<char>| #[trigger] offered_values(self.cells@, col as int, exclude_row, header_skip(skip_header)).contains(v)
                <==> listed(out@, v),
    {
        let skip: usize = if skip_header { 1 } else { 0 };
        let ghost cs = self.cells@;
        let mut out: Vec<String> = Vec::new();
        let mut i: usize = 0;
        while i < self.cells.len()
            invariant
                cs == self.cells@,
                skip == header_skip(skip_header),
                i <= cs.len(),
                strictly_sorted(out@),
                forall|v: Seq<char>| #[trigger] offered_before(cs, col as int, exclude_row, skip as int, i as int, v)
                    <==> listed(out@, v),
            decreases cs.len() - i,
        {
            let excluded = match exclude_row {
                Some(e) => i == e,
                None => false,
            };
            let ghost o0 = out@;
            let ghost mut x0: Seq<char> = seq![];
            let ghost mut took = false;
            if i >= skip && !excluded && col < self.cells[i].len() && !self.cells[i][col].value.as_str().is_empty() {
                let x = chars_of(self.cells[i][col].value.as_str());
                proof {
                    x0 = x@;
                    took = true;
                    assert(offers(cs, col as int, exclude_row, skip as int, i as int));
                }
                insert_distinct(&mut out, &x);
            }
            proof {
                assert forall|v: Seq<char>| #[trigger] offered_before(cs, col as int, exclude_row, skip as int, i + 1, v)
                    <==> listed(out@, v) by {
                    if offered_before(cs, col as int, exclude_row, skip as int, i + 1, v) {
                        let r = choose|r: int| r < i + 1 && #[trigger] offers(cs, col as int, exclude_row, skip as int, r)
                            && cs[r]@[col as int].value@ == v;
                        if r < i {
                            assert(offered_before(cs, col as int, exclude_row, skip as int, i as int, v));
                        } else {
                            assert(took && v == x0);
                        }
                    }
                    if listed(out@, v) {
                        if listed(o0, v) {
                            assert(offered_before(cs, col as int, exclude_row, skip as int, i as int, v));
                            let r = choose|r: int| r < i && #[trigger] offers(cs, col as int, exclude_row, skip as int, r)
                                && cs[r]@[col as int].value@ == v;
                            assert(r < i + 1);
                        } else {
                            assert(took && v == x0);
                            assert(offers(cs, col as int, exclude_row, skip as int, i as int));
                        }
                    }
                }
            }
            i += 1;
        }
        out
    }

    /// The cells of column `col` whose value is `value`, row by row, leaving
    /// out the header row when `skip_header`.
    pub fn find_in_column(&self, col: usize, value: &str, skip_header: bool) -> (out: Vec<&Cell>)
        ensures
            out@.len() == column_hits(self.cells@, col as int, value@, header_skip(skip_header)).len(),
            forall|k: int| 0 <= k < out@.len() ==> *out@[k]
                == #[trigger] column_hits(self.cells@, col as int, value@, header_skip(skip_header))[k],
    {
        let skip: usize = if skip_header { 1 } else { 0 };
        let want = chars_of(value);
        let ghost cs = self.cells@;
        let mut out: Vec<&Cell> = Vec::new();
        let mut i: usize = 0;
        while i < self.cells.len()
            invariant
                cs == self.cells@,
                want@ == value@,
                skip == (header_skip(skip_header)),
                i <= cs.len(),
                out@.len() == column_hits(cs.take(i as int), col as int, value@, skip as int).len(),
                forall|k: int| 0 <= k < out@.len() ==> *out@[k]
                    == #[trigger] column_hits(cs.take(i as int), col as int, value@, skip as int)[k],
            decreases cs.len() - i,
        {
            assert(cs.take(i + 1).drop_last() =~= cs.take(i as int));
            assert(cs.take(i + 1).last() == cs[i as int]);
            if i >= skip && col < self.cells[i].len() {
                let v = chars_of(self.cells[i][col].value.as_str());
                if chars_eq(&v, &want) {
                    out.push(&self.cells[i][col]);
                }
            }
            i += 1;
        }
        assert(cs.take(cs.len() as int) =~= cs);
        out
    }
}

} // verus!
