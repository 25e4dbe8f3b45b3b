//! What kind of values a column holds.
//!
//! A column is tallied first: its empty cells are counted, its other cells
//! classified, and the kind that most of them fit is picked. The caller then
//! says whether that share was high enough, and the column is settled.

use vstd::prelude::*;
use crate::text::{chars_of, lemma_chars_deep_view, lemma_deep_view_push};
use crate::csv::max_cols;
use crate::types::{CellType, cell_type, classify_panics, classify_chars};
use crate::model::{Cell, Model};

verus! {

/// The fewest non-empty cells for which a column gets a kind other than
/// plain text.
pub const MIN_SAMPLE_FOR_TYPED_COLUMN: usize = 3;

/// A cell of kind `cell` fits a column of kind `column`: the same kind, or
/// an integer in a decimal column.
pub open spec fn fits(cell: CellType, column: CellType) -> bool {
    cell == column || (cell == CellType::Int && column == CellType::Float)
}

/// Executable form of [`fits`].
pub fn matches_as(cell: CellType, column: CellType) -> (b: bool)
    ensures
        b == fits(cell, column),
{
    match (cell, column) {
        (CellType::Empty, CellType::Empty) => true,
        (CellType::Int, CellType::Int) => true,
        (CellType::Float, CellType::Float) => true,
        (CellType::Date, CellType::Date) => true,
        (CellType::String, CellType::String) => true,
        (CellType::Int, CellType::Float) => true,
        _ => false,
    }
}

/// No raw value of the column is one that classification refuses.
pub open spec fn values_classifiable(values: Seq<(usize, Seq<char>)>) -> bool {
    forall|k: int| 0 <= k < values.len() ==> !classify_panics(#[trigger] values[k].1)
}

/// How many of the values are empty cells.
pub open spec fn empties(values: Seq<(usize, Seq<char>)>) -> nat
    decreases values.len(),
{
    if values.len() == 0 {
        0
    } else {
        empties(values.drop_last()) + if cell_type(values.last().1) == CellType::Empty { 1nat } else { 0nat }
    }
}

/// The row and kind of each non-empty value, in order.
pub open spec fn typed_cells(values: Seq<(usize, Seq<char>)>) -> Seq<(usize, CellType)>
    decreases values.len(),
{
    if values.len() == 0 {
        seq![]
    } else {
        let prev = typed_cells(values.drop_last());
        let t = cell_type(values.last().1);
        if t == CellType::Empty { prev } else { prev.push((values.last().0, t)) }
    }
}

/// How many of the cells fit `column`.
pub open spec fn count_fits(cells: Seq<(usize, CellType)>, column: CellType) -> nat
    decreases cells.len(),
{
    if cells.len() == 0 {
        0
    } else {
        count_fits(cells.drop_last(), column) + if fits(cells.last().1, column) { 1nat } else { 0nat }
    }
}

/// The kind most cells fit, with how many fit it: of `Int`, `Float`, `Date`
/// and `String`, in that order, the first with the highest count, or
/// `String` with none when no cell fits any.
pub open spec fn best_of(cells: Seq<(usize, CellType)>) -> (CellType, nat) {
    let ci = count_fits(cells, CellType::Int);
    let cf = count_fits(cells, CellType::Float);
    let cd = count_fits(cells, CellType::Date);
    let cs = count_fits(cells, CellType::String);
    let (b1, n1) = if ci > 0 { (CellType::Int, ci) } else { (CellType::String, 0nat) };
    let (b2, n2) = if cf > n1 { (CellType::Float, cf) } else { (b1, n1) };
    let (b3, n3) = if cd > n2 { (CellType::Date, cd) } else { (b2, n2) };
    if cs > n3 { (CellType::String, cs) } else { (b3, n3) }
}

/// The rows of the cells that do not fit `column`, in order.
pub open spec fn misfits(cells: Seq<(usize, CellType)>, column: CellType) -> Seq<usize>
    decreases cells.len(),
{
    if cells.len() == 0 {
        seq![]
    } else {
        let prev = misfits(cells.drop_last(), column);
        if fits(cells.last().1, column) { prev } else { prev.push(cells.last().0) }
    }
}

/// A cell of kind `kind` is out of place in a column of kind `column`: the
/// kinds differ, and it is not an integer in a decimal column.
pub open spec fn out_of_place(kind: CellType, column: CellType) -> bool {
    kind != column && !(kind == CellType::Int && column == CellType::Float)
}

/// `r` is the row of one of `cells` whose kind is out of place in `column`.
pub open spec fn misplaced_row(cells: Seq<(usize, CellType)>, column: CellType, r: usize) -> bool {
    exists|k: int| 0 <= k < cells.len() && out_of_place(cells[k].1, column) && #[trigger] cells[k].0 == r
}

/// The rows listed as not fitting a column are exactly those of the cells
/// whose kind differs from the column's, except integers in a decimal
/// column: an integer in a date column, say, is listed.
pub proof fn law_misfits_are_strict(cells: Seq<(usize, CellType)>, column: CellType)
    ensures
        forall|k: int| 0 <= k < cells.len() && out_of_place(cells[k].1, column)
            ==> misfits(cells, column).contains(#[trigger] cells[k].0),
        forall|m: int| 0 <= m < misfits(cells, column).len()
            ==> misplaced_row(cells, column, #[trigger] misfits(cells, column)[m]),
    decreases cells.len(),
{
    if cells.len() > 0 {
        let cp = cells.drop_last();
        law_misfits_are_strict(cp, column);
        let prev = misfits(cp, column);
        let cur = misfits(cells, column);
        assert forall|k: int| 0 <= k < cells.len() && out_of_place(cells[k].1, column)
            implies cur.contains(#[trigger] cells[k].0) by {
            if k < cells.len() - 1 {
                assert(cp[k] == cells[k]);
                assert(prev.contains(cp[k].0));
                let m = choose|m: int| 0 <= m < prev.len() && prev[m] == cp[k].0;
                assert(cur[m] == prev[m]);
            } else {
                assert(!fits(cells.last().1, column));
                assert(cur.last() == cells[k].0);
            }
        }
        assert forall|m: int| 0 <= m < cur.len() implies misplaced_row(cells, column, #[trigger] cur[m]) by {
            if m < prev.len() {
                assert(cur[m] == prev[m]);
                assert(misplaced_row(cp, column, prev[m]));
                let k = choose|k: int| 0 <= k < cp.len() && out_of_place(cp[k].1, column) && #[trigger] cp[k].0 == prev[m];
                assert(cp[k] == cells[k]);
                assert(cells[k].0 == cur[m]);
            } else {
                let k = cells.len() - 1;
                assert(out_of_place(cells[k].1, column));
                assert(cells[k].0 == cur[m]);
            }
        }
    } else {
        assert(misfits(cells, column) =~= Seq::<usize>::empty());
    }
}

/// Every cell either fits a kind and is counted for it, or is listed among
/// its misfits: the count of a kind is the number of cells whose kind is
/// not out of place in it.
pub proof fn law_fit_count_complements_misfits(cells: Seq<(usize, CellType)>, column: CellType)
    ensures
        count_fits(cells, column) + misfits(cells, column).len() == cells.len(),
    decreases cells.len(),
{
    if cells.len() > 0 {
        law_fit_count_complements_misfits(cells.drop_last(), column);
    }
}

/// The counts behind a column's kind.
pub struct ColumnTally {
    /// How many cells are empty.
    pub empty_count: usize,
    /// Row and kind of every non-empty cell, in order.
    pub non_empty: Vec<(usize, CellType)>,
    /// The kind most non-empty cells fit.
    pub best: CellType,
    /// How many non-empty cells fit `best`.
    pub best_count: usize,
}

impl ColumnTally {
    /// This is the tally of `values`.
    pub open spec fn tallies(&self, values: Seq<(usize, Seq<char>)>) -> bool {
        &&& self.empty_count == empties(values)
        &&& self.non_empty@ == typed_cells(values)
        &&& (self.best, self.best_count as nat) == best_of(typed_cells(values))
    }

    /// The counts agree with the cells: the best count is that of the best
    /// kind among the non-empty cells.
    pub open spec fn consistent(&self) -> bool {
        &&& (self.best, self.best_count as nat) == best_of(self.non_empty@)
    }
}

/// The kind settled for a column.
pub struct ColumnType {
    /// The column's kind.
    pub primary: CellType,
    /// How many non-empty cells fit the best kind (the share of `sampled`
    /// that is the column's confidence; all of it when `sampled` is zero).
    pub matched: usize,
    /// How many cells are not empty.
    pub sampled: usize,
    /// How many cells are empty.
    pub empty_count: usize,
    /// Rows of the non-empty cells that do not fit `primary`; none unless
    /// the column got a kind other than plain text.
    pub mismatch_rows: Vec<usize>,
}

proof fn lemma_empties_le(values: Seq<(usize, Seq<char>)>)
    ensures
        empties(values) + typed_cells(values).len() == values.len(),
    decreases values.len(),
{
    if values.len() > 0 {
        lemma_empties_le(values.drop_last());
    }
}

proof fn lemma_count_fits_le(cells: Seq<(usize, CellType)>, column: CellType)
    ensures
        count_fits(cells, column) <= cells.len(),
    decreases cells.len(),
{
    if cells.len() > 0 {
        lemma_count_fits_le(cells.drop_last(), column);
    }
}

fn count_matching(cells: &Vec<(usize, CellType)>, column: CellType) -> (n: usize)
    ensures
        n == count_fits(cells@, column),
{
    let mut n: usize = 0;
    let mut i: usize = 0;
    while i < cells.len()
        invariant
            i <= cells.len(),
            n == count_fits(cells@.take(i as int), column),
            n <= i,
        decreases cells.len() - i,
    {
        assert(cells@.take(i + 1).drop_last() =~= cells@.take(i as int));
        if matches_as(cells[i].1, column) {
            n += 1;
        }
        i += 1;
    }
    assert(cells@.take(cells.len() as int) =~= cells@);
    n
}

fn pick_best(cells: &Vec<(usize, CellType)>) -> (r: (CellType, usize))
    ensures
        (r.0, r.1 as nat) == best_of(cells@),
{
    let mut best = CellType::String;
    let mut best_count: usize = 0;
    let ci = count_matching(cells, CellType::Int);
    if ci > best_count {
        best_count = ci;
        best = CellType::Int;
    }
    let cf = count_matching(cells, CellType::Float);
    if cf > best_count {
        best_count = cf;
        best = CellType::Float;
    }
    let cd = count_matching(cells, CellType::Date);
    if cd > best_count {
        best_count = cd;
        best = CellType::Date;
    }
    let cs = count_matching(cells, CellType::String);
    if cs > best_count {
        best_count = cs;
        best = CellType::String;
    }
    (best, best_count)
}

/// Tallies a column given as `(row, raw value)` pairs.
pub fn tally_column(values: &Vec<(usize, Vec<char>)>) -> (t: ColumnTally)
    requires
        values_classifiable(values.deep_view()),
    ensures
        t.tallies(values.deep_view()),
        t.consistent(),
{
    let ghost vs = values.deep_view();
    let mut empty_count: usize = 0;
    let mut non_empty: Vec<(usize, CellType)> = Vec::new();
    let mut i: usize = 0;
    while i < values.len()
        invariant
            i <= values.len(),
            vs == values.deep_view(),
            vs.len() == values@.len(),
            values_classifiable(vs),
            empty_count == empties(vs.take(i as int)),
            non_empty@ == typed_cells(vs.take(i as int)),
            empty_count + non_empty@.len() == i,
        decreases values.len() - i,
    {
        assert(vs.take(i + 1).drop_last() =~= vs.take(i as int));
        assert(vs[i as int].1 == values@[i as int].1@ && vs[i as int].0 == values@[i as int].0) by {
            lemma_chars_deep_view(values@[i as int].1);
        }
        assert(!classify_panics(vs[i as int].1));
        let t = classify_chars(&values[i].1);
        if t == CellType::Empty {
            empty_count += 1;
        } else {
            non_empty.push((values[i].0, t));
        }
        i += 1;
    }
    assert(vs.take(values.len() as int) =~= vs);
    let (best, best_count) = pick_best(&non_empty);
    ColumnTally { empty_count, non_empty, best, best_count }
}

/// Settles a column from its tally. `confident` says whether the share of
/// non-empty cells that fit the best kind reached the confidence the caller
/// asks for. The column takes the best kind when it has at least
/// [`MIN_SAMPLE_FOR_TYPED_COLUMN`] non-empty cells, the caller is confident
/// and that kind is not plain text; the rows of the cells that do not fit it
/// are then listed. Otherwise the column is plain text, or empty when it has
/// no non-empty cell.
pub fn settle_column(tally: &ColumnTally, confident: bool) -> (c: ColumnType)
    requires
        tally.consistent(),
    ensures
        c.empty_count == tally.empty_count,
        c.sampled == tally.non_empty@.len(),
        c.matched == tally.best_count,
        c.primary == (if tally.non_empty@.len() == 0 {
            CellType::Empty
        } else if tally.non_empty@.len() >= MIN_SAMPLE_FOR_TYPED_COLUMN && confident
            && tally.best != CellType::String {
            tally.best
        } else {
            CellType::String
        }),
        c.mismatch_rows@ == (if tally.non_empty@.len() >= MIN_SAMPLE_FOR_TYPED_COLUMN && confident
            && tally.best != CellType::String {
            misfits(tally.non_empty@, tally.best)
        } else {
            Seq::<usize>::empty()
        }),
{
    let total = tally.non_empty.len();
    if total == 0 {
        return ColumnType {
            primary: CellType::Empty,
            matched: tally.best_count,
            sampled: 0,
            empty_count: tally.empty_count,
            mismatch_rows: Vec::new(),
        };
    }
    let typed = total >= MIN_SAMPLE_FOR_TYPED_COLUMN && confident && tally.best != CellType::String;
    if typed {
        let ghost cells = tally.non_empty@;
        let mut rows: Vec<usize> = Vec::new();
        let mut i: usize = 0;
        while i < total
            invariant
                i <= total,
                total == tally.non_empty@.len(),
                cells == tally.non_empty@,
                rows@ == misfits(cells.take(i as int), tally.best),
            decreases total - i,
        {
            assert(cells.take(i + 1).drop_last() =~= cells.take(i as int));
            if !matches_as(tally.non_empty[i].1, tally.best) {
                rows.push(tally.non_empty[i].0);
            }
            i += 1;
        }
        assert(cells.take(total as int) =~= cells);
        ColumnType {
            primary: tally.best,
            matched: tally.best_count,
            sampled: total,
            empty_count: tally.empty_count,
            mismatch_rows: rows,
        }
    } else {
        ColumnType {
            primary: CellType::String,
            matched: tally.best_count,
            sampled: total,
            empty_count: tally.empty_count,
            mismatch_rows: Vec::new(),
        }
    }
}

// ---------------------------------------------------------------------------
// Whole tables
// ---------------------------------------------------------------------------

/// The `(row, value)` pairs of column `col`, from row `skip` on, for the rows
/// that have that column.
pub open spec fn column_values(rows: Seq<Seq<Seq<char>>>, col: int, skip: int) -> Seq<(usize, Seq<char>)>
    decreases rows.len(),
{
    if rows.len() == 0 {
        seq![]
    } else {
        let prev = column_values(rows.drop_last(), col, skip);
        let i = rows.len() - 1;
        if i >= skip && 0 <= col < rows.last().len() {
            prev.push((i as usize, rows.last()[col]))
        } else {
            prev
        }
    }
}

/// The rows before the data: the header row, when there is one.
pub open spec fn header_skip(has_header: bool) -> int {
    if has_header { 1 } else { 0 }
}

/// No cell below row `skip` is one that classification refuses.
pub open spec fn table_classifiable(rows: Seq<Seq<Seq<char>>>, skip: int) -> bool {
    forall|i: int, j: int| skip <= i < rows.len() && 0 <= j < rows[i].len()
        ==> !classify_panics(#[trigger] rows[i][j])
}

proof fn lemma_column_values_classifiable(rows: Seq<Seq<Seq<char>>>, col: int, skip: int)
    requires
        table_classifiable(rows, skip),
        0 <= skip,
    ensures
        values_classifiable(column_values(rows, col, skip)),
    decreases rows.len(),
{
    if rows.len() > 0 {
        let rp = rows.drop_last();
        assert(table_classifiable(rp, skip)) by {
            assert forall|i: int, j: int| skip <= i < rp.len() && 0 <= j < rp[i].len()
                implies !classify_panics(#[trigger] rp[i][j]) by {
                assert(rp[i] == rows[i]);
            }
        }
        lemma_column_values_classifiable(rp, col, skip);
        assert(rows.last() == rows[rows.len() - 1]);
    }
}

/// The number of columns of the widest row.
pub fn widest_row(rows: &Vec<Vec<Vec<char>>>) -> (n: usize)
    ensures
        n == max_cols(rows.deep_view()),
{
    let ghost t = rows.deep_view();
    let mut n: usize = 0;
    let mut i: usize = 0;
    while i < rows.len()
        invariant
            i <= rows.len(),
            t == rows.deep_view(),
            t.len() == rows@.len(),
            n == max_cols(t.take(i as int)),
        decreases rows.len() - i,
    {
        assert(t.take(i + 1).drop_last() =~= t.take(i as int));
        assert(t[i as int].len() == rows@[i as int]@.len());
        if rows[i].len() > n {
            n = rows[i].len();
        }
        i += 1;
    }
    assert(t.take(rows.len() as int) =~= t);
    n
}

/// The `(row, value)` pairs of one column of a table of character rows.
pub fn column_of(rows: &Vec<Vec<Vec<char>>>, col: usize, skip: usize) -> (values: Vec<(usize, Vec<char>)>)
    ensures
        values.deep_view() == column_values(rows.deep_view(), col as int, skip as int),
{
    let ghost t = rows.deep_view();
    let mut values: Vec<(usize, Vec<char>)> = Vec::new();
    let mut i: usize = 0;
    while i < rows.len()
        invariant
            i <= rows.len(),
            t == rows.deep_view(),
            t.len() == rows@.len(),
            values.deep_view() == column_values(t.take(i as int), col as int, skip as int),
        decreases rows.len() - i,
    {
        assert(t.take(i + 1).drop_last() =~= t.take(i as int));
        assert(t.take(i + 1).last() == t[i as int]);
        assert(t[i as int].len() == rows@[i as int]@.len());
        if i >= skip && col < rows[i].len() {
            let v = rows[i][col].clone();
            proof {
                lemma_chars_deep_view(rows@[i as int]@[col as int]);
                lemma_chars_deep_view(v);
                assert(t[i as int][col as int] == rows@[i as int]@[col as int]@);
            }
            let ghost v0 = values;
            let ghost p = (i, v);
            values.push((i, v));
            proof { lemma_deep_view_push(v0, values, p); }
        }
        i += 1;
    }
    assert(t.take(rows.len() as int) =~= t);
    values
}

/// Tallies every column of a table of character rows, from row `skip` on.
pub fn tally_columns(rows: &Vec<Vec<Vec<char>>>, has_header: bool) -> (tallies: Vec<ColumnTally>)
    requires
        table_classifiable(rows.deep_view(), header_skip(has_header)),
    ensures
        tallies@.len() == max_cols(rows.deep_view()),
        forall|c: int| 0 <= c < tallies@.len() ==> #[trigger] tallies@[c].tallies(
            column_values(rows.deep_view(), c, header_skip(has_header)),
        ),
        forall|c: int| 0 <= c < tallies@.len() ==> #[trigger] tallies@[c].consistent(),
{
    let skip: usize = if has_header { 1 } else { 0 };
    let n = widest_row(rows);
    let mut tallies: Vec<ColumnTally> = Vec::new();
    let mut c: usize = 0;
    while c < n
        invariant
            c <= n,
            n == max_cols(rows.deep_view()),
            skip == (header_skip(has_header)),
            table_classifiable(rows.deep_view(), skip as int),
            tallies@.len() == c,
            forall|k: int| 0 <= k < c ==> #[trigger] tallies@[k].tallies(
                column_values(rows.deep_view(), k, skip as int),
            ),
            forall|k: int| 0 <= k < c ==> #[trigger] tallies@[k].consistent(),
        decreases n - c,
    {
        let values = column_of(rows, c, skip);
        proof { lemma_column_values_classifiable(rows.deep_view(), c as int, skip as int); }
        let t = tally_column(&values);
        tallies.push(t);
        c += 1;
    }
    tallies
}

/// The characters of every field of a table of strings.
pub fn table_chars(rows: &Vec<Vec<String>>) -> (t: Vec<Vec<Vec<char>>>)
    ensures
        t.deep_view() == rows.deep_view(),
{
    let mut t: Vec<Vec<Vec<char>>> = Vec::new();
    let mut i: usize = 0;
    while i < rows.len()
        invariant
            i <= rows.len(),
            t.deep_view() == rows.deep_view().take(i as int),
        decreases rows.len() - i,
    {
        let mut r: Vec<Vec<char>> = Vec::new();
        let mut j: usize = 0;
        while j < rows[i].len()
            invariant
                i < rows.len(),
                j <= rows@[i as int].len(),
                r.deep_view() == rows@[i as int].deep_view().take(j as int),
            decreases rows@[i as int].len() - j,
        {
            let f = chars_of(rows[i][j].as_str());
            let ghost r0 = r;
            proof { lemma_chars_deep_view(f); }
            let ghost f0 = f;
            r.push(f);
            proof { lemma_deep_view_push(r0, r, f0); }
            assert(r.deep_view() =~= rows@[i as int].deep_view().take(j + 1));
            j += 1;
        }
        assert(rows@[i as int].deep_view().take(j as int) =~= rows@[i as int].deep_view());
        let ghost t0 = t;
        let ghost r1 = r;
        t.push(r);
        proof { lemma_deep_view_push(t0, t, r1); }
        assert(t.deep_view() =~= rows.deep_view().take(i + 1));
        i += 1;
    }
    assert(rows.deep_view().take(rows.len() as int) =~= rows.deep_view());
    t
}

/// Tallies every column of a parsed table; row 0 is left out when
/// `has_header`.
pub fn tally_table(rows: &Vec<Vec<String>>, has_header: bool) -> (tallies: Vec<ColumnTally>)
    requires
        table_classifiable(rows.deep_view(), header_skip(has_header)),
    ensures
        tallies@.len() == max_cols(rows.deep_view()),
        forall|c: int| 0 <= c < tallies@.len() ==> #[trigger] tallies@[c].tallies(
            column_values(rows.deep_view(), c, header_skip(has_header)),
        ),
        forall|c: int| 0 <= c < tallies@.len() ==> #[trigger] tallies@[c].consistent(),
{
    let t = table_chars(rows);
    tally_columns(&t, has_header)
}

/// The values of a model's cells, row by row.
pub open spec fn model_values(cells: Seq<Vec<Cell>>) -> Seq<Seq<Seq<char>>> {
    Seq::new(cells.len(), |i: int| Seq::new(cells[i]@.len(), |j: int| cells[i]@[j].value@))
}

/// The characters of every cell value of a model.
pub fn values_of(model: &Model) -> (t: Vec<Vec<Vec<char>>>)
    ensures
        t.deep_view() == model_values(model.cells@),
{
    let ghost want = model_values(model.cells@);
    let mut t: Vec<Vec<Vec<char>>> = Vec::new();
    let mut i: usize = 0;
    while i < model.cells.len()
        invariant
            want == model_values(model.cells@),
            i <= model.cells@.len(),
            t.deep_view() == want.take(i as int),
        decreases model.cells@.len() - i,
    {
        let mut r: Vec<Vec<char>> = Vec::new();
        let mut j: usize = 0;
        while j < model.cells[i].len()
            invariant
                want == model_values(model.cells@),
                i < model.cells@.len(),
                j <= model.cells@[i as int]@.len(),
                r.deep_view() == want[i as int].take(j as int),
            decreases model.cells@[i as int]@.len() - j,
        {
            let f = chars_of(model.cells[i][j].value.as_str());
            let ghost r0 = r;
            proof { lemma_chars_deep_view(f); }
            let ghost f0 = f;
            r.push(f);
            proof { lemma_deep_view_push(r0, r, f0); }
            assert(r.deep_view() =~= want[i as int].take(j + 1));
            j += 1;
        }
        assert(want[i as int].take(j as int) =~= want[i as int]);
        let ghost t0 = t;
        let ghost r1 = r;
        t.push(r);
        proof { lemma_deep_view_push(t0, t, r1); }
        assert(t.deep_view() =~= want.take(i + 1));
        i += 1;
    }
    assert(want.take(model.cells@.len() as int) =~= want);
    t
}

/// Tallies every column of a model by its cells' values; row 0 is left out
/// when `has_header`.
pub fn tally_model(model: &Model, has_header: bool) -> (tallies: Vec<ColumnTally>)
    requires
        table_classifiable(model_values(model.cells@), header_skip(has_header)),
    ensures
        tallies@.len() == max_cols(model_values(model.cells@)),
        forall|c: int| 0 <= c < tallies@.len() ==> #[trigger] tallies@[c].tallies(
            column_values(model_values(model.cells@), c, header_skip(has_header)),
        ),
        forall|c: int| 0 <= c < tallies@.len() ==> #[trigger] tallies@[c].consistent(),
{
    let t = values_of(model);
    tally_columns(&t, has_header)
}

} // verus!
