//! What the editor integration decides: the range of a whole buffer, where
//! the cursor moves from cell to cell, which code actions are offered, what
//! a hover shows, what completes a cell, where a value is defined and
//! referenced, and what a command does to a buffer.

use vstd::prelude::*;
use crate::text::{
    chars_of, chars_eq, push_all, push_char, push_decimal, push_text, decimal, trim_start_ws, is_ws,
    is_whitespace, listed, strictly_sorted,
};
use crate::model::{
    Model, Cell, Position, Range, in_range, position_in_range, hit, first_hit, cell_index_at, column_hits,
    lemma_cell_index_at,
    utf16_width, utf16_len, offered_values,
};
use crate::columns::header_skip;
use crate::types::CellType;
use crate::csv::{align, unalign, aligned, unaligned, csv_rows, emit, ends_nl};
use crate::transforms::{
    quoted, quote_field, add_column, delete_column, duplicate_row, sort_by_column, with_added_column,
    without_column, with_duplicated_row, is_sorted_text,
};
use crate::markdown::{to_markdown_table, from_markdown_table, markdown_of, csv_of_markdown};

verus! {

// ---------------------------------------------------------------------------
// The whole buffer
// ---------------------------------------------------------------------------

/// Where the text `s` ends: the number of line feeds in it, and the UTF-16
/// width of what follows the last one.
pub open spec fn text_end(s: Seq<char>) -> (nat, nat)
    decreases s.len(),
{
    if s.len() == 0 {
        (0, 0)
    } else {
        let (l, c) = text_end(s.drop_last());
        if s.last() == '\n' { (l + 1, 0) } else { (l, c + utf16_width(s.last())) }
    }
}

proof fn lemma_text_end_bound(s: Seq<char>)
    ensures
        text_end(s).0 + text_end(s).1 <= utf16_len(s),
    decreases s.len(),
{
    if s.len() > 0 {
        lemma_text_end_bound(s.drop_last());
    }
}

/// The range of the whole text, from its start to its end.
pub fn full_range(text: &str) -> (r: Range)
    requires
        utf16_len(text@) <= u32::MAX,
    ensures
        r.start == (Position { line: 0, character: 0 }),
        r.end.line as nat == text_end(text@).0,
        r.end.character as nat == text_end(text@).1,
{
    let s = chars_of(text);
    let mut line: u32 = 0;
    let mut col: u32 = 0;
    let mut i: usize = 0;
    assert(s@.take(0) =~= Seq::<char>::empty());
    while i < s.len()
        invariant
            s@ == text@,
            utf16_len(s@) <= u32::MAX,
            i <= s.len(),
            line as nat == text_end(s@.take(i as int)).0,
            col as nat == text_end(s@.take(i as int)).1,
        decreases s.len() - i,
    {
        assert(s@.take(i + 1).drop_last() =~= s@.take(i as int));
        proof {
            lemma_text_end_bound(s@.take(i + 1));
            crate::model::lemma_utf16_len_prefix(s@, i + 1);
        }
        let c = s[i];
        if c == '\n' {
            line = line + 1;
            col = 0;
        } else {
            let w: u32 = if (c as u32) < 0x10000 { 1 } else { 2 };
            col = col + w;
        }
        i += 1;
    }
    assert(s@.take(s.len() as int) =~= s@);
    Range { start: Position { line: 0, character: 0 }, end: Position { line, character: col } }
}

// ---------------------------------------------------------------------------
// Moving from cell to cell
// ---------------------------------------------------------------------------

/// `start` comes after `pos`.
pub open spec fn starts_after(start: Position, pos: Position) -> bool {
    start.line > pos.line || (start.line == pos.line && start.character > pos.character)
}

/// Whether `start` comes after `pos`.
pub fn cell_starts_after(start: Position, pos: Position) -> (b: bool)
    ensures
        b == starts_after(start, pos),
{
    start.line > pos.line || (start.line == pos.line && start.character > pos.character)
}

/// The ranges of all cells, row by row.
pub open spec fn flat_ranges(cells: Seq<Vec<Cell>>) -> Seq<Range>
    decreases cells.len(),
{
    if cells.len() == 0 {
        seq![]
    } else {
        flat_ranges(cells.drop_last()) + Seq::new(cells.last()@.len(), |j: int| cells.last()@[j].range)
    }
}

/// The index of the first range that holds `pos`.
pub open spec fn first_holding(rs: Seq<Range>, pos: Position) -> Option<int>
    decreases rs.len(),
{
    if rs.len() == 0 {
        None
    } else {
        let f = first_holding(rs.drop_last(), pos);
        if f is Some { f } else if in_range(pos, rs.last()) { Some(rs.len() - 1) } else { None }
    }
}

/// The index of the first range that starts after `pos`.
pub open spec fn first_starting_after(rs: Seq<Range>, pos: Position) -> Option<int>
    decreases rs.len(),
{
    if rs.len() == 0 {
        None
    } else {
        let f = first_starting_after(rs.drop_last(), pos);
        if f is Some { f } else if starts_after(rs.last().start, pos) { Some(rs.len() - 1) } else { None }
    }
}

proof fn lemma_first_in_bounds(rs: Seq<Range>, pos: Position)
    ensures
        first_holding(rs, pos) matches Some(i) ==> 0 <= i < rs.len(),
        first_starting_after(rs, pos) matches Some(i) ==> 0 <= i < rs.len(),
    decreases rs.len(),
{
    if rs.len() > 0 {
        lemma_first_in_bounds(rs.drop_last(), pos);
    }
}

/// Where the cursor is among the cells: the cell holding it, or else
/// (moving forward) the cell before the first that starts after it, or
/// (moving back) that first cell itself.
pub open spec fn current_index(rs: Seq<Range>, pos: Position, forward: bool) -> Option<int> {
    match first_holding(rs, pos) {
        Some(i) => Some(i),
        None => match first_starting_after(rs, pos) {
            Some(i) => Some(if forward { if i > 0 { i - 1 } else { 0 } } else { i }),
            None => None,
        },
    }
}

/// The index of the cell to move to: the next or previous one, or the
/// first (forward) or last (back) when the cursor is past every cell.
pub open spec fn target_index(rs: Seq<Range>, pos: Position, forward: bool) -> int {
    match current_index(rs, pos, forward) {
        Some(i) => if forward { i + 1 } else { if i > 0 { i - 1 } else { 0 } },
        None => if forward { 0 } else { rs.len() - 1 },
    }
}

/// The range of the cell the cursor moves to from `pos`.
pub open spec fn move_range(cells: Seq<Vec<Cell>>, pos: Position, forward: bool) -> Option<Range> {
    let rs = flat_ranges(cells);
    let k = target_index(rs, pos, forward);
    if rs.len() > 0 && 0 <= k < rs.len() { Some(rs[k]) } else { None }
}

fn ranges_of(model: &Model) -> (rs: Vec<Range>)
    ensures
        rs@ == flat_ranges(model.cells@),
{
    let ghost cs = model.cells@;
    let mut rs: Vec<Range> = Vec::new();
    let mut i: usize = 0;
    assert(cs.take(0) =~= Seq::<Vec<Cell>>::empty());
    while i < model.cells.len()
        invariant
            cs == model.cells@,
            i <= cs.len(),
            rs@ == flat_ranges(cs.take(i as int)),
        decreases cs.len() - i,
    {
        let ghost before = rs@;
        let mut j: usize = 0;
        while j < model.cells[i].len()
            invariant
                cs == model.cells@,
                i < cs.len(),
                j <= cs[i as int]@.len(),
                rs@ == before + Seq::new(j as nat, |b: int| cs[i as int]@[b].range),
            decreases cs[i as int]@.len() - j,
        {
            rs.push(model.cells[i][j].range);
            assert(rs@ =~= before + Seq::new((j + 1) as nat, |b: int| cs[i as int]@[b].range));
            j += 1;
        }
        assert(cs.take(i + 1).drop_last() =~= cs.take(i as int));
        assert(cs.take(i + 1).last() == cs[i as int]);
        assert(rs@ =~= flat_ranges(cs.take(i + 1)));
        i += 1;
    }
    assert(cs.take(cs.len() as int) =~= cs);
    rs
}

/// The range of the cell to move the cursor to from `pos`, forward or back
/// (nothing when there is no cell).
pub fn move_target(model: &Model, pos: Position, forward: bool) -> (r: Option<Range>)
    ensures
        r == move_range(model.cells@, pos, forward),
{
    let rs = ranges_of(model);
    if rs.len() == 0 {
        return None;
    }
    let mut holding: Option<usize> = None;
    let mut after: Option<usize> = None;
    let mut k: usize = 0;
    while k < rs.len()
        invariant
            k <= rs@.len(),
            holding matches Some(h) ==> first_holding(rs@.take(k as int), pos) == Some(h as int),
            holding is None ==> first_holding(rs@.take(k as int), pos) is None,
            after matches Some(h) ==> first_starting_after(rs@.take(k as int), pos) == Some(h as int),
            after is None ==> first_starting_after(rs@.take(k as int), pos) is None,
        decreases rs@.len() - k,
    {
        assert(rs@.take(k + 1).drop_last() =~= rs@.take(k as int));
        if holding.is_none() && position_in_range(pos, rs[k]) {
            holding = Some(k);
        }
        if after.is_none() && cell_starts_after(rs[k].start, pos) {
            after = Some(k);
        }
        k += 1;
    }
    assert(rs@.take(rs@.len() as int) =~= rs@);
    proof { lemma_first_in_bounds(rs@, pos); }
    let current: Option<usize> = match holding {
        Some(i) => Some(i),
        None => match after {
            Some(i) => Some(if forward { if i > 0 { i - 1 } else { 0 } } else { i }),
            None => None,
        },
    };
    let target: usize = match current {
        Some(i) => if forward { i + 1 } else { if i > 0 { i - 1 } else { 0 } },
        None => if forward { 0 } else { rs.len() - 1 },
    };
    if target < rs.len() { Some(rs[target]) } else { None }
}

// ---------------------------------------------------------------------------
// Commands and code actions
// ---------------------------------------------------------------------------

/// The commands the editor can run on a buffer.
#[derive(Clone, Copy, Debug, PartialEq, Eq, Structural)]
pub enum EditCommand {
    Align,
    Unalign,
    AddColumn,
    DeleteColumn,
    DuplicateRow,
    SortByColumn,
    NextCell,
    PrevCell,
    ToMarkdownTable,
    FromMarkdownTable,
    ColumnSummary,
}

impl EditCommand {
    /// The name the editor knows the command by.
    pub open spec fn name_text(self) -> Seq<char> {
        match self {
            EditCommand::Align => "bluecsv.align"@,
            EditCommand::Unalign => "bluecsv.unalign"@,
            EditCommand::AddColumn => "bluecsv.addColumn"@,
            EditCommand::DeleteColumn => "bluecsv.deleteColumn"@,
            EditCommand::DuplicateRow => "bluecsv.duplicateRow"@,
            EditCommand::SortByColumn => "bluecsv.sortByColumn"@,
            EditCommand::NextCell => "bluecsv.nextCell"@,
            EditCommand::PrevCell => "bluecsv.prevCell"@,
            EditCommand::ToMarkdownTable => "bluecsv.toMarkdownTable"@,
            EditCommand::FromMarkdownTable => "bluecsv.fromMarkdownTable"@,
            EditCommand::ColumnSummary => "bluecsv.columnSummary"@,
        }
    }

    /// The name the editor knows the command by.
    pub fn name(self) -> (r: &'static str)
        ensures
            r@ == self.name_text(),
    {
        match self {
            EditCommand::Align => "bluecsv.align",
            EditCommand::Unalign => "bluecsv.unalign",
            EditCommand::AddColumn => "bluecsv.addColumn",
            EditCommand::DeleteColumn => "bluecsv.deleteColumn",
            EditCommand::DuplicateRow => "bluecsv.duplicateRow",
            EditCommand::SortByColumn => "bluecsv.sortByColumn",
            EditCommand::NextCell => "bluecsv.nextCell",
            EditCommand::PrevCell => "bluecsv.prevCell",
            EditCommand::ToMarkdownTable => "bluecsv.toMarkdownTable",
            EditCommand::FromMarkdownTable => "bluecsv.fromMarkdownTable",
            EditCommand::ColumnSummary => "bluecsv.columnSummary",
        }
    }
}

/// Every command, in the order they are announced.
pub open spec fn all_commands() -> Seq<EditCommand> {
    seq![
        EditCommand::Align,
        EditCommand::Unalign,
        EditCommand::AddColumn,
        EditCommand::DeleteColumn,
        EditCommand::DuplicateRow,
        EditCommand::SortByColumn,
        EditCommand::NextCell,
        EditCommand::PrevCell,
        EditCommand::ToMarkdownTable,
        EditCommand::FromMarkdownTable,
        EditCommand::ColumnSummary,
    ]
}

/// The commands the server announces.
pub fn commands() -> (v: Vec<EditCommand>)
    ensures
        v@ == all_commands(),
{
    let v = vec![
        EditCommand::Align,
        EditCommand::Unalign,
        EditCommand::AddColumn,
        EditCommand::DeleteColumn,
        EditCommand::DuplicateRow,
        EditCommand::SortByColumn,
        EditCommand::NextCell,
        EditCommand::PrevCell,
        EditCommand::ToMarkdownTable,
        EditCommand::FromMarkdownTable,
        EditCommand::ColumnSummary,
    ];
    assert(v@ =~= all_commands());
    v
}

/// The command a name stands for: the first whose name it is.
pub open spec fn command_of(name: Seq<char>) -> Option<EditCommand> {
    if name == "bluecsv.align"@ {
        Some(EditCommand::Align)
    } else if name == "bluecsv.unalign"@ {
        Some(EditCommand::Unalign)
    } else if name == "bluecsv.addColumn"@ {
        Some(EditCommand::AddColumn)
    } else if name == "bluecsv.deleteColumn"@ {
        Some(EditCommand::DeleteColumn)
    } else if name == "bluecsv.duplicateRow"@ {
        Some(EditCommand::DuplicateRow)
    } else if name == "bluecsv.sortByColumn"@ {
        Some(EditCommand::SortByColumn)
    } else if name == "bluecsv.nextCell"@ {
        Some(EditCommand::NextCell)
    } else if name == "bluecsv.prevCell"@ {
        Some(EditCommand::PrevCell)
    } else if name == "bluecsv.toMarkdownTable"@ {
        Some(EditCommand::ToMarkdownTable)
    } else if name == "bluecsv.fromMarkdownTable"@ {
        Some(EditCommand::FromMarkdownTable)
    } else if name == "bluecsv.columnSummary"@ {
        Some(EditCommand::ColumnSummary)
    } else {
        None
    }
}

fn is_named(name: &Vec<char>, lit: &str) -> (b: bool)
    ensures
        b == (name@ == lit@),
{
    let v = chars_of(lit);
    chars_eq(name, &v)
}

/// The command a name stands for, if any.
pub fn command_named(name: &str) -> (c: Option<EditCommand>)
    ensures
        c == command_of(name@),
{
    let n = chars_of(name);
    if is_named(&n, "bluecsv.align") {
        Some(EditCommand::Align)
    } else if is_named(&n, "bluecsv.unalign") {
        Some(EditCommand::Unalign)
    } else if is_named(&n, "bluecsv.addColumn") {
        Some(EditCommand::AddColumn)
    } else if is_named(&n, "bluecsv.deleteColumn") {
        Some(EditCommand::DeleteColumn)
    } else if is_named(&n, "bluecsv.duplicateRow") {
        Some(EditCommand::DuplicateRow)
    } else if is_named(&n, "bluecsv.sortByColumn") {
        Some(EditCommand::SortByColumn)
    } else if is_named(&n, "bluecsv.nextCell") {
        Some(EditCommand::NextCell)
    } else if is_named(&n, "bluecsv.prevCell") {
        Some(EditCommand::PrevCell)
    } else if is_named(&n, "bluecsv.toMarkdownTable") {
        Some(EditCommand::ToMarkdownTable)
    } else if is_named(&n, "bluecsv.fromMarkdownTable") {
        Some(EditCommand::FromMarkdownTable)
    } else if is_named(&n, "bluecsv.columnSummary") {
        Some(EditCommand::ColumnSummary)
    } else {
        None
    }
}

/// What a code action passes its command: the buffer's URI, alone or in an
/// object, with a column, a row, or a column and a direction.
#[derive(Clone, Copy, Debug, PartialEq, Eq, Structural)]
pub enum ActionArg {
    Uri,
    UriObject,
    Col(usize),
    Row(usize),
    Sort(usize, bool),
}

/// A code action to offer: its title, its command and the argument.
pub struct ActionPlan {
    pub title: String,
    pub command: EditCommand,
    pub arg: ActionArg,
}

impl View for ActionPlan {
    type V = (Seq<char>, EditCommand, ActionArg);

    open spec fn view(&self) -> (Seq<char>, EditCommand, ActionArg) {
        (self.title@, self.command, self.arg)
    }
}

/// How an action names column `col`: its header in curly quotes, or
/// `column N` (counting from one) when the header is missing or empty.
pub open spec fn column_label(cells: Seq<Vec<Cell>>, col: usize) -> Seq<char> {
    if cells.len() > 0 && col < cells[0]@.len() && cells[0]@[col as int].value@.len() > 0 {
        "\u{201c}"@ + cells[0]@[col as int].value@ + "\u{201d}"@
    } else {
        "column "@ + decimal((col + 1) as nat)
    }
}

/// The actions offered whatever the cursor is on.
pub open spec fn buffer_actions() -> Seq<(Seq<char>, EditCommand, ActionArg)> {
    seq![
        ("Align columns"@, EditCommand::Align, ActionArg::Uri),
        ("Unalign columns"@, EditCommand::Unalign, ActionArg::Uri),
        ("Add column"@, EditCommand::AddColumn, ActionArg::UriObject),
        ("Convert CSV to markdown table"@, EditCommand::ToMarkdownTable, ActionArg::Uri),
        ("Parse markdown table into CSV"@, EditCommand::FromMarkdownTable, ActionArg::Uri),
    ]
}

/// The actions offered for the cell `c`: delete its column, duplicate its
/// row, sort by its column either way.
pub open spec fn cell_actions(cells: Seq<Vec<Cell>>, c: Cell) -> Seq<(Seq<char>, EditCommand, ActionArg)> {
    let label = column_label(cells, c.col);
    seq![
        ("Delete "@ + label, EditCommand::DeleteColumn, ActionArg::Col(c.col)),
        ("Duplicate row "@ + decimal((c.row + 1) as nat), EditCommand::DuplicateRow, ActionArg::Row(c.row)),
        ("Sort rows by "@ + label + " (ascending)"@, EditCommand::SortByColumn, ActionArg::Sort(c.col, true)),
        ("Sort rows by "@ + label + " (descending)"@, EditCommand::SortByColumn, ActionArg::Sort(c.col, false)),
    ]
}

/// The actions offered at `pos`: those for the whole buffer, then those for
/// the cell under the cursor, if any.
pub open spec fn action_plans(cells: Seq<Vec<Cell>>, pos: Position) -> Seq<(Seq<char>, EditCommand, ActionArg)> {
    match cell_index_at(cells, pos) {
        None => buffer_actions(),
        Some(ij) => buffer_actions() + cell_actions(cells, cells[ij.0]@[ij.1]),
    }
}

fn plan(title: String, command: EditCommand, arg: ActionArg) -> (p: ActionPlan)
    ensures
        p@ == (title@, command, arg),
{
    ActionPlan { title, command, arg }
}

fn text_of(s: &str) -> (t: String)
    ensures
        t@ == s@,
{
    let mut t = String::new();
    push_text(&mut t, s);
    t
}

fn push_column_label(out: &mut String, model: &Model, col: usize)
    requires
        col < usize::MAX,
    ensures
        final(out)@ == old(out)@ + column_label(model.cells@, col),
{
    match model.header(col) {
        Some(h) => {
            if !h.is_empty() {
                push_text(out, "\u{201c}");
                push_text(out, h);
                push_text(out, "\u{201d}");
                return;
            }
        },
        None => {},
    }
    push_text(out, "column ");
    push_decimal(out, col + 1);
}

/// The cell under the cursor of a model whose cells know their places has
/// a row and a column below the largest `usize`.
proof fn lemma_cell_bounds(model: &Model, pos: Position)
    requires
        model.indexed(),
    ensures
        cell_index_at(model.cells@, pos) matches Some(ij) ==> model.cells@[ij.0]@[ij.1].col < usize::MAX
            && model.cells@[ij.0]@[ij.1].row < usize::MAX,
{
    lemma_cell_index_at(model.cells@, pos);
    match cell_index_at(model.cells@, pos) {
        Some(ij) => {
            assert(hit(model.cells@, pos, ij.0, ij.1));
            assert(model.cells@[ij.0].len() == model.cells@[ij.0]@.len());
            assert(model.cells.len() == model.cells@.len());
            assert(model.cells@[ij.0]@[ij.1].row == ij.0);
            assert(model.cells@[ij.0]@[ij.1].col == ij.1);
        },
        None => {},
    }
}

/// The code actions to offer with the cursor at `pos`.
pub fn build_code_actions(model: &Model, pos: Position) -> (out: Vec<ActionPlan>)
    requires
        model.indexed(),
    ensures
        out@.len() == action_plans(model.cells@, pos).len(),
        forall|k: int| 0 <= k < out@.len() ==> #[trigger] out@[k]@ == action_plans(model.cells@, pos)[k],
{
    let mut out: Vec<ActionPlan> = Vec::new();
    out.push(plan(text_of("Align columns"), EditCommand::Align, ActionArg::Uri));
    out.push(plan(text_of("Unalign columns"), EditCommand::Unalign, ActionArg::Uri));
    out.push(plan(text_of("Add column"), EditCommand::AddColumn, ActionArg::UriObject));
    out.push(plan(text_of("Convert CSV to markdown table"), EditCommand::ToMarkdownTable, ActionArg::Uri));
    out.push(plan(text_of("Parse markdown table into CSV"), EditCommand::FromMarkdownTable, ActionArg::Uri));
    match model.cell_at(pos) {
        Some(cell) => {
            proof { lemma_cell_bounds(model, pos); }
            let col = cell.col;
            let row = cell.row;
            let mut t = text_of("Delete ");
            push_column_label(&mut t, model, col);
            out.push(plan(t, EditCommand::DeleteColumn, ActionArg::Col(col)));
            let mut t = text_of("Duplicate row ");
            push_decimal(&mut t, row + 1);
            out.push(plan(t, EditCommand::DuplicateRow, ActionArg::Row(row)));
            let mut t = text_of("Sort rows by ");
            push_column_label(&mut t, model, col);
            push_text(&mut t, " (ascending)");
            out.push(plan(t, EditCommand::SortByColumn, ActionArg::Sort(col, true)));
            let mut t = text_of("Sort rows by ");
            push_column_label(&mut t, model, col);
            push_text(&mut t, " (descending)");
            out.push(plan(t, EditCommand::SortByColumn, ActionArg::Sort(col, false)));
        },
        None => {},
    }
    out
}

// ---------------------------------------------------------------------------
// Hover, quoting, completion, definition, references
// ---------------------------------------------------------------------------

/// What a hover over the cell `c` shows: the column's header (when the
/// buffer has one and it is not empty) or `column N`, and the row, as
/// `header`, `row N` counting data rows from one, or `row N` counting all
/// rows from one when there is no header; then, for a data cell whose
/// column has a kind in `kinds`, that kind.
pub open spec fn hover_text(cells: Seq<Vec<Cell>>, c: Cell, has_header: bool, kinds: Seq<CellType>) -> Seq<char> {
    let h: Seq<char> = if has_header && cells.len() > 0 && c.col < cells[0]@.len() {
        cells[0]@[c.col as int].value@
    } else {
        seq![]
    };
    let col_label = if h.len() > 0 { h } else { "column "@ + decimal((c.col + 1) as nat) };
    let row_label = if has_header {
        if c.row == 0 { "header"@ } else { "row "@ + decimal(c.row as nat) }
    } else {
        "row "@ + decimal((c.row + 1) as nat)
    };
    let kind_label = if !(has_header && c.row == 0) && c.col < kinds.len() {
        " \u{00b7} type: "@ + kinds[c.col as int].label_text()
    } else {
        seq![]
    };
    "**"@ + col_label + "** \u{2014} "@ + row_label + kind_label
}

/// The hover for the cell at `pos`: its text and the cell's range.
pub fn hover_at(model: &Model, pos: Position, has_header: bool, kinds: &Vec<CellType>) -> (r: Option<(String, Range)>)
    requires
        model.indexed(),
    ensures
        r is None <==> cell_index_at(model.cells@, pos) is None,
        r matches Some(h) ==> (cell_index_at(model.cells@, pos) matches Some(ij)
            && h.0@ == hover_text(model.cells@, model.cells@[ij.0]@[ij.1], has_header, kinds@)
            && h.1 == model.cells@[ij.0]@[ij.1].range),
{
    let cell = match model.cell_at(pos) {
        Some(c) => c,
        None => return None,
    };
    proof { lemma_cell_bounds(model, pos); }
    let mut md = text_of("**");
    let mut labelled = false;
    if has_header {
        match model.header(cell.col) {
            Some(h) => {
                if !h.is_empty() {
                    push_text(&mut md, h);
                    labelled = true;
                }
            },
            None => {},
        }
    }
    if !labelled {
        push_text(&mut md, "column ");
        push_decimal(&mut md, cell.col + 1);
    }
    push_text(&mut md, "** \u{2014} ");
    if has_header {
        if cell.row == 0 {
            push_text(&mut md, "header");
        } else {
            push_text(&mut md, "row ");
            push_decimal(&mut md, cell.row);
        }
    } else {
        push_text(&mut md, "row ");
        push_decimal(&mut md, cell.row + 1);
    }
    if !(has_header && cell.row == 0) && cell.col < kinds.len() {
        push_text(&mut md, " \u{00b7} type: ");
        push_text(&mut md, kinds[cell.col].label());
    }
    Some((md, cell.range))
}

/// A raw field that has grown a stray quote: it holds a quote but, leading
/// whitespace aside, does not start with one.
pub open spec fn needs_quoting(raw: Seq<char>) -> bool {
    raw.contains('"') && !(trim_start_ws(raw).len() > 0 && trim_start_ws(raw)[0] == '"')
}

fn starts_with_quote_after_space(raw: &Vec<char>) -> (b: bool)
    ensures
        b == (trim_start_ws(raw@).len() > 0 && trim_start_ws(raw@)[0] == '"'),
{
    let mut k: usize = 0;
    assert(raw@.skip(0) =~= raw@);
    while k < raw.len() && is_whitespace(raw[k])
        invariant
            k <= raw.len(),
            trim_start_ws(raw@.skip(k as int)) == trim_start_ws(raw@),
        decreases raw.len() - k,
    {
        assert(raw@.skip(k as int).skip(1) =~= raw@.skip(k + 1));
        k += 1;
    }
    k < raw.len() && raw[k] == '"'
}

fn has_quote(raw: &Vec<char>) -> (b: bool)
    ensures
        b == raw@.contains('"'),
{
    let mut k: usize = 0;
    while k < raw.len()
        invariant
            k <= raw.len(),
            forall|j: int| 0 <= j < k ==> raw@[j] != '"',
        decreases raw.len() - k,
    {
        if raw[k] == '"' {
            assert(raw@[k as int] == '"');
            return true;
        }
        k += 1;
    }
    false
}

/// After a quote is typed at `pos`: when the cell there is an unquoted field
/// that has grown a stray quote, the edit that quotes it whole.
pub fn quote_fix(model: &Model, pos: Position) -> (r: Option<(Range, String)>)
    ensures
        r is Some <==> (cell_index_at(model.cells@, pos) matches Some(ij)
            && needs_quoting(model.cells@[ij.0]@[ij.1].raw@)),
        r matches Some(e) ==> (cell_index_at(model.cells@, pos) matches Some(ij)
            && e.0 == model.cells@[ij.0]@[ij.1].range && e.1@ == quoted(model.cells@[ij.0]@[ij.1].raw@)),
{
    let cell = match model.cell_at(pos) {
        Some(c) => c,
        None => return None,
    };
    let raw = chars_of(cell.raw.as_str());
    if starts_with_quote_after_space(&raw) || !has_quote(&raw) {
        return None;
    }
    Some((cell.range, quote_field(cell.raw.as_str())))
}

/// The values offered to complete the cell at `pos`: the other values of
/// its column (see [`Model::column_values_excluding`]).
pub fn completion_values(model: &Model, pos: Position, skip_header: bool) -> (r: Option<Vec<String>>)
    ensures
        r is None <==> cell_index_at(model.cells@, pos) is None,
        r matches Some(v) ==> (cell_index_at(model.cells@, pos) matches Some(ij) && strictly_sorted(v@)
            && forall|x: Seq<char>| #[trigger] listed(v@, x) <==> offered_values(model.cells@,
                model.cells@[ij.0]@[ij.1].col as int, Some(model.cells@[ij.0]@[ij.1].row), header_skip(skip_header)).contains(x)),
{
    let cell = match model.cell_at(pos) {
        Some(c) => c,
        None => return None,
    };
    Some(model.column_values_excluding(cell.col, Some(cell.row), skip_header))
}

/// The index of the first cell not in row `row`.
pub open spec fn first_elsewhere(hits: Seq<Cell>, row: usize) -> Option<int>
    decreases hits.len(),
{
    if hits.len() == 0 {
        None
    } else {
        let f = first_elsewhere(hits.drop_last(), row);
        if f is Some { f } else if hits.last().row != row { Some(hits.len() - 1) } else { None }
    }
}

proof fn lemma_first_elsewhere_bounds(hits: Seq<Cell>, row: usize)
    ensures
        first_elsewhere(hits, row) matches Some(k) ==> 0 <= k < hits.len(),
    decreases hits.len(),
{
    if hits.len() > 0 {
        lemma_first_elsewhere_bounds(hits.drop_last(), row);
    }
}

/// The range of the definition of the value under the cursor: the first
/// other cell of its column, in another row, with the same value. There is
/// none for an empty value.
pub open spec fn definition_range(cells: Seq<Vec<Cell>>, pos: Position, skip_header: bool) -> Option<Range> {
    match cell_index_at(cells, pos) {
        None => None,
        Some(ij) => {
            let c = cells[ij.0]@[ij.1];
            if c.value@.len() == 0 {
                None
            } else {
                let hits = column_hits(cells, c.col as int, c.value@, header_skip(skip_header));
                match first_elsewhere(hits, c.row) {
                    Some(k) => Some(hits[k].range),
                    None => None,
                }
            }
        },
    }
}

/// Where the value under the cursor is defined.
pub fn definition_target(model: &Model, pos: Position, skip_header: bool) -> (r: Option<Range>)
    ensures
        r == definition_range(model.cells@, pos, skip_header),
{
    let cell = match model.cell_at(pos) {
        Some(c) => c,
        None => return None,
    };
    if cell.value.as_str().is_empty() {
        return None;
    }
    let hits = model.find_in_column(cell.col, cell.value.as_str(), skip_header);
    let ghost hs = column_hits(model.cells@, cell.col as int, cell.value@, header_skip(skip_header));
    let mut k: usize = 0;
    while k < hits.len()
        invariant
            k <= hits@.len(),
            hits@.len() == hs.len(),
            forall|x: int| 0 <= x < hits@.len() ==> *hits@[x] == #[trigger] hs[x],
            first_elsewhere(hs.take(k as int), cell.row) is None,
            cell.value@.len() > 0,
            hs == column_hits(model.cells@, cell.col as int, cell.value@, header_skip(skip_header)),
            cell_index_at(model.cells@, pos) matches Some(ij) && *cell == model.cells@[ij.0]@[ij.1],
        decreases hits@.len() - k,
    {
        assert(hs.take(k + 1).drop_last() =~= hs.take(k as int));
        assert(*hits@[k as int] == hs[k as int]);
        if hits[k].row != cell.row {
            proof {
                assert(hs.take(k + 1).last() == hs[k as int]);
                assert(first_elsewhere(hs.take(k + 1), cell.row) == Some(k as int));
                lemma_first_elsewhere_prefix(hs, k as int + 1, k as int, cell.row);
            }
            return Some(hits[k].range);
        }
        k += 1;
    }
    assert(hs.take(hits@.len() as int) =~= hs);
    None
}

proof fn lemma_first_elsewhere_prefix(hits: Seq<Cell>, n: int, k: int, row: usize)
    requires
        0 <= k < n <= hits.len(),
        first_elsewhere(hits.take(n), row) == Some(k),
    ensures
        first_elsewhere(hits, row) == Some(k),
    decreases hits.len() - n,
{
    if n < hits.len() {
        assert(hits.take(n + 1).drop_last() =~= hits.take(n));
        lemma_first_elsewhere_prefix(hits, n + 1, k, row);
    } else {
        assert(hits.take(n) =~= hits);
    }
}

/// The ranges of the cells, leaving out those in row `row` unless
/// `include_self`.
pub open spec fn kept_ranges(hits: Seq<Cell>, row: usize, include_self: bool) -> Seq<Range>
    decreases hits.len(),
{
    if hits.len() == 0 {
        seq![]
    } else {
        let prev = kept_ranges(hits.drop_last(), row, include_self);
        if include_self || hits.last().row != row { prev.push(hits.last().range) } else { prev }
    }
}

/// The references to the value under the cursor: every cell of its column
/// with the same value, the cell itself only when `include_self`; none for
/// an empty value.
pub open spec fn reference_list(cells: Seq<Vec<Cell>>, pos: Position, skip_header: bool, include_self: bool)
    -> Option<Seq<Range>>
{
    match cell_index_at(cells, pos) {
        None => None,
        Some(ij) => {
            let c = cells[ij.0]@[ij.1];
            if c.value@.len() == 0 {
                Some(seq![])
            } else {
                Some(kept_ranges(column_hits(cells, c.col as int, c.value@, header_skip(skip_header)), c.row, include_self))
            }
        },
    }
}

/// `r` is the range of one of `hits`, outside row `row` unless `include_self`.
pub open spec fn hit_elsewhere(hits: Seq<Cell>, row: usize, include_self: bool, r: Range) -> bool {
    exists|k: int| 0 <= k < hits.len() && (include_self || hits[k].row != row) && #[trigger] hits[k].range == r
}

/// `r` is the range of a cell of column `col`, from row `skip` on, that
/// holds `value` and stands in a row other than `row` (in any row when
/// `include_self`).
pub open spec fn other_reference(cells: Seq<Vec<Cell>>, col: int, value: Seq<char>, row: usize, include_self: bool,
    skip: int, r: Range) -> bool
{
    exists|i: int| skip <= i < cells.len() && 0 <= col < cells[i]@.len() && (#[trigger] cells[i]@[col]).value@ == value
        && (include_self || cells[i]@[col].row != row) && cells[i]@[col].range == r
}

/// `x` is a cell of column `col`, from row `skip` on, that holds `value`.
pub open spec fn holds_value(cells: Seq<Vec<Cell>>, col: int, value: Seq<char>, skip: int, x: Cell) -> bool {
    exists|i: int| skip <= i < cells.len() && 0 <= col < cells[i]@.len() && (#[trigger] cells[i]@[col]).value@ == value
        && cells[i]@[col] == x
}

proof fn lemma_kept_ranges(hits: Seq<Cell>, row: usize, include_self: bool)
    ensures
        forall|k: int| 0 <= k < hits.len() && (include_self || hits[k].row != row)
            ==> kept_ranges(hits, row, include_self).contains(#[trigger] hits[k].range),
        forall|m: int| 0 <= m < kept_ranges(hits, row, include_self).len()
            ==> hit_elsewhere(hits, row, include_self, #[trigger] kept_ranges(hits, row, include_self)[m]),
    decreases hits.len(),
{
    if hits.len() > 0 {
        let hp = hits.drop_last();
        lemma_kept_ranges(hp, row, include_self);
        let prev = kept_ranges(hp, row, include_self);
        let cur = kept_ranges(hits, row, include_self);
        assert forall|k: int| 0 <= k < hits.len() && (include_self || hits[k].row != row) implies cur.contains(#[trigger] hits[k].range) by {
            if k < hits.len() - 1 {
                assert(hp[k] == hits[k]);
                assert(prev.contains(hp[k].range));
                let m = choose|m: int| 0 <= m < prev.len() && prev[m] == hp[k].range;
                assert(cur[m] == prev[m]);
            } else {
                assert(cur.last() == hits[k].range);
            }
        }
        assert forall|m: int| 0 <= m < cur.len() implies hit_elsewhere(hits, row, include_self, #[trigger] cur[m]) by {
            if m < prev.len() {
                assert(cur[m] == prev[m]);
                assert(hit_elsewhere(hp, row, include_self, prev[m]));
                let k = choose|k: int| 0 <= k < hp.len() && (include_self || hp[k].row != row) && #[trigger] hp[k].range == prev[m];
                assert(hp[k] == hits[k]);
                assert(hits[k].range == cur[m]);
            } else {
                let k = hits.len() - 1;
                assert(include_self || hits[k].row != row);
                assert(hits[k].range == cur[m]);
            }
        }
    } else {
        assert(kept_ranges(hits, row, include_self) =~= Seq::<Range>::empty());
    }
}

proof fn lemma_column_hits(cells: Seq<Vec<Cell>>, col: int, value: Seq<char>, skip: int)
    requires
        0 <= skip,
    ensures
        forall|i: int| skip <= i < cells.len() && 0 <= col < cells[i]@.len() && (#[trigger] cells[i]@[col]).value@ == value
            ==> column_hits(cells, col, value, skip).contains(cells[i]@[col]),
        forall|k: int| 0 <= k < column_hits(cells, col, value, skip).len()
            ==> holds_value(cells, col, value, skip, #[trigger] column_hits(cells, col, value, skip)[k]),
    decreases cells.len(),
{
    if cells.len() > 0 {
        let cp = cells.drop_last();
        lemma_column_hits(cp, col, value, skip);
        let prev = column_hits(cp, col, value, skip);
        let cur = column_hits(cells, col, value, skip);
        assert forall|i: int| skip <= i < cells.len() && 0 <= col < cells[i]@.len() && (#[trigger] cells[i]@[col]).value@ == value
            implies cur.contains(cells[i]@[col]) by {
            if i < cells.len() - 1 {
                assert(cp[i] == cells[i]);
                assert(prev.contains(cp[i]@[col]));
                let m = choose|m: int| 0 <= m < prev.len() && prev[m] == cp[i]@[col];
                assert(cur[m] == prev[m]);
            } else {
                assert(cells.last() == cells[i]);
                assert(cur.last() == cells[i]@[col]);
            }
        }
        assert forall|k: int| 0 <= k < cur.len() implies holds_value(cells, col, value, skip, #[trigger] cur[k]) by {
            if k < prev.len() {
                assert(cur[k] == prev[k]);
                assert(holds_value(cp, col, value, skip, prev[k]));
                let i = choose|i: int| skip <= i < cp.len() && 0 <= col < cp[i]@.len() && (#[trigger] cp[i]@[col]).value@ == value
                    && cp[i]@[col] == prev[k];
                assert(cp[i] == cells[i]);
                assert(cells[i]@[col] == cur[k]);
            } else {
                let i = cells.len() - 1;
                assert(cells.last() == cells[i]);
                assert(cur[k] == cells[i]@[col]);
            }
        }
    } else {
        assert(column_hits(cells, col, value, skip) =~= Seq::<Cell>::empty());
    }
}

/// The references to a non-empty value under the cursor are the ranges of
/// the cells of its column (below the header rows) that hold the same value:
/// without `include_self`, exactly those in a row other than the cursor's
/// (every such cell, above or below the cursor, is listed, and nothing else
/// is); with it, those in every row.
pub proof fn law_references_are_other_rows(cells: Seq<Vec<Cell>>, pos: Position, skip_header: bool, include_self: bool)
    requires
        cell_index_at(cells, pos) is Some,
    ensures
        ({
            let ij = cell_index_at(cells, pos)->0;
            let c = cells[ij.0]@[ij.1];
            let skip = header_skip(skip_header);
            let col = c.col as int;
            reference_list(cells, pos, skip_header, include_self) matches Some(v) && (c.value@.len() > 0 ==> {
                &&& forall|i: int| skip <= i < cells.len() && 0 <= col < cells[i]@.len()
                    && (#[trigger] cells[i]@[col]).value@ == c.value@ && (include_self || cells[i]@[col].row != c.row)
                    ==> v.contains(cells[i]@[col].range)
                &&& forall|m: int| 0 <= m < v.len()
                    ==> other_reference(cells, col, c.value@, c.row, include_self, skip, #[trigger] v[m])
            })
        }),
{
    let ij = cell_index_at(cells, pos)->0;
    let c = cells[ij.0]@[ij.1];
    let skip = header_skip(skip_header);
    let col = c.col as int;
    if c.value@.len() > 0 {
        let hits = column_hits(cells, col, c.value@, skip);
        lemma_column_hits(cells, col, c.value@, skip);
        lemma_kept_ranges(hits, c.row, include_self);
        let v = kept_ranges(hits, c.row, include_self);
        assert forall|i: int| skip <= i < cells.len() && 0 <= col < cells[i]@.len()
            && (#[trigger] cells[i]@[col]).value@ == c.value@ && (include_self || cells[i]@[col].row != c.row)
            implies v.contains(cells[i]@[col].range) by {
            assert(hits.contains(cells[i]@[col]));
            let k = choose|k: int| 0 <= k < hits.len() && hits[k] == cells[i]@[col];
            assert(v.contains(hits[k].range));
        }
        assert forall|m: int| 0 <= m < v.len() implies other_reference(cells, col, c.value@, c.row, include_self, skip, #[trigger] v[m]) by {
            assert(hit_elsewhere(hits, c.row, include_self, v[m]));
            let k = choose|k: int| 0 <= k < hits.len() && (include_self || hits[k].row != c.row) && #[trigger] hits[k].range == v[m];
            assert(holds_value(cells, col, c.value@, skip, hits[k]));
            let i = choose|i: int| skip <= i < cells.len() && 0 <= col < cells[i]@.len()
                && (#[trigger] cells[i]@[col]).value@ == c.value@ && cells[i]@[col] == hits[k];
            assert(cells[i]@[col].range == v[m]);
        }
    }
}

/// The ranges of the cells of column `col` in the first `n` rows, from row
/// `skip` on, that hold `value`, leaving out row `row` unless
/// `include_self`, in row order.
pub open spec fn matching_ranges(cells: Seq<Vec<Cell>>, col: int, value: Seq<char>, row: usize, include_self: bool,
    skip: int, n: int) -> Seq<Range>
    decreases n,
{
    if n <= 0 {
        seq![]
    } else {
        let prev = matching_ranges(cells, col, value, row, include_self, skip, n - 1);
        let i = n - 1;
        if i >= skip && 0 <= col < cells[i]@.len() && cells[i]@[col].value@ == value
            && (include_self || cells[i]@[col].row != row) {
            prev.push(cells[i]@[col].range)
        } else {
            prev
        }
    }
}

proof fn lemma_matching_ranges(cells: Seq<Vec<Cell>>, col: int, value: Seq<char>, row: usize, include_self: bool, skip: int)
    ensures
        kept_ranges(column_hits(cells, col, value, skip), row, include_self)
            == matching_ranges(cells, col, value, row, include_self, skip, cells.len() as int),
    decreases cells.len(),
{
    if cells.len() > 0 {
        let cp = cells.drop_last();
        lemma_matching_ranges(cp, col, value, row, include_self, skip);
        lemma_matching_frame(cells, col, value, row, include_self, skip, cp.len() as int);
        let hp = column_hits(cp, col, value, skip);
        let h = column_hits(cells, col, value, skip);
        assert(cells.last() == cells[cells.len() - 1]);
        if h.len() > hp.len() {
            assert(h.drop_last() =~= hp);
        }
    }
}

proof fn lemma_matching_frame(cells: Seq<Vec<Cell>>, col: int, value: Seq<char>, row: usize, include_self: bool, skip: int, n: int)
    requires
        cells.len() > 0,
        n <= cells.len() - 1,
    ensures
        matching_ranges(cells, col, value, row, include_self, skip, n)
            == matching_ranges(cells.drop_last(), col, value, row, include_self, skip, n),
    decreases n,
{
    if n > 0 {
        lemma_matching_frame(cells, col, value, row, include_self, skip, n - 1);
        assert(cells.drop_last()[n - 1] == cells[n - 1]);
    }
}

/// The references are exactly the ranges of the matching cells, one for
/// each, in row order: the cells of the cursor's column (below the header
/// rows) that hold its value, in a row other than the cursor's unless
/// `include_self`.
pub proof fn law_references_in_row_order(cells: Seq<Vec<Cell>>, pos: Position, skip_header: bool, include_self: bool)
    requires
        cell_index_at(cells, pos) is Some,
    ensures
        ({
            let ij = cell_index_at(cells, pos)->0;
            let c = cells[ij.0]@[ij.1];
            reference_list(cells, pos, skip_header, include_self) == Some(if c.value@.len() == 0 {
                Seq::<Range>::empty()
            } else {
                matching_ranges(cells, c.col as int, c.value@, c.row, include_self, header_skip(skip_header), cells.len() as int)
            })
        }),
{
    let ij = cell_index_at(cells, pos)->0;
    let c = cells[ij.0]@[ij.1];
    lemma_matching_ranges(cells, c.col as int, c.value@, c.row, include_self, header_skip(skip_header));
}

/// Where the value under the cursor is referenced.
pub fn reference_ranges(model: &Model, pos: Position, skip_header: bool, include_self: bool) -> (r: Option<Vec<Range>>)
    ensures
        r is None <==> reference_list(model.cells@, pos, skip_header, include_self) is None,
        r matches Some(v) ==> reference_list(model.cells@, pos, skip_header, include_self) == Some(v@),
{
    let cell = match model.cell_at(pos) {
        Some(c) => c,
        None => return None,
    };
    if cell.value.as_str().is_empty() {
        return Some(Vec::new());
    }
    let hits = model.find_in_column(cell.col, cell.value.as_str(), skip_header);
    let ghost hs = column_hits(model.cells@, cell.col as int, cell.value@, header_skip(skip_header));
    let mut out: Vec<Range> = Vec::new();
    let mut k: usize = 0;
    while k < hits.len()
        invariant
            k <= hits@.len(),
            hits@.len() == hs.len(),
            forall|x: int| 0 <= x < hits@.len() ==> *hits@[x] == #[trigger] hs[x],
            out@ == kept_ranges(hs.take(k as int), cell.row, include_self),
        decreases hits@.len() - k,
    {
        assert(hs.take(k + 1).drop_last() =~= hs.take(k as int));
        assert(*hits@[k as int] == hs[k as int]);
        if include_self || hits[k].row != cell.row {
            out.push(hits[k].range);
        }
        k += 1;
    }
    assert(hs.take(hits@.len() as int) =~= hs);
    Some(out)
}

// ---------------------------------------------------------------------------
// Running commands
// ---------------------------------------------------------------------------

/// What a command asks of the editor.
pub enum CommandOutcome {
    /// Replace the buffer with this text.
    Replace(String),
    /// Leave the buffer as it is.
    Unchanged,
    /// Move the cursor to the next (`true`) or previous cell.
    MoveCell(bool),
    /// Report the kind and statistics of this column; the buffer stays.
    Summarize(usize),
}

/// A command that lacks an argument it needs.
#[derive(Clone, Copy, Debug, PartialEq, Eq, Structural)]
pub enum CommandError {
    MissingColumn,
    MissingRow,
}

impl CommandError {
    /// The error's message.
    pub open spec fn message_text(self) -> Seq<char> {
        match self {
            CommandError::MissingColumn => "expected col argument"@,
            CommandError::MissingRow => "expected row argument"@,
        }
    }

    /// The error's message.
    pub fn message(self) -> (m: String)
        ensures
            m@ == self.message_text(),
    {
        match self {
            CommandError::MissingColumn => text_of("expected col argument"),
            CommandError::MissingRow => text_of("expected row argument"),
        }
    }
}

/// `t` is what the editing command `cmd` makes of the buffer `s`, given its
/// arguments (a sort is stable, so it is stated as a relation).
pub open spec fn command_text(cmd: EditCommand, s: Seq<char>, has_header: bool, col: usize, row: usize, ascending: bool, t: Seq<char>) -> bool {
    match cmd {
        EditCommand::Align => t == aligned(s),
        EditCommand::Unalign => t == unaligned(s),
        EditCommand::AddColumn => t == emit(with_added_column(csv_rows(s), has_header), ends_nl(s)),
        EditCommand::DeleteColumn => t == emit(without_column(csv_rows(s), col as int), ends_nl(s)),
        EditCommand::DuplicateRow => t == emit(with_duplicated_row(csv_rows(s), row as int), ends_nl(s)),
        EditCommand::SortByColumn => is_sorted_text(s, col as int, ascending, has_header, t),
        EditCommand::ToMarkdownTable => t == markdown_of(s),
        EditCommand::FromMarkdownTable => t == csv_of_markdown(s),
        _ => false,
    }
}

/// The command moves the cursor rather than edit the buffer.
pub open spec fn moves_cursor(cmd: EditCommand) -> bool {
    cmd == EditCommand::NextCell || cmd == EditCommand::PrevCell
}

/// The argument the command needs and lacks, if any.
pub open spec fn missing_argument(cmd: EditCommand, col: Option<usize>, row: Option<usize>) -> Option<CommandError> {
    if (cmd == EditCommand::DeleteColumn || cmd == EditCommand::SortByColumn || cmd == EditCommand::ColumnSummary)
        && col is None {
        Some(CommandError::MissingColumn)
    } else if cmd == EditCommand::DuplicateRow && row is None {
        Some(CommandError::MissingRow)
    } else {
        None
    }
}

/// Runs a command on the buffer `text`: the cursor commands only ask for a
/// move; an editing command fails when it lacks its column or row, and
/// otherwise gives the new text, or says the text is unchanged.
pub fn run_command(
    cmd: EditCommand,
    text: &str,
    has_header: bool,
    col: Option<usize>,
    row: Option<usize>,
    ascending: Option<bool>,
) -> (r: Result<CommandOutcome, CommandError>)
    requires
        text@.len() <= usize::MAX / 2,
    ensures
        r is Err <==> missing_argument(cmd, col, row) is Some,
        r matches Err(e) ==> missing_argument(cmd, col, row) == Some(e),
        r matches Ok(CommandOutcome::MoveCell(f)) ==> moves_cursor(cmd) && f == (cmd == EditCommand::NextCell),
        moves_cursor(cmd) ==> r matches Ok(CommandOutcome::MoveCell(_)),
        r matches Ok(CommandOutcome::Summarize(c)) ==> cmd == EditCommand::ColumnSummary && col == Some(c),
        (cmd == EditCommand::ColumnSummary && col is Some) ==> r matches Ok(CommandOutcome::Summarize(_)),
        r matches Ok(CommandOutcome::Replace(t)) ==> t@ != text@ && command_text(cmd, text@, has_header,
            col.unwrap_or(0), row.unwrap_or(0), ascending.unwrap_or(true), t@),
        r matches Ok(CommandOutcome::Unchanged) ==> command_text(cmd, text@, has_header, col.unwrap_or(0),
            row.unwrap_or(0), ascending.unwrap_or(true), text@),
{
    let new_text = match cmd {
        EditCommand::NextCell => return Ok(CommandOutcome::MoveCell(true)),
        EditCommand::PrevCell => return Ok(CommandOutcome::MoveCell(false)),
        EditCommand::Align => align(text),
        EditCommand::Unalign => unalign(text),
        EditCommand::AddColumn => add_column(text, has_header),
        EditCommand::DeleteColumn => match col {
            Some(c) => delete_column(text, c),
            None => return Err(CommandError::MissingColumn),
        },
        EditCommand::DuplicateRow => match row {
            Some(r) => duplicate_row(text, r),
            None => return Err(CommandError::MissingRow),
        },
        EditCommand::SortByColumn => match col {
            Some(c) => {
                let asc = match ascending {
                    Some(a) => a,
                    None => true,
                };
                sort_by_column(text, c, asc, has_header)
            },
            None => return Err(CommandError::MissingColumn),
        },
        EditCommand::ToMarkdownTable => to_markdown_table(text),
        EditCommand::FromMarkdownTable => from_markdown_table(text),
        EditCommand::ColumnSummary => match col {
            Some(c) => return Ok(CommandOutcome::Summarize(c)),
            None => return Err(CommandError::MissingColumn),
        },
    };
    let a = chars_of(new_text.as_str());
    let b = chars_of(text);
    if chars_eq(&a, &b) {
        Ok(CommandOutcome::Unchanged)
    } else {
        Ok(CommandOutcome::Replace(new_text))
    }
}

/// Before a save, with aligning on save turned on: the edit that aligns
/// the buffer, unless it is aligned already.
pub fn save_edit(text: &str) -> (r: Option<(Range, String)>)
    requires
        utf16_len(text@) <= u32::MAX,
    ensures
        r is None <==> aligned(text@) == text@,
        r matches Some(e) ==> e.1@ == aligned(text@) && e.0.start == (Position { line: 0, character: 0 })
            && e.0.end.line as nat == text_end(text@).0 && e.0.end.character as nat == text_end(text@).1,
{
    let aligned_text = align(text);
    let a = chars_of(aligned_text.as_str());
    let b = chars_of(text);
    if chars_eq(&a, &b) {
        None
    } else {
        Some((full_range(text), aligned_text))
    }
}

} // verus!
