//! Round trip between CSV and GitHub-flavored pipe tables.

use vstd::prelude::*;
use crate::text::{
    chars_of, string_of, push_char, push_all, lemma_chars_deep_view, lemma_deep_view_push, is_ws,
    is_whitespace, trim_ws, trim_chars, slice_chars,
};
use crate::csv::{
    csv_rows, emit, lines_of, max_cols, max_nat, col_width, spaces, parse_chars, serialize,
    column_widths, lemma_table_view, lemma_row_len_le_max_cols,
};
use crate::transforms::{canonical_value, canonical_chars, quoted, quoted_chars};

verus! {

// ---------------------------------------------------------------------------
// Escaping cell text
// ---------------------------------------------------------------------------

/// The markdown line break `<br>`.
pub open spec fn br() -> Seq<char> {
    seq!['<', 'b', 'r', '>']
}

/// `s` with every `|` written as `\|`.
pub open spec fn escape_pipes(s: Seq<char>) -> Seq<char>
    decreases s.len(),
{
    if s.len() == 0 {
        seq![]
    } else {
        escape_pipes(s.drop_last()) + if s.last() == '|' { seq!['\\', '|'] } else { seq![s.last()] }
    }
}

/// `s` with every `\r\n` written as `<br>`, left to right.
pub open spec fn crlf_to_br(s: Seq<char>) -> Seq<char>
    decreases s.len(),
{
    if s.len() == 0 {
        seq![]
    } else if s.len() >= 2 && s[0] == '\r' && s[1] == '\n' {
        br() + crlf_to_br(s.skip(2))
    } else {
        seq![s[0]] + crlf_to_br(s.skip(1))
    }
}

/// `s` with every remaining `\n` or `\r` written as `<br>`.
pub open spec fn breaks_to_br(s: Seq<char>) -> Seq<char>
    decreases s.len(),
{
    if s.len() == 0 {
        seq![]
    } else {
        breaks_to_br(s.drop_last()) + if s.last() == '\n' || s.last() == '\r' { br() } else { seq![s.last()] }
    }
}

/// A value as markdown cell text: pipes escaped, line breaks as `<br>`.
pub open spec fn md_escaped(s: Seq<char>) -> Seq<char> {
    breaks_to_br(crlf_to_br(escape_pipes(s)))
}

fn escape_pipes_exec(s: &Vec<char>) -> (r: Vec<char>)
    ensures
        r@ == escape_pipes(s@),
{
    let mut r: Vec<char> = Vec::new();
    let mut i: usize = 0;
    while i < s.len()
        invariant
            i <= s.len(),
            r@ == escape_pipes(s@.take(i as int)),
        decreases s.len() - i,
    {
        assert(s@.take(i + 1).drop_last() =~= s@.take(i as int));
        if s[i] == '|' {
            r.push('\\');
            r.push('|');
        } else {
            r.push(s[i]);
        }
        assert(r@ =~= escape_pipes(s@.take(i + 1)));
        i += 1;
    }
    assert(s@.take(s.len() as int) =~= s@);
    r
}

fn push_br(r: &mut Vec<char>)
    ensures
        final(r)@ == old(r)@ + br(),
{
    r.push('<');
    r.push('b');
    r.push('r');
    r.push('>');
    assert(r@ =~= old(r)@ + br());
}

fn crlf_to_br_exec(s: &Vec<char>) -> (r: Vec<char>)
    ensures
        r@ == crlf_to_br(s@),
{
    let mut r: Vec<char> = Vec::new();
    let mut i: usize = 0;
    assert(s@.skip(0) =~= s@);
    while i < s.len()
        invariant
            i <= s.len(),
            r@ + crlf_to_br(s@.skip(i as int)) == crlf_to_br(s@),
        decreases s.len() - i,
    {
        let ghost rest = s@.skip(i as int);
        if i + 1 < s.len() && s[i] == '\r' && s[i + 1] == '\n' {
            push_br(&mut r);
            assert(rest.skip(2) =~= s@.skip(i + 2));
            assert(r@ + crlf_to_br(s@.skip(i + 2)) =~= crlf_to_br(s@));
            i += 2;
        } else {
            r.push(s[i]);
            assert(rest.skip(1) =~= s@.skip(i + 1));
            assert(r@ + crlf_to_br(s@.skip(i + 1)) =~= crlf_to_br(s@));
            i += 1;
        }
    }
    assert(s@.skip(i as int) =~= Seq::<char>::empty());
    assert(r@ =~= crlf_to_br(s@));
    r
}

fn breaks_to_br_exec(s: &Vec<char>) -> (r: Vec<char>)
    ensures
        r@ == breaks_to_br(s@),
{
    let mut r: Vec<char> = Vec::new();
    let mut i: usize = 0;
    while i < s.len()
        invariant
            i <= s.len(),
            r@ == breaks_to_br(s@.take(i as int)),
        decreases s.len() - i,
    {
        assert(s@.take(i + 1).drop_last() =~= s@.take(i as int));
        if s[i] == '\n' || s[i] == '\r' {
            push_br(&mut r);
        } else {
            r.push(s[i]);
        }
        assert(r@ =~= breaks_to_br(s@.take(i + 1)));
        i += 1;
    }
    assert(s@.take(s.len() as int) =~= s@);
    r
}

/// Markdown cell text for a value: `|` becomes `\|`, `\r\n`, `\n` and `\r`
/// become `<br>`.
pub fn md_cell_escape(value: &Vec<char>) -> (r: Vec<char>)
    ensures
        r@ == md_escaped(value@),
{
    let a = escape_pipes_exec(value);
    let b = crlf_to_br_exec(&a);
    breaks_to_br_exec(&b)
}


// ---------------------------------------------------------------------------
// CSV to markdown
// ---------------------------------------------------------------------------

/// The cell texts of the table: every row padded with empty cells to the
/// widest row, every value escaped for markdown.
pub open spec fn md_cells(rows: Seq<Seq<Seq<char>>>) -> Seq<Seq<Seq<char>>> {
    let mc = max_cols(rows);
    Seq::new(rows.len(), |i: int| Seq::new(mc, |j: int|
        if j < rows[i].len() { md_escaped(canonical_value(rows[i][j])) } else { Seq::<char>::empty() }))
}

/// The width of each of the first `n` columns: its longest cell, and at
/// least three (room for the `---` separator).
pub open spec fn md_widths(cells: Seq<Seq<Seq<char>>>, n: nat) -> Seq<nat> {
    Seq::new(n, |j: int| max_nat(col_width(cells, j), 3))
}

/// `n` dashes.
pub open spec fn dashes(n: nat) -> Seq<char> {
    Seq::new(n, |_k: int| '-')
}

/// A table line: `|`, then each cell padded to its column's width between
/// a space and ` |`.
pub open spec fn md_row_text(cells: Seq<Seq<char>>, w: Seq<nat>) -> Seq<char>
    decreases cells.len(),
{
    if cells.len() == 0 {
        seq!['|']
    } else {
        let k = cells.len() - 1;
        md_row_text(cells.drop_last(), w) + seq![' '] + cells[k]
            + (if w[k] > cells[k].len() { spaces((w[k] - cells[k].len()) as nat) } else { Seq::<char>::empty() })
            + seq![' ', '|']
    }
}

/// The separator line body: `|`, then a run of dashes as wide as each
/// column between a space and ` |`.
pub open spec fn md_separator(w: Seq<nat>) -> Seq<char>
    decreases w.len(),
{
    if w.len() == 0 {
        seq!['|']
    } else {
        md_separator(w.drop_last()) + seq![' '] + dashes(w.last()) + seq![' ', '|']
    }
}

/// The lines of the table: the first row, the separator, the other rows.
pub open spec fn md_lines(cells: Seq<Seq<Seq<char>>>, w: Seq<nat>) -> Seq<char>
    decreases cells.len(),
{
    if cells.len() == 0 {
        seq![]
    } else if cells.len() == 1 {
        md_row_text(cells[0], w) + seq!['\n'] + md_separator(w) + seq!['\n']
    } else {
        md_lines(cells.drop_last(), w) + md_row_text(cells.last(), w) + seq!['\n']
    }
}

/// The CSV text `s` as a pipe table (empty when there is no row).
pub open spec fn markdown_of(s: Seq<char>) -> Seq<char> {
    let rows = csv_rows(s);
    let mc = max_cols(rows);
    if rows.len() == 0 || mc == 0 {
        seq![]
    } else {
        let cells = md_cells(rows);
        md_lines(cells, md_widths(cells, mc))
    }
}

pub proof fn lemma_max_cols_uniform(rows: Seq<Seq<Seq<char>>>, n: nat)
    requires
        rows.len() > 0,
        forall|i: int| 0 <= i < rows.len() ==> #[trigger] rows[i].len() == n,
    ensures
        max_cols(rows) == n,
    decreases rows.len(),
{
    let rp = rows.drop_last();
    if rows.len() > 1 {
        assert forall|i: int| 0 <= i < rp.len() implies #[trigger] rp[i].len() == n by {
            assert(rp[i] == rows[i]);
        }
        lemma_max_cols_uniform(rp, n);
    } else {
        assert(max_cols(rp) == 0);
    }
    assert(rows.last() == rows[rows.len() - 1]);
    assert(max_cols(rows) == max_nat(max_cols(rp), rows.last().len()));
}

fn push_md_row(out: &mut String, row: &Vec<Vec<char>>, widths: &Vec<usize>)
    requires
        row@.len() <= widths@.len(),
    ensures
        final(out)@ == old(out)@ + md_row_text(row.deep_view(), widths@.map_values(|v: usize| v as nat)),
{
    let ghost w = widths@.map_values(|v: usize| v as nat);
    let ghost r = row.deep_view();
    push_char(out, '|');
    let mut j: usize = 0;
    assert(r.take(0) =~= Seq::<Seq<char>>::empty());
    while j < row.len()
        invariant
            j <= row.len(),
            row@.len() <= widths@.len(),
            w == widths@.map_values(|v: usize| v as nat),
            r == row.deep_view(),
            out@ == old(out)@ + md_row_text(r.take(j as int), w),
        decreases row.len() - j,
    {
        proof { lemma_chars_deep_view(row@[j as int]); }
        assert(r.take(j + 1).drop_last() =~= r.take(j as int));
        assert(r.take(j + 1)[j as int] == row@[j as int]@);
        push_char(out, ' ');
        push_all(out, &row[j]);
        let mut k = row[j].len();
        let ghost before = out@;
        while k < widths[j]
            invariant
                row@[j as int]@.len() <= k <= widths@[j as int] || (k == row@[j as int]@.len() && widths@[j as int] <= k),
                j < row.len(),
                row@.len() <= widths@.len(),
                out@ == before + spaces((k - row@[j as int]@.len()) as nat),
            decreases widths@[j as int] - k,
        {
            push_char(out, ' ');
            assert(out@ =~= before + spaces((k + 1 - row@[j as int]@.len()) as nat));
            k += 1;
        }
        push_char(out, ' ');
        push_char(out, '|');
        assert(out@ =~= old(out)@ + md_row_text(r.take(j + 1), w));
        j += 1;
    }
    assert(r.take(row.len() as int) =~= r);
}

fn push_md_separator(out: &mut String, widths: &Vec<usize>)
    ensures
        final(out)@ == old(out)@ + md_separator(widths@.map_values(|v: usize| v as nat)),
{
    let ghost w = widths@.map_values(|v: usize| v as nat);
    push_char(out, '|');
    let mut j: usize = 0;
    assert(w.take(0) =~= Seq::<nat>::empty());
    while j < widths.len()
        invariant
            j <= widths.len(),
            w == widths@.map_values(|v: usize| v as nat),
            out@ == old(out)@ + md_separator(w.take(j as int)),
        decreases widths.len() - j,
    {
        assert(w.take(j + 1).drop_last() =~= w.take(j as int));
        push_char(out, ' ');
        let ghost before = out@;
        let mut k: usize = 0;
        while k < widths[j]
            invariant
                j < widths.len(),
                k <= widths@[j as int],
                out@ == before + dashes(k as nat),
            decreases widths@[j as int] - k,
        {
            push_char(out, '-');
            assert(out@ =~= before + dashes((k + 1) as nat));
            k += 1;
        }
        push_char(out, ' ');
        push_char(out, '|');
        assert(out@ =~= old(out)@ + md_separator(w.take(j + 1)));
        j += 1;
    }
    assert(w.take(widths.len() as int) =~= w);
}

/// Renders the buffer as a GitHub-flavored pipe table. Fields are
/// canonicalized (quotes/padding stripped), then pipe and newline characters
/// are escaped (`|` becomes `\|`, line breaks become `<br>`). The first row
/// becomes the header, followed by a `| --- |` separator.
pub fn to_markdown_table(input: &str) -> (out: String)
    ensures
        out@ == markdown_of(input@),
{
    let chars = chars_of(input);
    let rows = parse_chars(&chars);
    let ghost t = rows.deep_view();
    proof { lemma_table_view(rows); }
    if rows.len() == 0 {
        return String::new();
    }
    let mut mc: usize = 0;
    let mut i: usize = 0;
    while i < rows.len()
        invariant
            i <= rows.len(),
            t == rows.deep_view(),
            t.len() == rows@.len(),
            forall|a: int| 0 <= a < rows@.len() ==> #[trigger] t[a].len() == rows@[a]@.len(),
            mc == max_cols(t.take(i as int)),
        decreases rows.len() - i,
    {
        assert(t.take(i + 1).drop_last() =~= t.take(i as int));
        if rows[i].len() > mc {
            mc = rows[i].len();
        }
        i += 1;
    }
    assert(t.take(rows.len() as int) =~= t);
    if mc == 0 {
        return String::new();
    }
    let ghost cells_spec = md_cells(t);
    let mut cells: Vec<Vec<Vec<char>>> = Vec::new();
    let mut i: usize = 0;
    while i < rows.len()
        invariant
            i <= rows.len(),
            t == rows.deep_view(),
            t.len() == rows@.len(),
            forall|a: int| 0 <= a < rows@.len() ==> #[trigger] t[a].len() == rows@[a]@.len(),
            forall|a: int, b: int| 0 <= a < rows@.len() && 0 <= b < rows@[a]@.len()
                ==> #[trigger] t[a][b] == rows@[a]@[b]@,
            mc == max_cols(t),
            cells_spec == md_cells(t),
            cells@.len() == i,
            forall|a: int| 0 <= a < i ==> #[trigger] cells@[a].deep_view() == cells_spec[a],
        decreases rows.len() - i,
    {
        let mut row: Vec<Vec<char>> = Vec::new();
        let mut j: usize = 0;
        while j < mc
            invariant
                i < rows.len(),
                t.len() == rows@.len(),
                t[i as int].len() == rows@[i as int]@.len(),
                forall|b: int| 0 <= b < rows@[i as int]@.len() ==> #[trigger] t[i as int][b] == rows@[i as int]@[b]@,
                mc == max_cols(t),
                cells_spec == md_cells(t),
                j <= mc,
                row@.len() == j,
                forall|b: int| 0 <= b < j ==> #[trigger] row@[b]@ == cells_spec[i as int][b],
            decreases mc - j,
        {
            let cell = if j < rows[i].len() {
                let v = canonical_chars(&rows[i][j]);
                md_cell_escape(&v)
            } else {
                Vec::new()
            };
            assert(cell@ == cells_spec[i as int][j as int]);
            row.push(cell);
            j += 1;
        }
        assert(row.deep_view() =~= cells_spec[i as int]) by {
            assert forall|b: int| 0 <= b < mc implies #[trigger] row.deep_view()[b] == cells_spec[i as int][b] by {
                lemma_chars_deep_view(row@[b]);
            }
        }
        cells.push(row);
        i += 1;
    }
    assert(cells.deep_view() =~= cells_spec);
    proof {
        assert forall|a: int| 0 <= a < cells_spec.len() implies #[trigger] cells_spec[a].len() == mc by {}
        lemma_max_cols_uniform(cells_spec, mc as nat);
    }
    let cw = column_widths(&cells);
    let mut widths: Vec<usize> = Vec::new();
    let mut j: usize = 0;
    let ghost ws = md_widths(cells_spec, mc as nat);
    while j < mc
        invariant
            j <= mc,
            cw.len() == mc,
            cells.deep_view() == cells_spec,
            forall|k: int| 0 <= k < cw.len() ==> #[trigger] cw[k] == col_width(cells_spec, k),
            ws == md_widths(cells_spec, mc as nat),
            widths@.len() == j,
            forall|k: int| 0 <= k < j ==> #[trigger] widths@[k] as nat == ws[k],
        decreases mc - j,
    {
        let w = if cw[j] > 3 { cw[j] } else { 3 };
        widths.push(w);
        j += 1;
    }
    assert(widths@.map_values(|v: usize| v as nat) =~= ws);
    proof { lemma_table_view(cells); }
    assert forall|a: int| 0 <= a < cells@.len() implies #[trigger] cells@[a]@.len() == mc by {
        assert(cells.deep_view()[a].len() == cells@[a]@.len());
    }
    let mut out = String::new();
    let mut i: usize = 0;
    while i < cells.len()
        invariant
            i <= cells.len(),
            cells.len() == rows.len(),
            cells.len() > 0,
            cells.deep_view() == cells_spec,
            forall|a: int| 0 <= a < cells@.len() ==> #[trigger] cells@[a]@.len() == mc,
            widths@.len() == mc,
            widths@.map_values(|v: usize| v as nat) == ws,
            out@ == md_lines(cells_spec.take(i as int), ws),
        decreases cells.len() - i,
    {
        assert(cells_spec[i as int] == cells@[i as int].deep_view());
        push_md_row(&mut out, &cells[i], &widths);
        push_char(&mut out, '\n');
        if i == 0 {
            push_md_separator(&mut out, &widths);
            push_char(&mut out, '\n');
            assert(cells_spec.take(1) =~= seq![cells_spec[0]]);
        } else {
            assert(cells_spec.take(i + 1).drop_last() =~= cells_spec.take(i as int));
        }
        assert(out@ =~= md_lines(cells_spec.take(i + 1), ws));
        i += 1;
    }
    assert(cells_spec.take(cells.len() as int) =~= cells_spec);
    out
}


// ---------------------------------------------------------------------------
// Markdown to CSV
// ---------------------------------------------------------------------------

/// The pieces of `s` between line feeds, in order (the piece after the
/// last line feed included, even when empty).
pub open spec fn split_lines(s: Seq<char>) -> Seq<Seq<char>>
    decreases s.len(),
{
    if s.len() == 0 {
        seq![Seq::<char>::empty()]
    } else {
        let p = split_lines(s.drop_last());
        if s.last() == '\n' {
            p.push(Seq::<char>::empty())
        } else {
            p.update(p.len() - 1, p.last().push(s.last()))
        }
    }
}

/// The raw cells of a pipe-table line body, split at `|`; `\|` stands for a
/// `|` inside a cell. Reads `s` after the cell text `cur` and the cells `acc`.
pub open spec fn split_cells(s: Seq<char>, cur: Seq<char>, acc: Seq<Seq<char>>) -> Seq<Seq<char>>
    decreases s.len(),
{
    if s.len() == 0 {
        acc.push(cur)
    } else if s[0] == '\\' && s.len() > 1 && s[1] == '|' {
        split_cells(s.skip(2), cur.push('|'), acc)
    } else if s[0] == '|' {
        split_cells(s.skip(1), Seq::<char>::empty(), acc.push(cur))
    } else {
        split_cells(s.skip(1), cur.push(s[0]), acc)
    }
}

/// `s` with every `<br>` read as a line feed, left to right.
pub open spec fn br_to_newline(s: Seq<char>) -> Seq<char>
    decreases s.len(),
{
    if s.len() == 0 {
        seq![]
    } else if s.len() >= 4 && s.take(4) == br() {
        seq!['\n'] + br_to_newline(s.skip(4))
    } else {
        seq![s[0]] + br_to_newline(s.skip(1))
    }
}

/// `s` without one leading `|` and then without one trailing `|`.
pub open spec fn strip_outer_pipes(s: Seq<char>) -> Seq<char> {
    let a = if s.len() > 0 && s[0] == '|' { s.skip(1) } else { s };
    if a.len() > 0 && a.last() == '|' { a.drop_last() } else { a }
}

/// The cell values of a pipe-table line: outer pipes stripped, split at
/// unescaped pipes, each cell trimmed and its `<br>`s turned into line feeds.
pub open spec fn md_row_cells(line: Seq<char>) -> Seq<Seq<char>> {
    let raw = split_cells(strip_outer_pipes(trim_ws(line)), Seq::<char>::empty(), Seq::<Seq<char>>::empty());
    Seq::new(raw.len(), |k: int| br_to_newline(trim_ws(raw[k])))
}

/// Characters that alignment markers may put around a separator cell.
pub open spec fn is_sep_pad(c: char) -> bool {
    c == ':' || is_ws(c)
}

/// `s` without leading alignment colons and whitespace.
pub open spec fn trim_sep_start(s: Seq<char>) -> Seq<char>
    decreases s.len(),
{
    if s.len() > 0 && is_sep_pad(s[0]) { trim_sep_start(s.skip(1)) } else { s }
}

/// `s` without trailing alignment colons and whitespace.
pub open spec fn trim_sep_end(s: Seq<char>) -> Seq<char>
    decreases s.len(),
{
    if s.len() > 0 && is_sep_pad(s.last()) { trim_sep_end(s.drop_last()) } else { s }
}

/// A separator cell: after trimming colons and whitespace, one or more
/// dashes and nothing else.
pub open spec fn is_dash_cell(c: Seq<char>) -> bool {
    let t = trim_sep_end(trim_sep_start(c));
    t.len() > 0 && forall|k: int| 0 <= k < t.len() ==> t[k] == '-'
}

/// A separator row: at least one cell, every cell a separator cell.
pub open spec fn is_separator_row(cells: Seq<Seq<char>>) -> bool {
    cells.len() > 0 && forall|k: int| 0 <= k < cells.len() ==> is_dash_cell(#[trigger] cells[k])
}

/// The table rows of markdown lines: lines that are blank, hold no `|`, or
/// are separator rows are skipped.
pub open spec fn md_table_rows(lines: Seq<Seq<char>>) -> Seq<Seq<Seq<char>>>
    decreases lines.len(),
{
    if lines.len() == 0 {
        seq![]
    } else {
        let rest = md_table_rows(lines.drop_last());
        let t = trim_ws(lines.last());
        if t.len() == 0 || !t.contains('|') {
            rest
        } else if is_separator_row(md_row_cells(t)) {
            rest
        } else {
            rest.push(md_row_cells(t))
        }
    }
}

/// A value as a CSV field: quoted when it holds a comma, a quote or a line
/// feed, as it is otherwise.
pub open spec fn csv_field(s: Seq<char>) -> Seq<char> {
    if s.contains(',') || s.contains('"') || s.contains('\n') { quoted(s) } else { s }
}

/// Every value of every row as a CSV field.
pub open spec fn csv_fields(rows: Seq<Seq<Seq<char>>>) -> Seq<Seq<Seq<char>>> {
    Seq::new(rows.len(), |i: int| Seq::new(rows[i].len(), |j: int| csv_field(rows[i][j])))
}

/// The pipe table `s` as CSV text: one line per table row.
pub open spec fn csv_of_markdown(s: Seq<char>) -> Seq<char> {
    lines_of(csv_fields(md_table_rows(split_lines(s))))
}

/// Whether `v` holds `c`.
pub fn contains_char(v: &Vec<char>, c: char) -> (b: bool)
    ensures
        b == v@.contains(c),
{
    let mut i: usize = 0;
    while i < v.len()
        invariant
            i <= v.len(),
            forall|k: int| 0 <= k < i ==> v@[k] != c,
        decreases v.len() - i,
    {
        if v[i] == c {
            assert(v@[i as int] == c);
            return true;
        }
        i += 1;
    }
    false
}

fn split_lines_exec(s: &Vec<char>) -> (lines: Vec<Vec<char>>)
    ensures
        lines.deep_view() == split_lines(s@),
{
    let mut lines: Vec<Vec<char>> = Vec::new();
    let mut cur: Vec<char> = Vec::new();
    let mut i: usize = 0;
    assert(s@.take(0) =~= Seq::<char>::empty());
    assert(lines.deep_view().push(cur@) =~= split_lines(s@.take(0)));
    while i < s.len()
        invariant
            i <= s.len(),
            lines.deep_view().push(cur@) == split_lines(s@.take(i as int)),
        decreases s.len() - i,
    {
        assert(s@.take(i + 1).drop_last() =~= s@.take(i as int));
        if s[i] == '\n' {
            let ghost l0 = lines;
            proof { lemma_chars_deep_view(cur); }
            let ghost c0 = cur;
            lines.push(cur);
            proof { lemma_deep_view_push(l0, lines, c0); }
            cur = Vec::new();
            assert(lines.deep_view().push(cur@) =~= split_lines(s@.take(i + 1)));
        } else {
            let ghost before = lines.deep_view().push(cur@);
            cur.push(s[i]);
            assert(lines.deep_view().push(cur@) =~= before.update(before.len() - 1, before.last().push(s@[i as int])));
        }
        i += 1;
    }
    assert(s@.take(s.len() as int) =~= s@);
    let ghost l0 = lines;
    proof { lemma_chars_deep_view(cur); }
    let ghost c0 = cur;
    lines.push(cur);
    proof { lemma_deep_view_push(l0, lines, c0); }
    lines
}

fn br_to_newline_exec(s: &Vec<char>) -> (r: Vec<char>)
    ensures
        r@ == br_to_newline(s@),
{
    let mut r: Vec<char> = Vec::new();
    let mut i: usize = 0;
    assert(s@.skip(0) =~= s@);
    while i < s.len()
        invariant
            i <= s.len(),
            r@ + br_to_newline(s@.skip(i as int)) == br_to_newline(s@),
        decreases s.len() - i,
    {
        let ghost rest = s@.skip(i as int);
        if s.len() - i > 3 && s[i] == '<' && s[i + 1] == 'b' && s[i + 2] == 'r' && s[i + 3] == '>' {
            assert(rest.take(4) =~= br());
            r.push('\n');
            assert(rest.skip(4) =~= s@.skip(i + 4));
            assert(r@ + br_to_newline(s@.skip(i + 4)) =~= br_to_newline(s@));
            i += 4;
        } else {
            assert(!(rest.len() >= 4 && rest.take(4) == br())) by {
                if rest.len() >= 4 && rest.take(4) == br() {
                    assert(rest.take(4)[0] == '<' && rest.take(4)[1] == 'b' && rest.take(4)[2] == 'r' && rest.take(4)[3] == '>');
                }
            }
            r.push(s[i]);
            assert(rest.skip(1) =~= s@.skip(i + 1));
            assert(r@ + br_to_newline(s@.skip(i + 1)) =~= br_to_newline(s@));
            i += 1;
        }
    }
    assert(s@.skip(i as int) =~= Seq::<char>::empty());
    assert(r@ =~= br_to_newline(s@));
    r
}

/// Turns the `<br>`s of a cell back into line feeds.
pub fn unescape_md_cell(s: &Vec<char>) -> (r: Vec<char>)
    ensures
        r@ == br_to_newline(s@),
{
    br_to_newline_exec(s)
}

/// The cell values of a pipe-table line.
pub fn parse_md_row(line: &Vec<char>) -> (cells: Vec<Vec<char>>)
    ensures
        cells.deep_view() == md_row_cells(line@),
{
    let t = trim_chars(line);
    let mut lo: usize = 0;
    let mut hi: usize = t.len();
    if t.len() > 0 && t[0] == '|' {
        lo = 1;
    }
    if hi > lo && t[hi - 1] == '|' {
        hi = hi - 1;
    }
    let s = slice_chars(&t, lo, hi);
    proof {
        let a = if t@.len() > 0 && t@[0] == '|' { t@.skip(1) } else { t@ };
        assert(a =~= t@.subrange(lo as int, t@.len() as int));
        if a.len() > 0 && a.last() == '|' {
            assert(a.drop_last() =~= t@.subrange(lo as int, hi as int));
        } else {
            assert(a =~= t@.subrange(lo as int, hi as int));
        }
        assert(s@ == strip_outer_pipes(trim_ws(line@)));
    }
    let mut raw: Vec<Vec<char>> = Vec::new();
    let mut cur: Vec<char> = Vec::new();
    let mut i: usize = 0;
    assert(s@.skip(0) =~= s@);
    assert(raw.deep_view() =~= Seq::<Seq<char>>::empty());
    while i < s.len()
        invariant
            i <= s.len(),
            split_cells(s@.skip(i as int), cur@, raw.deep_view())
                == split_cells(s@, Seq::<char>::empty(), Seq::<Seq<char>>::empty()),
        decreases s.len() - i,
    {
        let ghost rest = s@.skip(i as int);
        if s[i] == '\\' && i + 1 < s.len() && s[i + 1] == '|' {
            cur.push('|');
            assert(rest.skip(2) =~= s@.skip(i + 2));
            i += 2;
        } else if s[i] == '|' {
            let ghost r0 = raw;
            proof { lemma_chars_deep_view(cur); }
            let ghost c0 = cur;
            raw.push(cur);
            proof { lemma_deep_view_push(r0, raw, c0); }
            cur = Vec::new();
            assert(cur@ =~= Seq::<char>::empty());
            assert(rest.skip(1) =~= s@.skip(i + 1));
            i += 1;
        } else {
            cur.push(s[i]);
            assert(rest.skip(1) =~= s@.skip(i + 1));
            i += 1;
        }
    }
    assert(s@.skip(i as int) =~= Seq::<char>::empty());
    let ghost r0 = raw;
    proof { lemma_chars_deep_view(cur); }
    let ghost c0 = cur;
    raw.push(cur);
    proof { lemma_deep_view_push(r0, raw, c0); }
    let ghost rs = raw.deep_view();
    assert(rs == split_cells(s@, Seq::<char>::empty(), Seq::<Seq<char>>::empty()));
    proof { lemma_chars_deep_view(cur); }
    let mut cells: Vec<Vec<char>> = Vec::new();
    let mut k: usize = 0;
    while k < raw.len()
        invariant
            k <= raw.len(),
            rs == raw.deep_view(),
            cells@.len() == k,
            forall|a: int| 0 <= a < k ==> #[trigger] cells@[a]@ == br_to_newline(trim_ws(rs[a])),
        decreases raw.len() - k,
    {
        proof { lemma_chars_deep_view(raw@[k as int]); }
        let tr = trim_chars(&raw[k]);
        let c = br_to_newline_exec(&tr);
        cells.push(c);
        k += 1;
    }
    assert(cells.deep_view() =~= md_row_cells(line@)) by {
        assert forall|a: int| 0 <= a < k implies #[trigger] cells.deep_view()[a] == md_row_cells(line@)[a] by {
            lemma_chars_deep_view(cells@[a]);
        }
    }
    cells
}

fn is_sep_pad_exec(c: char) -> (b: bool)
    ensures
        b == is_sep_pad(c),
{
    c == ':' || is_whitespace(c)
}

/// `c` without leading and trailing alignment colons and whitespace.
fn trim_sep_chars(c: &Vec<char>) -> (t: Vec<char>)
    ensures
        t@ == trim_sep_end(trim_sep_start(c@)),
{
    let mut lo: usize = 0;
    assert(c@.skip(0) =~= c@);
    while lo < c.len() && is_sep_pad_exec(c[lo])
        invariant
            lo <= c.len(),
            trim_sep_start(c@.skip(lo as int)) == trim_sep_start(c@),
        decreases c.len() - lo,
    {
        assert(c@.skip(lo as int).skip(1) =~= c@.skip(lo + 1));
        lo += 1;
    }
    let ghost front = c@.skip(lo as int);
    assert(trim_sep_start(c@) == front);
    let mut hi: usize = c.len();
    assert(c@.subrange(lo as int, hi as int) =~= front);
    while hi > lo && is_sep_pad_exec(c[hi - 1])
        invariant
            lo <= hi <= c.len(),
            trim_sep_end(c@.subrange(lo as int, hi as int)) == trim_sep_end(front),
        decreases hi - lo,
    {
        assert(c@.subrange(lo as int, hi as int).drop_last() =~= c@.subrange(lo as int, hi - 1));
        hi -= 1;
    }
    slice_chars(c, lo, hi)
}

fn is_dash_cell_exec(c: &Vec<char>) -> (b: bool)
    ensures
        b == is_dash_cell(c@),
{
    let t = trim_sep_chars(c);
    if t.len() == 0 {
        return false;
    }
    let mut i: usize = 0;
    while i < t.len()
        invariant
            i <= t.len(),
            t@ == trim_sep_end(trim_sep_start(c@)),
            forall|k: int| 0 <= k < i ==> t@[k] == '-',
        decreases t.len() - i,
    {
        if t[i] != '-' {
            assert(!is_dash_cell(c@)) by {
                let tt = trim_sep_end(trim_sep_start(c@));
                assert(tt[i as int] != '-');
            }
            return false;
        }
        i += 1;
    }
    true
}

/// Whether the cells of a line make a header separator row (`---`, `:--:`).
pub fn is_md_separator_row(cells: &Vec<Vec<char>>) -> (b: bool)
    ensures
        b == is_separator_row(cells.deep_view()),
{
    if cells.len() == 0 {
        return false;
    }
    let ghost cs = cells.deep_view();
    let mut i: usize = 0;
    while i < cells.len()
        invariant
            i <= cells.len(),
            cs == cells.deep_view(),
            cs.len() == cells@.len(),
            forall|k: int| 0 <= k < i ==> is_dash_cell(#[trigger] cs[k]),
        decreases cells.len() - i,
    {
        proof { lemma_chars_deep_view(cells@[i as int]); }
        if !is_dash_cell_exec(&cells[i]) {
            assert(!is_dash_cell(cs[i as int]));
            return false;
        }
        i += 1;
    }
    true
}

/// `s` as a CSV field: quoted when it holds a comma, a quote or a line feed.
pub fn csv_quote_if_needed(s: &Vec<char>) -> (r: Vec<char>)
    ensures
        r@ == csv_field(s@),
{
    if contains_char(s, ',') || contains_char(s, '"') || contains_char(s, '\n') {
        quoted_chars(s)
    } else {
        let r = slice_chars(s, 0, s.len());
        assert(s@.subrange(0, s@.len() as int) =~= s@);
        r
    }
}

fn csv_row_of_cells(cells: &Vec<Vec<char>>) -> (row: Vec<Vec<char>>)
    ensures
        row.deep_view() == Seq::new(cells.deep_view().len(), |j: int| csv_field(cells.deep_view()[j])),
{
    let ghost cs = cells.deep_view();
    let mut row: Vec<Vec<char>> = Vec::new();
    let mut j: usize = 0;
    while j < cells.len()
        invariant
            j <= cells.len(),
            cs == cells.deep_view(),
            cs.len() == cells@.len(),
            row.deep_view() == Seq::new(j as nat, |k: int| csv_field(cs[k])),
        decreases cells.len() - j,
    {
        proof { lemma_chars_deep_view(cells@[j as int]); }
        let f = csv_quote_if_needed(&cells[j]);
        let ghost r0 = row;
        proof { lemma_chars_deep_view(f); }
        let ghost f0 = f;
        row.push(f);
        proof { lemma_deep_view_push(r0, row, f0); }
        assert(row.deep_view() =~= Seq::new((j + 1) as nat, |k: int| csv_field(cs[k])));
        j += 1;
    }
    row
}

/// Reads a pipe table back as CSV. Blank lines, lines without a `|` and
/// separator rows are skipped; every other line becomes one CSV line whose
/// fields are its trimmed cells, with `\|` read as `|` and `<br>` as a line
/// feed, quoted where they hold a comma, a quote or a line feed.
pub fn from_markdown_table(input: &str) -> (out: String)
    ensures
        out@ == csv_of_markdown(input@),
{
    let chars = chars_of(input);
    let lines = split_lines_exec(&chars);
    let ghost ls = lines.deep_view();
    let mut rows: Vec<Vec<Vec<char>>> = Vec::new();
    let mut i: usize = 0;
    assert(ls.take(0) =~= Seq::<Seq<char>>::empty());
    assert(rows.deep_view() =~= csv_fields(md_table_rows(ls.take(0))));
    while i < lines.len()
        invariant
            i <= lines.len(),
            ls == lines.deep_view(),
            ls.len() == lines@.len(),
            rows.deep_view() == csv_fields(md_table_rows(ls.take(i as int))),
        decreases lines.len() - i,
    {
        proof { lemma_chars_deep_view(lines@[i as int]); }
        assert(ls.take(i + 1).drop_last() =~= ls.take(i as int));
        assert(ls.take(i + 1).last() == ls[i as int]);
        let t = trim_chars(&lines[i]);
        if t.len() == 0 || !contains_char(&t, '|') {
        } else {
            let cells = parse_md_row(&t);
            if !is_md_separator_row(&cells) {
                let row = csv_row_of_cells(&cells);
                let ghost r0 = rows;
                let ghost w0 = row;
                rows.push(row);
                proof {
                    lemma_deep_view_push(r0, rows, w0);
                    let prev = md_table_rows(ls.take(i as int));
                    assert(md_table_rows(ls.take(i + 1)) == prev.push(md_row_cells(t@)));
                    assert(csv_fields(prev.push(md_row_cells(t@))) =~= csv_fields(prev).push(w0.deep_view()));
                }
            }
        }
        i += 1;
    }
    assert(ls.take(lines.len() as int) =~= ls);
    serialize(&rows, true)
}

} // verus!
