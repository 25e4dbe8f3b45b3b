//! What the reader makes of text that the writer produced, and what
//! [`crate::csv::unalign`] makes of what [`crate::csv::align`] produced.

use vstd::prelude::*;
use crate::stream::{padded_with, width_at, table_widths, lemma_widths_agree};
use crate::csv::{
    Mode, Scan, advance, scan_from, fresh, close, csv_rows, join_row, lines_of, emit, ends_nl,
    col_width, spaces, pad, padded_rows, trim_spaces, trimmed_rows, aligned, unaligned, next_mode, Act,
    breaks_from, line_breaks, lines_with, break_at,
};

verus! {

/// Read on its own, `f` is one field, left open outside any quote: the
/// reader holds exactly `f` as the current field and has completed nothing.
pub open spec fn reads_as_field(f: Seq<char>) -> bool {
    let st = scan_from(fresh(), f);
    &&& st.field == f
    &&& st.row.len() == 0
    &&& st.rows.len() == 0
    &&& st.mode != Mode::Quoted
    &&& st.mode != Mode::CrSeen
}

/// A table that the writer can put into text and the reader can take back:
/// every row has a field, every field reads as a field, and when the text
/// goes without a final line break its last row is not a lone empty field
/// (that row would leave no trace in the text).
pub open spec fn well_formed(rows: Seq<Seq<Seq<char>>>, nl: bool) -> bool {
    &&& forall|i: int| 0 <= i < rows.len() ==> #[trigger] rows[i].len() > 0
    &&& forall|i: int, j: int| 0 <= i < rows.len() && 0 <= j < rows[i].len()
        ==> reads_as_field(#[trigger] rows[i][j])
    &&& (!nl && rows.len() > 0) ==> (rows.last().len() > 1 || rows.last()[0].len() > 0)
}

/// No field ends with a space.
pub open spec fn unpadded(rows: Seq<Seq<Seq<char>>>) -> bool {
    forall|i: int, j: int| 0 <= i < rows.len() && 0 <= j < rows[i].len()
        ==> trim_spaces(#[trigger] rows[i][j]) == rows[i][j]
}

proof fn lemma_scan_single(st: Scan, c: char)
    ensures
        scan_from(st, seq![c]) == advance(st, c),
{
    assert(seq![c].drop_last() =~= Seq::<char>::empty());
    assert(scan_from(st, Seq::<char>::empty()) == st);
    assert(seq![c].last() == c);
}

/// Reading `a + b` is reading `a`, then `b`.
pub proof fn lemma_scan_concat(st: Scan, a: Seq<char>, b: Seq<char>)
    ensures
        scan_from(st, a + b) == scan_from(scan_from(st, a), b),
    decreases b.len(),
{
    if b.len() == 0 {
        assert(a + b =~= a);
    } else {
        lemma_scan_concat(st, a, b.drop_last());
        assert((a + b).drop_last() =~= a + b.drop_last());
        assert((a + b).last() == b.last());
    }
}

proof fn lemma_advance_grows(st: Scan, c: char)
    ensures
        advance(st, c).rows.len() >= st.rows.len(),
        advance(st, c).rows.len() == st.rows.len() ==> advance(st, c).row.len() >= st.row.len(),
{
}

/// Text that completes nothing when read from an empty row reads the same
/// way in front of any completed fields and rows.
proof fn lemma_scan_frame(m: Mode, fl: Seq<char>, s: Seq<char>, row: Seq<Seq<char>>, rows: Seq<Seq<Seq<char>>>)
    requires
        scan_from(Scan { mode: m, field: fl, row: seq![], rows: seq![] }, s).row.len() == 0,
        scan_from(Scan { mode: m, field: fl, row: seq![], rows: seq![] }, s).rows.len() == 0,
    ensures
        ({
            let a = scan_from(Scan { mode: m, field: fl, row: seq![], rows: seq![] }, s);
            scan_from(Scan { mode: m, field: fl, row, rows }, s) == (Scan { mode: a.mode, field: a.field, row, rows })
        }),
    decreases s.len(),
{
    if s.len() > 0 {
        let st0 = Scan { mode: m, field: fl, row: seq![], rows: seq![] };
        let p = scan_from(st0, s.drop_last());
        lemma_advance_grows(p, s.last());
        lemma_scan_frame(m, fl, s.drop_last(), row, rows);
    }
}

proof fn lemma_field_in_context(f: Seq<char>, row: Seq<Seq<char>>, rows: Seq<Seq<Seq<char>>>)
    requires
        reads_as_field(f),
    ensures
        scan_from(Scan { mode: Mode::Start, field: seq![], row, rows }, f)
            == (Scan { mode: scan_from(fresh(), f).mode, field: f, row, rows }),
{
    lemma_scan_frame(Mode::Start, seq![], f, row, rows);
}

/// Reading one row's fields joined by commas leaves its last field open.
proof fn lemma_scan_join_row(r: Seq<Seq<char>>, rows: Seq<Seq<Seq<char>>>)
    requires
        r.len() > 0,
        forall|j: int| 0 <= j < r.len() ==> reads_as_field(#[trigger] r[j]),
    ensures
        scan_from(Scan { mode: Mode::Start, field: seq![], row: seq![], rows }, join_row(r))
            == (Scan { mode: scan_from(fresh(), r.last()).mode, field: r.last(), row: r.drop_last(), rows }),
    decreases r.len(),
{
    let st0 = Scan { mode: Mode::Start, field: seq![], row: seq![], rows };
    if r.len() == 1 {
        assert(reads_as_field(r[0]));
        lemma_field_in_context(r[0], seq![], rows);
        assert(r.drop_last() =~= Seq::<Seq<char>>::empty());
    } else {
        let rp = r.drop_last();
        assert forall|j: int| 0 <= j < rp.len() implies reads_as_field(#[trigger] rp[j]) by {
            assert(rp[j] == r[j]);
        }
        lemma_scan_join_row(rp, rows);
        lemma_scan_concat(st0, join_row(rp), seq![',']);
        lemma_scan_concat(st0, join_row(rp) + seq![','], r.last());
        let mid = scan_from(st0, join_row(rp));
        lemma_scan_single(mid, ',');
        assert(rp.drop_last().push(rp.last()) =~= rp);
        assert(reads_as_field(r[r.len() - 1]));
        lemma_field_in_context(r.last(), rp, rows);
    }
}

/// Reading the lines of a well-formed table completes exactly its rows.
proof fn lemma_scan_lines(rows: Seq<Seq<Seq<char>>>, nl: bool)
    requires
        well_formed(rows, nl),
    ensures
        scan_from(fresh(), lines_of(rows)) == (Scan { mode: Mode::Start, field: seq![], row: seq![], rows }),
    decreases rows.len(),
{
    if rows.len() == 0 {
        assert(rows =~= Seq::<Seq<Seq<char>>>::empty());
        assert(lines_of(rows) =~= Seq::<char>::empty());
    } else {
        let rp = rows.drop_last();
        let last = rows.last();
        assert(well_formed(rp, true)) by {
            assert forall|i: int| 0 <= i < rp.len() implies #[trigger] rp[i].len() > 0 by {
                assert(rp[i] == rows[i]);
            }
            assert forall|i: int, j: int| 0 <= i < rp.len() && 0 <= j < rp[i].len()
                implies reads_as_field(#[trigger] rp[i][j]) by {
                assert(rp[i] == rows[i]);
            }
        }
        lemma_scan_lines(rp, true);
        assert(last == rows[rows.len() - 1]);
        assert(last.len() > 0);
        assert forall|j: int| 0 <= j < last.len() implies reads_as_field(#[trigger] last[j]) by {
            assert(reads_as_field(rows[rows.len() - 1][j]));
        }
        lemma_scan_join_row(last, rp);
        lemma_scan_concat(fresh(), lines_of(rp), join_row(last));
        lemma_scan_concat(fresh(), lines_of(rp) + join_row(last), seq!['\n']);
        let mid = scan_from(fresh(), lines_of(rp) + join_row(last));
        lemma_scan_single(mid, '\n');
        assert(last.drop_last().push(last.last()) =~= last);
        assert(rp.push(last) =~= rows);
    }
}

// ---------------------------------------------------------------------------
// Line breaks
// ---------------------------------------------------------------------------

/// One line break is recorded for each row completed.
pub proof fn lemma_breaks_len(st: Scan, s: Seq<char>)
    ensures
        breaks_from(st, s).len() + st.rows.len() == scan_from(st, s).rows.len(),
    decreases s.len(),
{
    if s.len() > 0 {
        lemma_breaks_len(st, s.drop_last());
    }
}

/// A reader left just after a carriage return has recorded its break.
pub proof fn lemma_breaks_cr(st: Scan, s: Seq<char>)
    requires
        st.mode != Mode::CrSeen,
        scan_from(st, s).mode == Mode::CrSeen,
    ensures
        breaks_from(st, s).len() > 0,
{
    if s.len() > 0 {
        let p = scan_from(st, s.drop_last());
        assert(next_mode(p.mode, s.last()).1 == Act::EndRow);
    }
}

/// The breaks of `a + b` are those of `a`, then those of `b` read after
/// `a`, when `a` does not end just after a carriage return.
proof fn lemma_breaks_concat(st: Scan, a: Seq<char>, b: Seq<char>)
    requires
        scan_from(st, a).mode != Mode::CrSeen,
    ensures
        breaks_from(st, a + b) == breaks_from(st, a) + breaks_from(scan_from(st, a), b),
    decreases b.len(),
{
    let sa = scan_from(st, a);
    if b.len() == 0 {
        assert(a + b =~= a);
        assert(breaks_from(st, a) + breaks_from(sa, b) =~= breaks_from(st, a));
    } else {
        let bp = b.drop_last();
        lemma_breaks_concat(st, a, bp);
        assert((a + b).drop_last() =~= a + bp);
        assert((a + b).last() == b.last());
        lemma_scan_concat(st, a, bp);
        let x = breaks_from(st, a);
        let y = breaks_from(sa, bp);
        let act = next_mode(scan_from(sa, bp).mode, b.last()).1;
        if act == Act::EndRow {
            assert((x + y).push(seq![b.last()]) =~= x + y.push(seq![b.last()]));
        } else if act == Act::Skip {
            assert(scan_from(sa, bp).mode == Mode::CrSeen);
            lemma_breaks_cr(sa, bp);
            assert((x + y).update((x + y).len() - 1, (x + y).last().push(b.last()))
                =~= x + y.update(y.len() - 1, y.last().push(b.last())));
        }
    }
}

/// The rows of a well-formed table are all ended by `\n` in its text.
proof fn lemma_lines_breaks(rows: Seq<Seq<Seq<char>>>)
    requires
        well_formed(rows, true),
    ensures
        line_breaks(lines_of(rows)) == Seq::new(rows.len(), |_i: int| seq!['\n']),
        rows.len() > 0 ==> line_breaks(lines_of(rows.drop_last()) + join_row(rows.last()))
            == Seq::new((rows.len() - 1) as nat, |_i: int| seq!['\n']),
    decreases rows.len(),
{
    if rows.len() == 0 {
        assert(lines_of(rows) =~= Seq::<char>::empty());
        assert(line_breaks(lines_of(rows)) =~= Seq::new(rows.len(), |_i: int| seq!['\n']));
    } else {
        let rp = rows.drop_last();
        let last = rows.last();
        assert(well_formed(rp, true)) by {
            assert forall|i: int| 0 <= i < rp.len() implies #[trigger] rp[i].len() > 0 by {
                assert(rp[i] == rows[i]);
            }
            assert forall|i: int, j: int| 0 <= i < rp.len() && 0 <= j < rp[i].len()
                implies reads_as_field(#[trigger] rp[i][j]) by {
                assert(rp[i] == rows[i]);
            }
        }
        lemma_lines_breaks(rp);
        lemma_scan_lines(rp, true);
        assert(last == rows[rows.len() - 1]);
        assert forall|j: int| 0 <= j < last.len() implies reads_as_field(#[trigger] last[j]) by {
            assert(reads_as_field(rows[rows.len() - 1][j]));
        }
        let a = lines_of(rp);
        let st1 = scan_from(fresh(), a);
        lemma_breaks_concat(fresh(), a, join_row(last));
        lemma_scan_join_row(last, rp);
        lemma_breaks_len(st1, join_row(last));
        let bp = Seq::new(rp.len(), |_i: int| seq!['\n']);
        assert(line_breaks(a + join_row(last)) =~= bp);
        let m = a + join_row(last);
        lemma_scan_concat(fresh(), a, join_row(last));
        assert(reads_as_field(last[last.len() - 1]));
        let full = m + seq!['\n'];
        assert(full.drop_last() =~= m);
        assert(full.last() == '\n');
        assert(lines_of(rows) == full);
        assert(bp.push(seq!['\n']) =~= Seq::new(rows.len(), |_i: int| seq!['\n']));
    }
}

/// Rows each followed by `\n` (the last one possibly by nothing) are
/// written as by `emit`.
proof fn lemma_lines_with_newlines(x: Seq<Seq<Seq<char>>>, k: nat)
    requires
        k <= x.len() <= k + 1,
    ensures
        lines_with(x, Seq::new(k, |_i: int| seq!['\n']))
            == (if k == x.len() { lines_of(x) } else { lines_of(x).drop_last() }),
    decreases x.len(),
{
    let b = Seq::new(k, |_i: int| seq!['\n']);
    if x.len() > 0 {
        let xp = x.drop_last();
        if k == x.len() {
            lemma_lines_with_newlines_all(xp, b);
        } else {
            lemma_lines_with_newlines_all(xp, b);
            assert(lines_of(x).drop_last() =~= lines_of(xp) + join_row(x.last()));
            assert(break_at(b, x.len() - 1) =~= Seq::<char>::empty());
            assert(lines_with(x, b) =~= lines_with(xp, b) + join_row(x.last()));
        }
    }
}

proof fn lemma_lines_with_newlines_all(x: Seq<Seq<Seq<char>>>, b: Seq<Seq<char>>)
    requires
        x.len() <= b.len(),
        forall|i: int| 0 <= i < b.len() ==> #[trigger] b[i] == seq!['\n'],
    ensures
        lines_with(x, b) == lines_of(x),
    decreases x.len(),
{
    if x.len() > 0 {
        lemma_lines_with_newlines_all(x.drop_last(), b);
        assert(b[x.len() - 1] == seq!['\n']);
    }
}

/// The text of a well-formed table keeps its form when the rows are
/// rewritten: rows `x` in place of its rows are written as `emit` writes
/// them.
proof fn lemma_rewrite_table(rows: Seq<Seq<Seq<char>>>, nl: bool, x: Seq<Seq<Seq<char>>>)
    requires
        well_formed(rows, nl),
        x.len() == rows.len(),
    ensures
        lines_with(x, line_breaks(emit(rows, nl))) == emit(x, nl && rows.len() > 0),
{
    if rows.len() == 0 {
        assert(lines_of(rows) =~= Seq::<char>::empty());
        assert(x =~= Seq::<Seq<Seq<char>>>::empty());
        assert(lines_of(x) =~= Seq::<char>::empty());
    } else {
        let nl2 = nl && rows.len() > 0;
        let rp = rows.drop_last();
        assert(well_formed(rows, true)) by {
            assert forall|i: int| 0 <= i < rows.len() implies #[trigger] rows[i].len() > 0 by {}
        }
        lemma_lines_breaks(rows);
        if nl {
            lemma_lines_with_newlines(x, rows.len());
        } else {
            assert(lines_of(rows).drop_last() =~= lines_of(rp) + join_row(rows.last()));
            assert(emit(rows, nl) == lines_of(rp) + join_row(rows.last()));
            lemma_lines_with_newlines(x, (rows.len() - 1) as nat);
            lemma_lines_nonempty(x);
        }
    }
}

proof fn lemma_lines_nonempty(x: Seq<Seq<Seq<char>>>)
    requires
        x.len() > 0,
    ensures
        lines_of(x).len() > 0,
{
}

/// What align and unalign make of the text of a well-formed table.
proof fn lemma_table_forms(rows: Seq<Seq<Seq<char>>>, nl: bool)
    requires
        well_formed(rows, nl),
    ensures
        aligned(emit(rows, nl)) == emit(padded_rows(rows), nl && rows.len() > 0),
        unaligned(emit(rows, nl)) == emit(trimmed_rows(rows), nl && rows.len() > 0),
{
    law_parse_reads_back(rows, nl);
    lemma_rewrite_table(rows, nl, padded_rows(rows));
    lemma_rewrite_table(rows, nl, trimmed_rows(rows));
}

/// Parsing the text written for a well-formed table (what `serialize`
/// writes) gives back exactly that table.
pub proof fn law_parse_reads_back(rows: Seq<Seq<Seq<char>>>, nl: bool)
    requires
        well_formed(rows, nl),
    ensures
        csv_rows(emit(rows, nl)) == rows,
{
    lemma_scan_lines(rows, nl);
    if !nl && rows.len() > 0 {
        let rp = rows.drop_last();
        let last = rows.last();
        assert(well_formed(rp, true)) by {
            assert forall|i: int| 0 <= i < rp.len() implies #[trigger] rp[i].len() > 0 by {
                assert(rp[i] == rows[i]);
            }
            assert forall|i: int, j: int| 0 <= i < rp.len() && 0 <= j < rp[i].len()
                implies reads_as_field(#[trigger] rp[i][j]) by {
                assert(rp[i] == rows[i]);
            }
        }
        lemma_scan_lines(rp, true);
        assert(last == rows[rows.len() - 1]);
        assert forall|j: int| 0 <= j < last.len() implies reads_as_field(#[trigger] last[j]) by {
            assert(reads_as_field(rows[rows.len() - 1][j]));
        }
        lemma_scan_join_row(last, rp);
        assert(lines_of(rows).drop_last() =~= lines_of(rp) + join_row(last));
        lemma_scan_concat(fresh(), lines_of(rp), join_row(last));
        assert(last.drop_last().push(last.last()) =~= last);
        assert(last.len() > 1 || last[0].len() > 0);
        assert(last.drop_last().len() > 0 || last.last().len() > 0);
        assert(rp.push(last) =~= rows);
    }
}


proof fn lemma_crseen_field_empty(s: Seq<char>)
    ensures
        scan_from(fresh(), s).mode == Mode::CrSeen ==> scan_from(fresh(), s).field.len() == 0,
    decreases s.len(),
{
    if s.len() > 0 {
        lemma_crseen_field_empty(s.drop_last());
    }
}

/// A field that reads as a field does not end with a line feed.
proof fn lemma_field_not_newline(f: Seq<char>)
    requires
        reads_as_field(f),
        f.len() > 0,
    ensures
        f.last() != '\n',
{
    let p = scan_from(fresh(), f.drop_last());
    lemma_crseen_field_empty(f.drop_last());
    lemma_advance_grows(p, f.last());
}

/// Spaces after a field stay in the field.
proof fn lemma_pad_reads_as_field(f: Seq<char>, k: nat)
    requires
        reads_as_field(f),
    ensures
        reads_as_field(f + spaces(k)),
    decreases k,
{
    if k == 0 {
        assert(f + spaces(0) =~= f);
    } else {
        let k1 = (k - 1) as nat;
        lemma_pad_reads_as_field(f, k1);
        let g = f + spaces(k1);
        assert((f + spaces(k)).drop_last() =~= g);
        assert((f + spaces(k)).last() == ' ');
        assert(g.push(' ') =~= f + spaces(k));
    }
}

/// Trailing spaces added to a field are all removed again.
proof fn lemma_trim_pad(f: Seq<char>, k: nat)
    ensures
        trim_spaces(f + spaces(k)) == trim_spaces(f),
    decreases k,
{
    if k == 0 {
        assert(f + spaces(0) =~= f);
    } else {
        let k1 = (k - 1) as nat;
        lemma_trim_pad(f, k1);
        assert((f + spaces(k)).drop_last() =~= f + spaces(k1));
    }
}

/// A column is at least as wide as each of its fields.
pub proof fn lemma_col_width_ge(rows: Seq<Seq<Seq<char>>>, i: int, j: int)
    requires
        0 <= i < rows.len(),
        0 <= j < rows[i].len(),
    ensures
        rows[i][j].len() <= col_width(rows, j),
    decreases rows.len(),
{
    if i < rows.len() - 1 {
        lemma_col_width_ge(rows.drop_last(), i, j);
    }
}

/// The text of a well-formed table ends with a line break exactly when it
/// was written with one and there is a row.
proof fn lemma_emit_ends_nl(rows: Seq<Seq<Seq<char>>>, nl: bool)
    requires
        well_formed(rows, nl),
    ensures
        ends_nl(emit(rows, nl)) == (nl && rows.len() > 0),
{
    if rows.len() == 0 {
        assert(lines_of(rows) =~= Seq::<char>::empty());
    } else if nl {
    } else {
        let rp = rows.drop_last();
        let last = rows.last();
        assert(last == rows[rows.len() - 1]);
        assert(lines_of(rows).drop_last() =~= lines_of(rp) + join_row(last));
        if last.len() == 1 {
            assert(reads_as_field(rows[rows.len() - 1][0]));
            lemma_field_not_newline(last[0]);
        } else {
            let lf = last.last();
            assert(reads_as_field(rows[rows.len() - 1][last.len() - 1]));
            if lf.len() > 0 {
                lemma_field_not_newline(lf);
                assert((join_row(last.drop_last()) + seq![','] + lf).last() == lf.last());
            } else {
                assert((join_row(last.drop_last()) + seq![','] + lf).last() == ',');
            }
        }
    }
}

proof fn lemma_padded_well_formed(rows: Seq<Seq<Seq<char>>>, nl: bool)
    requires
        well_formed(rows, nl),
    ensures
        well_formed(padded_rows(rows), nl),
{
    let p = padded_rows(rows);
    assert forall|i: int, j: int| 0 <= i < p.len() && 0 <= j < p[i].len()
        implies reads_as_field(#[trigger] p[i][j]) by {
        let f = rows[i][j];
        let w = col_width(rows, j);
        if w > f.len() {
            lemma_pad_reads_as_field(f, (w - f.len()) as nat);
        }
    }
    assert forall|i: int| 0 <= i < p.len() implies #[trigger] p[i].len() > 0 by {
        assert(rows[i].len() > 0);
    }
}

proof fn lemma_trim_padded(rows: Seq<Seq<Seq<char>>>)
    requires
        unpadded(rows),
    ensures
        trimmed_rows(padded_rows(rows)) == rows,
{
    let p = padded_rows(rows);
    let t = trimmed_rows(p);
    assert forall|i: int| 0 <= i < rows.len() implies #[trigger] t[i] == rows[i] by {
        assert forall|j: int| 0 <= j < rows[i].len() implies #[trigger] t[i][j] == rows[i][j] by {
            let f = rows[i][j];
            let w = col_width(rows, j);
            if w > f.len() {
                lemma_trim_pad(f, (w - f.len()) as nat);
            }
            assert(trim_spaces(f) == f);
        }
        assert(t[i] =~= rows[i]);
    }
    assert(t =~= rows);
}

/// What the text of a well-formed table looks like to the transforms:
/// its rows, and whether it ends with a line break.
proof fn lemma_text_of_table(rows: Seq<Seq<Seq<char>>>, nl: bool)
    requires
        well_formed(rows, nl),
    ensures
        csv_rows(emit(rows, nl)) == rows,
        ends_nl(emit(rows, nl)) == (nl && rows.len() > 0),
        emit(rows, nl && rows.len() > 0) == emit(rows, nl),
        well_formed(rows, nl && rows.len() > 0),
{
    law_parse_reads_back(rows, nl);
    lemma_emit_ends_nl(rows, nl);
    if rows.len() == 0 {
        assert(lines_of(rows) =~= Seq::<char>::empty());
    }
}

/// Unaligning the aligned text of a table without padding gives back the
/// text exactly.
pub proof fn law_unalign_undoes_align(rows: Seq<Seq<Seq<char>>>, nl: bool)
    requires
        well_formed(rows, nl),
        unpadded(rows),
    ensures
        unaligned(aligned(emit(rows, nl))) == emit(rows, nl),
{
    let x = emit(rows, nl);
    let nl2 = nl && rows.len() > 0;
    lemma_text_of_table(rows, nl);
    lemma_table_forms(rows, nl);
    let p = padded_rows(rows);
    lemma_padded_well_formed(rows, nl2);
    lemma_table_forms(padded_rows(rows), nl2);
    lemma_text_of_table(p, nl2);
    lemma_trim_padded(rows);
}

/// Unaligning the text of a table without padding changes nothing.
pub proof fn law_unalign_keeps_unpadded(rows: Seq<Seq<Seq<char>>>, nl: bool)
    requires
        well_formed(rows, nl),
        unpadded(rows),
    ensures
        unaligned(emit(rows, nl)) == emit(rows, nl),
{
    lemma_text_of_table(rows, nl);
    lemma_table_forms(rows, nl);
    let t = trimmed_rows(rows);
    assert forall|i: int| 0 <= i < rows.len() implies #[trigger] t[i] == rows[i] by {
        assert(t[i] =~= rows[i]);
    }
    assert(t =~= rows);
}

/// After aligning the text of a table, every field of every column is as
/// long as that column's longest field.
pub proof fn law_align_lines_up(rows: Seq<Seq<Seq<char>>>, nl: bool, i: int, j: int)
    requires
        well_formed(rows, nl),
        0 <= i < csv_rows(aligned(emit(rows, nl))).len(),
        0 <= j < csv_rows(aligned(emit(rows, nl)))[i].len(),
    ensures
        csv_rows(aligned(emit(rows, nl)))[i][j].len() == col_width(rows, j),
{
    let nl2 = nl && rows.len() > 0;
    lemma_text_of_table(rows, nl);
    lemma_table_forms(rows, nl);
    lemma_padded_well_formed(rows, nl2);
    lemma_table_forms(padded_rows(rows), nl2);
    lemma_text_of_table(padded_rows(rows), nl2);
    lemma_col_width_ge(rows, i, j);
}


/// Trimming a padded table gives what trimming the table gives.
proof fn lemma_trim_padded_any(rows: Seq<Seq<Seq<char>>>)
    ensures
        trimmed_rows(padded_rows(rows)) == trimmed_rows(rows),
{
    let p = padded_rows(rows);
    let t = trimmed_rows(p);
    assert forall|i: int| 0 <= i < rows.len() implies #[trigger] t[i] == trimmed_rows(rows)[i] by {
        assert forall|j: int| 0 <= j < rows[i].len() implies #[trigger] t[i][j] == trim_spaces(rows[i][j]) by {
            let f = rows[i][j];
            let w = col_width(rows, j);
            if w > f.len() {
                lemma_trim_pad(f, (w - f.len()) as nat);
            }
        }
        assert(t[i] =~= trimmed_rows(rows)[i]);
    }
    assert(t =~= trimmed_rows(rows));
}

/// Unaligning the aligned text of a table gives what unaligning the text
/// gives: alignment leaves nothing that unalign keeps.
pub proof fn law_unalign_after_align(rows: Seq<Seq<Seq<char>>>, nl: bool)
    requires
        well_formed(rows, nl),
    ensures
        unaligned(aligned(emit(rows, nl))) == unaligned(emit(rows, nl)),
{
    let nl2 = nl && rows.len() > 0;
    lemma_text_of_table(rows, nl);
    lemma_table_forms(rows, nl);
    lemma_padded_well_formed(rows, nl2);
    lemma_table_forms(padded_rows(rows), nl2);
    lemma_text_of_table(padded_rows(rows), nl2);
    lemma_trim_padded_any(rows);
}

/// No field of a column is longer than the column.
proof fn lemma_col_width_le(rows: Seq<Seq<Seq<char>>>, j: int, c: nat)
    requires
        forall|i: int| 0 <= i < rows.len() && 0 <= j < rows[i].len() ==> (#[trigger] rows[i])[j].len() <= c,
    ensures
        col_width(rows, j) <= c,
    decreases rows.len(),
{
    if rows.len() > 0 {
        let rp = rows.drop_last();
        assert forall|i: int| 0 <= i < rp.len() && 0 <= j < rp[i].len() implies (#[trigger] rp[i])[j].len() <= c by {
            assert(rp[i] == rows[i]);
        }
        lemma_col_width_le(rp, j, c);
        assert(rows.last() == rows[rows.len() - 1]);
    }
}

/// A column as wide as some character count has a field that long.
proof fn lemma_col_width_attained(rows: Seq<Seq<Seq<char>>>, j: int)
    requires
        col_width(rows, j) > 0,
    ensures
        exists|i: int| 0 <= i < rows.len() && 0 <= j < rows[i].len() && (#[trigger] rows[i])[j].len() == col_width(rows, j),
    decreases rows.len(),
{
    let rp = rows.drop_last();
    let k = rows.len() - 1;
    assert(rows.last() == rows[k]);
    if 0 <= j < rows[k].len() && rows[k][j].len() == col_width(rows, j) {
        assert(rows[k][j].len() == col_width(rows, j));
    } else {
        lemma_col_width_attained(rp, j);
        let i = choose|i: int| 0 <= i < rp.len() && 0 <= j < rp[i].len() && (#[trigger] rp[i])[j].len() == col_width(rp, j);
        assert(rp[i] == rows[i]);
    }
}

/// Padding leaves every column as wide as it was.
proof fn lemma_padded_widths(rows: Seq<Seq<Seq<char>>>, j: int)
    ensures
        col_width(padded_rows(rows), j) == col_width(rows, j),
{
    let p = padded_rows(rows);
    let w = col_width(rows, j);
    assert forall|i: int| 0 <= i < p.len() && 0 <= j < p[i].len() implies (#[trigger] p[i])[j].len() <= w by {
        lemma_col_width_ge(rows, i, j);
    }
    lemma_col_width_le(p, j, w);
    if w > 0 {
        lemma_col_width_attained(rows, j);
        let i = choose|i: int| 0 <= i < rows.len() && 0 <= j < rows[i].len() && (#[trigger] rows[i])[j].len() == w;
        assert(p[i][j].len() == w);
        lemma_col_width_ge(p, i, j);
    }
}

/// Aligning aligned text changes nothing.
pub proof fn law_align_idempotent(rows: Seq<Seq<Seq<char>>>, nl: bool)
    requires
        well_formed(rows, nl),
    ensures
        aligned(aligned(emit(rows, nl))) == aligned(emit(rows, nl)),
{
    let nl2 = nl && rows.len() > 0;
    let p = padded_rows(rows);
    lemma_text_of_table(rows, nl);
    lemma_table_forms(rows, nl);
    lemma_padded_well_formed(rows, nl2);
    lemma_table_forms(padded_rows(rows), nl2);
    lemma_text_of_table(p, nl2);
    let pp = padded_rows(p);
    assert forall|i: int| 0 <= i < p.len() implies #[trigger] pp[i] == p[i] by {
        assert forall|j: int| 0 <= j < p[i].len() implies #[trigger] pp[i][j] == p[i][j] by {
            lemma_padded_widths(rows, j);
            lemma_col_width_ge(rows, i, j);
        }
        assert(pp[i] =~= p[i]);
    }
    assert(pp =~= p);
}


// ---------------------------------------------------------------------------
// Writing back the rows of any text
// ---------------------------------------------------------------------------

/// The text read so far, rebuilt from what the reader holds: the completed
/// rows each with its line break, then the open row.
pub open spec fn read_so_far(st: Scan, brk: Seq<Seq<char>>) -> Seq<char> {
    lines_with(st.rows, brk) + join_row(st.row.push(st.field))
}

proof fn lemma_join_push(r: Seq<Seq<char>>, f: Seq<char>)
    requires
        r.len() > 0,
    ensures
        join_row(r.push(f)) == join_row(r) + seq![','] + f,
{
    assert(r.push(f).drop_last() =~= r);
}

proof fn lemma_lines_with_frame(rows: Seq<Seq<Seq<char>>>, b1: Seq<Seq<char>>, b2: Seq<Seq<char>>)
    requires
        forall|i: int| 0 <= i < rows.len() ==> break_at(b1, i) == break_at(b2, i),
    ensures
        lines_with(rows, b1) == lines_with(rows, b2),
    decreases rows.len(),
{
    if rows.len() > 0 {
        lemma_lines_with_frame(rows.drop_last(), b1, b2);
        assert(break_at(b1, rows.len() - 1) == break_at(b2, rows.len() - 1));
    }
}

proof fn lemma_read_so_far(s: Seq<char>)
    ensures
        read_so_far(scan_from(fresh(), s), line_breaks(s)) == s,
        line_breaks(s).len() == scan_from(fresh(), s).rows.len(),
        scan_from(fresh(), s).mode == Mode::CrSeen ==> scan_from(fresh(), s).row.len() == 0
            && scan_from(fresh(), s).field.len() == 0,
    decreases s.len(),
{
    lemma_breaks_len(fresh(), s);
    if s.len() == 0 {
        assert(join_row(seq![Seq::<char>::empty()]) =~= Seq::<char>::empty());
        assert(lines_with(Seq::<Seq<Seq<char>>>::empty(), line_breaks(s)) =~= Seq::<char>::empty());
    } else {
        let t = s.drop_last();
        let c = s.last();
        lemma_read_so_far(t);
        let st = scan_from(fresh(), t);
        let b = line_breaks(t);
        let st2 = scan_from(fresh(), s);
        let b2 = line_breaks(s);
        assert(st2 == advance(st, c));
        let (m, act) = next_mode(st.mode, c);
        assert(s =~= t.push(c));
        if act == Act::Append {
            if st.row.len() == 0 {
                assert(join_row(st.row.push(st.field)) =~= st.field);
                assert(join_row(st2.row.push(st2.field)) =~= st.field.push(c));
            } else {
                lemma_join_push(st.row, st.field);
                lemma_join_push(st.row, st.field.push(c));
            }
            assert(b2 == b);
        } else if act == Act::EndField {
            lemma_join_push(st.row.push(st.field), Seq::<char>::empty());
            assert(st2.row.push(st2.field) =~= st.row.push(st.field).push(Seq::<char>::empty()));
            assert(b2 == b);
        } else if act == Act::EndRow {
            assert(b2 == b.push(seq![c]));
            assert(st2.rows.drop_last() =~= st.rows);
            assert(st2.rows.last() == st.row.push(st.field));
            lemma_lines_with_frame(st.rows, b, b2);
            assert(break_at(b2, st2.rows.len() - 1) == seq![c]);
            assert(join_row(st2.row.push(st2.field)) =~= Seq::<char>::empty());
        } else {
            // the line feed of a `\r\n`
            assert(st.mode == Mode::CrSeen);
            lemma_breaks_cr(fresh(), t);
            assert(b2 == b.update(b.len() - 1, b.last().push(c)));
            assert(st2.rows == st.rows && st2.row == st.row && st2.field == st.field);
            let k = st.rows.len() - 1;
            lemma_lines_with_frame(st.rows.drop_last(), b, b2);
            assert(join_row(st.row.push(st.field)) =~= Seq::<char>::empty());
            assert(join_row(st2.row.push(st2.field)) =~= Seq::<char>::empty());
            assert(lines_with(st.rows, b2) =~= lines_with(st.rows, b).push(c));
        }
    }
}

/// Writing back the rows of any text, each with the line break it had,
/// gives the text.
pub proof fn law_rows_rebuild_text(s: Seq<char>)
    ensures
        lines_with(csv_rows(s), line_breaks(s)) == s,
{
    lemma_read_so_far(s);
    let st = scan_from(fresh(), s);
    let b = line_breaks(s);
    if st.field.len() > 0 || st.row.len() > 0 {
        let rows = st.rows.push(st.row.push(st.field));
        assert(rows.drop_last() =~= st.rows);
        assert(break_at(b, st.rows.len() as int) =~= Seq::<char>::empty());
        assert(lines_with(rows, b) =~= lines_with(st.rows, b) + join_row(st.row.push(st.field)));
    } else {
        assert(join_row(st.row.push(st.field)) =~= Seq::<char>::empty());
        assert(read_so_far(st, b) =~= lines_with(st.rows, b));
    }
}

/// Unaligning a text that was never aligned (no field ends with a space)
/// gives the text back, whatever its line breaks.
pub proof fn law_unalign_keeps_text(s: Seq<char>)
    requires
        unpadded(csv_rows(s)),
    ensures
        unaligned(s) == s,
{
    let rows = csv_rows(s);
    let t = trimmed_rows(rows);
    assert forall|i: int| 0 <= i < rows.len() implies #[trigger] t[i] == rows[i] by {
        assert(t[i] =~= rows[i]);
    }
    assert(t =~= rows);
    law_rows_rebuild_text(s);
}


/// Without carriage returns every row of a text ends with `\n`.
proof fn lemma_breaks_no_cr(s: Seq<char>)
    requires
        !s.contains('\r'),
    ensures
        forall|i: int| 0 <= i < line_breaks(s).len() ==> #[trigger] line_breaks(s)[i] == seq!['\n'],
        scan_from(fresh(), s).mode != Mode::CrSeen,
    decreases s.len(),
{
    if s.len() > 0 {
        let t = s.drop_last();
        assert(!t.contains('\r')) by {
            if t.contains('\r') {
                let k = choose|k: int| 0 <= k < t.len() && t[k] == '\r';
                assert(s[k] == '\r');
            }
        }
        lemma_breaks_no_cr(t);
        assert(s.contains(s.last()));
        assert(s.last() != '\r');
        let p = scan_from(fresh(), t);
        let act = next_mode(p.mode, s.last()).1;
        if act == Act::EndRow {
            assert(s.last() == '\n');
            assert(line_breaks(s) == line_breaks(t).push(seq![s.last()]));
        } else {
            assert(act != Act::Skip);
            assert(line_breaks(s) == line_breaks(t));
        }
    }
}

/// Writing back the rows of a text gives the text, when it has no carriage
/// return and does not end inside a quoted field.
pub proof fn law_rows_write_back(s: Seq<char>)
    requires
        !s.contains('\r'),
        scan_from(fresh(), s).mode != Mode::Quoted,
    ensures
        emit(csv_rows(s), ends_nl(s)) == s,
{
    law_rows_rebuild_text(s);
    lemma_read_so_far(s);
    lemma_breaks_no_cr(s);
    let st = scan_from(fresh(), s);
    let rows = csv_rows(s);
    let b = line_breaks(s);
    let k = b.len();
    assert(b =~= Seq::new(k, |_i: int| seq!['\n']));
    if st.field.len() > 0 || st.row.len() > 0 {
        lemma_lines_with_newlines(rows, k);
        lemma_lines_nonempty(rows);
        if ends_nl(s) {
            let p = scan_from(fresh(), s.drop_last());
            assert(st == advance(p, s.last()));
            assert(s.contains(s.last()));
            assert(false);
        }
    } else {
        lemma_lines_with_newlines(rows, k);
        if rows.len() > 0 {
            let p = scan_from(fresh(), s.drop_last());
            assert(s.len() > 0);
            assert(st == advance(p, s.last()));
            assert(s.contains(s.last()));
            assert(s.last() == '\n');
        } else {
            assert(s.len() == 0) by {
                assert(lines_of(rows) =~= Seq::<char>::empty());
            }
        }
    }
}


// ---------------------------------------------------------------------------
// Reading aligned text
// ---------------------------------------------------------------------------

/// A row with each field padded to the width `w` gives its column.
pub open spec fn pad_row(r: Seq<Seq<char>>, w: Seq<nat>) -> Seq<Seq<char>> {
    Seq::new(r.len(), |j: int| pad(r[j], width_at(w, j)))
}

/// The aligned text of what the reader holds: the completed rows padded,
/// each with its line break, then the open row with its completed fields
/// padded and its current field as read so far.
pub open spec fn aligned_so_far(st: Scan, brk: Seq<Seq<char>>, w: Seq<nat>) -> Seq<char> {
    lines_with(padded_with(st.rows, w), brk) + join_row(pad_row(st.row, w).push(st.field))
}

/// The mode after reading a space.
pub open spec fn space_mode(m: Mode) -> Mode {
    next_mode(m, ' ').0
}

/// The number of spaces that pad `f` to `w` characters.
pub open spec fn pad_count(f: Seq<char>, w: nat) -> nat {
    if w > f.len() { (w - f.len()) as nat } else { 0 }
}

/// Spaces read after any text go into the current field and complete
/// nothing.
proof fn lemma_read_spaces(a: Seq<char>, k: nat)
    ensures
        ({
            let st = scan_from(fresh(), a);
            let st2 = scan_from(fresh(), a + spaces(k));
            &&& st2.field == st.field + spaces(k)
            &&& st2.row == st.row
            &&& st2.rows == st.rows
            &&& st2.mode == (if k == 0 { st.mode } else { space_mode(st.mode) })
            &&& line_breaks(a + spaces(k)) == line_breaks(a)
        }),
    decreases k,
{
    if k == 0 {
        assert(a + spaces(0) =~= a);
        assert(scan_from(fresh(), a).field + spaces(0) =~= scan_from(fresh(), a).field);
    } else {
        let k1 = (k - 1) as nat;
        lemma_read_spaces(a, k1);
        let x = a + spaces(k);
        assert(x.drop_last() =~= a + spaces(k1));
        assert(x.last() == ' ');
        let st = scan_from(fresh(), a);
        assert(space_mode(space_mode(st.mode)) == space_mode(st.mode));
        assert((st.field + spaces(k1)).push(' ') =~= st.field + spaces(k));
    }
}

proof fn lemma_pad_spaces(f: Seq<char>, w: nat)
    ensures
        pad(f, w) == f + spaces(pad_count(f, w)),
{
    if !(w > f.len()) {
        assert(f + spaces(0) =~= f);
    }
}

proof fn lemma_join_padded_field(r: Seq<Seq<char>>, f: Seq<char>, k: nat)
    ensures
        join_row(r.push(f)) + spaces(k) == join_row(r.push(f + spaces(k))),
{
    if r.len() == 0 {
        assert(join_row(r.push(f)) == f);
        assert(join_row(r.push(f + spaces(k))) == f + spaces(k));
    } else {
        lemma_join_push(r, f);
        lemma_join_push(r, f + spaces(k));
        assert(join_row(r) + seq![','] + f + spaces(k) =~= join_row(r) + seq![','] + (f + spaces(k)));
    }
}

/// Padding the rows of a table with one more row.
proof fn lemma_padded_with_push(rows: Seq<Seq<Seq<char>>>, r: Seq<Seq<char>>, w: Seq<nat>)
    ensures
        padded_with(rows.push(r), w) == padded_with(rows, w).push(pad_row(r, w)),
{
    let a = padded_with(rows.push(r), w);
    let b = padded_with(rows, w).push(pad_row(r, w));
    assert forall|i: int| 0 <= i < a.len() implies #[trigger] a[i] =~= b[i] by {
        if i < rows.len() {
            assert(rows.push(r)[i] == rows[i]);
        } else {
            assert(rows.push(r)[i] == r);
        }
    }
    assert(a =~= b);
}

/// What reading the aligned text of a prefix gives.
pub open spec fn reads_aligned(c: Seq<char>, w: Seq<nat>) -> bool {
    let st = scan_from(fresh(), c);
    let a = aligned_so_far(st, line_breaks(c), w);
    &&& scan_from(fresh(), a) == (Scan {
        mode: st.mode,
        field: st.field,
        row: pad_row(st.row, w),
        rows: padded_with(st.rows, w),
    })
    &&& line_breaks(a) == line_breaks(c)
}

proof fn lemma_aligned_append(t: Seq<char>, x: char, w: Seq<nat>)
    requires
        reads_aligned(t, w),
        next_mode(scan_from(fresh(), t).mode, x).1 == Act::Append,
    ensures
        reads_aligned(t.push(x), w),
{
    let c = t.push(x);
    let st = scan_from(fresh(), t);
    let b = line_breaks(t);
    let a = aligned_so_far(st, b, w);
    let st2 = scan_from(fresh(), c);
    assert(c.drop_last() =~= t);
    assert(c.last() == x);
    assert(st2 == advance(st, x));
    let b2 = line_breaks(c);
    assert(b2 == b);
    let pr = pad_row(st.row, w);
    assert(pad_row(st2.row, w) == pr);
    let a2 = aligned_so_far(st2, b2, w);
    if pr.len() == 0 {
        assert(join_row(pr.push(st.field.push(x))) == st.field.push(x));
        assert(join_row(pr.push(st.field)) == st.field);
    } else {
        lemma_join_push(pr, st.field);
        lemma_join_push(pr, st.field.push(x));
    }
    assert(a2 =~= a.push(x));
    assert(a2.drop_last() =~= a);
    assert(a2.last() == x);
}

proof fn lemma_aligned_skip(t: Seq<char>, x: char, w: Seq<nat>)
    requires
        reads_aligned(t, w),
        next_mode(scan_from(fresh(), t).mode, x).1 == Act::Skip,
    ensures
        reads_aligned(t.push(x), w),
{
    let c = t.push(x);
    let st = scan_from(fresh(), t);
    let b = line_breaks(t);
    let a = aligned_so_far(st, b, w);
    let st2 = scan_from(fresh(), c);
    assert(c.drop_last() =~= t);
    assert(c.last() == x);
    assert(st2 == advance(st, x));
    let b2 = line_breaks(c);
    lemma_breaks_len(fresh(), t);
    assert(st.mode == Mode::CrSeen);
    lemma_cr_clear(t);
    lemma_breaks_cr(fresh(), t);
    assert(b2 == b.update(b.len() - 1, b.last().push(x)));
    assert(st2.rows == st.rows && st2.row == st.row && st2.field == st.field);
    let pw = padded_with(st.rows, w);
    let pr = pad_row(st.row, w);
    assert(pr =~= Seq::<Seq<char>>::empty());
    assert(pr.push(st.field) =~= seq![Seq::<char>::empty()]);
    assert(join_row(seq![Seq::<char>::empty()]) =~= Seq::<char>::empty());
    lemma_lines_with_frame(pw.drop_last(), b, b2);
    assert(pw.len() > 0);
    assert(lines_with(pw, b2) =~= lines_with(pw, b).push(x));
    let a2 = aligned_so_far(st2, b2, w);
    assert(a2 =~= a.push(x));
    assert(a2.drop_last() =~= a);
    assert(a2.last() == x);
}

#[verifier::spinoff_prover]
#[verifier::rlimit(40)]
proof fn lemma_aligned_end(t: Seq<char>, x: char, w: Seq<nat>)
    requires
        reads_aligned(t, w),
        next_mode(scan_from(fresh(), t).mode, x).1 == Act::EndField
            || next_mode(scan_from(fresh(), t).mode, x).1 == Act::EndRow,
    ensures
        reads_aligned(t.push(x), w),
{
    let c = t.push(x);
    let st = scan_from(fresh(), t);
    let b = line_breaks(t);
    let a = aligned_so_far(st, b, w);
    let st2 = scan_from(fresh(), c);
    assert(c.drop_last() =~= t);
    assert(c.last() == x);
    assert(st2 == advance(st, x));
    let b2 = line_breaks(c);
    lemma_breaks_len(fresh(), t);
    let act = next_mode(st.mode, x).1;
    let pw = padded_with(st.rows, w);
    let pr = pad_row(st.row, w);
    let j = st.row.len() as int;
    let wj = width_at(w, j);
    let k = pad_count(st.field, wj);
    lemma_pad_spaces(st.field, wj);
    let pf = st.field + spaces(k);
    lemma_read_spaces(a, k);
    let a1 = a + spaces(k);
    let s1 = scan_from(fresh(), a1);
    lemma_join_padded_field(pr, st.field, k);
    assert(pad_row(st.row.push(st.field), w) =~= pr.push(pf));
    let a2 = aligned_so_far(st2, b2, w);
    if act == Act::EndField {
        assert(st2.row == st.row.push(st.field));
        lemma_join_push(pr.push(pf), Seq::<char>::empty());
        assert(pad_row(st2.row, w).push(st2.field) =~= pr.push(pf).push(Seq::<char>::empty()));
        assert(b2 == b);
        assert(a2 =~= a1.push(x));
    } else {
        assert(b2 == b.push(seq![x]));
        lemma_padded_with_push(st.rows, st.row.push(st.field), w);
        lemma_lines_with_frame(pw, b, b2);
        assert(padded_with(st2.rows, w).drop_last() =~= pw);
        assert(padded_with(st2.rows, w).last() == pr.push(pf));
        assert(break_at(b2, pw.len() as int) == seq![x]);
        assert(pad_row(st2.row, w).push(st2.field) =~= seq![Seq::<char>::empty()]);
        assert(join_row(seq![Seq::<char>::empty()]) =~= Seq::<char>::empty());
        assert(a2 =~= a1.push(x));
    }
    assert(a2.drop_last() =~= a1);
    assert(a2.last() == x);
    assert(next_mode(s1.mode, x) == next_mode(st.mode, x));
    if act == Act::EndField {
        assert(pad_row(st2.row, w) =~= pr.push(pf));
    } else {
        assert(pad_row(st2.row, w) =~= Seq::<Seq<char>>::empty());
    }
}

/// Reading the aligned text of what the reader holds gives the reader's
/// state with its completed fields padded, and the same line breaks.
proof fn lemma_read_aligned_so_far(c: Seq<char>, w: Seq<nat>)
    ensures
        reads_aligned(c, w),
    decreases c.len(),
{
    if c.len() == 0 {
        let st = scan_from(fresh(), c);
        lemma_breaks_len(fresh(), c);
        assert(pad_row(st.row, w).push(st.field) =~= seq![Seq::<char>::empty()]);
        assert(join_row(seq![Seq::<char>::empty()]) =~= Seq::<char>::empty());
        assert(padded_with(st.rows, w) =~= Seq::<Seq<Seq<char>>>::empty());
        assert(lines_with(padded_with(st.rows, w), line_breaks(c)) =~= Seq::<char>::empty());
        assert(aligned_so_far(st, line_breaks(c), w) =~= Seq::<char>::empty());
        assert(pad_row(st.row, w) =~= st.row);
    } else {
        let t = c.drop_last();
        let x = c.last();
        lemma_read_aligned_so_far(t, w);
        assert(c =~= t.push(x));
        let act = next_mode(scan_from(fresh(), t).mode, x).1;
        if act == Act::Append {
            lemma_aligned_append(t, x, w);
        } else if act == Act::Skip {
            lemma_aligned_skip(t, x, w);
        } else {
            lemma_aligned_end(t, x, w);
        }
    }
}

proof fn lemma_cr_clear(t: Seq<char>)
    ensures
        scan_from(fresh(), t).mode == Mode::CrSeen ==> scan_from(fresh(), t).field.len() == 0
            && scan_from(fresh(), t).row.len() == 0,
    decreases t.len(),
{
    if t.len() > 0 {
        lemma_cr_clear(t.drop_last());
    }
}

/// Reading the aligned form of any text gives its rows with every field
/// padded to its column's width, and its line breaks.
pub proof fn law_align_reads_back(c: Seq<char>)
    ensures
        csv_rows(aligned(c)) == padded_rows(csv_rows(c)),
        line_breaks(aligned(c)) == line_breaks(c),
{
    let rows = csv_rows(c);
    let w = table_widths(rows);
    let st = scan_from(fresh(), c);
    let b = line_breaks(c);
    lemma_breaks_len(fresh(), c);
    lemma_read_aligned_so_far(c, w);
    lemma_widths_agree(rows);
    let a = aligned_so_far(st, b, w);
    let pw = padded_with(st.rows, w);
    let pr = pad_row(st.row, w);
    if st.field.len() > 0 || st.row.len() > 0 {
        let j = st.row.len() as int;
        let wj = width_at(w, j);
        let k = pad_count(st.field, wj);
        lemma_pad_spaces(st.field, wj);
        let pf = st.field + spaces(k);
        lemma_read_spaces(a, k);
        lemma_join_padded_field(pr, st.field, k);
        lemma_padded_with_push(st.rows, st.row.push(st.field), w);
        assert(pad_row(st.row.push(st.field), w) =~= pr.push(pf));
        assert(padded_with(rows, w) == pw.push(pr.push(pf)));
        assert(padded_with(rows, w).drop_last() =~= pw);
        assert(break_at(b, pw.len() as int) =~= Seq::<char>::empty());
        assert(aligned(c) =~= a + spaces(k));
        assert(pr.push(pf).len() > 0);
    } else {
        assert(rows == st.rows);
        assert(pr.push(st.field) =~= seq![Seq::<char>::empty()]);
        assert(join_row(seq![Seq::<char>::empty()]) =~= Seq::<char>::empty());
        assert(aligned(c) =~= a);
    }
}

/// Unaligning the aligned form of any text gives what unaligning the text
/// gives, line breaks included.
pub proof fn law_unalign_after_align_text(c: Seq<char>)
    ensures
        unaligned(aligned(c)) == unaligned(c),
{
    law_align_reads_back(c);
    lemma_trim_padded_any(csv_rows(c));
}

/// Unaligning the aligned form of a text that was never aligned (no field
/// ends with a space) gives the text back, whatever its line breaks.
pub proof fn law_unalign_undoes_align_text(c: Seq<char>)
    requires
        unpadded(csv_rows(c)),
    ensures
        unaligned(aligned(c)) == c,
{
    law_unalign_after_align_text(c);
    law_unalign_keeps_text(c);
}

/// Aligning the aligned form of any text changes nothing.
pub proof fn law_align_idempotent_text(c: Seq<char>)
    ensures
        aligned(aligned(c)) == aligned(c),
{
    law_align_reads_back(c);
    let p = padded_rows(csv_rows(c));
    let pp = padded_rows(p);
    let rows = csv_rows(c);
    assert forall|i: int| 0 <= i < p.len() implies #[trigger] pp[i] == p[i] by {
        assert forall|j: int| 0 <= j < p[i].len() implies #[trigger] pp[i][j] == p[i][j] by {
            lemma_padded_widths(rows, j);
            lemma_col_width_ge(rows, i, j);
        }
        assert(pp[i] =~= p[i]);
    }
    assert(pp =~= p);
}

} // verus!
