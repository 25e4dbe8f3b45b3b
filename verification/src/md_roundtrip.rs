//! Reading back a pipe table written from CSV gives the CSV again, for
//! simple canonical CSV.

use vstd::prelude::*;
use crate::text::{is_ws, trim_ws, trim_start_ws, trim_end_ws};
use crate::csv::{spaces, csv_rows, lines_of, ends_nl, scan_from, fresh, Mode};
use crate::markdown::{
    br, escape_pipes, crlf_to_br, breaks_to_br, md_escaped, split_cells, br_to_newline, split_lines,
    md_row_text, md_separator, md_lines, md_cells, md_widths, markdown_of, strip_outer_pipes,
    md_row_cells, is_separator_row, is_dash_cell, md_table_rows, csv_field, csv_fields,
    csv_of_markdown, dashes, trim_sep_start, trim_sep_end, is_sep_pad, lemma_max_cols_uniform,
};
use crate::transforms::canonical_value;
use crate::roundtrip::{well_formed, law_parse_reads_back, law_rows_write_back};

verus! {

// ---------------------------------------------------------------------------
// Encoding a cell
// ---------------------------------------------------------------------------

/// `v` holds `<br>` somewhere.
pub open spec fn has_br(v: Seq<char>) -> bool {
    exists|k: int| 0 <= k && k + 4 <= v.len() && #[trigger] v.subrange(k, k + 4) == br()
}

/// A value that a pipe table carries unchanged: no whitespace at either
/// end, no carriage return, and no `<br>` (which reads back as a line feed).
pub open spec fn md_safe(v: Seq<char>) -> bool {
    trim_ws(v) == v && !v.contains('\r') && !has_br(v)
}

/// How one character is written in a cell: `|` as `\|`, a line break as
/// `<br>`.
pub open spec fn enc(c: char) -> Seq<char> {
    if c == '|' { seq!['\\', '|'] } else if c == '\n' || c == '\r' { br() } else { seq![c] }
}

proof fn lemma_escape_concat(a: Seq<char>, b: Seq<char>)
    ensures
        escape_pipes(a + b) == escape_pipes(a) + escape_pipes(b),
    decreases b.len(),
{
    if b.len() == 0 {
        assert(a + b =~= a);
    } else {
        lemma_escape_concat(a, b.drop_last());
        assert((a + b).drop_last() =~= a + b.drop_last());
    }
}

proof fn lemma_breaks_concat(a: Seq<char>, b: Seq<char>)
    ensures
        breaks_to_br(a + b) == breaks_to_br(a) + breaks_to_br(b),
    decreases b.len(),
{
    if b.len() == 0 {
        assert(a + b =~= a);
    } else {
        lemma_breaks_concat(a, b.drop_last());
        assert((a + b).drop_last() =~= a + b.drop_last());
    }
}

proof fn lemma_single(c: char)
    ensures
        escape_pipes(seq![c]) == (if c == '|' { seq!['\\', '|'] } else { seq![c] }),
        breaks_to_br(seq![c]) == (if c == '\n' || c == '\r' { br() } else { seq![c] }),
{
    assert(seq![c].drop_last() =~= Seq::<char>::empty());
    assert(seq![c].last() == c);
    assert(escape_pipes(Seq::<char>::empty()) == Seq::<char>::empty());
    assert(breaks_to_br(Seq::<char>::empty()) == Seq::<char>::empty());
    assert(Seq::<char>::empty() + seq!['\\', '|'] =~= seq!['\\', '|']);
    assert(Seq::<char>::empty() + seq![c] =~= seq![c]);
    assert(Seq::<char>::empty() + br() =~= br());
}

proof fn lemma_crlf_identity(v: Seq<char>)
    requires
        !v.contains('\r'),
    ensures
        crlf_to_br(v) == v,
    decreases v.len(),
{
    if v.len() > 0 {
        assert(v[0] != '\r');
        assert(!v.skip(1).contains('\r')) by {
            if v.skip(1).contains('\r') {
                let k = choose|k: int| 0 <= k < v.skip(1).len() && v.skip(1)[k] == '\r';
                assert(v[k + 1] == '\r');
            }
        }
        lemma_crlf_identity(v.skip(1));
        assert(v =~= seq![v[0]] + v.skip(1));
    }
}

/// The cell text of a value: `E(v) = breaks_to_br(escape_pipes(v))`, one
/// character at a time from the front.
proof fn lemma_encode_front(v: Seq<char>)
    requires
        v.len() > 0,
    ensures
        breaks_to_br(escape_pipes(v)) == enc(v[0]) + breaks_to_br(escape_pipes(v.skip(1))),
        breaks_to_br(v) == breaks_to_br(seq![v[0]]) + breaks_to_br(v.skip(1)),
{
    assert(v =~= seq![v[0]] + v.skip(1));
    lemma_escape_concat(seq![v[0]], v.skip(1));
    lemma_single(v[0]);
    lemma_breaks_concat(escape_pipes(seq![v[0]]), escape_pipes(v.skip(1)));
    lemma_breaks_concat(seq![v[0]], v.skip(1));
    if v[0] == '|' {
        assert(seq!['\\', '|'] =~= seq!['\\'] + seq!['|']);
        lemma_breaks_concat(seq!['\\'], seq!['|']);
        lemma_single('\\');
        lemma_single('|');
    } else {
        lemma_single(v[0]);
    }
}

/// A value whose cell text reads back as itself: no carriage return and no
/// `<br>`.
pub open spec fn decodable(v: Seq<char>) -> bool {
    !v.contains('\r') && !has_br(v)
}

proof fn lemma_decodable_tail(v: Seq<char>)
    requires
        v.len() > 0,
        decodable(v),
    ensures
        decodable(v.skip(1)),
{
    assert(!v.skip(1).contains('\r')) by {
        if v.skip(1).contains('\r') {
            let k = choose|k: int| 0 <= k < v.skip(1).len() && v.skip(1)[k] == '\r';
            assert(v[k + 1] == '\r');
        }
    }
    assert(!has_br(v.skip(1))) by {
        if has_br(v.skip(1)) {
            let k = choose|k: int| 0 <= k && k + 4 <= v.skip(1).len() && #[trigger] v.skip(1).subrange(k, k + 4) == br();
            let k1 = k + 1;
            assert(v.subrange(k1, k1 + 4) =~= v.skip(1).subrange(k, k + 4));
            assert(has_br(v));
        }
    }
}

/// Characters that the cell splitter takes as they are.
pub open spec fn plain(p: Seq<char>) -> bool {
    forall|k: int| 0 <= k < p.len() ==> p[k] != '|' && p[k] != '\\'
}

proof fn lemma_split_plain(p: Seq<char>, rest: Seq<char>, cur: Seq<char>, acc: Seq<Seq<char>>)
    requires
        plain(p),
    ensures
        split_cells(p + rest, cur, acc) == split_cells(rest, cur + p, acc),
    decreases p.len(),
{
    if p.len() == 0 {
        assert(p + rest =~= rest);
        assert(cur + p =~= cur);
    } else {
        let x = p + rest;
        assert(x[0] == p[0]);
        assert(x.skip(1) =~= p.skip(1) + rest);
        assert(plain(p.skip(1)));
        lemma_split_plain(p.skip(1), rest, cur.push(p[0]), acc);
        assert(cur.push(p[0]) + p.skip(1) =~= cur + p);
    }
}

proof fn lemma_encoded_head(v: Seq<char>)
    requires
        v.len() > 0,
    ensures
        breaks_to_br(escape_pipes(v)).len() > 0,
        breaks_to_br(escape_pipes(v))[0] != '|',
{
    lemma_encode_front(v);
    let e = enc(v[0]);
    assert(e.len() > 0);
    assert((e + breaks_to_br(escape_pipes(v.skip(1))))[0] == e[0]);
}

proof fn lemma_encoded_empty(v: Seq<char>)
    requires
        v.len() == 0,
    ensures
        breaks_to_br(escape_pipes(v)) == Seq::<char>::empty(),
        breaks_to_br(v) == Seq::<char>::empty(),
{
}

/// The splitter reads the cell text of a value back as the value with its
/// line breaks still written `<br>`.
proof fn lemma_split_encoded(v: Seq<char>, rest: Seq<char>, cur: Seq<char>, acc: Seq<Seq<char>>)
    requires
        !v.contains('\r'),
        rest.len() > 0,
        rest[0] != '|',
    ensures
        split_cells(breaks_to_br(escape_pipes(v)) + rest, cur, acc) == split_cells(rest, cur + breaks_to_br(v), acc),
    decreases v.len(),
{
    if v.len() == 0 {
        lemma_encoded_empty(v);
        assert(Seq::<char>::empty() + rest =~= rest);
        assert(cur + Seq::<char>::empty() =~= cur);
    } else {
        let c = v[0];
        let vt = v.skip(1);
        assert(!vt.contains('\r')) by {
            if vt.contains('\r') {
                let k = choose|k: int| 0 <= k < vt.len() && vt[k] == '\r';
                assert(v[k + 1] == '\r');
            }
        }
        lemma_encode_front(v);
        lemma_single(c);
        let e2 = breaks_to_br(escape_pipes(vt));
        let tail = e2 + rest;
        assert(tail.len() > 0 && tail[0] != '|') by {
            if vt.len() > 0 {
                lemma_encoded_head(vt);
                assert(tail[0] == e2[0]);
            } else {
                lemma_encoded_empty(vt);
                assert(tail =~= rest);
            }
        }
        assert(breaks_to_br(escape_pipes(v)) + rest =~= enc(c) + tail);
        if c == '|' {
            let x = enc(c) + tail;
            assert(x[0] == '\\' && x[1] == '|');
            assert(x.skip(2) =~= tail);
            lemma_split_encoded(vt, rest, cur.push('|'), acc);
            assert(cur.push('|') + breaks_to_br(vt) =~= cur + (seq!['|'] + breaks_to_br(vt)));
        } else if c == '\n' {
            assert(plain(br()));
            lemma_split_plain(br(), tail, cur, acc);
            lemma_split_encoded(vt, rest, cur + br(), acc);
            assert(cur + br() + breaks_to_br(vt) =~= cur + (br() + breaks_to_br(vt)));
        } else {
            let x = enc(c) + tail;
            assert(x[0] == c);
            assert(x.skip(1) =~= tail);
            if c == '\\' {
                assert(x[1] == tail[0]);
            }
            lemma_split_encoded(vt, rest, cur.push(c), acc);
            assert(cur.push(c) + breaks_to_br(vt) =~= cur + (seq![c] + breaks_to_br(vt)));
        }
    }
}


/// `B(t)` read from the front: a character that is not a line break stays,
/// a line break becomes `<br>`.
proof fn lemma_breaks_front(t: Seq<char>)
    requires
        t.len() > 0,
    ensures
        (t[0] == '\n' || t[0] == '\r') ==> breaks_to_br(t) == br() + breaks_to_br(t.skip(1)),
        !(t[0] == '\n' || t[0] == '\r') ==> breaks_to_br(t) == seq![t[0]] + breaks_to_br(t.skip(1)),
{
    lemma_encode_front(t);
    lemma_single(t[0]);
}

proof fn lemma_breaks_head(t: Seq<char>)
    requires
        breaks_to_br(t).len() > 0,
        breaks_to_br(t)[0] != '<',
    ensures
        t.len() > 0,
        t[0] == breaks_to_br(t)[0],
        breaks_to_br(t).skip(1) == breaks_to_br(t.skip(1)),
{
    if t.len() == 0 {
        lemma_encoded_empty(t);
    }
    lemma_breaks_front(t);
    if t[0] == '\n' || t[0] == '\r' {
        assert((br() + breaks_to_br(t.skip(1)))[0] == '<');
    } else {
        assert((seq![t[0]] + breaks_to_br(t.skip(1))).skip(1) =~= breaks_to_br(t.skip(1)));
    }
}

/// Reading `<br>` back as a line feed undoes writing line feeds as `<br>`.
proof fn lemma_decode(v: Seq<char>)
    requires
        decodable(v),
    ensures
        br_to_newline(breaks_to_br(v)) == v,
    decreases v.len(),
{
    if v.len() == 0 {
        lemma_encoded_empty(v);
    } else {
        let tail = v.skip(1);
        lemma_decodable_tail(v);
        lemma_decode(tail);
        lemma_breaks_front(v);
        assert(v[0] != '\r') by {
            assert(v.contains(v[0]));
        }
        let x = breaks_to_br(v);
        if v[0] == '\n' {
            assert(x.take(4) =~= br());
            assert(x.skip(4) =~= breaks_to_br(tail));
            assert(v =~= seq!['\n'] + tail);
        } else {
            assert(x.skip(1) =~= breaks_to_br(tail));
            if x.len() >= 4 && x.take(4) == br() {
                let b1 = breaks_to_br(tail);
                assert(x[1] == b1[0]);
                lemma_breaks_head(tail);
                let t1 = tail.skip(1);
                let b2 = breaks_to_br(t1);
                assert(b1.skip(1) == b2);
                assert(x[2] == b2[0]);
                lemma_breaks_head(t1);
                let t2 = t1.skip(1);
                let b3 = breaks_to_br(t2);
                assert(x[3] == b3[0]);
                lemma_breaks_head(t2);
                assert(v.subrange(0int, 0int + 4) =~= br());
                assert(has_br(v));
            }
            assert(v =~= seq![v[0]] + tail);
        }
    }
}


// ---------------------------------------------------------------------------
// Trimming
// ---------------------------------------------------------------------------

proof fn lemma_trim_start_len(s: Seq<char>)
    ensures
        trim_start_ws(s).len() <= s.len(),
    decreases s.len(),
{
    if s.len() > 0 && is_ws(s[0]) {
        lemma_trim_start_len(s.skip(1));
    }
}

proof fn lemma_trim_end_len(s: Seq<char>)
    ensures
        trim_end_ws(s).len() <= s.len(),
    decreases s.len(),
{
    if s.len() > 0 && is_ws(s.last()) {
        lemma_trim_end_len(s.drop_last());
    }
}

/// A trimmed value neither starts nor ends with whitespace.
proof fn lemma_trimmed_ends(v: Seq<char>)
    requires
        trim_ws(v) == v,
        v.len() > 0,
    ensures
        !is_ws(v[0]),
        !is_ws(v.last()),
{
    if is_ws(v[0]) {
        lemma_trim_start_len(v.skip(1));
        lemma_trim_end_len(trim_start_ws(v));
    } else {
        if is_ws(v.last()) {
            assert(trim_start_ws(v) == v);
            lemma_trim_end_len(v.drop_last());
        }
    }
}

proof fn lemma_trim_start_spaces(k: nat, x: Seq<char>)
    ensures
        trim_start_ws(spaces(k) + x) == trim_start_ws(x),
    decreases k,
{
    if k > 0 {
        let s = spaces(k) + x;
        assert(s[0] == ' ');
        assert(is_ws(' '));
        assert(s.skip(1) =~= spaces((k - 1) as nat) + x);
        lemma_trim_start_spaces((k - 1) as nat, x);
    } else {
        assert(spaces(k) + x =~= x);
    }
}

proof fn lemma_trim_end_spaces(x: Seq<char>, k: nat)
    ensures
        trim_end_ws(x + spaces(k)) == trim_end_ws(x),
    decreases k,
{
    if k > 0 {
        let s = x + spaces(k);
        assert(s.last() == ' ');
        assert(is_ws(' '));
        assert(s.drop_last() =~= x + spaces((k - 1) as nat));
        lemma_trim_end_spaces(x, (k - 1) as nat);
    } else {
        assert(x + spaces(k) =~= x);
    }
}

/// Trimming a cell `" " + b + padding` gives `b`, when `b` is empty or
/// neither starts nor ends with whitespace.
proof fn lemma_trim_cell(b: Seq<char>, q: nat)
    requires
        b.len() > 0 ==> !is_ws(b[0]) && !is_ws(b.last()),
    ensures
        trim_ws(spaces(1) + b + spaces(q)) == b,
{
    assert(spaces(1) + b + spaces(q) =~= spaces(1) + (b + spaces(q)));
    lemma_trim_start_spaces(1, b + spaces(q));
    if b.len() > 0 {
        assert((b + spaces(q))[0] == b[0]);
        assert(trim_start_ws(b + spaces(q)) == b + spaces(q));
        lemma_trim_end_spaces(b, q);
        assert(trim_end_ws(b) == b);
    } else {
        assert(b + spaces(q) =~= spaces(q) + b);
        lemma_trim_start_spaces(q, b);
        assert(trim_start_ws(b) == b);
        assert(trim_end_ws(b) == b);
    }
}

/// A line that starts and ends with a non-space is its own trim.
proof fn lemma_trim_fixed(s: Seq<char>)
    requires
        s.len() > 0,
        !is_ws(s[0]),
        !is_ws(s.last()),
    ensures
        trim_ws(s) == s,
{
    assert(trim_start_ws(s) == s);
    assert(trim_end_ws(s) == s);
}

// ---------------------------------------------------------------------------
// Line feeds
// ---------------------------------------------------------------------------

/// `s` holds no line feed.
pub open spec fn no_nl(s: Seq<char>) -> bool {
    forall|k: int| 0 <= k < s.len() ==> s[k] != '\n'
}

proof fn lemma_no_nl_concat(a: Seq<char>, b: Seq<char>)
    requires
        no_nl(a),
        no_nl(b),
    ensures
        no_nl(a + b),
{
    assert forall|k: int| 0 <= k < (a + b).len() implies (a + b)[k] != '\n' by {
        if k < a.len() {
            assert((a + b)[k] == a[k]);
        } else {
            assert((a + b)[k] == b[k - a.len()]);
        }
    }
}

proof fn lemma_breaks_no_nl(x: Seq<char>)
    ensures
        no_nl(breaks_to_br(x)),
    decreases x.len(),
{
    if x.len() > 0 {
        lemma_breaks_no_nl(x.drop_last());
        let piece = if x.last() == '\n' || x.last() == '\r' { br() } else { seq![x.last()] };
        assert(no_nl(piece));
        lemma_no_nl_concat(breaks_to_br(x.drop_last()), piece);
    }
}

proof fn lemma_escape_no_cr(v: Seq<char>)
    requires
        !v.contains('\r'),
    ensures
        !escape_pipes(v).contains('\r'),
    decreases v.len(),
{
    if v.len() > 0 {
        assert(!v.drop_last().contains('\r')) by {
            if v.drop_last().contains('\r') {
                let k = choose|k: int| 0 <= k < v.drop_last().len() && v.drop_last()[k] == '\r';
                assert(v[k] == '\r');
            }
        }
        lemma_escape_no_cr(v.drop_last());
        assert(v.contains(v.last()));
        let a = escape_pipes(v.drop_last());
        let piece = if v.last() == '|' { seq!['\\', '|'] } else { seq![v.last()] };
        if (a + piece).contains('\r') {
            let k = choose|k: int| 0 <= k < (a + piece).len() && (a + piece)[k] == '\r';
            if k < a.len() {
                assert(a[k] == '\r');
                assert(a.contains('\r'));
            } else {
                assert(piece[k - a.len()] == '\r');
            }
        }
    }
}

/// Without carriage returns, the markdown text of a value is its pipes
/// escaped and its line feeds written `<br>`.
proof fn lemma_escaped_form(v: Seq<char>)
    requires
        !v.contains('\r'),
    ensures
        md_escaped(v) == breaks_to_br(escape_pipes(v)),
{
    lemma_escape_no_cr(v);
    lemma_crlf_identity(escape_pipes(v));
}


// ---------------------------------------------------------------------------
// One table line
// ---------------------------------------------------------------------------

/// The spaces that pad cell text `c` to a column `w` wide.
pub open spec fn pad_of(c: Seq<char>, w: nat) -> Seq<char> {
    if w > c.len() { spaces((w - c.len()) as nat) } else { Seq::<char>::empty() }
}

/// One cell of a table line as written: a space, the cell text, its
/// padding, and ` |`.
pub open spec fn seg(c: Seq<char>, w: nat) -> Seq<char> {
    seq![' '] + c + pad_of(c, w) + seq![' ', '|']
}

/// The cells of a line as written, one piece per cell.
pub open spec fn segs(cells: Seq<Seq<char>>, w: Seq<nat>) -> Seq<Seq<char>> {
    Seq::new(cells.len(), |j: int| seg(cells[j], w[j]))
}

/// The pieces joined, front to back.
pub open spec fn concat(ss: Seq<Seq<char>>) -> Seq<char>
    decreases ss.len(),
{
    if ss.len() == 0 { seq![] } else { ss[0] + concat(ss.skip(1)) }
}

/// What the splitter reads for a cell of value `v` written as `c`: the
/// value with its line feeds as `<br>`, between the spaces around it.
pub open spec fn raw_of(v: Seq<char>, c: Seq<char>, w: nat) -> Seq<char> {
    seq![' '] + breaks_to_br(v) + pad_of(c, w) + seq![' ']
}

proof fn lemma_concat_snoc(ss: Seq<Seq<char>>)
    requires
        ss.len() > 0,
    ensures
        concat(ss) == concat(ss.drop_last()) + ss.last(),
    decreases ss.len(),
{
    if ss.len() == 1 {
        assert(ss.skip(1) =~= Seq::<Seq<char>>::empty());
        assert(ss.drop_last() =~= Seq::<Seq<char>>::empty());
        assert(concat(ss.skip(1)) =~= Seq::<char>::empty());
        assert(concat(ss) =~= ss[0]);
        assert(concat(ss.drop_last()) =~= Seq::<char>::empty());
        assert(concat(ss.drop_last()) + ss.last() =~= ss.last());
    } else {
        let t = ss.skip(1);
        lemma_concat_snoc(t);
        assert(t.drop_last() =~= ss.drop_last().skip(1));
        assert(ss.drop_last()[0] == ss[0]);
        assert(t.last() == ss.last());
        assert(concat(ss) =~= ss[0] + (concat(t.drop_last()) + t.last()));
        assert(concat(ss.drop_last()) =~= ss[0] + concat(ss.drop_last().skip(1)));
    }
}

proof fn lemma_row_text(cells: Seq<Seq<char>>, w: Seq<nat>)
    ensures
        md_row_text(cells, w) == seq!['|'] + concat(segs(cells, w)),
    decreases cells.len(),
{
    if cells.len() == 0 {
        assert(seq!['|'] + concat(segs(cells, w)) =~= seq!['|']);
    } else {
        let k = cells.len() - 1;
        lemma_row_text(cells.drop_last(), w);
        let ss = segs(cells, w);
        assert(ss.drop_last() =~= segs(cells.drop_last(), w));
        lemma_concat_snoc(ss);
        assert(ss.last() == seg(cells[k], w[k]));
        assert(md_row_text(cells, w) =~= seq!['|'] + (concat(ss.drop_last()) + ss.last()));
    }
}

proof fn lemma_seg_facts(c: Seq<char>, w: nat)
    ensures
        seg(c, w).len() >= 3,
        seg(c, w).last() == '|',
        no_nl(c) ==> no_nl(seg(c, w)),
{
    if no_nl(c) {
        lemma_no_nl_concat(seq![' '], c);
        lemma_no_nl_concat(seq![' '] + c, pad_of(c, w));
        lemma_no_nl_concat(seq![' '] + c + pad_of(c, w), seq![' ', '|']);
    }
}

proof fn lemma_concat_no_nl(ss: Seq<Seq<char>>)
    requires
        forall|k: int| 0 <= k < ss.len() ==> no_nl(#[trigger] ss[k]),
    ensures
        no_nl(concat(ss)),
    decreases ss.len(),
{
    if ss.len() > 0 {
        let t = ss.skip(1);
        assert forall|k: int| 0 <= k < t.len() implies no_nl(#[trigger] t[k]) by {
            assert(t[k] == ss[k + 1]);
        }
        lemma_concat_no_nl(t);
        lemma_no_nl_concat(ss[0], concat(t));
    }
}

/// The splitter reads one written cell (and the pipe after it) as its raw
/// cell.
proof fn lemma_split_seg(v: Seq<char>, w: nat, rest: Seq<char>, acc: Seq<Seq<char>>)
    requires
        !v.contains('\r'),
    ensures
        split_cells(seg(breaks_to_br(escape_pipes(v)), w) + rest, Seq::<char>::empty(), acc)
            == split_cells(rest, Seq::<char>::empty(), acc.push(raw_of(v, breaks_to_br(escape_pipes(v)), w))),
        split_cells(seg(breaks_to_br(escape_pipes(v)), w).drop_last(), Seq::<char>::empty(), acc)
            == acc.push(raw_of(v, breaks_to_br(escape_pipes(v)), w)),
{
    let e = breaks_to_br(escape_pipes(v));
    let p = pad_of(e, w) + seq![' '];
    let b = breaks_to_br(v);
    let cur0 = Seq::<char>::empty();
    assert(plain(p));
    assert(plain(seq![' ']));
    let raw = raw_of(v, e, w);
    assert(seq![' '] + b + p =~= raw);
    // the cell followed by its pipe
    let r1 = p + (seq!['|'] + rest);
    assert(r1[0] == ' ');
    assert(seg(e, w) + rest =~= seq![' '] + (e + r1));
    lemma_split_plain(seq![' '], e + r1, cur0, acc);
    assert(cur0 + seq![' '] =~= seq![' ']);
    lemma_split_encoded(v, r1, seq![' '], acc);
    lemma_split_plain(p, seq!['|'] + rest, seq![' '] + b, acc);
    let s1 = seq!['|'] + rest;
    assert(s1[0] == '|');
    assert(s1.skip(1) =~= rest);
    // the last cell, without its pipe
    let r2 = p;
    assert(r2[0] == ' ');
    assert(seg(e, w).drop_last() =~= seq![' '] + (e + r2));
    lemma_split_plain(seq![' '], e + r2, cur0, acc);
    lemma_split_encoded(v, r2, seq![' '], acc);
    assert(r2 =~= r2 + Seq::<char>::empty());
    lemma_split_plain(r2, Seq::<char>::empty(), seq![' '] + b, acc);
}

/// The splitter reads the written cells from the `j`-th on (the final pipe
/// left off) as their raw cells.
proof fn lemma_split_segs(vs: Seq<Seq<char>>, cells: Seq<Seq<char>>, w: Seq<nat>, j: int, acc: Seq<Seq<char>>)
    requires
        0 <= j < vs.len(),
        cells.len() == vs.len(),
        w.len() >= vs.len(),
        forall|k: int| 0 <= k < vs.len() ==> #[trigger] cells[k] == breaks_to_br(escape_pipes(vs[k])),
        forall|k: int| 0 <= k < vs.len() ==> !(#[trigger] vs[k]).contains('\r'),
    ensures
        split_cells(concat(segs(cells, w).skip(j)).drop_last(), Seq::<char>::empty(), acc)
            == acc + Seq::new(vs.len(), |k: int| raw_of(vs[k], cells[k], w[k])).skip(j),
    decreases vs.len() - j,
{
    let n = vs.len() as int;
    let ss = segs(cells, w);
    let raws = Seq::new(vs.len(), |k: int| raw_of(vs[k], cells[k], w[k]));
    let sj = ss.skip(j);
    assert(sj[0] == ss[j]);
    assert(sj.skip(1) =~= ss.skip(j + 1));
    assert(concat(sj) == ss[j] + concat(ss.skip(j + 1)));
    assert(cells[j] == breaks_to_br(escape_pipes(vs[j])));
    assert(!vs[j].contains('\r'));
    let raw = raw_of(vs[j], cells[j], w[j]);
    if j == n - 1 {
        assert(ss.skip(j + 1) =~= Seq::<Seq<char>>::empty());
        assert(concat(sj) =~= ss[j]);
        lemma_split_seg(vs[j], w[j], Seq::<char>::empty(), acc);
        assert(acc.push(raw) =~= acc + raws.skip(j));
    } else {
        let c1 = concat(ss.skip(j + 1));
        let s1 = ss.skip(j + 1);
        assert(s1[0] == ss[j + 1]);
        assert(c1 == s1[0] + concat(s1.skip(1)));
        lemma_seg_facts(cells[j + 1], w[j + 1]);
        assert(c1.len() > 0);
        assert((ss[j] + c1).drop_last() =~= ss[j] + c1.drop_last());
        lemma_split_seg(vs[j], w[j], c1.drop_last(), acc);
        lemma_split_segs(vs, cells, w, j + 1, acc.push(raw));
        assert(acc.push(raw) + raws.skip(j + 1) =~= acc + raws.skip(j));
    }
}


/// The first and last characters of a trimmed value survive writing its
/// line feeds as `<br>`.
proof fn lemma_breaks_ends(v: Seq<char>)
    requires
        md_safe(v),
    ensures
        breaks_to_br(v).len() > 0 ==> !is_ws(breaks_to_br(v)[0]) && !is_ws(breaks_to_br(v).last()),
{
    if v.len() == 0 {
        lemma_encoded_empty(v);
    } else {
        lemma_trimmed_ends(v);
        assert(is_ws('\n') && is_ws('\r'));
        lemma_breaks_front(v);
        assert((seq![v[0]] + breaks_to_br(v.skip(1)))[0] == v[0]);
        assert(breaks_to_br(v).last() == v.last());
    }
}

/// A table line written from values that a pipe table carries reads back
/// as those values; the line is one line, starts with `|` and is its own
/// trim.
proof fn lemma_row_cells(vs: Seq<Seq<char>>, w: Seq<nat>)
    requires
        vs.len() > 0,
        w.len() == vs.len(),
        forall|k: int| 0 <= k < vs.len() ==> md_safe(#[trigger] vs[k]),
    ensures
        md_row_cells(md_row_text(Seq::new(vs.len(), |k: int| md_escaped(vs[k])), w)) == vs,
        no_nl(md_row_text(Seq::new(vs.len(), |k: int| md_escaped(vs[k])), w)),
        md_row_text(Seq::new(vs.len(), |k: int| md_escaped(vs[k])), w).len() > 0,
        md_row_text(Seq::new(vs.len(), |k: int| md_escaped(vs[k])), w)[0] == '|',
        trim_ws(md_row_text(Seq::new(vs.len(), |k: int| md_escaped(vs[k])), w))
            == md_row_text(Seq::new(vs.len(), |k: int| md_escaped(vs[k])), w),
{
    let n = vs.len();
    let cells = Seq::new(n, |k: int| md_escaped(vs[k]));
    assert forall|k: int| 0 <= k < n implies #[trigger] cells[k] == breaks_to_br(escape_pipes(vs[k])) by {
        assert(md_safe(vs[k]));
        lemma_escaped_form(vs[k]);
    }
    assert forall|k: int| 0 <= k < n implies !(#[trigger] vs[k]).contains('\r') by {
        assert(md_safe(vs[k]));
    }
    let ss = segs(cells, w);
    let line = md_row_text(cells, w);
    lemma_row_text(cells, w);
    let c = concat(ss);
    lemma_concat_snoc(ss);
    lemma_seg_facts(cells[n - 1], w[n - 1]);
    assert(ss.last() == seg(cells[n - 1], w[n - 1]));
    assert(c.len() > 0 && c.last() == '|');
    assert(line[0] == '|');
    assert(line.last() == '|');
    lemma_trim_fixed(line);
    // the line body
    assert(line.skip(1) =~= c);
    assert(strip_outer_pipes(line) == c.drop_last());
    assert(ss.skip(0) =~= ss);
    lemma_split_segs(vs, cells, w, 0, Seq::<Seq<char>>::empty());
    let raws = Seq::new(n, |k: int| raw_of(vs[k], cells[k], w[k]));
    assert(Seq::<Seq<char>>::empty() + raws.skip(0) =~= raws);
    let raw = split_cells(strip_outer_pipes(trim_ws(line)), Seq::<char>::empty(), Seq::<Seq<char>>::empty());
    assert(raw == raws);
    assert forall|k: int| 0 <= k < n implies br_to_newline(trim_ws(#[trigger] raws[k])) == vs[k] by {
        let v = vs[k];
        assert(md_safe(v));
        let p = pad_of(cells[k], w[k]);
        let q: nat = p.len() + 1;
        assert(raws[k] =~= spaces(1) + breaks_to_br(v) + spaces(q));
        lemma_breaks_ends(v);
        lemma_trim_cell(breaks_to_br(v), q);
        lemma_decode(v);
    }
    assert(md_row_cells(line) =~= vs);
    // one line
    assert forall|k: int| 0 <= k < n implies no_nl(#[trigger] ss[k]) by {
        lemma_breaks_no_nl(escape_pipes(vs[k]));
        lemma_seg_facts(cells[k], w[k]);
    }
    lemma_concat_no_nl(ss);
    lemma_no_nl_concat(seq!['|'], c);
}


// ---------------------------------------------------------------------------
// The separator line
// ---------------------------------------------------------------------------

proof fn lemma_dashes_fixed(m: nat)
    ensures
        escape_pipes(dashes(m)) == dashes(m),
        breaks_to_br(dashes(m)) == dashes(m),
        !dashes(m).contains('\r'),
    decreases m,
{
    if m > 0 {
        let d = dashes(m);
        assert(d.drop_last() =~= dashes((m - 1) as nat));
        lemma_dashes_fixed((m - 1) as nat);
        assert(d.last() == '-');
        assert(d =~= dashes((m - 1) as nat) + seq!['-']);
    } else {
        assert(dashes(m) =~= Seq::<char>::empty());
    }
}

proof fn lemma_dashes_cell(m: nat)
    requires
        m > 0,
    ensures
        md_escaped(dashes(m)) == dashes(m),
        md_safe(dashes(m)),
        is_dash_cell(dashes(m)),
{
    let d = dashes(m);
    lemma_dashes_fixed(m);
    lemma_escaped_form(d);
    assert(!is_ws('-'));
    assert(d[0] == '-' && d.last() == '-');
    lemma_trim_fixed(d);
    assert(!has_br(d)) by {
        if has_br(d) {
            let k = choose|k: int| 0 <= k && k + 4 <= d.len() && #[trigger] d.subrange(k, k + 4) == br();
            assert(d.subrange(k, k + 4)[0] == d[k]);
        }
    }
    assert(!is_sep_pad('-'));
    assert(trim_sep_start(d) == d);
    assert(trim_sep_end(d) == d);
}

proof fn lemma_separator_text(w: Seq<nat>, m: nat)
    requires
        m <= w.len(),
    ensures
        md_separator(w.take(m as int)) == md_row_text(Seq::new(m, |k: int| dashes(w[k])), w),
    decreases m,
{
    let dc = Seq::new(m, |k: int| dashes(w[k]));
    if m == 0 {
        assert(w.take(0) =~= Seq::<nat>::empty());
    } else {
        lemma_separator_text(w, (m - 1) as nat);
        assert(w.take(m as int).drop_last() =~= w.take(m - 1));
        assert(dc.drop_last() =~= Seq::new((m - 1) as nat, |k: int| dashes(w[k])));
        assert(w.take(m as int).last() == w[m - 1]);
        assert(dc[m - 1].len() == w[m - 1]);
    }
}

/// The separator line reads back as a separator row; it is one line,
/// starts with `|` and is its own trim.
proof fn lemma_separator(w: Seq<nat>)
    requires
        w.len() > 0,
        forall|k: int| 0 <= k < w.len() ==> #[trigger] w[k] > 0,
    ensures
        is_separator_row(md_row_cells(md_separator(w))),
        no_nl(md_separator(w)),
        md_separator(w).len() > 0,
        md_separator(w)[0] == '|',
        trim_ws(md_separator(w)) == md_separator(w),
{
    let n = w.len();
    let dc = Seq::new(n, |k: int| dashes(w[k]));
    lemma_separator_text(w, n);
    assert(w.take(n as int) =~= w);
    assert forall|k: int| 0 <= k < n implies md_safe(#[trigger] dc[k]) by {
        lemma_dashes_cell(w[k]);
    }
    assert(Seq::new(dc.len(), |k: int| md_escaped(dc[k])) =~= dc) by {
        assert forall|k: int| 0 <= k < n implies md_escaped(dc[k]) == dc[k] by {
            lemma_dashes_cell(w[k]);
        }
    }
    lemma_row_cells(dc, w);
    assert forall|k: int| 0 <= k < n implies is_dash_cell(#[trigger] dc[k]) by {
        lemma_dashes_cell(w[k]);
    }
}

// ---------------------------------------------------------------------------
// Lines of text
// ---------------------------------------------------------------------------

proof fn lemma_split_lines_len(s: Seq<char>)
    ensures
        split_lines(s).len() >= 1,
    decreases s.len(),
{
    if s.len() > 0 {
        lemma_split_lines_len(s.drop_last());
    }
}

proof fn lemma_split_lines_extend(s: Seq<char>, line: Seq<char>)
    requires
        no_nl(line),
    ensures
        split_lines(s + line) == split_lines(s).update(split_lines(s).len() - 1, split_lines(s).last() + line),
    decreases line.len(),
{
    let p0 = split_lines(s);
    lemma_split_lines_len(s);
    if line.len() == 0 {
        assert(s + line =~= s);
        assert(p0.last() + line =~= p0.last());
        assert(p0.update(p0.len() - 1, p0.last()) =~= p0);
    } else {
        let x = s + line;
        assert(x.drop_last() =~= s + line.drop_last());
        assert(x.last() == line.last());
        assert(line.last() != '\n');
        lemma_split_lines_extend(s, line.drop_last());
        let p = split_lines(x.drop_last());
        assert(p.len() == p0.len());
        assert(p.last() == p0.last() + line.drop_last());
        assert(p0.last() + line.drop_last() + seq![line.last()] =~= p0.last() + line);
        assert(p.last().push(x.last()) =~= p0.last() + line);
        assert forall|i: int| 0 <= i < p.len() - 1 implies p[i] == p0[i] by {}
        assert(p.update(p.len() - 1, p.last().push(x.last())) =~= p0.update(p0.len() - 1, p0.last() + line));
    }
}

/// Appending a line and its line feed to text that ends a line adds that
/// line.
proof fn lemma_split_line(s: Seq<char>, line: Seq<char>)
    requires
        no_nl(line),
        split_lines(s).last() == Seq::<char>::empty(),
    ensures
        split_lines(s + line + seq!['\n']) == split_lines(s).drop_last().push(line).push(Seq::<char>::empty()),
{
    let p0 = split_lines(s);
    lemma_split_lines_len(s);
    lemma_split_lines_extend(s, line);
    assert(Seq::<char>::empty() + line =~= line);
    assert(p0.update(p0.len() - 1, p0.last() + line) =~= p0.drop_last().push(line));
    let x = s + line + seq!['\n'];
    assert(x.drop_last() =~= s + line);
    assert(x.last() == '\n');
}


// ---------------------------------------------------------------------------
// The whole table
// ---------------------------------------------------------------------------

/// The cell texts of a table of values, `n` to a row.
pub open spec fn table_cells(vals: Seq<Seq<Seq<char>>>, n: nat) -> Seq<Seq<Seq<char>>> {
    Seq::new(vals.len(), |i: int| Seq::new(n, |k: int| md_escaped(vals[i][k])))
}

/// Values that a pipe table carries row by row: `n` to a row, each one
/// carried unchanged, and no row that reads as a separator row.
pub open spec fn md_table_safe(vals: Seq<Seq<Seq<char>>>, n: nat) -> bool {
    &&& forall|i: int| 0 <= i < vals.len() ==> (#[trigger] vals[i]).len() == n
    &&& forall|i: int, k: int| 0 <= i < vals.len() && 0 <= k < n ==> md_safe(#[trigger] vals[i][k])
    &&& forall|i: int| 0 <= i < vals.len() ==> !is_separator_row(#[trigger] vals[i])
}

proof fn lemma_row_of_table(vals: Seq<Seq<Seq<char>>>, n: nat, w: Seq<nat>, i: int)
    requires
        md_table_safe(vals, n),
        n > 0,
        w.len() == n,
        0 <= i < vals.len(),
    ensures
        md_row_cells(md_row_text(table_cells(vals, n)[i], w)) == vals[i],
        no_nl(md_row_text(table_cells(vals, n)[i], w)),
        md_row_text(table_cells(vals, n)[i], w).len() > 0,
        md_row_text(table_cells(vals, n)[i], w)[0] == '|',
        trim_ws(md_row_text(table_cells(vals, n)[i], w)) == md_row_text(table_cells(vals, n)[i], w),
{
    let v = vals[i];
    assert(v.len() == n);
    assert forall|k: int| 0 <= k < v.len() implies md_safe(#[trigger] v[k]) by {
        assert(md_safe(vals[i][k]));
    }
    assert(table_cells(vals, n)[i] =~= Seq::new(v.len(), |k: int| md_escaped(v[k])));
    lemma_row_cells(v, w);
}

proof fn lemma_table(vals: Seq<Seq<Seq<char>>>, n: nat, w: Seq<nat>)
    requires
        vals.len() > 0,
        n > 0,
        md_table_safe(vals, n),
        w.len() == n,
        forall|k: int| 0 <= k < n ==> #[trigger] w[k] > 0,
    ensures
        split_lines(md_lines(table_cells(vals, n), w)).last() == Seq::<char>::empty(),
        md_table_rows(split_lines(md_lines(table_cells(vals, n), w)).drop_last()) == vals,
    decreases vals.len(),
{
    let m = vals.len();
    let cells = table_cells(vals, n);
    let e = Seq::<char>::empty();
    if m == 1 {
        let r0 = md_row_text(cells[0], w);
        let sep = md_separator(w);
        lemma_row_of_table(vals, n, w, 0);
        lemma_separator(w);
        assert(split_lines(e) == seq![e]);
        lemma_split_line(e, r0);
        assert(e + r0 + seq!['\n'] =~= r0 + seq!['\n']);
        assert(seq![e].drop_last().push(r0).push(e) =~= seq![r0, e]);
        lemma_split_line(r0 + seq!['\n'], sep);
        assert(seq![r0, e].drop_last().push(sep).push(e) =~= seq![r0, sep, e]);
        let s2 = seq![r0, sep];
        assert(seq![r0, sep, e].drop_last() =~= s2);
        assert(sep.contains('|')) by { assert(sep[0] == '|'); }
        assert(r0.contains('|')) by { assert(r0[0] == '|'); }
        assert(s2.drop_last() =~= seq![r0]);
        assert(seq![r0].drop_last() =~= Seq::<Seq<char>>::empty());
        assert(seq![r0].last() == r0);
        assert(!is_separator_row(vals[0]));
        assert(md_table_rows(Seq::<Seq<char>>::empty()) == Seq::<Seq<Seq<char>>>::empty());
        assert(md_table_rows(seq![r0]) =~= seq![vals[0]]);
        assert(md_table_rows(s2) == md_table_rows(seq![r0]));
        assert(seq![vals[0]] =~= vals);
    } else {
        let vp = vals.drop_last();
        assert(md_table_safe(vp, n)) by {
            assert forall|i: int| 0 <= i < vp.len() implies (#[trigger] vp[i]).len() == n by {
                assert(vp[i] == vals[i]);
            }
            assert forall|i: int, k: int| 0 <= i < vp.len() && 0 <= k < n implies md_safe(#[trigger] vp[i][k]) by {
                assert(vp[i] == vals[i]);
                assert(md_safe(vals[i][k]));
            }
            assert forall|i: int| 0 <= i < vp.len() implies !is_separator_row(#[trigger] vp[i]) by {
                assert(vp[i] == vals[i]);
            }
        }
        lemma_table(vp, n, w);
        assert(cells.drop_last() =~= table_cells(vp, n));
        let prev = md_lines(table_cells(vp, n), w);
        let r = md_row_text(cells.last(), w);
        lemma_row_of_table(vals, n, w, m - 1);
        assert(cells.last() == cells[m - 1]);
        assert(md_lines(cells, w) == prev + r + seq!['\n']);
        lemma_split_line(prev, r);
        let s0 = split_lines(prev);
        let lines = s0.drop_last().push(r);
        assert(s0.drop_last().push(r).push(e).drop_last() =~= lines);
        assert(lines.drop_last() =~= s0.drop_last());
        assert(lines.last() == r);
        assert(r.contains('|')) by { assert(r[0] == '|'); }
        assert(!is_separator_row(vals[m - 1]));
        assert(md_table_rows(lines) == vp.push(vals[m - 1]));
        assert(vp.push(vals[m - 1]) =~= vals);
    }
}

/// The markdown round trip of a text whose rows are `rows`.
proof fn lemma_markdown_core(text: Seq<char>, rows: Seq<Seq<Seq<char>>>, n: nat)
    requires
        csv_rows(text) == rows,
        rows.len() > 0 ==> n > 0,
        forall|i: int| 0 <= i < rows.len() ==> (#[trigger] rows[i]).len() == n,
        forall|i: int, j: int| 0 <= i < rows.len() && 0 <= j < n
            ==> csv_field(canonical_value(#[trigger] rows[i][j])) == rows[i][j],
        md_table_safe(Seq::new(rows.len(), |i: int| Seq::new(n, |j: int| canonical_value(rows[i][j]))), n),
    ensures
        csv_of_markdown(markdown_of(text)) == lines_of(rows),
{
    let e = Seq::<char>::empty();
    if rows.len() == 0 {
        assert(markdown_of(text) == e);
        assert(split_lines(e) == seq![e]);
        assert(seq![e].drop_last() =~= Seq::<Seq<char>>::empty());
        assert(trim_ws(e) == e);
        assert(seq![e].last() == e);
        assert(md_table_rows(Seq::<Seq<char>>::empty()) == Seq::<Seq<Seq<char>>>::empty());
        assert(md_table_rows(seq![e]) == Seq::<Seq<Seq<char>>>::empty());
        assert(csv_fields(Seq::<Seq<Seq<char>>>::empty()) =~= Seq::<Seq<Seq<char>>>::empty());
    } else {
        let m = rows.len();
        lemma_max_cols_uniform(rows, n);
        let vals = Seq::new(m, |i: int| Seq::new(n, |j: int| canonical_value(rows[i][j])));
        let cells = md_cells(rows);
        assert(cells =~= table_cells(vals, n)) by {
            assert forall|i: int| 0 <= i < m implies #[trigger] cells[i] =~= table_cells(vals, n)[i] by {
                assert(rows[i].len() == n);
            }
        }
        let w = md_widths(cells, n);
        assert forall|k: int| 0 <= k < n implies #[trigger] w[k] > 0 by {}
        lemma_table(vals, n, w);
        let md = markdown_of(text);
        assert(md == md_lines(table_cells(vals, n), w));
        let s = split_lines(md);
        lemma_split_lines_len(md);
        assert(s =~= s.drop_last().push(s.last()));
        assert(md_table_rows(s) == md_table_rows(s.drop_last()));
        assert(csv_fields(vals) =~= rows) by {
            assert forall|i: int| 0 <= i < m implies #[trigger] csv_fields(vals)[i] =~= rows[i] by {
                assert(rows[i].len() == n);
                assert forall|j: int| 0 <= j < n implies csv_fields(vals)[i][j] == rows[i][j] by {
                    assert(csv_field(canonical_value(rows[i][j])) == rows[i][j]);
                }
            }
        }
    }
}

/// Reading back a pipe table written from CSV gives the same CSV text,
/// when the CSV is simple and canonical: every row has the same number of
/// fields, every field is written the way a value is written as CSV (quoted
/// only when it holds a comma, a quote or a line feed), no value has
/// whitespace at either end, a carriage return or a `<br>`, and no row of
/// values reads as a separator row (all dashes).
pub proof fn law_markdown_round_trip(rows: Seq<Seq<Seq<char>>>, n: nat)
    requires
        well_formed(rows, true),
        forall|i: int| 0 <= i < rows.len() ==> (#[trigger] rows[i]).len() == n,
        forall|i: int, j: int| 0 <= i < rows.len() && 0 <= j < n
            ==> csv_field(canonical_value(#[trigger] rows[i][j])) == rows[i][j],
        md_table_safe(Seq::new(rows.len(), |i: int| Seq::new(n, |j: int| canonical_value(rows[i][j]))), n),
    ensures
        csv_of_markdown(markdown_of(lines_of(rows))) == lines_of(rows),
{
    law_parse_reads_back(rows, true);
    if rows.len() > 0 {
        assert(rows[0].len() > 0);
    }
    lemma_markdown_core(lines_of(rows), rows, n);
}

/// The same for CSV text: a text with no carriage return that ends its
/// last row with a line feed (outside quotes), whose rows all have `n`
/// fields, each written the way its value is written as CSV, with values a
/// pipe table carries and no row of dashes, comes back unchanged from a
/// pipe table.
pub proof fn law_markdown_round_trip_text(c: Seq<char>, n: nat)
    requires
        !c.contains('\r'),
        ends_nl(c),
        scan_from(fresh(), c).mode != Mode::Quoted,
        n > 0,
        forall|i: int| 0 <= i < csv_rows(c).len() ==> (#[trigger] csv_rows(c)[i]).len() == n,
        forall|i: int, j: int| 0 <= i < csv_rows(c).len() && 0 <= j < n
            ==> csv_field(canonical_value(#[trigger] csv_rows(c)[i][j])) == csv_rows(c)[i][j],
        md_table_safe(Seq::new(csv_rows(c).len(), |i: int| Seq::new(n, |j: int| canonical_value(csv_rows(c)[i][j]))), n),
    ensures
        csv_of_markdown(markdown_of(c)) == c,
{
    law_rows_write_back(c);
    lemma_markdown_core(c, csv_rows(c), n);
}

} // verus!
