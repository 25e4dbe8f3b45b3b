//! Buffer-level CSV transforms: each takes the whole buffer text and
//! returns the new text.

use vstd::prelude::*;
use crate::text::{
    chars_of, string_of, push_char, push_decimal, decimal, lemma_chars_deep_view, lemma_deep_view_push,
    seq_lt, chars_lt, lemma_seq_lt_irreflexive, lemma_seq_lt_transitive, lemma_seq_lt_total,
};
use crate::csv::{
    csv_rows, emit, ends_nl, max_cols, trim_spaces, trimmed_field, parse_chars, serialize,
    ends_with_newline, copy_row, lemma_table_view, lemma_row_len_le_max_cols, lemma_row_width_bound,
};

verus! {

// ---------------------------------------------------------------------------
// Field values
// ---------------------------------------------------------------------------

/// `s` with every doubled quote `""` read as one quote, left to right.
pub open spec fn collapse_quotes(s: Seq<char>) -> Seq<char>
    decreases s.len(),
{
    if s.len() == 0 {
        seq![]
    } else if s.len() >= 2 && s[0] == '"' && s[1] == '"' {
        seq!['"'] + collapse_quotes(s.skip(2))
    } else {
        seq![s[0]] + collapse_quotes(s.skip(1))
    }
}

/// The value a raw field stands for: trailing padding dropped, then, when
/// what is left is wrapped in quotes, the quotes removed and doubled inner
/// quotes collapsed.
pub open spec fn canonical_value(raw: Seq<char>) -> Seq<char> {
    let t = trim_spaces(raw);
    if t.len() >= 2 && t[0] == '"' && t.last() == '"' {
        collapse_quotes(t.subrange(1, t.len() - 1))
    } else {
        t
    }
}

/// `s` with every quote doubled.
pub open spec fn double_quotes(s: Seq<char>) -> Seq<char>
    decreases s.len(),
{
    if s.len() == 0 {
        seq![]
    } else {
        let c = s.last();
        double_quotes(s.drop_last()) + if c == '"' { seq!['"', '"'] } else { seq![c] }
    }
}

/// `s` in quotes, with its own quotes doubled.
pub open spec fn quoted(s: Seq<char>) -> Seq<char> {
    seq!['"'] + double_quotes(s) + seq!['"']
}

/// Executable form of [`canonical_value`] on characters.
pub fn canonical_chars(raw: &Vec<char>) -> (v: Vec<char>)
    ensures
        v@ == canonical_value(raw@),
{
    let t = trimmed_field(raw);
    let n = t.len();
    if n >= 2 && t[0] == '"' && t[n - 1] == '"' {
        let mut v: Vec<char> = Vec::new();
        let ghost inner = t@.subrange(1, n - 1);
        let mut i: usize = 1;
        assert(inner.skip(0) =~= inner);
        while i < n - 1
            invariant
                n == t.len(),
                n >= 2,
                1 <= i <= n - 1,
                inner == t@.subrange(1, n - 1),
                v@ + collapse_quotes(t@.subrange(i as int, n - 1)) == collapse_quotes(inner),
            decreases n - i,
        {
            let ghost rest = t@.subrange(i as int, n - 1);
            if i + 1 < n - 1 && t[i] == '"' && t[i + 1] == '"' {
                v.push('"');
                assert(rest.skip(2) =~= t@.subrange(i + 2, n - 1));
                i += 2;
            } else {
                v.push(t[i]);
                assert(rest.skip(1) =~= t@.subrange(i + 1, n - 1));
                i += 1;
            }
        }
        assert(t@.subrange(i as int, n - 1) =~= Seq::<char>::empty());
        assert(v@ =~= collapse_quotes(inner));
        v
    } else {
        t
    }
}

/// Executable form of [`quoted`] on characters.
pub fn quoted_chars(raw: &Vec<char>) -> (v: Vec<char>)
    ensures
        v@ == quoted(raw@),
{
    let mut v: Vec<char> = Vec::new();
    v.push('"');
    let mut i: usize = 0;
    while i < raw.len()
        invariant
            i <= raw.len(),
            v@ == seq!['"'] + double_quotes(raw@.take(i as int)),
        decreases raw.len() - i,
    {
        assert(raw@.take(i + 1).drop_last() =~= raw@.take(i as int));
        if raw[i] == '"' {
            v.push('"');
            v.push('"');
        } else {
            v.push(raw[i]);
        }
        assert(v@ =~= seq!['"'] + double_quotes(raw@.take(i + 1)));
        i += 1;
    }
    assert(raw@.take(raw.len() as int) =~= raw@);
    v.push('"');
    v
}

/// Re-emits a raw field value in properly quoted form: wraps it in `"` and
/// doubles any embedded `"`.
pub fn quote_field(raw: &str) -> (v: String)
    ensures
        v@ == quoted(raw@),
{
    let chars = chars_of(raw);
    string_of(&quoted_chars(&chars))
}

proof fn lemma_double_quotes_concat(a: Seq<char>, b: Seq<char>)
    ensures
        double_quotes(a + b) == double_quotes(a) + double_quotes(b),
    decreases b.len(),
{
    if b.len() == 0 {
        assert(a + b =~= a);
        assert(double_quotes(a) + double_quotes(b) =~= double_quotes(a));
    } else {
        lemma_double_quotes_concat(a, b.drop_last());
        assert((a + b).drop_last() =~= a + b.drop_last());
        assert((a + b).last() == b.last());
    }
}

proof fn lemma_collapse_doubled(v: Seq<char>)
    ensures
        collapse_quotes(double_quotes(v)) == v,
    decreases v.len(),
{
    if v.len() > 0 {
        let c = v[0];
        let t = v.skip(1);
        assert(v =~= seq![c] + t);
        lemma_double_quotes_concat(seq![c], t);
        assert(seq![c].drop_last() =~= Seq::<char>::empty());
        let dc = double_quotes(seq![c]);
        assert(seq![c].last() == c);
        assert(double_quotes(Seq::<char>::empty()) == Seq::<char>::empty());
        assert(dc =~= if c == '"' { seq!['"', '"'] } else { seq![c] });
        let d = dc + double_quotes(t);
        lemma_collapse_doubled(t);
        if c == '"' {
            assert(d.skip(2) =~= double_quotes(t));
        } else {
            assert(d.skip(1) =~= double_quotes(t));
        }
    }
}

/// Reading a field that [`quote_field`] wrote gives back the text it was
/// given.
pub proof fn law_quote_reads_back(raw: Seq<char>)
    ensures
        canonical_value(quoted(raw)) == raw,
{
    let q = quoted(raw);
    assert(q.last() == '"');
    assert(trim_spaces(q) == q);
    assert(q.subrange(1, q.len() - 1) =~= double_quotes(raw));
    lemma_collapse_doubled(raw);
}


// ---------------------------------------------------------------------------
// Column and row operations
// ---------------------------------------------------------------------------

/// The header given to a column added as the `n`-th: `column_<n>`.
pub open spec fn column_name(n: nat) -> Seq<char> {
    seq!['c', 'o', 'l', 'u', 'm', 'n', '_'] + decimal(n)
}

/// `n` empty fields.
pub open spec fn empties(n: nat) -> Seq<Seq<char>> {
    Seq::new(n, |_k: int| Seq::<char>::empty())
}

/// Every row padded with empty fields to the widest row's width, then given
/// one more field: the generated header in the first row when `has_header`,
/// an empty field everywhere else.
pub open spec fn with_added_column(rows: Seq<Seq<Seq<char>>>, has_header: bool) -> Seq<Seq<Seq<char>>> {
    let mc = max_cols(rows);
    Seq::new(rows.len(), |i: int|
        rows[i] + empties((mc - rows[i].len()) as nat)
            + seq![if has_header && i == 0 { column_name(mc + 1) } else { Seq::<char>::empty() }])
}

/// Every row without its field at index `col` (rows too short keep all).
pub open spec fn without_column(rows: Seq<Seq<Seq<char>>>, col: int) -> Seq<Seq<Seq<char>>> {
    Seq::new(rows.len(), |i: int| if 0 <= col < rows[i].len() { rows[i].remove(col) } else { rows[i] })
}

/// The rows with a copy of row `row` inserted right after it (unchanged
/// when there is no such row).
pub open spec fn with_duplicated_row(rows: Seq<Seq<Seq<char>>>, row: int) -> Seq<Seq<Seq<char>>> {
    if 0 <= row < rows.len() { rows.insert(row + 1, rows[row]) } else { rows }
}

/// Appends an empty column (with a generated header when `has_header`),
/// first padding ragged rows to the widest row.
pub fn add_column(input: &str, has_header: bool) -> (out: String)
    requires
        input@.len() <= usize::MAX / 2,
    ensures
        out@ == emit(with_added_column(csv_rows(input@), has_header), ends_nl(input@)),
{
    let chars = chars_of(input);
    let rows = parse_chars(&chars);
    let ghost t = rows.deep_view();
    proof {
        lemma_table_view(rows);
        lemma_row_width_bound(input@);
    }
    let mut mc: usize = 0;
    let mut i: usize = 0;
    while i < rows.len()
        invariant
            i <= rows.len(),
            t == rows.deep_view(),
            t.len() == rows@.len(),
            forall|a: int| 0 <= a < rows@.len() ==> #[trigger] t[a].len() == rows@[a]@.len(),
            mc == max_cols(t.take(i as int)),
        decreases rows.len() - i,
    {
        assert(t.take(i + 1).drop_last() =~= t.take(i as int));
        if rows[i].len() > mc {
            mc = rows[i].len();
        }
        i += 1;
    }
    assert(t.take(rows.len() as int) =~= t);
    let mut name = String::new();
    push_char(&mut name, 'c');
    push_char(&mut name, 'o');
    push_char(&mut name, 'l');
    push_char(&mut name, 'u');
    push_char(&mut name, 'm');
    push_char(&mut name, 'n');
    push_char(&mut name, '_');
    push_decimal(&mut name, mc + 1);
    let header = chars_of(name.as_str());
    assert(header@ =~= column_name((mc + 1) as nat));
    let ghost want = with_added_column(t, has_header);
    let mut out: Vec<Vec<Vec<char>>> = Vec::new();
    let mut i: usize = 0;
    while i < rows.len()
        invariant
            i <= rows.len(),
            t == rows.deep_view(),
            t.len() == rows@.len(),
            mc == max_cols(t),
            header@ == column_name((mc + 1) as nat),
            want == with_added_column(t, has_header),
            out@.len() == i,
            forall|a: int| 0 <= a < i ==> #[trigger] out@[a].deep_view() == want[a],
        decreases rows.len() - i,
    {
        proof { lemma_row_len_le_max_cols(t, i as int); }
        let mut row = copy_row(&rows[i]);
        assert(row.deep_view() == t[i as int]);
        while row.len() < mc
            invariant
                i < rows.len(),
                t.len() == rows@.len(),
                t[i as int].len() <= row.len() <= mc,
                row.deep_view() == t[i as int] + empties((row.len() - t[i as int].len()) as nat),
            decreases mc - row.len(),
        {
            let ghost r0 = row;
            let e: Vec<char> = Vec::new();
            proof { lemma_chars_deep_view(e); }
            row.push(e);
            proof { lemma_deep_view_push(r0, row, e); }
            assert(row.deep_view() =~= t[i as int] + empties((row.len() - t[i as int].len()) as nat));
        }
        let last: Vec<char> = if has_header && i == 0 { header.clone() } else { Vec::new() };
        assert(last@ =~= (if has_header && i == 0 { column_name((mc + 1) as nat) } else { Seq::<char>::empty() }));
        let ghost r0 = row;
        proof { lemma_chars_deep_view(last); }
        row.push(last);
        proof { lemma_deep_view_push(r0, row, last); }
        assert(row.deep_view() =~= want[i as int]);
        out.push(row);
        i += 1;
    }
    assert(out.deep_view() =~= want);
    serialize(&out, ends_with_newline(&chars))
}

/// Removes the field at index `col` from every row that has one.
pub fn delete_column(input: &str, col: usize) -> (out: String)
    ensures
        out@ == emit(without_column(csv_rows(input@), col as int), ends_nl(input@)),
{
    let chars = chars_of(input);
    let rows = parse_chars(&chars);
    let ghost t = rows.deep_view();
    let ghost want = without_column(t, col as int);
    let mut out: Vec<Vec<Vec<char>>> = Vec::new();
    let mut i: usize = 0;
    while i < rows.len()
        invariant
            i <= rows.len(),
            t == rows.deep_view(),
            want == without_column(t, col as int),
            out@.len() == i,
            forall|a: int| 0 <= a < i ==> #[trigger] out@[a].deep_view() == want[a],
        decreases rows.len() - i,
    {
        let mut row = copy_row(&rows[i]);
        assert(row.deep_view() == t[i as int]);
        if col < row.len() {
            let ghost r0 = row;
            row.remove(col);
            assert(row.deep_view() =~= r0.deep_view().remove(col as int));
        }
        out.push(row);
        i += 1;
    }
    assert(out.deep_view() =~= want);
    serialize(&out, ends_with_newline(&chars))
}

/// Inserts a copy of row `row` right after it; a row index past the end
/// changes nothing.
pub fn duplicate_row(input: &str, row: usize) -> (out: String)
    ensures
        out@ == emit(with_duplicated_row(csv_rows(input@), row as int), ends_nl(input@)),
{
    let chars = chars_of(input);
    let mut rows = parse_chars(&chars);
    let ghost t = rows.deep_view();
    if row < rows.len() {
        let copy = copy_row(&rows[row]);
        let ghost r0 = rows;
        rows.insert(row + 1, copy);
        assert(rows.deep_view() =~= t.insert(row + 1, t[row as int]));
    }
    serialize(&rows, ends_with_newline(&chars))
}


// ---------------------------------------------------------------------------
// Sorting
// ---------------------------------------------------------------------------

/// The key a row is sorted by: the value of its field at `col`, or the
/// empty text when the row is too short.
pub open spec fn sort_key(r: Seq<Seq<char>>, col: int) -> Seq<char> {
    if 0 <= col < r.len() { canonical_value(r[col]) } else { seq![] }
}

/// In a stable sort, the element with key `ka` at index `ia` comes before
/// the one with key `kb` at index `ib`: its key comes first in the chosen
/// direction, or the keys are equal and it came first.
pub open spec fn goes_before(ka: Seq<char>, ia: int, kb: Seq<char>, ib: int, ascending: bool) -> bool {
    (if ascending { seq_lt(ka, kb) } else { seq_lt(kb, ka) }) || (ka == kb && ia < ib)
}

/// `perm` lists each of `0..n` exactly once.
pub open spec fn is_permutation(perm: Seq<int>, n: nat) -> bool {
    &&& perm.len() == n
    &&& forall|k: int| 0 <= k < n ==> 0 <= #[trigger] perm[k] < n
    &&& forall|a: int, b: int| 0 <= a < n && 0 <= b < n && a != b ==> #[trigger] perm[a] != #[trigger] perm[b]
}

/// `perm` puts the rows in stable order of their keys.
pub open spec fn sorts_stably(rows: Seq<Seq<Seq<char>>>, perm: Seq<int>, col: int, ascending: bool) -> bool {
    &&& is_permutation(perm, rows.len())
    &&& forall|a: int, b: int| 0 <= a < b < rows.len() ==> goes_before(
        sort_key(rows[#[trigger] perm[a]], col), perm[a], sort_key(rows[#[trigger] perm[b]], col), perm[b], ascending)
}

/// The number of leading rows that stay in place: the header row, when
/// `has_header` and there is a row.
pub open spec fn header_rows(rows: Seq<Seq<Seq<char>>>, has_header: bool) -> int {
    if has_header && rows.len() > 0 { 1 } else { 0 }
}

/// The rows of `rows` in the order that `perm` lists their indices.
pub open spec fn pick(rows: Seq<Seq<Seq<char>>>, perm: Seq<int>) -> Seq<Seq<Seq<char>>> {
    Seq::new(perm.len(), |k: int| rows[perm[k]])
}

/// `out` is the text of `input` with the rows after the header rows in
/// stable order of their value in column `col`.
pub open spec fn is_sorted_text(input: Seq<char>, col: int, ascending: bool, has_header: bool, out: Seq<char>) -> bool {
    let rows = csv_rows(input);
    let h = header_rows(rows, has_header);
    let body = rows.skip(h);
    exists|perm: Seq<int>| #[trigger] sorts_stably(body, perm, col, ascending)
        && out == emit(rows.take(h) + pick(body, perm), ends_nl(input))
}

proof fn lemma_sorted_witness(input: Seq<char>, col: int, ascending: bool, has_header: bool, out: Seq<char>, perm: Seq<int>)
    requires
        ({
            let rows = csv_rows(input);
            let h = header_rows(rows, has_header);
            let body = rows.skip(h);
            sorts_stably(body, perm, col, ascending) && out == emit(rows.take(h) + pick(body, perm), ends_nl(input))
        }),
    ensures
        is_sorted_text(input, col, ascending, has_header, out),
{
}

proof fn lemma_goes_before_order(ka: Seq<char>, ia: int, kb: Seq<char>, ib: int, kc: Seq<char>, ic: int, asc: bool)
    ensures
        goes_before(ka, ia, kb, ib, asc) ==> !goes_before(kb, ib, ka, ia, asc),
        ia != ib ==> goes_before(ka, ia, kb, ib, asc) || goes_before(kb, ib, ka, ia, asc),
        goes_before(ka, ia, kb, ib, asc) && goes_before(kb, ib, kc, ic, asc) ==> goes_before(ka, ia, kc, ic, asc),
{
    lemma_seq_lt_irreflexive(ka);
    lemma_seq_lt_irreflexive(kb);
    if seq_lt(ka, kb) && seq_lt(kb, ka) {
        lemma_seq_lt_transitive(ka, kb, ka);
    }
    if ka != kb {
        lemma_seq_lt_total(ka, kb);
    }
    if seq_lt(ka, kb) && seq_lt(kb, kc) {
        lemma_seq_lt_transitive(ka, kb, kc);
    }
    if seq_lt(kc, kb) && seq_lt(kb, ka) {
        lemma_seq_lt_transitive(kc, kb, ka);
    }
}

/// Every index of `0..n` occurs in a permutation of `0..n`.
proof fn lemma_permutation_onto(perm: Seq<int>, n: nat, x: int)
    requires
        is_permutation(perm, n),
        0 <= x < n,
    ensures
        exists|k: int| 0 <= k < n && perm[k] == x,
{
    if !(exists|k: int| 0 <= k < n && perm[k] == x) {
        assert(perm.no_duplicates()) by {
            assert forall|a: int, b: int| 0 <= a < perm.len() && 0 <= b < perm.len() && a != b
                implies perm[a] != perm[b] by {
                assert(perm[a] != perm[b]);
            }
        }
        perm.unique_seq_to_set();
        let r = vstd::set_lib::set_int_range(0, n as int);
        vstd::set_lib::lemma_int_range(0, n as int);
        assert(r.contains(x));
        let rx = r.remove(x);
        assert(perm.to_set().subset_of(rx)) by {
            assert forall|v: int| perm.to_set().contains(v) implies rx.contains(v) by {
                let k = choose|k: int| 0 <= k < perm.len() && perm[k] == v;
                assert(0 <= perm[k] < n);
            }
        }
        vstd::set_lib::lemma_len_subset(perm.to_set(), rx);
    }
}

/// Two stable orders of the same rows agree on their first `a` places.
proof fn lemma_stable_orders_agree(rows: Seq<Seq<Seq<char>>>, p1: Seq<int>, p2: Seq<int>, col: int, asc: bool, a: int)
    requires
        sorts_stably(rows, p1, col, asc),
        sorts_stably(rows, p2, col, asc),
        0 <= a <= rows.len(),
    ensures
        forall|k: int| 0 <= k < a ==> p1[k] == p2[k],
    decreases a,
{
    if a > 0 {
        let m = a - 1;
        lemma_stable_orders_agree(rows, p1, p2, col, asc, m);
        let n = rows.len();
        let x = p1[m];
        let y = p2[m];
        if x != y {
            let kx = sort_key(rows[x], col);
            let ky = sort_key(rows[y], col);
            lemma_goes_before_order(kx, x, ky, y, ky, y, asc);
            if goes_before(kx, x, ky, y, asc) {
                // `x` stands in `p2` after place `m`, behind `y`.
                lemma_permutation_onto(p2, n, x);
                let b = choose|b: int| 0 <= b < n && p2[b] == x;
                if b < m {
                    assert(p1[b] == p2[b]);
                    assert(p1[b] == p1[m]);
                } else {
                    assert(m < b);
                    assert(goes_before(sort_key(rows[p2[m]], col), p2[m], sort_key(rows[p2[b]], col), p2[b], asc));
                }
            } else {
                lemma_permutation_onto(p1, n, y);
                let b = choose|b: int| 0 <= b < n && p1[b] == y;
                if b < m {
                    assert(p1[b] == p2[b]);
                    assert(p2[b] == p2[m]);
                } else {
                    assert(m < b);
                    assert(goes_before(sort_key(rows[p1[m]], col), p1[m], sort_key(rows[p1[b]], col), p1[b], asc));
                }
            }
        }
    }
}

/// The contract of [`sort_by_column`] fixes its result: two texts that
/// both meet it for the same input are the same text.
pub proof fn law_sorted_text_unique(input: Seq<char>, col: int, ascending: bool, has_header: bool, out1: Seq<char>, out2: Seq<char>)
    requires
        is_sorted_text(input, col, ascending, has_header, out1),
        is_sorted_text(input, col, ascending, has_header, out2),
    ensures
        out1 == out2,
{
    let rows = csv_rows(input);
    let h = header_rows(rows, has_header);
    let body = rows.skip(h);
    let p1 = choose|perm: Seq<int>| #[trigger] sorts_stably(body, perm, col, ascending)
        && out1 == emit(rows.take(h) + pick(body, perm), ends_nl(input));
    let p2 = choose|perm: Seq<int>| #[trigger] sorts_stably(body, perm, col, ascending)
        && out2 == emit(rows.take(h) + pick(body, perm), ends_nl(input));
    lemma_stable_orders_agree(body, p1, p2, col, ascending, body.len() as int);
    assert(p1 =~= p2);
}

/// The sort keys of the rows from index `from` on.
fn sort_keys(rows: &Vec<Vec<Vec<char>>>, from: usize, col: usize) -> (keys: Vec<Vec<char>>)
    requires
        from <= rows.len(),
    ensures
        keys@.len() == rows.len() - from,
        forall|k: int| 0 <= k < keys@.len() ==> #[trigger] keys@[k]@ == sort_key(rows.deep_view()[from + k], col as int),
{
    proof { lemma_table_view(*rows); }
    let mut keys: Vec<Vec<char>> = Vec::new();
    let mut i = from;
    while i < rows.len()
        invariant
            from <= i <= rows.len(),
            rows.deep_view().len() == rows@.len(),
            forall|a: int| 0 <= a < rows@.len() ==> #[trigger] rows.deep_view()[a].len() == rows@[a]@.len(),
            forall|a: int, b: int| 0 <= a < rows@.len() && 0 <= b < rows@[a]@.len()
                ==> #[trigger] rows.deep_view()[a][b] == rows@[a]@[b]@,
            keys@.len() == i - from,
            forall|k: int| 0 <= k < keys@.len() ==> #[trigger] keys@[k]@ == sort_key(rows.deep_view()[from + k], col as int),
        decreases rows.len() - i,
    {
        let key = if col < rows[i].len() { canonical_chars(&rows[i][col]) } else { Vec::new() };
        keys.push(key);
        i += 1;
    }
    keys
}

/// Whether the element with key `keys[a]` at index `a` goes before the one
/// at index `b`.
fn goes_before_exec(keys: &Vec<Vec<char>>, a: usize, b: usize, ascending: bool) -> (r: bool)
    requires
        a < keys.len(),
        b < keys.len(),
    ensures
        r == goes_before(keys@[a as int]@, a as int, keys@[b as int]@, b as int, ascending),
{
    let lt_ab = chars_lt(&keys[a], &keys[b]);
    let lt_ba = chars_lt(&keys[b], &keys[a]);
    proof {
        if keys@[a as int]@ != keys@[b as int]@ {
            lemma_seq_lt_total(keys@[a as int]@, keys@[b as int]@);
        } else {
            lemma_seq_lt_irreflexive(keys@[a as int]@);
        }
    }
    (if ascending { lt_ab } else { lt_ba }) || (!lt_ab && !lt_ba && a < b)
}

/// The indices `0..keys.len()` in stable order of their keys.
fn stable_order(keys: &Vec<Vec<char>>, ascending: bool) -> (idx: Vec<usize>)
    ensures
        is_permutation(idx@.map_values(|v: usize| v as int), keys.len() as nat),
        forall|a: int, b: int| 0 <= a < b < keys.len() ==> goes_before(
            keys@[#[trigger] idx@[a] as int]@, idx@[a] as int, keys@[#[trigger] idx@[b] as int]@, idx@[b] as int, ascending),
{
    let mut idx: Vec<usize> = Vec::new();
    let mut i: usize = 0;
    while i < keys.len()
        invariant
            i <= keys.len(),
            idx@.len() == i,
            forall|k: int| 0 <= k < i ==> #[trigger] idx@[k] < i,
            forall|a: int, b: int| 0 <= a < i && 0 <= b < i && a != b ==> #[trigger] idx@[a] != #[trigger] idx@[b],
            forall|a: int, b: int| 0 <= a < b < i ==> goes_before(
                keys@[#[trigger] idx@[a] as int]@, idx@[a] as int, keys@[#[trigger] idx@[b] as int]@, idx@[b] as int, ascending),
        decreases keys.len() - i,
    {
        let mut p: usize = 0;
        while p < idx.len() && goes_before_exec(keys, idx[p], i, ascending)
            invariant
                i < keys.len(),
                idx@.len() == i,
                forall|k: int| 0 <= k < i ==> #[trigger] idx@[k] < i,
                p <= idx.len(),
                forall|k: int| 0 <= k < p ==> goes_before(
                    keys@[#[trigger] idx@[k] as int]@, idx@[k] as int, keys@[i as int]@, i as int, ascending),
            decreases idx.len() - p,
        {
            p += 1;
        }
        let ghost old_idx = idx@;
        proof {
            if p < i {
                let e = old_idx[p as int] as int;
                lemma_goes_before_order(keys@[e]@, e, keys@[i as int]@, i as int, keys@[i as int]@, i as int, ascending);
                assert(goes_before(keys@[i as int]@, i as int, keys@[e]@, e, ascending));
                assert forall|k: int| p <= k < i implies goes_before(
                    keys@[i as int]@, i as int, keys@[#[trigger] old_idx[k] as int]@, old_idx[k] as int, ascending) by {
                    if k > p {
                        let f = old_idx[k] as int;
                        assert(goes_before(keys@[e]@, e, keys@[f]@, f, ascending));
                        lemma_goes_before_order(keys@[i as int]@, i as int, keys@[e]@, e, keys@[f]@, f, ascending);
                    }
                }
            }
        }
        idx.insert(p, i);
        assert forall|a: int, b: int| 0 <= a < b < i + 1 implies goes_before(
            keys@[#[trigger] idx@[a] as int]@, idx@[a] as int, keys@[#[trigger] idx@[b] as int]@, idx@[b] as int, ascending) by {
            if a < p && b < p {
                assert(idx@[a] == old_idx[a] && idx@[b] == old_idx[b]);
            } else if a < p && b == p {
            } else if a < p {
                assert(idx@[a] == old_idx[a] && idx@[b] == old_idx[b - 1]);
            } else if a == p {
                assert(idx@[b] == old_idx[b - 1]);
            } else {
                assert(idx@[a] == old_idx[a - 1] && idx@[b] == old_idx[b - 1]);
            }
        }
        i += 1;
    }
    let ghost m = idx@.map_values(|v: usize| v as int);
    assert forall|a: int, b: int| 0 <= a < keys.len() && 0 <= b < keys.len() && a != b implies #[trigger] m[a] != #[trigger] m[b] by {
        assert(idx@[a] != idx@[b]);
    }
    idx
}

/// Sorts the rows by their value in column `col` (stable; descending when
/// not `ascending`), keeping the header row in place when `has_header`.
pub fn sort_by_column(input: &str, col: usize, ascending: bool, has_header: bool) -> (out: String)
    ensures
        is_sorted_text(input@, col as int, ascending, has_header, out@),
{
    let chars = chars_of(input);
    let rows = parse_chars(&chars);
    let ghost t = rows.deep_view();
    let start: usize = if has_header && rows.len() > 0 { 1 } else { 0 };
    let ghost body = t.skip(start as int);
    let keys = sort_keys(&rows, start, col);
    let idx = stable_order(&keys, ascending);
    let mut out: Vec<Vec<Vec<char>>> = Vec::new();
    if start == 1 {
        let head = copy_row(&rows[0]);
        out.push(head);
    }
    let ghost perm = idx@.map_values(|v: usize| v as int);
    let mut k: usize = 0;
    while k < idx.len()
        invariant
            t == rows.deep_view(),
            start <= rows.len(),
            body == t.skip(start as int),
            idx@.len() == keys@.len(),
            keys@.len() == rows.len() - start,
            perm == idx@.map_values(|v: usize| v as int),
            is_permutation(perm, keys.len() as nat),
            k <= idx.len(),
            out@.len() == start + k,
            start == 1 ==> out@[0].deep_view() == t[0],
            forall|a: int| 0 <= a < k ==> #[trigger] out@[start + a].deep_view() == body[perm[a]],
        decreases idx.len() - k,
    {
        assert(perm[k as int] == idx@[k as int] as int);
        let r = copy_row(&rows[start + idx[k]]);
        out.push(r);
        k += 1;
    }
    let ghost sorted = t.take(start as int) + pick(body, perm);
    assert(out.deep_view() =~= sorted) by {
        assert forall|a: int| 0 <= a < out@.len() implies #[trigger] out.deep_view()[a] == sorted[a] by {
            if a < start {
                assert(a == 0);
            } else {
                assert(out@[start + (a - start)].deep_view() == body[perm[a - start]]);
            }
        }
    }
    assert(sorts_stably(body, perm, col as int, ascending)) by {
        assert forall|a: int| 0 <= a < body.len() implies #[trigger] keys@[a]@ == sort_key(body[a], col as int) by {
            assert(body[a] == t[start + a]);
        }
        assert forall|a: int, b: int| 0 <= a < b < body.len() implies goes_before(
            sort_key(body[#[trigger] perm[a]], col as int), perm[a], sort_key(body[#[trigger] perm[b]], col as int), perm[b], ascending) by {
            assert(perm[a] == idx@[a] as int);
            assert(perm[b] == idx@[b] as int);
            assert(keys@[idx@[a] as int]@ == sort_key(body[perm[a]], col as int));
            assert(keys@[idx@[b] as int]@ == sort_key(body[perm[b]], col as int));
        }
    }
    let res = serialize(&out, ends_with_newline(&chars));
    assert(res@ == emit(t.take(start as int) + pick(body, perm), ends_nl(input@)));
    assert(t == csv_rows(input@));
    assert(header_rows(t, has_header) == start as int);
    proof { lemma_sorted_witness(input@, col as int, ascending, has_header, res@, perm); }
    res
}

} // verus!
