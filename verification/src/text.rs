//! Character-level helpers shared by the CSV transforms.

use vstd::prelude::*;

verus! {

/// Calls `String::push`. Trusted, not proved: the contract claims that the
/// string's characters afterwards are those before with `c` appended at
/// the end, which is what std documents for `push`.
#[verifier::external_body]
pub(crate) fn push_char(s: &mut String, c: char)
    ensures
        final(s)@ == old(s)@.push(c),
{
    s.push(c);
}

/// The characters of `s`, in order.
pub fn chars_of(s: &str) -> (v: Vec<char>)
    ensures
        v@ == s@,
{
    let mut v: Vec<char> = Vec::new();
    for c in it: s.chars()
        invariant
            v@ == it.seq().take(it.index() as int),
            it.seq() == s@,
    {
        v.push(c);
    }
    v
}

/// A `String` holding exactly the characters of `v`.
pub fn string_of(v: &Vec<char>) -> (s: String)
    ensures
        s@ == v@,
{
    let mut s = String::new();
    let mut i: usize = 0;
    while i < v.len()
        invariant
            i <= v.len(),
            s@ == v@.take(i as int),
        decreases v.len() - i,
    {
        push_char(&mut s, v[i]);
        proof {
            assert(v@.take(i + 1) == v@.take(i as int).push(v@[i as int]));
        }
        i += 1;
    }
    proof {
        assert(v@.take(v.len() as int) == v@);
    }
    s
}

/// Appends the characters of `v` to `out`.
pub fn push_all(out: &mut String, v: &Vec<char>)
    ensures
        final(out)@ == old(out)@ + v@,
{
    let mut i: usize = 0;
    while i < v.len()
        invariant
            i <= v.len(),
            out@ == old(out)@ + v@.take(i as int),
        decreases v.len() - i,
    {
        push_char(out, v[i]);
        proof {
            assert(v@.take(i + 1) == v@.take(i as int).push(v@[i as int]));
        }
        i += 1;
    }
    proof {
        assert(v@.take(v.len() as int) == v@);
    }
}

/// Appends the characters of `s`.
pub fn push_text(out: &mut String, s: &str)
    ensures
        final(out)@ == old(out)@ + s@,
{
    let v = chars_of(s);
    push_all(out, &v);
}

/// The deep view of a vector of characters is its plain view.
pub proof fn lemma_chars_deep_view(v: Vec<char>)
    ensures
        v.deep_view() == v@,
{
    assert(v.deep_view() =~= v@);
}

/// Pushing onto a vector pushes the element's deep view onto its deep view.
pub proof fn lemma_deep_view_push<T: DeepView>(old_v: Vec<T>, new_v: Vec<T>, x: T)
    requires
        new_v@ == old_v@.push(x),
    ensures
        new_v.deep_view() == old_v.deep_view().push(x.deep_view()),
{
    assert(new_v.deep_view() =~= old_v.deep_view().push(x.deep_view()));
}


// ---------------------------------------------------------------------------
// Whitespace
// ---------------------------------------------------------------------------

/// The characters with the Unicode `White_Space` property (what
/// `char::is_whitespace` accepts).
pub open spec fn is_ws(c: char) -> bool {
    let u = c as u32;
    (0x09 <= u && u <= 0x0d) || u == 0x20 || u == 0x85 || u == 0xa0 || u == 0x1680
        || (0x2000 <= u && u <= 0x200a) || u == 0x2028 || u == 0x2029 || u == 0x202f
        || u == 0x205f || u == 0x3000
}

/// Whether `c` is whitespace (executable form of [`is_ws`]).
pub fn is_whitespace(c: char) -> (b: bool)
    ensures
        b == is_ws(c),
{
    let u = c as u32;
    (0x09 <= u && u <= 0x0d) || u == 0x20 || u == 0x85 || u == 0xa0 || u == 0x1680
        || (0x2000 <= u && u <= 0x200a) || u == 0x2028 || u == 0x2029 || u == 0x202f
        || u == 0x205f || u == 0x3000
}

/// `s` without its leading whitespace.
pub open spec fn trim_start_ws(s: Seq<char>) -> Seq<char>
    decreases s.len(),
{
    if s.len() > 0 && is_ws(s[0]) { trim_start_ws(s.skip(1)) } else { s }
}

/// `s` without its trailing whitespace.
pub open spec fn trim_end_ws(s: Seq<char>) -> Seq<char>
    decreases s.len(),
{
    if s.len() > 0 && is_ws(s.last()) { trim_end_ws(s.drop_last()) } else { s }
}

/// `s` without leading and trailing whitespace (what `str::trim` gives).
pub open spec fn trim_ws(s: Seq<char>) -> Seq<char> {
    trim_end_ws(trim_start_ws(s))
}

/// The characters of `v` from `lo` up to `hi`.
pub fn slice_chars(v: &Vec<char>, lo: usize, hi: usize) -> (w: Vec<char>)
    requires
        lo <= hi <= v.len(),
    ensures
        w@ == v@.subrange(lo as int, hi as int),
{
    let mut w: Vec<char> = Vec::new();
    let mut i = lo;
    while i < hi
        invariant
            lo <= i <= hi <= v.len(),
            w@ == v@.subrange(lo as int, i as int),
        decreases hi - i,
    {
        w.push(v[i]);
        assert(v@.subrange(lo as int, i + 1) =~= v@.subrange(lo as int, i as int).push(v@[i as int]));
        i += 1;
    }
    w
}

/// `v` without leading and trailing whitespace.
pub fn trim_chars(v: &Vec<char>) -> (w: Vec<char>)
    ensures
        w@ == trim_ws(v@),
{
    let mut lo: usize = 0;
    assert(v@.skip(0) =~= v@);
    while lo < v.len() && is_whitespace(v[lo])
        invariant
            lo <= v.len(),
            trim_start_ws(v@.skip(lo as int)) == trim_start_ws(v@),
        decreases v.len() - lo,
    {
        assert(v@.skip(lo as int).skip(1) =~= v@.skip(lo + 1));
        lo += 1;
    }
    let ghost front = v@.skip(lo as int);
    assert(trim_start_ws(v@) == front);
    let mut hi: usize = v.len();
    assert(v@.subrange(lo as int, hi as int) =~= front);
    while hi > lo && is_whitespace(v[hi - 1])
        invariant
            lo <= hi <= v.len(),
            trim_end_ws(v@.subrange(lo as int, hi as int)) == trim_end_ws(front),
        decreases hi - lo,
    {
        assert(v@.subrange(lo as int, hi as int).drop_last() =~= v@.subrange(lo as int, hi - 1));
        hi -= 1;
    }
    slice_chars(v, lo, hi)
}

// ---------------------------------------------------------------------------
// Numbers as text
// ---------------------------------------------------------------------------

/// The decimal digit for `d < 10`.
pub open spec fn digit(d: nat) -> char {
    if d == 0 { '0' } else if d == 1 { '1' } else if d == 2 { '2' } else if d == 3 { '3' }
    else if d == 4 { '4' } else if d == 5 { '5' } else if d == 6 { '6' } else if d == 7 { '7' }
    else if d == 8 { '8' } else { '9' }
}

/// The decimal notation of `n`, without leading zeros.
pub open spec fn decimal(n: nat) -> Seq<char>
    decreases n,
{
    if n < 10 { seq![digit(n)] } else { decimal(n / 10).push(digit(n % 10)) }
}

fn digit_char(d: usize) -> (c: char)
    requires
        d < 10,
    ensures
        c == digit(d as nat),
{
    if d == 0 { '0' } else if d == 1 { '1' } else if d == 2 { '2' } else if d == 3 { '3' }
    else if d == 4 { '4' } else if d == 5 { '5' } else if d == 6 { '6' } else if d == 7 { '7' }
    else if d == 8 { '8' } else { '9' }
}

/// Appends the decimal notation of `n` to `out`.
pub fn push_decimal(out: &mut String, n: usize)
    ensures
        final(out)@ == old(out)@ + decimal(n as nat),
    decreases n,
{
    if n < 10 {
        push_char(out, digit_char(n));
    } else {
        push_decimal(out, n / 10);
        push_char(out, digit_char(n % 10));
    }
}

// ---------------------------------------------------------------------------
// Lexicographic order
// ---------------------------------------------------------------------------

/// `a` comes strictly before `b`, comparing characters by code point (the
/// order of `str`'s `Ord`, since UTF-8 keeps code point order).
pub open spec fn seq_lt(a: Seq<char>, b: Seq<char>) -> bool
    decreases a.len(),
{
    if a.len() == 0 {
        b.len() > 0
    } else if b.len() == 0 {
        false
    } else if a[0] < b[0] {
        true
    } else if a[0] > b[0] {
        false
    } else {
        seq_lt(a.skip(1), b.skip(1))
    }
}

/// Whether `a` comes strictly before `b` (executable form of [`seq_lt`]).
pub fn chars_lt(a: &Vec<char>, b: &Vec<char>) -> (r: bool)
    ensures
        r == seq_lt(a@, b@),
{
    let mut i: usize = 0;
    assert(a@.skip(0) =~= a@);
    assert(b@.skip(0) =~= b@);
    while i < a.len() && i < b.len() && a[i] == b[i]
        invariant
            i <= a.len(),
            i <= b.len(),
            seq_lt(a@.skip(i as int), b@.skip(i as int)) == seq_lt(a@, b@),
        decreases a.len() - i,
    {
        assert(a@.skip(i as int).skip(1) =~= a@.skip(i + 1));
        assert(b@.skip(i as int).skip(1) =~= b@.skip(i + 1));
        i += 1;
    }
    if i == a.len() {
        i < b.len()
    } else if i == b.len() {
        false
    } else {
        a[i] < b[i]
    }
}

/// Whether `a` and `b` hold the same characters.
pub fn chars_eq(a: &Vec<char>, b: &Vec<char>) -> (r: bool)
    ensures
        r == (a@ == b@),
{
    if a.len() != b.len() {
        return false;
    }
    let mut i: usize = 0;
    while i < a.len()
        invariant
            i <= a.len(),
            a.len() == b.len(),
            forall|k: int| 0 <= k < i ==> a@[k] == b@[k],
        decreases a.len() - i,
    {
        if a[i] != b[i] {
            return false;
        }
        i += 1;
    }
    assert(a@ =~= b@);
    true
}

/// [`seq_lt`] is irreflexive.
pub proof fn lemma_seq_lt_irreflexive(a: Seq<char>)
    ensures
        !seq_lt(a, a),
    decreases a.len(),
{
    if a.len() > 0 {
        lemma_seq_lt_irreflexive(a.skip(1));
    }
}

/// [`seq_lt`] is transitive.
pub proof fn lemma_seq_lt_transitive(a: Seq<char>, b: Seq<char>, c: Seq<char>)
    requires
        seq_lt(a, b),
        seq_lt(b, c),
    ensures
        seq_lt(a, c),
    decreases a.len(),
{
    if a.len() > 0 && b.len() > 0 && c.len() > 0 {
        if a[0] == b[0] && b[0] == c[0] {
            lemma_seq_lt_transitive(a.skip(1), b.skip(1), c.skip(1));
        }
    }
}

/// Distinct sequences are ordered one way or the other.
pub proof fn lemma_seq_lt_total(a: Seq<char>, b: Seq<char>)
    requires
        a != b,
    ensures
        seq_lt(a, b) || seq_lt(b, a),
    decreases a.len(),
{
    if a.len() == 0 {
        assert(b.len() > 0) by {
            if b.len() == 0 {
                assert(a =~= b);
            }
        }
    } else if b.len() > 0 && a[0] == b[0] {
        if a.skip(1) == b.skip(1) {
            assert(a =~= seq![a[0]] + a.skip(1));
            assert(b =~= seq![b[0]] + b.skip(1));
        }
        lemma_seq_lt_total(a.skip(1), b.skip(1));
    }
}

/// `x` is one of the strings of `v`.
pub open spec fn listed(v: Seq<String>, x: Seq<char>) -> bool {
    exists|k: int| 0 <= k < v.len() && #[trigger] v[k]@ == x
}

/// The strings of `v` are in strictly increasing order (so all different).
pub open spec fn strictly_sorted(v: Seq<String>) -> bool {
    forall|a: int, b: int| 0 <= a < b < v.len() ==> seq_lt(#[trigger] v[a]@, #[trigger] v[b]@)
}

proof fn lemma_insert_sorted(v: Seq<String>, p: int, x: String)
    requires
        strictly_sorted(v),
        0 <= p <= v.len(),
        forall|a: int| 0 <= a < p ==> seq_lt(#[trigger] v[a]@, x@),
        p < v.len() ==> seq_lt(x@, v[p]@),
    ensures
        strictly_sorted(v.insert(p, x)),
{
    let w = v.insert(p, x);
    assert forall|a: int, b: int| 0 <= a < b < w.len() implies seq_lt(#[trigger] w[a]@, #[trigger] w[b]@) by {
        if b < p {
        } else if b == p {
        } else if a < p {
            lemma_seq_lt_transitive(v[a]@, x@, v[p]@);
            if b - 1 > p {
                lemma_seq_lt_transitive(v[a]@, v[p]@, v[b - 1]@);
            }
        } else if a == p {
            if b - 1 > p {
                lemma_seq_lt_transitive(x@, v[p]@, v[b - 1]@);
            }
        } else {
            assert(w[a] == v[a - 1]);
            assert(w[b] == v[b - 1]);
        }
    }
}

/// Adds `x` to the strictly increasing strings of `out`, unless it is
/// there already.
pub fn insert_distinct(out: &mut Vec<String>, x: &Vec<char>)
    requires
        strictly_sorted(old(out)@),
    ensures
        strictly_sorted(final(out)@),
        forall|v: Seq<char>| #[trigger] listed(final(out)@, v) <==> (listed(old(out)@, v) || v == x@),
{
    let ghost o0 = out@;
    let mut p: usize = 0;
    let mut found = false;
    let mut done = false;
    while p < out.len() && !done
        invariant
            out@ == o0,
            p <= out@.len(),
            strictly_sorted(out@),
            forall|a: int| 0 <= a < p ==> seq_lt(#[trigger] out@[a]@, x@),
            !done ==> !found,
            done ==> p < out@.len(),
            done && found ==> out@[p as int]@ == x@,
            done && !found ==> out@[p as int]@ != x@ && !seq_lt(out@[p as int]@, x@),
        decreases out@.len() - p, if done { 0int } else { 1int },
    {
        let y = chars_of(out[p].as_str());
        if chars_eq(&y, x) {
            found = true;
            done = true;
        } else if !chars_lt(&y, x) {
            done = true;
        } else {
            p += 1;
        }
    }
    if found {
        assert(out@[p as int]@ == x@);
    } else {
        proof {
            if p < out@.len() {
                lemma_seq_lt_total(out@[p as int]@, x@);
            }
        }
        let sx = string_of(x);
        proof { lemma_insert_sorted(o0, p as int, sx); }
        out.insert(p, sx);
        assert(out@ == o0.insert(p as int, sx));
        assert(out@[p as int]@ == x@);
        assert forall|v: Seq<char>| listed(o0, v) implies listed(out@, v) by {
            let k = choose|k: int| 0 <= k < o0.len() && #[trigger] o0[k]@ == v;
            if k < p {
                assert(out@[k]@ == v);
            } else {
                assert(out@[k + 1]@ == v);
            }
        }
        assert forall|v: Seq<char>| listed(out@, v) implies listed(o0, v) || v == x@ by {
            let k = choose|k: int| 0 <= k < out@.len() && #[trigger] out@[k]@ == v;
            if k < p {
                assert(o0[k]@ == v);
            } else if k > p {
                assert(o0[k - 1]@ == v);
            }
        }
    }
}

} // verus!
