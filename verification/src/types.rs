//! What kind of value a single cell holds.
//!
//! A cell is trimmed and then read, in this order, as an integer, a decimal
//! number, an ISO-style date or timestamp, or plain text.

use vstd::prelude::*;
use crate::text::{chars_of, trim_chars, trim_ws, slice_chars};

verus! {

/// The kind of value a cell (or a whole column) holds.
#[derive(Debug, Clone, Copy, PartialEq, Eq, Structural, Hash)]
pub enum CellType {
    Empty,
    Int,
    Float,
    Date,
    String,
}

impl CellType {
    /// The lower-case name of the kind, as shown to users.
    pub open spec fn label_text(self) -> Seq<char> {
        match self {
            CellType::Empty => seq!['e', 'm', 'p', 't', 'y'],
            CellType::Int => seq!['i', 'n', 't'],
            CellType::Float => seq!['f', 'l', 'o', 'a', 't'],
            CellType::Date => seq!['d', 'a', 't', 'e'],
            CellType::String => seq!['s', 't', 'r', 'i', 'n', 'g'],
        }
    }

    /// The lower-case name of the kind (`"int"`, `"date"`, ...).
    pub fn label(self) -> (r: &'static str)
        ensures
            r@ == self.label_text(),
    {
        match self {
            CellType::Empty => {
                let r = "empty";
                proof { reveal_strlit("empty"); }
                r
            },
            CellType::Int => {
                let r = "int";
                proof { reveal_strlit("int"); }
                r
            },
            CellType::Float => {
                let r = "float";
                proof { reveal_strlit("float"); }
                r
            },
            CellType::Date => {
                let r = "date";
                proof { reveal_strlit("date"); }
                r
            },
            CellType::String => {
                let r = "string";
                proof { reveal_strlit("string"); }
                r
            },
        }
    }
}

// ---------------------------------------------------------------------------
// Numbers
// ---------------------------------------------------------------------------

/// An ASCII decimal digit.
pub open spec fn is_digit(c: char) -> bool {
    '0' <= c && c <= '9'
}

/// `s[lo..hi]` is all digits (vacuously so when empty).
pub open spec fn digits_at(s: Seq<char>, lo: int, hi: int) -> bool {
    forall|k: int| lo <= k < hi ==> is_digit(#[trigger] s[k])
}

/// A sign character.
pub open spec fn is_sign(c: char) -> bool {
    c == '+' || c == '-'
}

/// `s[lo..hi]` is an optional sign followed by one or more digits.
pub open spec fn signed_digits(s: Seq<char>, lo: int, hi: int) -> bool {
    let st = if lo < hi && is_sign(s[lo]) { lo + 1 } else { lo };
    st < hi && digits_at(s, st, hi)
}

/// An integer: an optional sign, then one or more ASCII digits.
pub open spec fn is_int_text(s: Seq<char>) -> bool {
    signed_digits(s, 0, s.len() as int)
}

/// `s[lo..hi]` is digits, a dot at `i`, digits, with a digit on one side
/// at least.
pub open spec fn dot_at(s: Seq<char>, lo: int, hi: int, i: int) -> bool {
    &&& lo <= i < hi
    &&& s[i] == '.'
    &&& digits_at(s, lo, i)
    &&& digits_at(s, i + 1, hi)
    &&& hi - lo >= 2
}

/// `s[lo..hi]` is `Digit+`, `Digit+ '.' Digit*` or `Digit* '.' Digit+`.
pub open spec fn is_mantissa(s: Seq<char>, lo: int, hi: int) -> bool {
    (lo < hi && digits_at(s, lo, hi)) || exists|i: int| dot_at(s, lo, hi, i)
}

/// An exponent marker.
pub open spec fn is_exp_mark(c: char) -> bool {
    c == 'e' || c == 'E'
}

/// `s[lo..hi]` is a mantissa, an exponent marker at `j`, then an optionally
/// signed run of digits.
pub open spec fn exponent_at(s: Seq<char>, lo: int, hi: int, j: int) -> bool {
    &&& lo <= j < hi
    &&& is_exp_mark(s[j])
    &&& is_mantissa(s, lo, j)
    &&& signed_digits(s, j + 1, hi)
}

/// `s[lo..hi]` is a decimal number: a mantissa with an optional exponent.
pub open spec fn is_number(s: Seq<char>, lo: int, hi: int) -> bool {
    is_mantissa(s, lo, hi) || exists|j: int| exponent_at(s, lo, hi, j)
}

/// A decimal number that is not an integer. Of the text `str::parse::<f64>`
/// accepts, this is what is written with digits, dots, signs and exponent
/// markers only (so neither `inf`, `NaN` nor hexadecimal): an optional
/// sign, then `Digit+ | Digit+ '.' Digit* | Digit* '.' Digit+`, then
/// optionally `e` or `E`, an optional sign and `Digit+`.
pub open spec fn is_float_text(s: Seq<char>) -> bool {
    let st = if s.len() > 0 && is_sign(s[0]) { 1int } else { 0int };
    !is_int_text(s) && is_number(s, st, s.len() as int)
}

fn is_digit_char(c: char) -> (b: bool)
    ensures
        b == is_digit(c),
{
    '0' <= c && c <= '9'
}

fn is_sign_char(c: char) -> (b: bool)
    ensures
        b == is_sign(c),
{
    c == '+' || c == '-'
}

fn digits_in(s: &Vec<char>, lo: usize, hi: usize) -> (b: bool)
    requires
        lo <= hi <= s.len(),
    ensures
        b == digits_at(s@, lo as int, hi as int),
{
    let mut k = lo;
    while k < hi
        invariant
            lo <= k <= hi <= s.len(),
            digits_at(s@, lo as int, k as int),
        decreases hi - k,
    {
        if !is_digit_char(s[k]) {
            return false;
        }
        k += 1;
    }
    true
}

fn signed_digits_in(s: &Vec<char>, lo: usize, hi: usize) -> (b: bool)
    requires
        lo <= hi <= s.len(),
    ensures
        b == signed_digits(s@, lo as int, hi as int),
{
    let st = if lo < hi && is_sign_char(s[lo]) { lo + 1 } else { lo };
    st < hi && digits_in(s, st, hi)
}

/// Every character of a mantissa is a digit or a dot.
proof fn lemma_mantissa_chars(s: Seq<char>, lo: int, hi: int, k: int)
    requires
        is_mantissa(s, lo, hi),
        lo <= k < hi,
    ensures
        is_digit(s[k]) || s[k] == '.',
{
    if !(lo < hi && digits_at(s, lo, hi)) {
        let i = choose|i: int| dot_at(s, lo, hi, i);
        if k < i {
            assert(is_digit(s[k]));
        } else if k > i {
            assert(is_digit(s[k]));
        }
    }
}

fn mantissa_in(s: &Vec<char>, lo: usize, hi: usize) -> (b: bool)
    requires
        lo <= hi <= s.len(),
    ensures
        b == is_mantissa(s@, lo as int, hi as int),
{
    let mut i = lo;
    while i < hi && s[i] != '.'
        invariant
            lo <= i <= hi <= s.len(),
            forall|k: int| lo <= k < i ==> s@[k] != '.',
        decreases hi - i,
    {
        i += 1;
    }
    if i == hi {
        let b = lo < hi && digits_in(s, lo, hi);
        proof {
            assert forall|d: int| !dot_at(s@, lo as int, hi as int, d) by {
                if lo <= d < hi {
                    assert(s@[d] != '.');
                }
            }
        }
        b
    } else {
        let b = digits_in(s, lo, i) && digits_in(s, i + 1, hi) && hi - lo >= 2;
        proof {
            assert(!is_digit(s@[i as int]));
            assert(!digits_at(s@, lo as int, hi as int));
            if b {
                assert(dot_at(s@, lo as int, hi as int, i as int));
            } else {
                assert forall|d: int| !dot_at(s@, lo as int, hi as int, d) by {
                    if dot_at(s@, lo as int, hi as int, d) {
                        if d < i {
                            assert(s@[d] != '.');
                        } else if d > i {
                            assert(is_digit(s@[i as int]));
                        }
                    }
                }
            }
        }
        b
    }
}

fn number_in(s: &Vec<char>, lo: usize, hi: usize) -> (b: bool)
    requires
        lo <= hi <= s.len(),
    ensures
        b == is_number(s@, lo as int, hi as int),
{
    let mut j = lo;
    while j < hi && s[j] != 'e' && s[j] != 'E'
        invariant
            lo <= j <= hi <= s.len(),
            forall|k: int| lo <= k < j ==> !is_exp_mark(#[trigger] s@[k]),
        decreases hi - j,
    {
        j += 1;
    }
    if j == hi {
        let b = mantissa_in(s, lo, hi);
        proof {
            assert forall|d: int| !exponent_at(s@, lo as int, hi as int, d) by {
                if lo <= d < hi {
                    assert(!is_exp_mark(s@[d]));
                }
            }
        }
        b
    } else {
        let b = mantissa_in(s, lo, j) && signed_digits_in(s, j + 1, hi);
        proof {
            assert(is_exp_mark(s@[j as int]));
            if is_mantissa(s@, lo as int, hi as int) {
                lemma_mantissa_chars(s@, lo as int, hi as int, j as int);
            }
            if b {
                assert(exponent_at(s@, lo as int, hi as int, j as int));
            } else {
                assert forall|d: int| !exponent_at(s@, lo as int, hi as int, d) by {
                    if exponent_at(s@, lo as int, hi as int, d) {
                        if d < j {
                            assert(!is_exp_mark(s@[d]));
                        } else if d > j {
                            lemma_mantissa_chars(s@, lo as int, d, j as int);
                        }
                    }
                }
            }
        }
        b
    }
}

fn is_int(s: &Vec<char>) -> (b: bool)
    ensures
        b == is_int_text(s@),
{
    signed_digits_in(s, 0, s.len())
}

fn is_float(s: &Vec<char>) -> (b: bool)
    ensures
        b == is_float_text(s@),
{
    if is_int(s) {
        return false;
    }
    let st: usize = if s.len() > 0 && is_sign_char(s[0]) { 1 } else { 0 };
    number_in(s, st, s.len())
}

// ---------------------------------------------------------------------------
// Dates
// ---------------------------------------------------------------------------

/// `YYYY-MM-DD` or `YYYY/MM/DD` (the same separator twice; digits only, not
/// checked as a real calendar day).
pub open spec fn is_calendar_date_text(s: Seq<char>) -> bool {
    &&& s.len() == 10
    &&& (s[4] == '-' || s[4] == '/')
    &&& s[7] == s[4]
    &&& digits_at(s, 0, 4)
    &&& digits_at(s, 5, 7)
    &&& digits_at(s, 8, 10)
}

/// `HH:MM:SS` (digits only).
pub open spec fn is_clock_time_text(s: Seq<char>) -> bool {
    &&& s.len() == 8
    &&& s[2] == ':'
    &&& s[5] == ':'
    &&& digits_at(s, 0, 2)
    &&& digits_at(s, 3, 5)
    &&& digits_at(s, 6, 8)
}

/// `+HH:MM` or `-HH:MM`.
pub open spec fn is_numeric_offset_text(s: Seq<char>) -> bool {
    &&& s.len() == 6
    &&& is_sign(s[0])
    &&& s[3] == ':'
    &&& digits_at(s, 1, 3)
    &&& digits_at(s, 4, 6)
}

/// The text ends with `Z`.
pub open spec fn ends_in_z(s: Seq<char>) -> bool {
    s.len() > 0 && s.last() == 'Z'
}

/// A clock time, alone, followed by `Z`, or followed by a numeric offset.
pub open spec fn is_time_with_offset_text(s: Seq<char>) -> bool {
    if ends_in_z(s) {
        is_clock_time_text(s.drop_last())
    } else {
        is_clock_time_text(s)
            || (s.len() == 14 && is_clock_time_text(s.take(8)) && is_numeric_offset_text(s.skip(8)))
    }
}

/// A calendar date, alone or followed by `T` and a time with an optional
/// `Z` or numeric offset.
pub open spec fn is_date_text(s: Seq<char>) -> bool {
    is_calendar_date_text(s) || (s.len() > 10 && s[10] == 'T' && is_calendar_date_text(s.take(10))
        && is_time_with_offset_text(s.skip(11)))
}

fn is_calendar_date(s: &Vec<char>) -> (b: bool)
    ensures
        b == is_calendar_date_text(s@),
{
    s.len() == 10 && (s[4] == '-' || s[4] == '/') && s[7] == s[4] && digits_in(s, 0, 4)
        && digits_in(s, 5, 7) && digits_in(s, 8, 10)
}

fn is_time(s: &Vec<char>) -> (b: bool)
    ensures
        b == is_clock_time_text(s@),
{
    s.len() == 8 && s[2] == ':' && s[5] == ':' && digits_in(s, 0, 2) && digits_in(s, 3, 5)
        && digits_in(s, 6, 8)
}

fn is_numeric_offset(s: &Vec<char>) -> (b: bool)
    ensures
        b == is_numeric_offset_text(s@),
{
    s.len() == 6 && is_sign_char(s[0]) && s[3] == ':' && digits_in(s, 1, 3) && digits_in(s, 4, 6)
}

/// How a time part splits into the time and what follows it.
pub enum Offset {
    /// Nothing follows the time.
    Absent,
    /// The time ends in `Z`.
    Utc,
    /// The time is followed by the six characters of a sign, two digits'
    /// worth of hours, a colon and minutes (only the sign and the colon are
    /// checked here).
    Numeric(Vec<char>),
}

/// Splits a time part into the time and its offset: a final `Z`, or the
/// last six characters when they start with a sign and have a colon third
/// from the end.
fn split_offset(s: &Vec<char>) -> (r: (Vec<char>, Offset))
    ensures
        ends_in_z(s@) ==> r.0@ == s@.drop_last() && r.1 is Utc,
        !ends_in_z(s@) && s@.len() >= 6 && is_sign(s@[s@.len() - 6]) && s@[s@.len() - 3] == ':'
            ==> r.0@ == s@.take(s@.len() - 6) && (r.1 matches Offset::Numeric(o) && o@ == s@.skip(s@.len() - 6)),
        !ends_in_z(s@) && !(s@.len() >= 6 && is_sign(s@[s@.len() - 6]) && s@[s@.len() - 3] == ':')
            ==> r.0@ == s@ && r.1 is Absent,
{
    let n = s.len();
    if n > 0 && s[n - 1] == 'Z' {
        let t = slice_chars(s, 0, n - 1);
        assert(t@ =~= s@.drop_last());
        return (t, Offset::Utc);
    }
    if n >= 6 {
        let cut = n - 6;
        if is_sign_char(s[cut]) && s[cut + 3] == ':' {
            let t = slice_chars(s, 0, cut);
            let o = slice_chars(s, cut, n);
            assert(t@ =~= s@.take(cut as int));
            assert(o@ =~= s@.skip(cut as int));
            return (t, Offset::Numeric(o));
        }
    }
    let t = slice_chars(s, 0, n);
    assert(t@ =~= s@);
    (t, Offset::Absent)
}

fn is_time_with_offset(s: &Vec<char>) -> (b: bool)
    ensures
        b == is_time_with_offset_text(s@),
{
    let (time, offset) = split_offset(s);
    let ok = is_time(&time);
    let r = match offset {
        Offset::Absent => ok,
        Offset::Utc => ok,
        Offset::Numeric(o) => ok && is_numeric_offset(&o),
    };
    proof {
        let n = s@.len();
        if !ends_in_z(s@) && n >= 6 && is_sign(s@[n - 6]) && s@[n - 3] == ':' {
            if n == 8 {
                assert(!is_clock_time_text(s@));
            }
            if n == 14 {
                assert(s@.take(8) =~= s@.take(n - 6));
                assert(s@.skip(8) =~= s@.skip(n - 6));
            }
        } else if !ends_in_z(s@) && n == 14 {
            assert(!is_numeric_offset_text(s@.skip(8))) by {
                assert(s@.skip(8)[0] == s@[8]);
                assert(s@.skip(8)[3] == s@[11]);
            }
        }
    }
    r
}

fn is_date(s: &Vec<char>) -> (b: bool)
    ensures
        b == is_date_text(s@),
{
    let n = s.len();
    let mut k: usize = 0;
    while k < n && s[k] != 'T'
        invariant
            k <= n == s@.len(),
            forall|j: int| 0 <= j < k ==> s@[j] != 'T',
        decreases n - k,
    {
        k += 1;
    }
    if k == n {
        let r = is_calendar_date(s);
        proof {
            if s@.len() > 10 {
                assert(s@[10] != 'T');
            }
        }
        r
    } else {
        let d = slice_chars(s, 0, k);
        let rest = slice_chars(s, k + 1, n);
        let r = is_calendar_date(&d) && is_time_with_offset(&rest);
        proof {
            assert(s@[k as int] == 'T');
            assert(!is_calendar_date_text(s@));
            if k == 10 {
                assert(d@ =~= s@.take(10));
                assert(rest@ =~= s@.skip(11));
            } else {
                assert(!is_calendar_date_text(d@));
                if s@.len() > 10 && s@[10] == 'T' {
                    assert(k < 10);
                    assert(s@.take(10)[k as int] == 'T');
                    assert(!is_calendar_date_text(s@.take(10)));
                }
            }
        }
        r
    }
}

// ---------------------------------------------------------------------------
// Cells
// ---------------------------------------------------------------------------

/// The kind of a raw cell: trimmed of whitespace, then read as empty, an
/// integer, a decimal number, a date, or else plain text.
pub open spec fn cell_type(raw: Seq<char>) -> CellType {
    let s = trim_ws(raw);
    if s.len() == 0 {
        CellType::Empty
    } else if is_int_text(s) {
        CellType::Int
    } else if is_float_text(s) {
        CellType::Float
    } else if is_date_text(s) {
        CellType::Date
    } else {
        CellType::String
    }
}

/// The number of bytes of `c` in UTF-8.
pub open spec fn utf8_width(c: char) -> nat {
    let u = c as u32;
    if u < 0x80 { 1 } else if u < 0x800 { 2 } else if u < 0x10000 { 3 } else { 4 }
}

/// The number of bytes of `s` in UTF-8.
pub open spec fn utf8_len(s: Seq<char>) -> nat
    decreases s.len(),
{
    if s.len() == 0 { 0 } else { utf8_width(s[0]) + utf8_len(s.skip(1)) }
}

/// `s` is at least six bytes long in UTF-8 and the byte offset six bytes
/// before its end falls inside a character.
pub open spec fn cut_splits_char(s: Seq<char>) -> bool {
    utf8_len(s) >= 6 && forall|k: int| 0 <= k <= s.len() ==> utf8_len(#[trigger] s.skip(k)) != 6
}

/// The raw cells that cannot be classified: after trimming, a calendar date
/// and `T`, then a time part that does not end in `Z` and whose last six
/// bytes do not start on a character boundary. Looking for a numeric offset
/// there slices the text inside a character.
pub open spec fn classify_panics(raw: Seq<char>) -> bool {
    let s = trim_ws(raw);
    &&& s.len() > 10
    &&& s[10] == 'T'
    &&& is_calendar_date_text(s.take(10))
    &&& !ends_in_z(s.skip(11))
    &&& cut_splits_char(s.skip(11))
}

fn utf8_width_of(c: char) -> (w: usize)
    ensures
        w == utf8_width(c),
{
    let u = c as u32;
    if u < 0x80 { 1 } else if u < 0x800 { 2 } else if u < 0x10000 { 3 } else { 4 }
}

proof fn lemma_utf8_len_step(s: Seq<char>, k: int)
    requires
        0 <= k < s.len(),
    ensures
        utf8_len(s.skip(k)) == utf8_width(s[k]) + utf8_len(s.skip(k + 1)),
{
    assert(s.skip(k).skip(1) =~= s.skip(k + 1));
}

proof fn lemma_utf8_len_grows(s: Seq<char>, a: int, b: int)
    requires
        0 <= a <= b <= s.len(),
    ensures
        utf8_len(s.skip(a)) >= utf8_len(s.skip(b)) + (b - a),
    decreases b - a,
{
    if a < b {
        lemma_utf8_len_step(s, a);
        lemma_utf8_len_grows(s, a + 1, b);
    }
}

fn cut_splits_char_in(s: &Vec<char>) -> (b: bool)
    ensures
        b == cut_splits_char(s@),
{
    let mut k = s.len();
    let mut w: usize = 0;
    assert(s@.skip(s.len() as int) =~= Seq::<char>::empty());
    while k > 0 && w < 6
        invariant
            k <= s.len(),
            w == utf8_len(s@.skip(k as int)),
            w < 6 || (k < s.len() && utf8_len(s@.skip(k + 1)) < 6),
            forall|k2: int| k < k2 <= s.len() ==> utf8_len(#[trigger] s@.skip(k2)) < 6,
        decreases k,
    {
        proof { lemma_utf8_len_step(s@, k - 1); }
        k -= 1;
        w += utf8_width_of(s[k]);
    }
    if w < 6 {
        assert(s@.skip(0) =~= s@);
        false
    } else if w == 6 {
        false
    } else {
        proof {
            assert(s@.skip(0) =~= s@);
            lemma_utf8_len_grows(s@, 0, k as int);
            assert forall|k2: int| 0 <= k2 <= s.len() implies utf8_len(#[trigger] s@.skip(k2)) != 6 by {
                if k2 < k {
                    lemma_utf8_len_grows(s@, k2, k as int);
                }
            }
        }
        true
    }
}

/// Whether [`classify_cell`] accepts the raw cell (see [`classify_panics`]).
pub fn classifiable(raw: &str) -> (b: bool)
    ensures
        b == !classify_panics(raw@),
{
    let v = chars_of(raw);
    classifiable_chars(&v)
}

/// Whether [`classify_chars`] accepts the raw cell.
pub fn classifiable_chars(raw: &Vec<char>) -> (b: bool)
    ensures
        b == !classify_panics(raw@),
{
    let s = trim_chars(raw);
    let n = s.len();
    if n > 10 && s[10] == 'T' {
        let d = slice_chars(&s, 0, 10);
        let r = slice_chars(&s, 11, n);
        assert(d@ =~= s@.take(10));
        assert(r@ =~= s@.skip(11));
        let z = r.len() > 0 && r[r.len() - 1] == 'Z';
        !(is_calendar_date(&d) && !z && cut_splits_char_in(&r))
    } else {
        true
    }
}

/// The kind of value a raw cell holds.
pub fn classify_cell(raw: &str) -> (t: CellType)
    requires
        !classify_panics(raw@),
    ensures
        t == cell_type(raw@),
{
    let v = chars_of(raw);
    classify_chars(&v)
}

/// The kind of value a raw cell, given as characters, holds.
pub fn classify_chars(raw: &Vec<char>) -> (t: CellType)
    requires
        !classify_panics(raw@),
    ensures
        t == cell_type(raw@),
{
    let s = trim_chars(raw);
    if s.len() == 0 {
        CellType::Empty
    } else if is_int(&s) {
        CellType::Int
    } else if is_float(&s) {
        CellType::Float
    } else if is_date(&s) {
        CellType::Date
    } else {
        CellType::String
    }
}

} // verus!
