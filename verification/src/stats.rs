//! Summary of the values of one column: how many are empty, how many are
//! not, which distinct values occur, and the smallest and largest of them.
//!
//! For text and date columns the smallest and largest values are compared
//! as text. For numeric columns they are found by reading the values as
//! numbers, which is left to the caller: the values are handed back in
//! order for that.

use vstd::prelude::*;
use crate::text::{chars_of, string_of, trim_chars, trim_ws, listed, strictly_sorted, insert_distinct};
use crate::types::CellType;

verus! {

/// A kind whose values are summed and compared as numbers.
pub open spec fn is_numeric(ty: CellType) -> bool {
    ty == CellType::Int || ty == CellType::Float
}

/// How many of the values are blank once trimmed.
pub open spec fn blanks(values: Seq<Seq<char>>) -> nat
    decreases values.len(),
{
    if values.len() == 0 {
        0
    } else {
        blanks(values.drop_last()) + if trim_ws(values.last()).len() == 0 { 1nat } else { 0nat }
    }
}

/// The values that are not blank, trimmed, in order.
pub open spec fn filled(values: Seq<Seq<char>>) -> Seq<Seq<char>>
    decreases values.len(),
{
    if values.len() == 0 {
        seq![]
    } else {
        let prev = filled(values.drop_last());
        let t = trim_ws(values.last());
        if t.len() == 0 { prev } else { prev.push(t) }
    }
}

/// The summary of a column's values.
pub struct ValueSummary {
    /// The kind the column was summarized as.
    pub ty: CellType,
    /// How many values are not blank.
    pub count: usize,
    /// How many values are blank.
    pub empty: usize,
    /// The distinct non-blank values, trimmed, in increasing order.
    pub distinct: Vec<String>,
    /// The smallest value, compared as text (columns that are not numeric).
    pub min: Option<String>,
    /// The largest value, compared as text (columns that are not numeric).
    pub max: Option<String>,
    /// The non-blank values, trimmed, in order (numeric columns).
    pub numbers: Vec<String>,
}

proof fn lemma_filled_len(values: Seq<Seq<char>>)
    ensures
        blanks(values) + filled(values).len() == values.len(),
    decreases values.len(),
{
    if values.len() > 0 {
        lemma_filled_len(values.drop_last());
    }
}

/// Summarizes the values of a column of kind `ty`.
pub fn summarize_values(values: &Vec<String>, ty: CellType) -> (s: ValueSummary)
    ensures
        s.ty == ty,
        s.empty == blanks(values.deep_view()),
        s.count == filled(values.deep_view()).len(),
        strictly_sorted(s.distinct@),
        forall|v: Seq<char>| #[trigger] listed(s.distinct@, v) <==> filled(values.deep_view()).contains(v),
        is_numeric(ty) ==> s.min is None && s.max is None && s.numbers@.len() == filled(values.deep_view()).len()
            && forall|k: int| 0 <= k < s.numbers@.len() ==> #[trigger] s.numbers@[k]@ == filled(values.deep_view())[k],
        !is_numeric(ty) ==> s.numbers@.len() == 0
            && (s.min is Some <==> s.distinct@.len() > 0)
            && (s.max is Some <==> s.distinct@.len() > 0)
            && (s.min matches Some(m) ==> m@ == s.distinct@[0]@)
            && (s.max matches Some(m) ==> m@ == s.distinct@.last()@),
{
    let ghost vs = values.deep_view();
    let numeric = ty == CellType::Int || ty == CellType::Float;
    let mut count: usize = 0;
    let mut empty: usize = 0;
    let mut distinct: Vec<String> = Vec::new();
    let mut numbers: Vec<String> = Vec::new();
    let mut i: usize = 0;
    while i < values.len()
        invariant
            vs == values.deep_view(),
            vs.len() == values@.len(),
            numeric == is_numeric(ty),
            i <= values.len(),
            empty == blanks(vs.take(i as int)),
            count == filled(vs.take(i as int)).len(),
            empty + count == i,
            strictly_sorted(distinct@),
            forall|v: Seq<char>| #[trigger] listed(distinct@, v) <==> filled(vs.take(i as int)).contains(v),
            numeric ==> numbers@.len() == count
                && forall|k: int| 0 <= k < numbers@.len() ==> #[trigger] numbers@[k]@ == filled(vs.take(i as int))[k],
            !numeric ==> numbers@.len() == 0,
        decreases values.len() - i,
    {
        let ghost before = filled(vs.take(i as int));
        assert(vs.take(i + 1).drop_last() =~= vs.take(i as int));
        assert(vs[i as int] == values@[i as int]@);
        let raw = chars_of(values[i].as_str());
        let t = trim_chars(&raw);
        if t.len() == 0 {
            empty += 1;
        } else {
            count += 1;
            let ghost d0 = distinct@;
            insert_distinct(&mut distinct, &t);
            proof {
                let after = before.push(t@);
                assert(filled(vs.take(i + 1)) == after);
                assert forall|v: Seq<char>| #[trigger] listed(distinct@, v) <==> after.contains(v) by {
                    if after.contains(v) {
                        let k = choose|k: int| 0 <= k < after.len() && after[k] == v;
                        if k < before.len() {
                            assert(before.contains(v));
                        }
                    }
                    if before.contains(v) {
                        let k = choose|k: int| 0 <= k < before.len() && before[k] == v;
                        assert(after[k] == v);
                    }
                    if v == t@ {
                        assert(after[before.len() as int] == v);
                    }
                }
            }
            if numeric {
                let n = string_of(&t);
                numbers.push(n);
            }
        }
        i += 1;
    }
    assert(vs.take(values.len() as int) =~= vs);
    let mut min: Option<String> = None;
    let mut max: Option<String> = None;
    if !numeric && distinct.len() > 0 {
        min = Some(distinct[0].clone());
        max = Some(distinct[distinct.len() - 1].clone());
    }
    ValueSummary { ty, count, empty, distinct, min, max, numbers }
}

} // verus!
