//! CSV read piece by piece, for inputs too large to hold at once.
//!
//! A [`StreamReader`] is fed the text in chunks and reports each field and
//! each row end as soon as it is complete. Writers turn those events into
//! unaligned output in one pass ([`UnalignWriter`]), or into aligned output
//! in two: [`WidthTally`] measures the columns on a first read, and
//! [`AlignWriter`] pads the fields on a second.

use vstd::prelude::*;
use crate::text::{chars_of, string_of, push_all, push_char};
use crate::csv::{
    Mode, Act, Scan, next_mode, next_mode_exec, scan_from, fresh, csv_rows, advance, max_cols, col_width,
    max_nat, trim_spaces, trimmed_field, pad, padded_field, join_row, unaligned, aligned, trimmed_rows,
    padded_rows, line_breaks, lines_with, break_at,
};
use crate::roundtrip::{lemma_breaks_len, lemma_breaks_cr};

verus! {

// ---------------------------------------------------------------------------
// Events
// ---------------------------------------------------------------------------

/// What the reader reports.
pub enum Event {
    /// A complete field, raw.
    Field(String),
    /// The end of a row: `true` when a line break ended it, `false` for a
    /// last row the text ends without one.
    RowEnd(bool),
    /// One character of the line break after a row, as read.
    LineBreak(char),
}

/// An event as a mathematical value.
pub enum EventView {
    Field(Seq<char>),
    RowEnd(bool),
    /// One character of a line break, as a text of that one character.
    LineBreak(Seq<char>),
}

impl View for Event {
    type V = EventView;

    open spec fn view(&self) -> EventView {
        match self {
            Event::Field(f) => EventView::Field(f@),
            Event::RowEnd(nl) => EventView::RowEnd(*nl),
            Event::LineBreak(c) => EventView::LineBreak(seq![*c]),
        }
    }
}

/// The views of a sequence of events.
pub open spec fn views(v: Seq<Event>) -> Seq<EventView> {
    Seq::new(v.len(), |k: int| v[k]@)
}

/// A field event for every field of a row.
pub open spec fn field_events(row: Seq<Seq<char>>) -> Seq<EventView> {
    Seq::new(row.len(), |j: int| EventView::Field(row[j]))
}

/// A break event for every character of a line break.
pub open spec fn brk_events(b: Seq<char>) -> Seq<EventView> {
    Seq::new(b.len(), |k: int| EventView::LineBreak(seq![b[k]]))
}

/// The events of complete rows: each field, the end of the row, then the
/// characters of its line break `brk[i]`.
pub open spec fn rows_events(rows: Seq<Seq<Seq<char>>>, brk: Seq<Seq<char>>) -> Seq<EventView>
    decreases rows.len(),
{
    if rows.len() == 0 {
        seq![]
    } else {
        rows_events(rows.drop_last(), brk) + field_events(rows.last()) + seq![EventView::RowEnd(true)]
            + brk_events(break_at(brk, rows.len() - 1))
    }
}

/// The events reported once the text `s` has been read: those of every
/// row completed, with its line break as read so far, and the fields of the
/// current row completed so far.
pub open spec fn events_so_far(s: Seq<char>) -> Seq<EventView> {
    let st = scan_from(fresh(), s);
    rows_events(st.rows, line_breaks(s)) + field_events(st.row)
}

/// All the events of the text `s`: those reported while reading it, then,
/// when an unfinished row holds something, its last field and its end
/// without a line break.
pub open spec fn stream_events(s: Seq<char>) -> Seq<EventView> {
    let st = scan_from(fresh(), s);
    if st.field.len() > 0 || st.row.len() > 0 {
        events_so_far(s) + seq![EventView::Field(st.field), EventView::RowEnd(false)]
    } else {
        events_so_far(s)
    }
}

proof fn lemma_rows_events_frame(rows: Seq<Seq<Seq<char>>>, b1: Seq<Seq<char>>, b2: Seq<Seq<char>>)
    requires
        forall|i: int| 0 <= i < rows.len() ==> break_at(b1, i) == break_at(b2, i),
    ensures
        rows_events(rows, b1) == rows_events(rows, b2),
    decreases rows.len(),
{
    if rows.len() > 0 {
        lemma_rows_events_frame(rows.drop_last(), b1, b2);
        assert(break_at(b1, rows.len() - 1) == break_at(b2, rows.len() - 1));
    }
}

proof fn lemma_cr_seen_clear(t: Seq<char>)
    ensures
        scan_from(fresh(), t).mode == Mode::CrSeen ==> scan_from(fresh(), t).field.len() == 0
            && scan_from(fresh(), t).row.len() == 0,
    decreases t.len(),
{
    if t.len() > 0 {
        lemma_cr_seen_clear(t.drop_last());
    }
}

/// The events one more character completes, read in state `st`.
pub open spec fn step_events(st: Scan, c: char) -> Seq<EventView> {
    let act = next_mode(st.mode, c).1;
    if act == Act::EndField {
        seq![EventView::Field(st.field)]
    } else if act == Act::EndRow {
        seq![EventView::Field(st.field), EventView::RowEnd(true), EventView::LineBreak(seq![c])]
    } else if act == Act::Skip {
        seq![EventView::LineBreak(seq![c])]
    } else {
        Seq::<EventView>::empty()
    }
}

proof fn lemma_feed_step(before: Seq<char>, c: char)
    ensures
        events_so_far(before.push(c)) == events_so_far(before) + step_events(scan_from(fresh(), before), c),
{
    let after = before.push(c);
    let st = scan_from(fresh(), before);
    assert(after.drop_last() =~= before);
    assert(after.last() == c);
    let st2 = advance(st, c);
    assert(scan_from(fresh(), after) == st2);
    let act = next_mode(st.mode, c).1;
    let b = line_breaks(before);
    let b2 = line_breaks(after);
    lemma_breaks_len(fresh(), before);
    let d = step_events(st, c);
    if act == Act::EndField {
        assert(b2 == b);
        assert(field_events(st2.row) =~= field_events(st.row).push(EventView::Field(st.field)));
        assert(events_so_far(after) =~= events_so_far(before) + d);
    } else if act == Act::EndRow {
        assert(b2 == b.push(seq![c]));
        lemma_rows_events_frame(st.rows, b, b2);
        assert(field_events(st.row.push(st.field)) =~= field_events(st.row).push(EventView::Field(st.field)));
        assert(st2.rows.drop_last() =~= st.rows);
        assert(field_events(st2.row) =~= Seq::<EventView>::empty());
        assert(break_at(b2, st2.rows.len() - 1) == seq![c]);
        assert(brk_events(seq![c]) =~= seq![EventView::LineBreak(seq![c])]);
        assert(rows_events(st2.rows, b2) == rows_events(st.rows, b2) + field_events(st.row.push(st.field))
            + seq![EventView::RowEnd(true)] + brk_events(seq![c]));
        assert(events_so_far(after) =~= events_so_far(before) + d);
    } else if act == Act::Skip {
        lemma_cr_seen_clear(before);
        lemma_breaks_cr(fresh(), before);
        assert(b2 == b.update(b.len() - 1, b.last().push(c)));
        let k = st.rows.len() - 1;
        lemma_rows_events_frame(st.rows.drop_last(), b, b2);
        assert(break_at(b2, k) == b.last().push(c));
        assert(brk_events(b.last().push(c)) =~= brk_events(b.last()).push(EventView::LineBreak(seq![c])));
        assert(field_events(st.row) =~= Seq::<EventView>::empty());
        assert(st2.rows == st.rows && st2.row == st.row);
        assert(rows_events(st.rows, b2) =~= rows_events(st.rows, b).push(EventView::LineBreak(seq![c])));
        assert(events_so_far(after) =~= events_so_far(before) + d);
    } else {
        assert(b2 == b);
        assert(events_so_far(after) =~= events_so_far(before) + d);
    }
}

// ---------------------------------------------------------------------------
// Reading
// ---------------------------------------------------------------------------

/// Reads CSV text fed in chunks.
pub struct StreamReader {
    pub mode: Mode,
    pub field: Vec<char>,
    /// The current row has a complete field already.
    pub row_dirty: bool,
    /// The text fed so far.
    pub text: Ghost<Seq<char>>,
}

impl StreamReader {
    /// The reader's state is that of reading its text.
    pub open spec fn wf(&self) -> bool {
        let st = scan_from(fresh(), self.text@);
        &&& st.mode == self.mode
        &&& st.field == self.field@
        &&& self.row_dirty == (st.row.len() > 0)
    }

    /// A reader that has read nothing.
    pub fn new() -> (r: StreamReader)
        ensures
            r.wf(),
            r.text@ == Seq::<char>::empty(),
    {
        StreamReader { mode: Mode::Start, field: Vec::new(), row_dirty: false, text: Ghost(Seq::empty()) }
    }

    /// Reads one more chunk and reports the events it completes.
    pub fn feed(&mut self, chunk: &str) -> (events: Vec<Event>)
        requires
            old(self).wf(),
        ensures
            final(self).wf(),
            final(self).text@ == old(self).text@ + chunk@,
            events_so_far(old(self).text@) + views(events@) == events_so_far(final(self).text@),
    {
        let chars = chars_of(chunk);
        let ghost t0 = self.text@;
        let mut out: Vec<Event> = Vec::new();
        let mut i: usize = 0;
        assert(t0 + chars@.take(0) =~= t0);
        assert(views(out@) =~= Seq::<EventView>::empty());
        while i < chars.len()
            invariant
                i <= chars.len(),
                chars@ == chunk@,
                self.text@ == t0 + chars@.take(i as int),
                self.wf(),
                events_so_far(t0) + views(out@) == events_so_far(self.text@),
            decreases chars.len() - i,
        {
            let c = chars[i];
            let ghost before = self.text@;
            let ghost st = scan_from(fresh(), before);
            let ghost seen = views(out@);
            let (m, act) = next_mode_exec(self.mode, c);
            match act {
                Act::Append => {
                    self.field.push(c);
                },
                Act::EndField => {
                    let f = string_of(&self.field);
                    out.push(Event::Field(f));
                    self.field = Vec::new();
                    self.row_dirty = true;
                },
                Act::EndRow => {
                    let f = string_of(&self.field);
                    out.push(Event::Field(f));
                    out.push(Event::RowEnd(true));
                    out.push(Event::LineBreak(c));
                    self.field = Vec::new();
                    self.row_dirty = false;
                },
                Act::Skip => {
                    out.push(Event::LineBreak(c));
                },
            }
            self.mode = m;
            self.text = Ghost(before.push(c));
            proof {
                assert(t0 + chars@.take(i + 1) =~= before.push(c));
                let after = before.push(c);
                assert(after.drop_last() =~= before);
                assert(after.last() == c);
                assert(scan_from(fresh(), after) == advance(st, c));
                assert(self.field@ =~= advance(st, c).field);
                lemma_feed_step(before, c);
                let e0 = events_so_far(t0);
                let d = step_events(st, c);
                if act == Act::EndField {
                    assert(views(out@) =~= seen + d);
                } else if act == Act::EndRow {
                    assert(views(out@) =~= seen + d);
                } else if act == Act::Skip {
                    assert(views(out@) =~= seen + d);
                } else {
                    assert(views(out@) =~= seen + d);
                }
                assert(e0 + views(out@) =~= (e0 + seen) + d);
            }
            i += 1;
        }
        assert(chars@.take(chars.len() as int) =~= chars@);
        out
    }

    /// Reports the events left once the text is over: the last field and
    /// the end of an unfinished row that holds something.
    pub fn finish(&self) -> (events: Vec<Event>)
        requires
            self.wf(),
        ensures
            events_so_far(self.text@) + views(events@) == stream_events(self.text@),
    {
        let mut out: Vec<Event> = Vec::new();
        if self.field.len() > 0 || self.row_dirty {
            let f = string_of(&self.field);
            out.push(Event::Field(f));
            out.push(Event::RowEnd(false));
            assert(views(out@) =~= seq![EventView::Field(self.field@), EventView::RowEnd(false)]);
        } else {
            assert(views(out@) =~= Seq::<EventView>::empty());
        }
        out
    }
}

// ---------------------------------------------------------------------------
// Unaligned output
// ---------------------------------------------------------------------------

/// The events start a row: none yet, or the last one ended a row or was
/// part of its line break.
pub open spec fn at_row_start(evs: Seq<EventView>) -> bool {
    evs.len() == 0 || evs.last() is RowEnd || evs.last() is LineBreak
}

/// The unaligned text of a run of events: the fields of a row joined by
/// commas, each without its trailing spaces, and the line breaks as read.
pub open spec fn unalign_output(evs: Seq<EventView>) -> Seq<char>
    decreases evs.len(),
{
    if evs.len() == 0 {
        seq![]
    } else {
        let prev = unalign_output(evs.drop_last());
        match evs.last() {
            EventView::Field(f) => prev + (if at_row_start(evs.drop_last()) { Seq::<char>::empty() } else { seq![','] })
                + trim_spaces(f),
            EventView::RowEnd(_) => prev,
            EventView::LineBreak(t) => prev + t,
        }
    }
}

/// Writes events as unaligned text.
pub struct UnalignWriter {
    pub first_in_row: bool,
    /// The events written so far.
    pub seen: Ghost<Seq<EventView>>,
}

impl UnalignWriter {
    /// The writer's state agrees with the events written.
    pub open spec fn wf(&self) -> bool {
        self.first_in_row == at_row_start(self.seen@)
    }

    /// A writer that has written nothing.
    pub fn new() -> (w: UnalignWriter)
        ensures
            w.wf(),
            w.seen@ == Seq::<EventView>::empty(),
    {
        UnalignWriter { first_in_row: true, seen: Ghost(Seq::empty()) }
    }

    /// The text to write for one more event.
    pub fn write(&mut self, ev: &Event) -> (out: String)
        requires
            old(self).wf(),
        ensures
            final(self).wf(),
            final(self).seen@ == old(self).seen@.push(ev@),
            unalign_output(final(self).seen@) == unalign_output(old(self).seen@) + out@,
    {
        let ghost s0 = self.seen@;
        let mut out = String::new();
        match ev {
            Event::Field(f) => {
                if !self.first_in_row {
                    push_char(&mut out, ',');
                }
                let v = chars_of(f.as_str());
                push_all(&mut out, &trimmed_field(&v));
                self.first_in_row = false;
            },
            Event::RowEnd(_) => {
                self.first_in_row = true;
            },
            Event::LineBreak(c) => {
                push_char(&mut out, *c);
                self.first_in_row = true;
            },
        }
        self.seen = Ghost(s0.push(ev@));
        assert(self.seen@.drop_last() =~= s0);
        out
    }
}

// ---------------------------------------------------------------------------
// What the unaligned stream writes
// ---------------------------------------------------------------------------

proof fn lemma_unalign_concat(a: Seq<EventView>, b: Seq<EventView>)
    requires
        at_row_start(a),
    ensures
        unalign_output(a + b) == unalign_output(a) + unalign_output(b),
    decreases b.len(),
{
    if b.len() == 0 {
        assert(a + b =~= a);
    } else {
        let bp = b.drop_last();
        lemma_unalign_concat(a, bp);
        assert((a + b).drop_last() =~= a + bp);
        assert((a + b).last() == b.last());
        if bp.len() > 0 {
            assert((a + bp).last() == bp.last());
        } else {
            assert(a + bp =~= a);
        }
    }
}

proof fn lemma_unalign_fields(row: Seq<Seq<char>>)
    ensures
        unalign_output(field_events(row)) == join_row(Seq::new(row.len(), |j: int| trim_spaces(row[j]))),
    decreases row.len(),
{
    let tr = Seq::new(row.len(), |j: int| trim_spaces(row[j]));
    if row.len() == 0 {
        assert(field_events(row) =~= Seq::<EventView>::empty());
    } else {
        let rp = row.drop_last();
        lemma_unalign_fields(rp);
        assert(field_events(row).drop_last() =~= field_events(rp));
        assert(tr.drop_last() =~= Seq::new(rp.len(), |j: int| trim_spaces(rp[j])));
        if row.len() == 1 {
            assert(field_events(rp) =~= Seq::<EventView>::empty());
        }
    }
}

proof fn lemma_rows_events_start(rows: Seq<Seq<Seq<char>>>, brk: Seq<Seq<char>>)
    ensures
        at_row_start(rows_events(rows, brk)),
{
    if rows.len() > 0 {
        let b = brk_events(break_at(brk, rows.len() - 1));
        let r = rows_events(rows, brk);
        if b.len() > 0 {
            assert(r.last() == b.last());
        } else {
            assert(r.last() == EventView::RowEnd(true));
        }
    }
}

proof fn lemma_unalign_breaks(b: Seq<char>)
    ensures
        unalign_output(brk_events(b)) == b,
    decreases b.len(),
{
    if b.len() > 0 {
        lemma_unalign_breaks(b.drop_last());
        assert(brk_events(b).drop_last() =~= brk_events(b.drop_last()));
        assert(b.drop_last().push(b.last()) =~= b);
    } else {
        assert(brk_events(b) =~= Seq::<EventView>::empty());
    }
}

proof fn lemma_unalign_rows(rows: Seq<Seq<Seq<char>>>, brk: Seq<Seq<char>>)
    ensures
        unalign_output(rows_events(rows, brk)) == lines_with(trimmed_rows(rows), brk),
    decreases rows.len(),
{
    if rows.len() > 0 {
        let rp = rows.drop_last();
        lemma_unalign_rows(rp, brk);
        lemma_rows_events_start(rp, brk);
        let f = field_events(rows.last());
        let fe = f + seq![EventView::RowEnd(true)];
        let be = brk_events(break_at(brk, rows.len() - 1));
        assert(rows_events(rows, brk) =~= rows_events(rp, brk) + (fe + be));
        lemma_unalign_concat(rows_events(rp, brk), fe + be);
        assert(at_row_start(fe));
        lemma_unalign_concat(fe, be);
        lemma_unalign_breaks(break_at(brk, rows.len() - 1));
        assert(fe.drop_last() =~= f);
        lemma_unalign_fields(rows.last());
        assert(trimmed_rows(rows).drop_last() =~= trimmed_rows(rp));
        assert(trimmed_rows(rows).last() =~= Seq::new(rows.last().len(), |j: int| trim_spaces(rows.last()[j])));
    }
}

/// Writing the events of a text with an [`UnalignWriter`] gives the same
/// text as [`crate::csv::unalign`].
pub proof fn law_stream_unalign_matches_unalign(s: Seq<char>)
    ensures
        unalign_output(stream_events(s)) == unaligned(s),
{
    let st = scan_from(fresh(), s);
    let b = line_breaks(s);
    lemma_breaks_len(fresh(), s);
    lemma_unalign_rows(st.rows, b);
    lemma_rows_events_start(st.rows, b);
    if st.field.len() > 0 || st.row.len() > 0 {
        let row2 = st.row.push(st.field);
        let rows2 = st.rows.push(row2);
        let tail = field_events(st.row) + seq![EventView::Field(st.field), EventView::RowEnd(false)];
        assert(stream_events(s) =~= rows_events(st.rows, b) + tail);
        lemma_unalign_concat(rows_events(st.rows, b), tail);
        assert(field_events(row2) =~= field_events(st.row).push(EventView::Field(st.field)));
        lemma_unalign_fields(row2);
        assert(tail.drop_last() =~= field_events(row2));
        assert(trimmed_rows(rows2).drop_last() =~= trimmed_rows(st.rows));
        assert(trimmed_rows(rows2).last() =~= Seq::new(row2.len(), |j: int| trim_spaces(row2[j])));
        assert(break_at(b, st.rows.len() as int) =~= Seq::<char>::empty());
    } else {
        assert(field_events(st.row) =~= Seq::<EventView>::empty());
        assert(stream_events(s) =~= rows_events(st.rows, b));
    }
}

// ---------------------------------------------------------------------------
// Aligned output
// ---------------------------------------------------------------------------

/// The rows a run of events describes: a field at the start of a row opens
/// a new row, and a row end with no field before it stands for an empty row.
pub open spec fn event_table(evs: Seq<EventView>) -> Seq<Seq<Seq<char>>>
    decreases evs.len(),
{
    if evs.len() == 0 {
        seq![]
    } else {
        let t = event_table(evs.drop_last());
        let opens = at_row_start(evs.drop_last());
        match evs.last() {
            EventView::Field(f) => if opens { t.push(seq![f]) } else { t.update(t.len() - 1, t.last().push(f)) },
            EventView::RowEnd(_) => if opens { t.push(Seq::<Seq<char>>::empty()) } else { t },
            EventView::LineBreak(_) => t,
        }
    }
}

/// The column the next field of a run of events falls in.
pub open spec fn next_col(evs: Seq<EventView>) -> nat {
    if at_row_start(evs) { 0 } else { event_table(evs).last().len() }
}

/// The width `w` gives column `c`: nothing beyond its end.
pub open spec fn width_at(w: Seq<nat>, c: int) -> nat {
    if 0 <= c < w.len() { w[c] } else { 0 }
}

/// The column widths of a table.
pub open spec fn table_widths(t: Seq<Seq<Seq<char>>>) -> Seq<nat> {
    Seq::new(max_cols(t), |c: int| col_width(t, c))
}

/// The aligned text of a run of events with column widths `w`: each field
/// padded to its column's width, the fields of a row joined by commas, and
/// the line breaks as read.
pub open spec fn align_output(evs: Seq<EventView>, w: Seq<nat>) -> Seq<char>
    decreases evs.len(),
{
    if evs.len() == 0 {
        seq![]
    } else {
        let prev = align_output(evs.drop_last(), w);
        let before = evs.drop_last();
        match evs.last() {
            EventView::Field(f) => prev
                + (if at_row_start(before) { Seq::<char>::empty() } else { seq![','] })
                + pad(f, width_at(w, next_col(before) as int)),
            EventView::RowEnd(_) => prev,
            EventView::LineBreak(t) => prev + t,
        }
    }
}

proof fn lemma_event_table_nonempty(evs: Seq<EventView>)
    ensures
        !at_row_start(evs) ==> event_table(evs).len() > 0,
    decreases evs.len(),
{
    if evs.len() > 0 {
        lemma_event_table_nonempty(evs.drop_last());
    }
}

proof fn lemma_col_width_beyond(t: Seq<Seq<Seq<char>>>, c: int)
    requires
        c >= max_cols(t),
    ensures
        col_width(t, c) == 0,
    decreases t.len(),
{
    if t.len() > 0 {
        lemma_col_width_beyond(t.drop_last(), c);
    }
}

/// Measures the columns of a run of events.
pub struct WidthTally {
    pub widths: Vec<usize>,
    pub col_idx: usize,
    /// The events measured so far.
    pub seen: Ghost<Seq<EventView>>,
}

impl WidthTally {
    /// The widths are those of the rows seen, and the column index that of
    /// the next field.
    pub open spec fn wf(&self) -> bool {
        let t = event_table(self.seen@);
        &&& self.widths@.len() == max_cols(t)
        &&& forall|c: int| 0 <= c < self.widths@.len() ==> #[trigger] self.widths@[c] == col_width(t, c)
        &&& self.col_idx == next_col(self.seen@)
    }

    /// A tally of no events.
    pub fn new() -> (w: WidthTally)
        ensures
            w.wf(),
            w.seen@ == Seq::<EventView>::empty(),
    {
        WidthTally { widths: Vec::new(), col_idx: 0, seen: Ghost(Seq::empty()) }
    }

    /// Measures one more event.
    pub fn observe(&mut self, ev: &Event)
        requires
            old(self).wf(),
        ensures
            final(self).wf(),
            final(self).seen@ == old(self).seen@.push(ev@),
    {
        let ghost s0 = self.seen@;
        let ghost t0 = event_table(s0);
        let ghost s1 = s0.push(ev@);
        assert(s1.drop_last() =~= s0);
        match ev {
            Event::Field(f) => {
                let cw = chars_of(f.as_str()).len();
                proof {
                    lemma_event_table_nonempty(s0);
                    if !at_row_start(s0) {
                        lemma_row_le_max(t0, t0.len() - 1);
                    }
                }
                let ghost n0 = self.widths@.len();
                while self.widths.len() <= self.col_idx
                    invariant
                        self.col_idx == next_col(s0),
                        n0 == max_cols(t0),
                        self.col_idx <= n0,
                        self.widths@.len() >= max_cols(t0),
                        self.widths@.len() == n0 || self.widths@.len() <= self.col_idx + 1,
                        forall|c: int| 0 <= c < self.widths@.len() ==> #[trigger] self.widths@[c] == col_width(t0, c),
                    decreases self.col_idx + 1 - self.widths@.len(),
                {
                    proof { lemma_col_width_beyond(t0, self.widths@.len() as int); }
                    self.widths.push(0);
                }
                if cw > self.widths[self.col_idx] {
                    self.widths.set(self.col_idx, cw);
                }
                self.col_idx = self.col_idx + 1;
                proof {
                    let t1 = event_table(s1);
                    let c0 = next_col(s0) as int;
                    if at_row_start(s0) {
                        assert(t1 == t0.push(seq![f@]));
                        assert(t1.drop_last() =~= t0);
                    } else {
                        assert(t1 == t0.update(t0.len() - 1, t0.last().push(f@)));
                        assert(t1.drop_last() =~= t0.drop_last());
                        assert(t1.last() =~= t0.last().push(f@));
                    }
                    assert forall|c: int| 0 <= c < self.widths@.len() implies #[trigger] self.widths@[c] == col_width(t1, c) by {
                        if c >= max_cols(t0) {
                            lemma_col_width_beyond(t0, c);
                        }
                        if !at_row_start(s0) {
                            lemma_col_width_last(t0, c);
                        }
                    }
                    if !at_row_start(s0) {
                        lemma_max_cols_last(t0);
                    }
                    assert(self.widths@.len() == max_cols(t1));
                    assert(!at_row_start(s1));
                    assert(t1.last().len() == c0 + 1);
                    assert(self.col_idx == next_col(s1));
                }
            },
            Event::RowEnd(_) => {
                self.col_idx = 0;
                proof {
                    let t1 = event_table(s1);
                    if at_row_start(s0) {
                        assert(t1 == t0.push(Seq::<Seq<char>>::empty()));
                        assert(t1.drop_last() =~= t0);
                        assert forall|c: int| 0 <= c < self.widths@.len() implies #[trigger] self.widths@[c] == col_width(t1, c) by {
                        }
                        assert(max_cols(t1) == max_cols(t0));
                    } else {
                        assert(t1 == t0);
                    }
                    assert(at_row_start(s1));
                }
            },
            Event::LineBreak(_) => {
                self.col_idx = 0;
                proof {
                    assert(event_table(s1) == t0);
                    assert(at_row_start(s1));
                }
            },
        }
        self.seen = Ghost(s1);
    }
}

proof fn lemma_row_le_max(t: Seq<Seq<Seq<char>>>, i: int)
    requires
        0 <= i < t.len(),
    ensures
        t[i].len() <= max_cols(t),
    decreases t.len(),
{
    if i < t.len() - 1 {
        lemma_row_le_max(t.drop_last(), i);
    }
}

/// The width of a column over the rows but the last, and over the last.
proof fn lemma_col_width_last(t: Seq<Seq<Seq<char>>>, c: int)
    requires
        t.len() > 0,
    ensures
        col_width(t, c) == max_nat(col_width(t.drop_last(), c), if 0 <= c < t.last().len() { t.last()[c].len() } else { 0 }),
{
}

proof fn lemma_max_cols_last(t: Seq<Seq<Seq<char>>>)
    requires
        t.len() > 0,
    ensures
        max_cols(t) == max_nat(max_cols(t.drop_last()), t.last().len()),
{
}

/// Writes events as aligned text, given the column widths.
pub struct AlignWriter {
    pub widths: Vec<usize>,
    pub col_idx: usize,
    pub first_in_row: bool,
    /// The events written so far.
    pub seen: Ghost<Seq<EventView>>,
}

/// The widths of a vector of widths, as naturals.
pub open spec fn nat_widths(w: Seq<usize>) -> Seq<nat> {
    Seq::new(w.len(), |c: int| w[c] as nat)
}

impl AlignWriter {
    /// The writer's state agrees with the events written.
    pub open spec fn wf(&self) -> bool {
        &&& self.first_in_row == at_row_start(self.seen@)
        &&& (self.col_idx == next_col(self.seen@) || (self.col_idx == usize::MAX && next_col(self.seen@) >= usize::MAX))
    }

    /// A writer with the given column widths that has written nothing.
    pub fn new(widths: Vec<usize>) -> (w: AlignWriter)
        ensures
            w.wf(),
            w.widths == widths,
            w.seen@ == Seq::<EventView>::empty(),
    {
        AlignWriter { widths, col_idx: 0, first_in_row: true, seen: Ghost(Seq::empty()) }
    }

    /// The text to write for one more event.
    pub fn write(&mut self, ev: &Event) -> (out: String)
        requires
            old(self).wf(),
        ensures
            final(self).wf(),
            final(self).widths == old(self).widths,
            final(self).seen@ == old(self).seen@.push(ev@),
            align_output(final(self).seen@, nat_widths(final(self).widths@))
                == align_output(old(self).seen@, nat_widths(old(self).widths@)) + out@,
    {
        let ghost s0 = self.seen@;
        let ghost s1 = s0.push(ev@);
        assert(s1.drop_last() =~= s0);
        let mut out = String::new();
        match ev {
            Event::Field(f) => {
                if !self.first_in_row {
                    push_char(&mut out, ',');
                }
                let v = chars_of(f.as_str());
                let want: usize = if self.col_idx < self.widths.len() { self.widths[self.col_idx] } else { 0 };
                proof {
                    assert(want as nat == width_at(nat_widths(self.widths@), next_col(s0) as int));
                }
                push_all(&mut out, &padded_field(&v, want));
                self.first_in_row = false;
                if self.col_idx < usize::MAX {
                    self.col_idx = self.col_idx + 1;
                }
                proof {
                    lemma_event_table_nonempty(s0);
                    let t1 = event_table(s1);
                    let t0 = event_table(s0);
                    if at_row_start(s0) {
                        assert(t1 == t0.push(seq![f@]));
                    } else {
                        assert(t1 == t0.update(t0.len() - 1, t0.last().push(f@)));
                    }
                }
            },
            Event::RowEnd(_) => {
                self.first_in_row = true;
                self.col_idx = 0;
            },
            Event::LineBreak(c) => {
                push_char(&mut out, *c);
                self.first_in_row = true;
                self.col_idx = 0;
            },
        }
        self.seen = Ghost(s1);
        out
    }
}

// ---------------------------------------------------------------------------
// What the aligned stream writes
// ---------------------------------------------------------------------------

proof fn lemma_event_table_concat(a: Seq<EventView>, b: Seq<EventView>)
    requires
        at_row_start(a),
    ensures
        event_table(a + b) == event_table(a) + event_table(b),
        b.len() > 0 ==> at_row_start(a + b) == at_row_start(b),
        next_col(a + b) == next_col(b),
    decreases b.len(),
{
    if b.len() == 0 {
        assert(a + b =~= a);
    } else {
        let bp = b.drop_last();
        lemma_event_table_concat(a, bp);
        lemma_event_table_nonempty(bp);
        assert((a + b).drop_last() =~= a + bp);
        assert((a + b).last() == b.last());
        if bp.len() > 0 {
            assert((a + bp).last() == bp.last());
        } else {
            assert(a + bp =~= a);
        }
        let ta = event_table(a);
        let tb = event_table(bp);
        match b.last() {
            EventView::Field(f) => {
                if at_row_start(bp) {
                    assert((ta + tb).push(seq![f]) =~= ta + tb.push(seq![f]));
                } else {
                    assert((ta + tb).update((ta + tb).len() - 1, (ta + tb).last().push(f))
                        =~= ta + tb.update(tb.len() - 1, tb.last().push(f)));
                }
            },
            EventView::RowEnd(_) => {
                if at_row_start(bp) {
                    assert((ta + tb).push(Seq::<Seq<char>>::empty()) =~= ta + tb.push(Seq::<Seq<char>>::empty()));
                }
            },
            EventView::LineBreak(_) => {},
        }
        lemma_event_table_nonempty(b);
    }
}

proof fn lemma_event_table_fields(row: Seq<Seq<char>>)
    ensures
        event_table(field_events(row)) == (if row.len() > 0 { seq![row] } else { Seq::<Seq<Seq<char>>>::empty() }),
        at_row_start(field_events(row)) == (row.len() == 0),
    decreases row.len(),
{
    if row.len() > 0 {
        let rp = row.drop_last();
        lemma_event_table_fields(rp);
        assert(field_events(row).drop_last() =~= field_events(rp));
        if rp.len() == 0 {
            assert(seq![row.last()] =~= row);
        } else {
            assert(rp.push(row.last()) =~= row);
            assert(seq![rp].update(0, rp.push(row.last())) =~= seq![row]);
        }
    } else {
        assert(field_events(row) =~= Seq::<EventView>::empty());
    }
}

proof fn lemma_event_table_breaks(b: Seq<char>)
    ensures
        event_table(brk_events(b)) == Seq::<Seq<Seq<char>>>::empty(),
    decreases b.len(),
{
    if b.len() > 0 {
        lemma_event_table_breaks(b.drop_last());
        assert(brk_events(b).drop_last() =~= brk_events(b.drop_last()));
    } else {
        assert(brk_events(b) =~= Seq::<EventView>::empty());
    }
}

proof fn lemma_event_table_rows(rows: Seq<Seq<Seq<char>>>, brk: Seq<Seq<char>>)
    requires
        forall|a: int| 0 <= a < rows.len() ==> #[trigger] rows[a].len() > 0,
    ensures
        event_table(rows_events(rows, brk)) == rows,
    decreases rows.len(),
{
    if rows.len() > 0 {
        let rp = rows.drop_last();
        lemma_event_table_rows(rp, brk);
        lemma_rows_events_start(rp, brk);
        let f = field_events(rows.last());
        let fe = f + seq![EventView::RowEnd(true)];
        let be = brk_events(break_at(brk, rows.len() - 1));
        lemma_event_table_fields(rows.last());
        assert(rows_events(rows, brk) =~= rows_events(rp, brk) + (fe + be));
        lemma_event_table_concat(rows_events(rp, brk), fe + be);
        assert(at_row_start(fe));
        lemma_event_table_concat(fe, be);
        lemma_event_table_breaks(break_at(brk, rows.len() - 1));
        assert(fe.drop_last() =~= f);
        assert(rows.last() == rows[rows.len() - 1]);
        assert(event_table(fe) == event_table(f));
        assert(event_table(fe) + Seq::<Seq<Seq<char>>>::empty() =~= event_table(fe));
        assert(rp.push(rows.last()) =~= rows);
    }
}

proof fn lemma_rows_nonempty(t: Seq<char>)
    ensures
        forall|a: int| 0 <= a < scan_from(fresh(), t).rows.len() ==> #[trigger] scan_from(fresh(), t).rows[a].len() > 0,
    decreases t.len(),
{
    if t.len() > 0 {
        lemma_rows_nonempty(t.drop_last());
    }
}

/// The rows of a text's stream events are the rows of the text.
pub proof fn law_stream_rows(s: Seq<char>)
    ensures
        event_table(stream_events(s)) == csv_rows(s),
{
    let st = scan_from(fresh(), s);
    let b = line_breaks(s);
    lemma_rows_nonempty(s);
    lemma_event_table_rows(st.rows, b);
    lemma_rows_events_start(st.rows, b);
    if st.field.len() > 0 || st.row.len() > 0 {
        let row2 = st.row.push(st.field);
        let tail = field_events(st.row) + seq![EventView::Field(st.field), EventView::RowEnd(false)];
        assert(stream_events(s) =~= rows_events(st.rows, b) + tail);
        lemma_event_table_concat(rows_events(st.rows, b), tail);
        assert(field_events(row2) =~= field_events(st.row).push(EventView::Field(st.field)));
        assert(tail =~= field_events(row2).push(EventView::RowEnd(false)));
        lemma_event_table_fields(row2);
        assert(tail.drop_last() =~= field_events(row2));
    } else {
        assert(field_events(st.row) =~= Seq::<EventView>::empty());
        assert(stream_events(s) =~= rows_events(st.rows, b));
    }
}

/// Every field padded to the width `w` gives its column.
pub open spec fn padded_with(rows: Seq<Seq<Seq<char>>>, w: Seq<nat>) -> Seq<Seq<Seq<char>>> {
    Seq::new(rows.len(), |i: int| Seq::new(rows[i].len(), |j: int| pad(rows[i][j], width_at(w, j))))
}

proof fn lemma_align_row(a: Seq<EventView>, r: Seq<Seq<char>>, w: Seq<nat>)
    requires
        at_row_start(a),
        r.len() > 0,
    ensures
        align_output(a + field_events(r), w) == align_output(a, w)
            + join_row(Seq::new(r.len(), |j: int| pad(r[j], width_at(w, j)))),
    decreases r.len(),
{
    let pr = Seq::new(r.len(), |j: int| pad(r[j], width_at(w, j)));
    let rp = r.drop_last();
    let e = a + field_events(r);
    assert(e.drop_last() =~= a + field_events(rp));
    assert(e.last() == EventView::Field(r.last()));
    lemma_event_table_concat(a, field_events(rp));
    lemma_event_table_fields(rp);
    if rp.len() == 0 {
        assert(field_events(rp) =~= Seq::<EventView>::empty());
        assert(a + field_events(rp) =~= a);
    } else {
        lemma_align_row(a, rp, w);
        assert(pr.drop_last() =~= Seq::new(rp.len(), |j: int| pad(rp[j], width_at(w, j))));
        assert((a + field_events(rp)).last() == EventView::Field(rp.last()));
    }
}

proof fn lemma_align_breaks(a: Seq<EventView>, b: Seq<char>, w: Seq<nat>)
    ensures
        align_output(a + brk_events(b), w) == align_output(a, w) + b,
    decreases b.len(),
{
    if b.len() > 0 {
        lemma_align_breaks(a, b.drop_last(), w);
        let e = a + brk_events(b);
        assert(e.drop_last() =~= a + brk_events(b.drop_last()));
        assert(e.last() == EventView::LineBreak(seq![b.last()]));
        assert(b.drop_last().push(b.last()) =~= b);
    } else {
        assert(a + brk_events(b) =~= a);
    }
}

proof fn lemma_align_rows(rows: Seq<Seq<Seq<char>>>, brk: Seq<Seq<char>>, w: Seq<nat>)
    requires
        forall|a: int| 0 <= a < rows.len() ==> #[trigger] rows[a].len() > 0,
    ensures
        align_output(rows_events(rows, brk), w) == lines_with(padded_with(rows, w), brk),
    decreases rows.len(),
{
    if rows.len() > 0 {
        let rp = rows.drop_last();
        lemma_align_rows(rp, brk, w);
        lemma_rows_events_start(rp, brk);
        let f = field_events(rows.last());
        assert(rows.last() == rows[rows.len() - 1]);
        lemma_align_row(rows_events(rp, brk), rows.last(), w);
        let x = rows_events(rp, brk) + f;
        let y = x.push(EventView::RowEnd(true));
        assert(y.drop_last() =~= x);
        let b = break_at(brk, rows.len() - 1);
        lemma_align_breaks(y, b, w);
        assert(rows_events(rows, brk) =~= y + brk_events(b));
        assert(padded_with(rows, w).drop_last() =~= padded_with(rp, w));
        assert(padded_with(rows, w).last() =~= Seq::new(rows.last().len(), |j: int| pad(rows.last()[j], width_at(w, j))));
    }
}

pub proof fn lemma_widths_agree(rows: Seq<Seq<Seq<char>>>)
    ensures
        padded_with(rows, table_widths(rows)) == padded_rows(rows),
{
    assert(padded_with(rows, table_widths(rows)) =~= padded_rows(rows)) by {
        assert forall|i: int| 0 <= i < rows.len() implies #[trigger] padded_with(rows, table_widths(rows))[i]
            =~= padded_rows(rows)[i] by {
            assert forall|j: int| 0 <= j < rows[i].len() implies width_at(table_widths(rows), j) == col_width(rows, j) by {
                lemma_row_le_max(rows, i);
            }
        }
    }
}

/// Measuring the events of a text with a [`WidthTally`] and writing them
/// again with an [`AlignWriter`] gives the same text as
/// [`crate::csv::align`].
pub proof fn law_stream_align_matches_align(s: Seq<char>)
    ensures
        align_output(stream_events(s), table_widths(csv_rows(s))) == aligned(s),
{
    let st = scan_from(fresh(), s);
    let rows = csv_rows(s);
    let b = line_breaks(s);
    let w = table_widths(rows);
    lemma_breaks_len(fresh(), s);
    lemma_rows_nonempty(s);
    lemma_widths_agree(rows);
    lemma_rows_events_start(st.rows, b);
    lemma_align_rows(st.rows, b, w);
    if st.field.len() > 0 || st.row.len() > 0 {
        let row2 = st.row.push(st.field);
        let e = stream_events(s);
        assert(field_events(row2) =~= field_events(st.row).push(EventView::Field(st.field)));
        let x = rows_events(st.rows, b) + field_events(row2);
        assert(e =~= x.push(EventView::RowEnd(false)));
        assert(e.drop_last() =~= x);
        assert(row2.len() > 0);
        lemma_align_row(rows_events(st.rows, b), row2, w);
        assert(rows.drop_last() =~= st.rows);
        assert(padded_with(rows, w).drop_last() =~= padded_with(st.rows, w));
        assert(padded_with(rows, w).last() =~= Seq::new(row2.len(), |j: int| pad(row2[j], width_at(w, j))));
        assert(break_at(b, st.rows.len() as int) =~= Seq::<char>::empty());
    } else {
        assert(field_events(st.row) =~= Seq::<EventView>::empty());
        assert(stream_events(s) =~= rows_events(st.rows, b));
    }
}

} // verus!
