//! A document on a piece table, with a cursor and an optional selection,
//! both byte positions in the text.

use vstd::prelude::*;
use vstd::utf8::*;
use vstd::string::StringSliceAdditionalSpecFns;
use crate::text_bytes::{
    clamp, count_newlines, insert_at, is_boundary, line_start, line_text, newline_offsets,
    remove_range, string_from_utf8, lemma_slice_valid, lemma_newline_offsets_step,
    lemma_newline_offsets_facts, lemma_newline_offsets_prefix, lemma_newline_offsets_concat, NEWLINE,
};
use crate::piece_table::PieceTable;

verus! {

/// The two ends of a selection, in the order in which they were set.
#[derive(Debug, Clone)]
pub struct Selection {
    pub start: usize,
    pub end: usize,
}

/// The ends of a selection, the smaller first.
pub open spec fn ordered(s: Selection) -> (usize, usize) {
    if s.start <= s.end {
        (s.start, s.end)
    } else {
        (s.end, s.start)
    }
}

impl Selection {
    pub fn new(start: usize, end: usize) -> (s: Selection)
        ensures
            s.start == start,
            s.end == end,
    {
        Selection { start, end }
    }

    /// Whether both ends are the same position.
    pub fn is_collapsed(&self) -> (b: bool)
        ensures
            b == (self.start == self.end),
    {
        self.start == self.end
    }

    /// The ends, the smaller first.
    pub fn normalize(&self) -> (r: (usize, usize))
        ensures
            r == ordered(*self),
    {
        if self.start <= self.end {
            (self.start, self.end)
        } else {
            (self.end, self.start)
        }
    }
}

/// Where line `p` of `t` begins: just after the last newline before byte `p`,
/// or 0.
pub open spec fn line_begin(t: Seq<u8>, p: int) -> int {
    let nl = newline_offsets(t.take(p));
    if nl.len() == 0 {
        0
    } else {
        nl.last() + 1
    }
}

/// The first newline at or after byte `p` of `t`, or the end of `t`.
pub open spec fn line_finish(t: Seq<u8>, p: int) -> int {
    let nl = newline_offsets(t.skip(p));
    if nl.len() == 0 {
        t.len() as int
    } else {
        p + nl[0]
    }
}


/// Text without newline bytes has no newline positions.
pub proof fn lemma_no_newlines(s: Seq<u8>)
    requires
        forall|k: int| 0 <= k < s.len() ==> s[k] != NEWLINE,
    ensures
        newline_offsets(s) == Seq::<int>::empty(),
    decreases s.len(),
{
    if s.len() > 0 {
        lemma_no_newlines(s.drop_last());
    }
}

/// Scanning forward from `c` to the first newline or the end finds
/// `line_finish`.
pub proof fn lemma_line_finish(t: Seq<u8>, c: int, i: int)
    requires
        0 <= c <= i <= t.len(),
        forall|k: int| c <= k < i ==> t[k] != NEWLINE,
        i < t.len() ==> t[i] == NEWLINE,
    ensures
        line_finish(t, c) == i,
{
    let r = t.skip(c);
    if i < t.len() {
        assert(r =~= t.subrange(c, i) + t.skip(i));
        lemma_newline_offsets_concat(t.subrange(c, i), t.skip(i));
        lemma_no_newlines(t.subrange(c, i));
        lemma_newline_offsets_step(t.skip(i), 0);
        assert(t.skip(i).take(0) =~= Seq::<u8>::empty());
        assert(newline_offsets(Seq::<u8>::empty()) =~= Seq::<int>::empty());
        assert(t.skip(i)[0] == NEWLINE);
        lemma_newline_offsets_prefix(t.skip(i), 1);
        assert(newline_offsets(t.skip(i).take(1))[0] == 0);
    } else {
        assert(r =~= t.subrange(c, i));
        lemma_no_newlines(r);
    }
}

/// Scanning back from `p` to just after a newline, or to 0, finds
/// `line_begin`.
pub proof fn lemma_line_begin_eq(t: Seq<u8>, p: int, i: int)
    requires
        0 <= i <= p <= t.len(),
        forall|k: int| i <= k < p ==> t[k] != NEWLINE,
        i > 0 ==> t[i - 1] == NEWLINE,
    ensures
        line_begin(t, p) == i,
{
    let u = t.take(p);
    assert(u =~= t.take(i) + t.subrange(i, p));
    lemma_newline_offsets_concat(t.take(i), t.subrange(i, p));
    lemma_no_newlines(t.subrange(i, p));
    if i > 0 {
        lemma_newline_offsets_step(t, i - 1);
        assert(t.take(i - 1 + 1) =~= t.take(i));
    } else {
        assert(t.take(0) =~= Seq::<u8>::empty());
        assert(newline_offsets(Seq::<u8>::empty()) =~= Seq::<int>::empty());
    }
    assert(newline_offsets(u) =~= newline_offsets(t.take(i)));
}

/// The start of the line of byte `p`: at or before `p`, just after a
/// newline or at 0, with no newline from it up to `p`.
pub proof fn lemma_line_begin_props(t: Seq<u8>, p: int)
    requires
        0 <= p <= t.len(),
    ensures
        0 <= line_begin(t, p) <= p,
        line_begin(t, p) > 0 ==> t[line_begin(t, p) - 1] == NEWLINE,
        forall|k: int| line_begin(t, p) <= k < p ==> t[k] != NEWLINE,
    decreases p,
{
    if p == 0 || t[p - 1] == NEWLINE {
        lemma_line_begin_eq(t, p, p);
    } else {
        lemma_line_begin_props(t, p - 1);
        lemma_line_begin_eq(t, p, line_begin(t, p - 1));
    }
}

/// The end of the line of byte `c`: at or after `c`, at a newline or at the
/// end of the text, with no newline from `c` up to it.
pub proof fn lemma_line_finish_props(t: Seq<u8>, c: int)
    requires
        0 <= c <= t.len(),
    ensures
        c <= line_finish(t, c) <= t.len(),
        line_finish(t, c) < t.len() ==> t[line_finish(t, c)] == NEWLINE,
        forall|k: int| c <= k < line_finish(t, c) ==> t[k] != NEWLINE,
    decreases t.len() - c,
{
    if c == t.len() || t[c] == NEWLINE {
        lemma_line_finish(t, c, c);
    } else {
        lemma_line_finish_props(t, c + 1);
        lemma_line_finish(t, c, line_finish(t, c + 1));
    }
}

/// `new` is `old` after `insert_text(s)`: the selection, if any, deleted as
/// `text_unselected` says, `s` put in at the cursor, the cursor after it,
/// and no selection.
pub open spec fn typed(old: DocumentV2, new: DocumentV2, s: Seq<u8>) -> bool {
    &&& new.text() == insert_at(old.text_unselected(), old.cursor_unselected(), s)
    &&& new.cursor() == old.cursor_unselected() + s.len()
    &&& new.selection() is None
    &&& new.table().spec_line_count() == old.lines_unselected() + count_newlines(s)
    &&& old.selection_sliceable() && is_boundary(old.text_unselected(), old.cursor_unselected())
        ==> new.sliceable()
}

/// `new` is `old` after `insert_text_at(position, s)`: `s` put in at
/// `position` (at the end when past it), a cursor at or after that point
/// moved along, the selection kept.
pub open spec fn inserted_at(old: DocumentV2, new: DocumentV2, position: int, s: Seq<u8>) -> bool {
    let p = clamp(position, old.text().len() as int);
    &&& new.text() == insert_at(old.text(), position, s)
    &&& new.cursor() == if old.cursor() >= p {
        old.cursor() + s.len()
    } else {
        old.cursor()
    }
    &&& new.selection() == old.selection()
    &&& new.table().spec_line_count() == old.table().spec_line_count() + count_newlines(s)
    &&& old.sliceable() && is_boundary(old.text(), p) ==> new.sliceable()
}

/// `new` is `old` after `delete_range(start, end)`: when the ends differ,
/// the bytes between them deleted (see `remove_range`), a cursor after them
/// moved back by their number and one inside them put at their start, and
/// no selection; otherwise nothing changed.
pub open spec fn range_deleted(old: DocumentV2, new: DocumentV2, start: int, end: int) -> bool {
    let s = if start <= end {
        start
    } else {
        end
    };
    let e = if start <= end {
        end
    } else {
        start
    };
    let c = old.cursor();
    if e > s {
        &&& new.text() == remove_range(old.text(), s, e - s)
        &&& new.cursor() == if c > e {
            c - (e - s)
        } else if c > s {
            s
        } else {
            c
        }
        &&& new.selection() is None
        &&& new.table().spec_line_count() == old.table().spec_line_count()
            - old.table().delete_breaks(s, e - s)
        &&& old.sliceable() && (s >= old.text().len() || is_boundary(old.text(), s) && is_boundary(
            old.text(),
            clamp(e, old.text().len() as int),
        )) ==> new.sliceable()
    } else {
        new == old
    }
}

/// `new` is `old` with the cursor at `position` (at the end when past it)
/// and no selection.
pub open spec fn cursor_placed(old: DocumentV2, new: DocumentV2, position: int) -> bool {
    &&& new.table() == old.table()
    &&& new.cursor() == clamp(position, old.text().len() as int)
    &&& new.selection() is None
}

/// `new` is `old` after `set_selection(start, end)`: both ends clamped to
/// the text, the cursor at the end, and the selection from start to end
/// unless they are equal.
pub open spec fn selected(old: DocumentV2, new: DocumentV2, start: int, end: int) -> bool {
    let s = clamp(start, old.text().len() as int);
    let e = clamp(end, old.text().len() as int);
    &&& new.table() == old.table()
    &&& new.cursor() == e
    &&& s == e ==> new.selection() is None
    &&& s != e ==> (new.selection() matches Some(sel) && sel.start == s && sel.end == e)
}

/// `new` is `old` without a selection.
pub open spec fn deselected(old: DocumentV2, new: DocumentV2) -> bool {
    &&& new.table() == old.table()
    &&& new.cursor() == old.cursor()
    &&& new.selection() is None
}

/// `new` is `old` after `delete_backward(count)`: the selection, if there
/// was one, deleted as `text_unselected` says; otherwise up to `count` bytes
/// before the cursor deleted and the cursor moved back over them. No
/// selection is left.
pub open spec fn backspaced(old: DocumentV2, new: DocumentV2, count: int) -> bool {
    &&& new.selection() is None
    &&& old.selection() is Some ==> new.text() == old.text_unselected() && new.cursor()
        == old.cursor_unselected() && new.table().spec_line_count() == old.lines_unselected() && (
    old.selection_sliceable() ==> new.sliceable())
    &&& old.selection() is None ==> {
        let c = old.cursor();
        let n = if count < c {
            count
        } else {
            c
        };
        &&& new.text() == remove_range(old.text(), c - n, n)
        &&& new.cursor() == c - n
        &&& new.table().spec_line_count() == old.table().spec_line_count()
            - old.table().delete_breaks(c - n, n)
        &&& old.sliceable() && is_boundary(old.text(), c - n) && is_boundary(old.text(), c)
            ==> new.sliceable()
    }
}

/// `new` is `old` after `delete_forward(count)`: the selection, if there
/// was one, deleted as `text_unselected` says; otherwise up to `count` bytes
/// after the cursor deleted, the cursor staying. No selection is left.
pub open spec fn forward_deleted(old: DocumentV2, new: DocumentV2, count: int) -> bool {
    &&& new.selection() is None
    &&& old.selection() is Some ==> new.text() == old.text_unselected() && new.cursor()
        == old.cursor_unselected() && new.table().spec_line_count() == old.lines_unselected() && (
    old.selection_sliceable() ==> new.sliceable())
    &&& old.selection() is None ==> {
        let c = old.cursor();
        let rest = old.text().len() - c;
        let n = if count < rest {
            count
        } else {
            rest
        };
        &&& new.text() == remove_range(old.text(), c, n)
        &&& new.cursor() == c
        &&& new.table().spec_line_count() == old.table().spec_line_count()
            - old.table().delete_breaks(c, n)
        &&& old.sliceable() && is_boundary(old.text(), c) && is_boundary(old.text(), c + n)
            ==> new.sliceable()
    }
}

/// `new` is `old` with the cursor moved by `delta`, stopped at the start
/// and the end of the text, and no selection.
pub open spec fn cursor_moved(old: DocumentV2, new: DocumentV2, delta: int) -> bool {
    &&& new.table() == old.table()
    &&& new.cursor() == if delta < 0 {
        if old.cursor() + delta < 0 {
            0
        } else {
            old.cursor() + delta
        }
    } else {
        clamp(old.cursor() + delta, old.text().len() as int)
    }
    &&& new.selection() is None
}

/// `new` is `old` with the cursor at the start of its line and no selection.
pub open spec fn moved_to_line_start(old: DocumentV2, new: DocumentV2) -> bool {
    &&& new.table() == old.table()
    &&& new.cursor() == line_begin(old.text(), old.cursor())
    &&& new.selection() is None
}

/// `new` is `old` with the cursor at the end of its line and no selection.
pub open spec fn moved_to_line_end(old: DocumentV2, new: DocumentV2) -> bool {
    &&& new.table() == old.table()
    &&& new.cursor() == line_finish(old.text(), old.cursor())
    &&& new.selection() is None
}

/// `new` is `old` with the whole text selected and the cursor at its end;
/// nothing is selected in an empty text.
pub open spec fn all_selected(old: DocumentV2, new: DocumentV2) -> bool {
    &&& new.table() == old.table()
    &&& new.cursor() == old.text().len()
    &&& old.text().len() == 0 ==> new.selection() is None
    &&& old.text().len() > 0 ==> (new.selection() matches Some(sel) && sel.start == 0 && sel.end
        == old.text().len())
}

/// Typing `s` with nothing selected puts exactly `s` in at the cursor,
/// keeps the bytes before and after it, and puts the cursor just after
/// `s`; with a selection, the selected bytes are replaced by `s` and the
/// cursor goes just after it. No selection is left.
pub proof fn lemma_typing(old: DocumentV2, new: DocumentV2, s: Seq<u8>)
    requires
        old.wf(),
        typed(old, new, s),
    ensures
        new.selection() is None,
        old.selection() is None ==> new.text() == old.text().take(old.cursor()) + s + old.text().skip(
            old.cursor(),
        ) && new.cursor() == old.cursor() + s.len(),
        old.selection() is Some ==> new.text() == old.text().take(old.sel_from()) + s
            + old.text().skip(old.sel_to()) && new.cursor() == old.sel_from() + s.len(),
{
    if old.selection() is Some {
        let u = old.text_unselected();
        let f = old.sel_from();
        assert(u == old.text().take(f) + old.text().skip(old.sel_to()));
        assert(u.take(f) =~= old.text().take(f));
        assert(u.skip(f) =~= old.text().skip(old.sel_to()));
    }
}

/// Inserting `s` at `position` puts exactly `s` in at `position` (at the
/// end when past it), keeps the bytes around it, moves a cursor at or after
/// that point by the length of `s`, and keeps the selection.
pub proof fn lemma_inserting_at(old: DocumentV2, new: DocumentV2, position: int, s: Seq<u8>)
    requires
        old.wf(),
        0 <= position,
        inserted_at(old, new, position, s),
    ensures
        ({
            let p = if position < old.text().len() {
                position
            } else {
                old.text().len() as int
            };
            &&& new.text() == old.text().take(p) + s + old.text().skip(p)
            &&& old.cursor() < p ==> new.cursor() == old.cursor()
            &&& old.cursor() >= p ==> new.cursor() == old.cursor() + s.len()
            &&& new.selection() == old.selection()
        }),
{
}

/// Deleting backward `count` times with nothing selected removes exactly
/// the `min(count, cursor)` bytes just before the cursor and moves the
/// cursor to where they began.
pub proof fn lemma_backspacing(old: DocumentV2, new: DocumentV2, count: int)
    requires
        old.wf(),
        0 <= count,
        old.selection() is None,
        backspaced(old, new, count),
    ensures
        ({
            let c = old.cursor();
            let n = if count < c {
                count
            } else {
                c
            };
            &&& new.text() == old.text().take(c - n) + old.text().skip(c)
            &&& new.cursor() == c - n
            &&& new.selection() is None
        }),
{
    let c = old.cursor();
    let n = if count < c {
        count
    } else {
        c
    };
    if n == 0 || c - n >= old.text().len() {
        assert(old.text().take(c - n) + old.text().skip(c) =~= old.text());
    }
}

/// Deleting forward `count` times with nothing selected removes exactly the
/// `min(count, bytes after the cursor)` bytes just after the cursor, which
/// stays.
pub proof fn lemma_forward_deleting(old: DocumentV2, new: DocumentV2, count: int)
    requires
        old.wf(),
        0 <= count,
        old.selection() is None,
        forward_deleted(old, new, count),
    ensures
        ({
            let c = old.cursor();
            let rest = old.text().len() - c;
            let n = if count < rest {
                count
            } else {
                rest
            };
            &&& new.text() == old.text().take(c) + old.text().skip(c + n)
            &&& new.cursor() == c
            &&& new.selection() is None
        }),
{
    let c = old.cursor();
    let rest = old.text().len() - c;
    let n = if count < rest {
        count
    } else {
        rest
    };
    if n == 0 || c >= old.text().len() {
        assert(old.text().take(c) + old.text().skip(c + n) =~= old.text());
    }
}

/// Deleting from `start` to `end` (in either order, inside the text)
/// removes exactly the bytes between them, pulls a cursor after them back
/// by their number, puts one inside them at their start, and leaves one
/// before them where it was.
pub proof fn lemma_range_deleting(old: DocumentV2, new: DocumentV2, start: int, end: int)
    requires
        old.wf(),
        0 <= start <= old.text().len(),
        0 <= end <= old.text().len(),
        start != end,
        range_deleted(old, new, start, end),
    ensures
        ({
            let lo = if start < end {
                start
            } else {
                end
            };
            let hi = if start < end {
                end
            } else {
                start
            };
            let c = old.cursor();
            &&& new.text() == old.text().take(lo) + old.text().skip(hi)
            &&& c <= lo ==> new.cursor() == c
            &&& lo < c <= hi ==> new.cursor() == lo
            &&& hi < c ==> new.cursor() == c - (hi - lo)
            &&& new.selection() is None
        }),
{
}

/// Placing the cursor at `position` puts it there, or at the end of the
/// text when past it; the text stays and no selection is left.
pub proof fn lemma_cursor_placing(old: DocumentV2, new: DocumentV2, position: int)
    requires
        cursor_placed(old, new, position),
    ensures
        new.text() == old.text(),
        position <= old.text().len() ==> new.cursor() == position,
        position > old.text().len() ==> new.cursor() == old.text().len(),
        new.selection() is None,
{
}

/// Moving the cursor by `delta` puts it at its position plus `delta`, or at
/// 0 when that lies before the text, or at the end when it lies past it;
/// the text stays and no selection is left.
pub proof fn lemma_cursor_moving(old: DocumentV2, new: DocumentV2, delta: int)
    requires
        old.wf(),
        cursor_moved(old, new, delta),
    ensures
        new.text() == old.text(),
        new.selection() is None,
        new.cursor() == if old.cursor() + delta < 0 {
            0
        } else if old.cursor() + delta > old.text().len() {
            old.text().len() as int
        } else {
            old.cursor() + delta
        },
{
}

/// Selecting from `start` to `end` (each clamped to the text) puts the
/// cursor at the clamped `end`, leaves the text as it was, and selects the
/// bytes between the two ends when they differ, nothing otherwise.
pub proof fn lemma_selecting(old: DocumentV2, new: DocumentV2, start: int, end: int)
    requires
        selected(old, new, start, end),
    ensures
        ({
            let n = old.text().len() as int;
            let s = if start < n {
                start
            } else {
                n
            };
            let e = if end < n {
                end
            } else {
                n
            };
            &&& new.text() == old.text()
            &&& new.cursor() == e
            &&& s == e ==> new.selection() is None
            &&& s != e ==> (new.selection() matches Some(sel) && sel.start == s && sel.end == e)
        }),
{
}

/// Selecting between two different places selects the bytes between them,
/// whichever was given first, and leaves the text as it was.
pub proof fn lemma_selection_range(old: DocumentV2, new: DocumentV2, start: int, end: int)
    requires
        selected(old, new, start, end),
        clamp(start, old.text().len() as int) != clamp(end, old.text().len() as int),
    ensures
        new.text() == old.text(),
        new.selection() is Some,
        new.sel_from() == if clamp(start, old.text().len() as int) <= clamp(end, old.text().len() as int) {
            clamp(start, old.text().len() as int)
        } else {
            clamp(end, old.text().len() as int)
        },
        new.sel_to() == if clamp(start, old.text().len() as int) <= clamp(end, old.text().len() as int) {
            clamp(end, old.text().len() as int)
        } else {
            clamp(start, old.text().len() as int)
        },
{
}

/// In a well-formed document a selection's ends, the smaller first, are
/// apart and inside the text, and the cursor lies inside the text.
pub proof fn lemma_selection_ordered(d: DocumentV2)
    requires
        d.wf(),
    ensures
        0 <= d.cursor() <= d.text().len(),
        d.selection() matches Some(s) ==> ordered(s).0 < ordered(s).1 <= d.text().len(),
{
}

/// A text document with a cursor and an optional selection.
pub struct DocumentV2 {
    piece_table: PieceTable,
    cursor_position: usize,
    selection: Option<Selection>,
}

impl DocumentV2 {
    /// The piece table that holds the text.
    pub closed spec fn table(&self) -> PieceTable {
        self.piece_table
    }

    /// The cursor's byte position.
    pub closed spec fn cursor(&self) -> int {
        self.cursor_position as int
    }

    /// The selection, its ends as they were set.
    pub closed spec fn selection(&self) -> Option<Selection> {
        self.selection
    }

    /// The text's bytes.
    pub open spec fn text(&self) -> Seq<u8> {
        self.table().text()
    }

    /// The invariant: a well-formed table, the cursor inside the text, and
    /// a selection's two ends inside the text and apart.
    pub open spec fn wf(&self) -> bool {
        &&& self.table().wf()
        &&& 0 <= self.cursor() <= self.text().len()
        &&& self.selection() matches Some(s) ==> s.start <= self.text().len() && s.end
            <= self.text().len() && s.start != s.end
    }

    /// The text can be read out as a string.
    pub open spec fn sliceable(&self) -> bool {
        self.table().sliceable()
    }

    /// The selection's ends, the smaller first.
    pub open spec fn sel_from(&self) -> int {
        ordered(self.selection()->0).0 as int
    }

    pub open spec fn sel_to(&self) -> int {
        ordered(self.selection()->0).1 as int
    }

    /// The text once the selection, if there is one, is deleted.
    pub open spec fn text_unselected(&self) -> Seq<u8> {
        if self.selection() is Some {
            remove_range(self.text(), self.sel_from(), self.sel_to() - self.sel_from())
        } else {
            self.text()
        }
    }

    /// The cursor once the selection, if there is one, is deleted: its start.
    pub open spec fn cursor_unselected(&self) -> int {
        if self.selection() is Some {
            self.sel_from()
        } else {
            self.cursor()
        }
    }

    /// The line count once the selection, if there is one, is deleted.
    pub open spec fn lines_unselected(&self) -> int {
        if self.selection() is Some {
            self.table().spec_line_count() - self.table().delete_breaks(
                self.sel_from(),
                self.sel_to() - self.sel_from(),
            )
        } else {
            self.table().spec_line_count() as int
        }
    }

    /// The text is sliceable and the selection, if any, ends on character
    /// boundaries.
    pub open spec fn selection_sliceable(&self) -> bool {
        &&& self.sliceable()
        &&& self.selection() is Some ==> is_boundary(self.text(), self.sel_from()) && is_boundary(
            self.text(),
            self.sel_to(),
        )
    }

    /// An empty document.
    pub fn new() -> (d: DocumentV2)
        ensures
            d.wf(),
            d.sliceable(),
            d.text() == Seq::<u8>::empty(),
            d.cursor() == 0,
            d.selection() is None,
            d.table().spec_line_count() == 1,
    {
        DocumentV2 { piece_table: PieceTable::new(), cursor_position: 0, selection: None }
    }

    /// A document holding `text`, with the cursor at its start.
    pub fn from_text(text: String) -> (d: DocumentV2)
        requires
            encode_utf8(text@).len() < usize::MAX,
        ensures
            d.wf(),
            d.sliceable(),
            d.text() == encode_utf8(text@),
            d.cursor() == 0,
            d.selection() is None,
            d.table().spec_line_count() == 1 + count_newlines(encode_utf8(text@)),
    {
        let piece_table = PieceTable::from_text(text);
        DocumentV2 { piece_table, cursor_position: 0, selection: None }
    }

    /// Deletes the selection, puts the cursor at its start and drops it.
    fn remove_selected(&mut self)
        requires
            old(self).wf(),
            old(self).selection() is Some,
        ensures
            final(self).wf(),
            final(self).text() == old(self).text_unselected(),
            final(self).cursor() == old(self).cursor_unselected(),
            final(self).selection() is None,
            final(self).table().spec_line_count() == old(self).lines_unselected(),
            old(self).selection_sliceable() ==> final(self).sliceable(),
    {
        let (start, end) = match &self.selection {
            Some(sel) => sel.normalize(),
            None => (0, 0),
        };
        self.piece_table.delete(start, end - start);
        self.cursor_position = start;
        self.selection = None;
    }

    /// Types `text` at the cursor, replacing the selection if there is one;
    /// the cursor ends after the typed text.
    pub fn insert_text(&mut self, text: &str)
        requires
            old(self).wf(),
            old(self).text_unselected().len() + text.spec_bytes().len() <= usize::MAX,
            old(self).lines_unselected() + count_newlines(text.spec_bytes()) <= usize::MAX,
        ensures
            final(self).wf(),
            typed(*old(self), *final(self), text.spec_bytes()),
    {
        if self.selection.is_some() {
            self.remove_selected();
        }
        self.piece_table.insert(self.cursor_position, text);
        self.cursor_position = self.cursor_position + text.len();
    }
    /// Inserts `text` at `position` (at the end when past it); a cursor at
    /// or after that point moves along with the text after it.
    pub fn insert_text_at(&mut self, position: usize, text: &str)
        requires
            old(self).wf(),
            old(self).text().len() + text.spec_bytes().len() <= usize::MAX,
            old(self).table().spec_line_count() + count_newlines(text.spec_bytes()) <= usize::MAX,
        ensures
            final(self).wf(),
            inserted_at(*old(self), *final(self), position as int, text.spec_bytes()),
    {
        let len = self.piece_table.length();
        let pos = if position < len {
            position
        } else {
            len
        };
        self.piece_table.insert(pos, text);
        if self.cursor_position >= pos {
            self.cursor_position = self.cursor_position + text.len();
        }
    }

    /// Backspace: deletes the selection if there is one, else up to `count`
    /// bytes before the cursor, which moves back over them.
    pub fn delete_backward(&mut self, count: usize)
        requires
            old(self).wf(),
        ensures
            final(self).wf(),
            backspaced(*old(self), *final(self), count as int),
    {
        if self.selection.is_some() {
            self.remove_selected();
        } else if self.cursor_position > 0 {
            let delete_count = if count < self.cursor_position {
                count
            } else {
                self.cursor_position
            };
            let new_position = self.cursor_position - delete_count;
            self.piece_table.delete(new_position, delete_count);
            self.cursor_position = new_position;
        } else {
            proof {
                self.piece_table.lemma_delete_breaks_nothing(0, 0);
            }
        }
    }

    /// Delete: deletes the selection if there is one, else up to `count`
    /// bytes after the cursor, which stays.
    pub fn delete_forward(&mut self, count: usize)
        requires
            old(self).wf(),
        ensures
            final(self).wf(),
            forward_deleted(*old(self), *final(self), count as int),
    {
        if self.selection.is_some() {
            self.remove_selected();
        } else {
            let remaining = self.piece_table.length() - self.cursor_position;
            let delete_count = if count < remaining {
                count
            } else {
                remaining
            };
            if delete_count > 0 {
                self.piece_table.delete(self.cursor_position, delete_count);
            } else {
                proof {
                    self.piece_table.lemma_delete_breaks_nothing(self.cursor_position as int, 0);
                }
            }
        }
    }

    /// Deletes the bytes between `start` and `end`, in either order; when
    /// anything is asked for, a cursor after the range moves back by its
    /// length, one inside it goes to its start, and the selection is dropped.
    pub fn delete_range(&mut self, start: usize, end: usize)
        requires
            old(self).wf(),
        ensures
            final(self).wf(),
            range_deleted(*old(self), *final(self), start as int, end as int),
    {
        let (start, end) = if start <= end {
            (start, end)
        } else {
            (end, start)
        };
        let length = end - start;
        if length > 0 {
            self.piece_table.delete(start, length);
            if self.cursor_position > end {
                self.cursor_position = self.cursor_position - length;
            } else if self.cursor_position > start {
                self.cursor_position = start;
            }
            self.selection = None;
        }
    }

    /// The text as a string.
    pub fn get_text(&self) -> (s: String)
        requires
            self.wf(),
            self.sliceable(),
        ensures
            encode_utf8(s@) == self.text(),
    {
        self.piece_table.get_text()
    }

    /// The bytes from `start` to `end`, each clamped to the text's length;
    /// empty when `start` comes after `end`. The clamped ends must be
    /// character boundaries.
    pub fn get_text_range(&self, start: usize, end: usize) -> (s: String)
        requires
            self.wf(),
            self.sliceable(),
            clamp(start as int, self.text().len() as int) <= clamp(end as int, self.text().len() as int)
                ==> is_boundary(self.text(), clamp(start as int, self.text().len() as int))
                && is_boundary(self.text(), clamp(end as int, self.text().len() as int)),
        ensures
            encode_utf8(s@) == if clamp(start as int, self.text().len() as int) <= clamp(
                end as int,
                self.text().len() as int,
            ) {
                self.text().subrange(
                    clamp(start as int, self.text().len() as int),
                    clamp(end as int, self.text().len() as int),
                )
            } else {
                Seq::<u8>::empty()
            },
    {
        let bytes = self.piece_table.text_bytes();
        let len = bytes.len();
        let start = if start < len {
            start
        } else {
            len
        };
        let end = if end < len {
            end
        } else {
            len
        };
        if start <= end {
            let mut out: Vec<u8> = Vec::new();
            let mut i = start;
            while i < end
                invariant
                    start <= i <= end,
                    end <= bytes@.len(),
                    out@ == bytes@.subrange(start as int, i as int),
                decreases end - i,
            {
                out.push(bytes[i]);
                i = i + 1;
                assert(out@ =~= bytes@.subrange(start as int, i as int));
            }
            proof {
                self.piece_table.lemma_sliceable_valid();
                lemma_slice_valid(bytes@, start as int, end as int);
                decode_utf8_encode_utf8(out@);
            }
            string_from_utf8(out)
        } else {
            String::new()
        }
    }

    /// Line `line_number` (counted from 1) of the text, as the piece table
    /// reads it.
    pub fn get_line(&self, line_number: usize) -> (res: Option<String>)
        requires
            self.wf(),
            1 <= line_number <= self.table().spec_line_count() ==> self.table().line_sliceable(
                line_number as int,
            ),
        ensures
            res is Some <==> line_text(self.text(), line_number as int) is Some,
            res matches Some(s) ==> encode_utf8(s@) == line_text(self.text(), line_number as int)->0,
    {
        self.piece_table.get_line(line_number)
    }
    /// The number of the line (counted from 1) that byte `position`
    /// (clamped to the text's length) lies on. The clamped position must be a
    /// character boundary.
    pub fn get_line_at_position(&self, position: usize) -> (line: usize)
        requires
            self.wf(),
            self.sliceable(),
            is_boundary(self.text(), clamp(position as int, self.text().len() as int)),
        ensures
            line == 1 + count_newlines(
                self.text().take(clamp(position as int, self.text().len() as int)),
            ),
    {
        let bytes = self.piece_table.text_bytes();
        let len = bytes.len();
        let position = if position < len {
            position
        } else {
            len
        };
        let mut count: usize = 0;
        let mut i: usize = 0;
        proof {
            assert(bytes@.take(0) =~= Seq::<u8>::empty());
            assert(newline_offsets(Seq::<u8>::empty()) =~= Seq::<int>::empty());
            self.piece_table.lemma_line_count_bound();
            lemma_newline_offsets_prefix(bytes@, position as int);
        }
        while i < position
            invariant
                i <= position <= bytes@.len(),
                count == count_newlines(bytes@.take(i as int)),
                count <= count_newlines(bytes@.take(position as int)),
                count_newlines(bytes@.take(position as int)) <= count_newlines(bytes@),
                1 + count_newlines(bytes@) <= usize::MAX,
            decreases position - i,
        {
            proof {
                lemma_newline_offsets_step(bytes@, i as int);
                assert(bytes@.take(position as int).take(i + 1) =~= bytes@.take(i + 1));
                lemma_newline_offsets_prefix(bytes@.take(position as int), i + 1);
            }
            if bytes[i] == NEWLINE {
                count = count + 1;
            }
            i = i + 1;
        }
        count + 1
    }

    /// How many bytes byte `position` (clamped to the text's length) lies
    /// after the start of its line. The clamped position must be a character
    /// boundary.
    pub fn get_column_at_position(&self, position: usize) -> (column: usize)
        requires
            self.wf(),
            self.sliceable(),
            is_boundary(self.text(), clamp(position as int, self.text().len() as int)),
        ensures
            column == clamp(position as int, self.text().len() as int) - line_begin(
                self.text(),
                clamp(position as int, self.text().len() as int),
            ),
    {
        let bytes = self.piece_table.text_bytes();
        let len = bytes.len();
        let position = if position < len {
            position
        } else {
            len
        };
        let ghost p = position as int;
        let mut i = position;
        while i > 0 && bytes[i - 1] != NEWLINE
            invariant
                i <= p <= bytes@.len(),
                forall|k: int| i <= k < p ==> bytes@[k] != NEWLINE,
            decreases i,
        {
            i = i - 1;
        }
        proof {
            self.lemma_line_begin(bytes@, p, i as int);
        }
        position - i
    }

    proof fn lemma_line_begin(&self, t: Seq<u8>, p: int, i: int)
        requires
            0 <= i <= p <= t.len(),
            forall|k: int| i <= k < p ==> t[k] != NEWLINE,
            i > 0 ==> t[i - 1] == NEWLINE,
        ensures
            line_begin(t, p) == i,
    {
        lemma_line_begin_eq(t, p, i);
    }

    /// The text's length in bytes.
    pub fn length(&self) -> (n: usize)
        requires
            self.wf(),
        ensures
            n == self.text().len(),
    {
        self.piece_table.length()
    }

    /// The line count that the piece table keeps.
    pub fn line_count(&self) -> (n: usize)
        ensures
            n == self.table().spec_line_count(),
    {
        self.piece_table.line_count()
    }

    /// Puts the cursor at `position`, or at the end when past it, and drops
    /// the selection.
    pub fn set_cursor_position(&mut self, position: usize)
        requires
            old(self).wf(),
        ensures
            final(self).wf(),
            cursor_placed(*old(self), *final(self), position as int),
    {
        let len = self.piece_table.length();
        self.cursor_position = if position < len {
            position
        } else {
            len
        };
        self.clear_selection();
    }

    /// The cursor's byte position.
    pub fn get_cursor_position(&self) -> (c: usize)
        ensures
            c == self.cursor(),
    {
        self.cursor_position
    }

    /// Moves the cursor by `delta` bytes, stopping at the start and the end
    /// of the text, and drops the selection.
    pub fn move_cursor(&mut self, delta: i32)
        requires
            old(self).wf(),
            delta != i32::MIN,
            delta >= 0 ==> old(self).cursor() + delta <= usize::MAX,
        ensures
            final(self).wf(),
            cursor_moved(*old(self), *final(self), delta as int),
    {
        let new_position = if delta < 0 {
            let back = (-delta) as usize;
            if self.cursor_position >= back {
                self.cursor_position - back
            } else {
                0
            }
        } else {
            let forward = self.cursor_position + delta as usize;
            let len = self.piece_table.length();
            if forward < len {
                forward
            } else {
                len
            }
        };
        self.set_cursor_position(new_position);
    }

    /// Moves the cursor to the start of its line and drops the selection.
    /// The cursor must be at a character boundary.
    pub fn move_cursor_to_line_start(&mut self)
        requires
            old(self).wf(),
            old(self).sliceable(),
            is_boundary(old(self).text(), old(self).cursor()),
        ensures
            final(self).wf(),
            moved_to_line_start(*old(self), *final(self)),
    {
        let line = self.get_line_at_position(self.cursor_position);
        let start = self.piece_table.get_line_start_position(line);
        proof {
            self.lemma_line_start_of_cursor();
        }
        match start {
            Some(line_start) => {
                self.set_cursor_position(line_start);
            },
            None => {},
        }
    }

    /// The start of the cursor's line is where its line number starts.
    proof fn lemma_line_start_of_cursor(&self)
        requires
            self.wf(),
        ensures
            ({
                let t = self.text();
                let c = self.cursor();
                let n = 1 + count_newlines(t.take(c)) as int;
                &&& 1 <= n <= self.table().spec_line_count()
                &&& line_start(t, n) == Some(line_begin(t, c))
                &&& line_begin(t, c) <= t.len()
            }),
    {
        let t = self.text();
        let c = self.cursor();
        self.piece_table.lemma_line_count_bound();
        lemma_newline_offsets_prefix(t, c);
        lemma_newline_offsets_facts(t.take(c));
        let k = count_newlines(t.take(c));
        if k > 0 {
            assert(newline_offsets(t.take(c)).last() == newline_offsets(t)[k - 1]);
            assert(newline_offsets(t.take(c)).last() < c);
        }
    }

    /// Moves the cursor to the end of its line (the next newline, or the end
    /// of the text) and drops the selection. The cursor must be at a
    /// character boundary.
    pub fn move_cursor_to_line_end(&mut self)
        requires
            old(self).wf(),
            old(self).sliceable(),
            is_boundary(old(self).text(), old(self).cursor()),
        ensures
            final(self).wf(),
            moved_to_line_end(*old(self), *final(self)),
    {
        let bytes = self.piece_table.text_bytes();
        let ghost c = self.cursor_position as int;
        let mut i = self.cursor_position;
        while i < bytes.len() && bytes[i] != NEWLINE
            invariant
                c <= i <= bytes@.len(),
                forall|k: int| c <= k < i ==> bytes@[k] != NEWLINE,
            decreases bytes@.len() - i,
        {
            i = i + 1;
        }
        proof {
            lemma_line_finish(bytes@, c, i as int);
        }
        self.set_cursor_position(i);
    }

    /// Selects from `start` to `end`, each clamped to the text's length, and
    /// puts the cursor at `end`; equal ends select nothing.
    pub fn set_selection(&mut self, start: usize, end: usize)
        requires
            old(self).wf(),
        ensures
            final(self).wf(),
            selected(*old(self), *final(self), start as int, end as int),
    {
        let length = self.piece_table.length();
        let start = if start < length {
            start
        } else {
            length
        };
        let end = if end < length {
            end
        } else {
            length
        };
        if start == end {
            self.selection = None;
            self.cursor_position = start;
        } else {
            self.selection = Some(Selection::new(start, end));
            self.cursor_position = end;
        }
    }

    /// Selects the whole text.
    pub fn select_all(&mut self)
        requires
            old(self).wf(),
        ensures
            final(self).wf(),
            all_selected(*old(self), *final(self)),
    {
        let length = self.piece_table.length();
        self.set_selection(0, length);
    }

    /// Drops the selection.
    pub fn clear_selection(&mut self)
        requires
            old(self).wf(),
        ensures
            final(self).wf(),
            deselected(*old(self), *final(self)),
    {
        self.selection = None;
    }

    /// Whether something is selected.
    pub fn has_selection(&self) -> (b: bool)
        ensures
            b == self.selection() is Some,
    {
        self.selection.is_some()
    }

    /// The selection's ends, the smaller first.
    pub fn get_selection(&self) -> (res: Option<Vec<usize>>)
        ensures
            res is Some <==> self.selection() is Some,
            res matches Some(v) ==> v@ == seq![
                ordered(self.selection()->0).0,
                ordered(self.selection()->0).1,
            ],
    {
        match &self.selection {
            Some(sel) => {
                let (start, end) = sel.normalize();
                let mut v: Vec<usize> = Vec::new();
                v.push(start);
                v.push(end);
                assert(v@ =~= seq![start, end]);
                Some(v)
            },
            None => None,
        }
    }

    /// The selected text; empty when nothing is selected. The selection's
    /// ends must be character boundaries.
    pub fn get_selected_text(&self) -> (s: String)
        requires
            self.wf(),
            self.selection_sliceable(),
        ensures
            encode_utf8(s@) == if self.selection() is Some {
                self.text().subrange(self.sel_from(), self.sel_to())
            } else {
                Seq::<u8>::empty()
            },
    {
        match self.get_selection() {
            Some(sel) => {
                if sel.len() >= 2 {
                    self.get_text_range(sel[0], sel[1])
                } else {
                    String::new()
                }
            },
            None => String::new(),
        }
    }

}

} // verus!
