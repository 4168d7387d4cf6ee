//! The editing state of the first editor: a document held in one buffer, a
//! cursor and a selection that know the page they fall on, and the text
//! length of each page of the last layout. The layout itself is computed
//! elsewhere; it hands the page lengths over when it is done.

use vstd::prelude::*;
use vstd::utf8::*;
use vstd::string::StringSliceAdditionalSpecFns;
use crate::text_bytes::{
    clamp, insert_at, is_boundary, is_boundary_at, remove_range, string_from_utf8,
    lemma_slice_valid, lemma_one_char_back, lemma_is_boundary_agrees, lemma_valid_first_byte,
};
use crate::document::DocumentModel;
use crate::types::CursorPosition;

verus! {

/// The sum of `lens`.
pub open spec fn total(lens: Seq<usize>) -> int
    decreases lens.len(),
{
    if lens.len() == 0 {
        0
    } else {
        lens[0] + total(lens.skip(1))
    }
}

/// A sum of lengths is not negative.
pub proof fn lemma_total_nonneg(lens: Seq<usize>)
    ensures
        total(lens) >= 0,
    decreases lens.len(),
{
    if lens.len() > 0 {
        lemma_total_nonneg(lens.skip(1));
    }
}

/// The page that byte `offset` falls on when the pages hold `lens` bytes of
/// text each: the first page whose text reaches `offset`, and the last page
/// when none does (0 when there is no page).
pub open spec fn page_for(lens: Seq<usize>, offset: int) -> int
    decreases lens.len(),
{
    if lens.len() <= 1 {
        0
    } else if offset <= lens[0] {
        0
    } else {
        1 + page_for(lens.skip(1), offset - lens[0])
    }
}

/// Every offset falls on one of the pages: the page found is below the
/// number of pages, or 0 when there is none.
pub proof fn lemma_page_for_range(lens: Seq<usize>, offset: int)
    ensures
        lens.len() == 0 ==> page_for(lens, offset) == 0,
        lens.len() > 0 ==> 0 <= page_for(lens, offset) < lens.len(),
    decreases lens.len(),
{
    if lens.len() > 1 && offset > lens[0] {
        lemma_page_for_range(lens.skip(1), offset - lens[0]);
    }
}

/// The characters before byte `c` of `t`, or all of them when `c` lies
/// past the end.
pub open spec fn chars_before(t: Seq<u8>, c: int) -> Seq<char> {
    decode_utf8(t.take(clamp(c, t.len() as int)))
}

/// The bytes before `c` that stay when the last `n` characters before `c`
/// are deleted.
pub open spec fn kept_before(t: Seq<u8>, c: int, n: int) -> Seq<u8> {
    let p = chars_before(t, c);
    encode_utf8(p.take(p.len() - n))
}

/// The sum of the first `m` lengths is the first length and the sum of the
/// next `m - 1`.
proof fn lemma_total_take_step(lens: Seq<usize>, m: int)
    requires
        1 <= m <= lens.len(),
    ensures
        total(lens.take(m)) == lens[0] + total(lens.skip(1).take(m - 1)),
{
    assert(lens.take(m).skip(1) =~= lens.skip(1).take(m - 1));
    assert(lens.take(m)[0] == lens[0]);
}

/// The page found for `offset` is the first page whose running total of
/// text lengths (its own length added to those of the pages before it)
/// reaches `offset`, or the last page when none does.
pub proof fn lemma_page_for_running_total(lens: Seq<usize>, offset: int)
    requires
        lens.len() >= 1,
    ensures
        0 <= page_for(lens, offset) < lens.len(),
        offset <= total(lens.take(page_for(lens, offset) + 1)) || page_for(lens, offset) == lens.len()
            - 1,
        forall|j: int|
            0 <= j < page_for(lens, offset) ==> offset > #[trigger] total(lens.take(j + 1)),
    decreases lens.len(),
{
    lemma_total_take_step(lens, 1);
    assert(lens.skip(1).take(0) =~= Seq::<usize>::empty());
    if lens.len() > 1 && offset > lens[0] {
        let rest = lens.skip(1);
        let o = offset - lens[0];
        lemma_page_for_running_total(rest, o);
        let k = page_for(lens, offset);
        lemma_total_take_step(lens, k + 1);
        assert forall|j: int| 0 <= j < k implies offset > #[trigger] total(lens.take(j + 1)) by {
            lemma_total_take_step(lens, j + 1);
            if j > 0 {
                assert(o > total(rest.take(j - 1 + 1)));
            }
        }
    }
}

/// While a layout is due every position is shown on page 0; after one,
/// on the page that `lemma_page_for_running_total` describes.
pub proof fn lemma_page_at(e: TreviaEditor, offset: int)
    ensures
        e.dirty() ==> e.page_at(offset) == 0,
        !e.dirty() && e.pages().len() >= 1 ==> {
            &&& 0 <= e.page_at(offset) < e.pages().len()
            &&& offset <= total(e.pages().take(e.page_at(offset) + 1)) || e.page_at(offset)
                == e.pages().len() - 1
            &&& forall|j: int|
                0 <= j < e.page_at(offset) ==> offset > #[trigger] total(e.pages().take(j + 1))
        },
        !e.dirty() && e.pages().len() == 0 ==> e.page_at(offset) == 0,
{
    if !e.dirty() && e.pages().len() >= 1 {
        lemma_page_for_running_total(e.pages(), offset);
    }
}

/// Moving the cursor by `delta` puts it at its offset plus `delta`, or at 0
/// when that lies before the text, or at the end when it lies past it; the
/// selection goes and the text stays.
pub proof fn lemma_move_by_offset(old: TreviaEditor, new: TreviaEditor, delta: int)
    requires
        moved_by(old, new, delta),
    ensures
        new.cursor().offset == if old.cursor().offset + delta < 0 {
            0
        } else if old.cursor().offset + delta > old.doc().text().len() {
            old.doc().text().len() as int
        } else {
            old.cursor().offset + delta
        },
        new.doc() == old.doc(),
        new.sel_start() is None && new.sel_end() is None,
{
}

/// Encoding two character sequences one after the other gives their
/// encodings one after the other.
pub proof fn lemma_encode_concat(a: Seq<char>, b: Seq<char>)
    ensures
        encode_utf8(a + b) == encode_utf8(a) + encode_utf8(b),
    decreases a.len(),
{
    if a.len() == 0 {
        assert(a + b =~= b);
        assert(encode_utf8(a) =~= Seq::<u8>::empty());
        assert(encode_utf8(a) + encode_utf8(b) =~= encode_utf8(b));
    } else {
        lemma_encode_concat(a.drop_first(), b);
        assert((a + b).drop_first() =~= a.drop_first() + b);
        assert((a + b)[0] == a[0]);
    }
}

/// Typing `s` at a cursor inside the text puts exactly `s` in at the
/// cursor, keeps the bytes around it, and puts the cursor just after `s`;
/// typing at a cursor past the end appends `s` and puts the cursor at the
/// new end. The selection goes and a layout is due.
pub proof fn lemma_typing_at_cursor(old: TreviaEditor, new: TreviaEditor, s: Seq<u8>)
    requires
        typed_at_cursor(old, new, s),
    ensures
        ({
            let t = old.doc().text();
            let c = old.cursor().offset as int;
            &&& c <= t.len() ==> new.doc().text() == t.take(c) + s + t.skip(c) && new.cursor().offset
                == c + s.len()
            &&& c > t.len() ==> new.doc().text() == t + s && new.cursor().offset == t.len() + s.len()
            &&& new.sel_start() is None && new.sel_end() is None
            &&& new.dirty()
        }),
{
    let t = old.doc().text();
    if old.cursor().offset > t.len() {
        assert(t.take(t.len() as int) =~= t);
        assert(t.skip(t.len() as int) =~= Seq::<u8>::empty());
        assert(t + s + Seq::<u8>::empty() =~= t + s);
    }
}

/// Deleting `length` characters before a cursor at a character boundary,
/// when that many lie before it, removes bytes that end at the cursor (or
/// at the end of the text, when the cursor lies past it), start at a
/// character boundary and hold exactly `length` characters; the cursor goes
/// to where they began.
pub proof fn lemma_deleting_chars(old: TreviaEditor, new: TreviaEditor, length: int)
    requires
        old.wf(),
        0 <= length <= old.cursor().offset,
        is_boundary(
            old.doc().text(),
            clamp(old.cursor().offset as int, old.doc().text().len() as int),
        ),
        length <= chars_before(old.doc().text(), old.cursor().offset as int).len(),
        chars_deleted(old, new, length),
    ensures
        ({
            let t = old.doc().text();
            let c = clamp(old.cursor().offset as int, t.len() as int);
            let b = new.cursor().offset as int;
            &&& 0 <= b <= c
            &&& is_boundary(t, b)
            &&& new.doc().text() == t.take(b) + t.skip(c)
            &&& decode_utf8(t.subrange(b, c)).len() == length
            &&& new.sel_start() is None && new.sel_end() is None
        }),
{
    let t = old.doc().text();
    let c = clamp(old.cursor().offset as int, t.len() as int);
    old.doc().lemma_wf_valid();
    let w = t.take(c);
    lemma_slice_valid(t, 0, c);
    assert(w =~= t.subrange(0, c));
    let p = decode_utf8(w);
    let m = p.len() - length;
    decode_utf8_encode_utf8(w);
    assert(p =~= p.take(m) + p.skip(m));
    lemma_encode_concat(p.take(m), p.skip(m));
    let kept = encode_utf8(p.take(m));
    let gone = encode_utf8(p.skip(m));
    assert(w == kept + gone);
    let b = kept.len() as int;
    assert(t.take(b) =~= kept);
    assert(w.len() == c);
    assert forall|k: int| 0 <= k < gone.len() implies t.subrange(b, c)[k] == gone[k] by {
        assert(w[b + k] == (kept + gone)[b + k]);
    }
    assert(t.subrange(b, c) =~= gone);
    encode_utf8_decode_utf8(p.skip(m));
    if 0 < b < c {
        encode_utf8_valid_utf8(p.skip(m));
        lemma_valid_first_byte(gone);
        assert(t[b] == gone[0]);
    }
}

/// The smaller of two offsets.
pub open spec fn min_offset(a: usize, b: usize) -> usize {
    if a <= b {
        a
    } else {
        b
    }
}

/// The greater of two offsets.
pub open spec fn max_offset(a: usize, b: usize) -> usize {
    if a <= b {
        b
    } else {
        a
    }
}

/// `new` is `old` after typing `s` at the cursor: `s` put in at the cursor
/// (at the end when the cursor lies past it), the cursor after it (no
/// further than the end), on its page, no selection, and a layout due.
pub open spec fn typed_at_cursor(old: TreviaEditor, new: TreviaEditor, s: Seq<u8>) -> bool {
    &&& new.doc().text() == insert_at(old.doc().text(), old.cursor().offset as int, s)
    &&& placed(
        old,
        new,
        clamp(old.cursor().offset + s.len(), new.doc().text().len() as int),
    )
    &&& new.pages() == old.pages()
    &&& new.dirty()
}

/// `new` is `old` after deleting `length` characters before the cursor:
/// nothing changes when the cursor's offset is below `length` or fewer
/// characters lie before it; otherwise the kept characters before the
/// cursor are followed by the bytes after it, the cursor goes to the end of
/// what was kept, on its page, with no selection, and a layout is due.
pub open spec fn chars_deleted(old: TreviaEditor, new: TreviaEditor, length: int) -> bool {
    let t = old.doc().text();
    let c = clamp(old.cursor().offset as int, t.len() as int);
    let kept = kept_before(t, old.cursor().offset as int, length);
    &&& old.cursor().offset < length ==> new == old
    &&& old.cursor().offset >= length && length > chars_before(t, old.cursor().offset as int).len()
        ==> new == old
    &&& old.cursor().offset >= length && length <= chars_before(t, old.cursor().offset as int).len()
        ==> {
        &&& new.doc().text() == kept + t.skip(c)
        &&& placed(old, new, kept.len() as int)
        &&& new.pages() == old.pages()
        &&& new.dirty()
    }
}

/// `new` is `old` with the cursor at `offset` on its page and no selection.
pub open spec fn placed(old: TreviaEditor, new: TreviaEditor, offset: int) -> bool {
    &&& new.cursor().offset == offset
    &&& new.cursor().page == old.page_at(offset)
    &&& new.sel_start() is None
    &&& new.sel_end() is None
}

/// `new` is `old` after `move_cursor_by(delta)`: the cursor moved by
/// `delta`, stopped at 0 and at the end of the text.
pub open spec fn moved_by(old: TreviaEditor, new: TreviaEditor, delta: int) -> bool {
    let target = old.cursor().offset + delta;
    let o = clamp(
        if target < 0 {
            0
        } else {
            target
        },
        old.doc().text().len() as int,
    );
    &&& placed(old, new, o)
    &&& new.doc() == old.doc()
    &&& new.pages() == old.pages()
    &&& new.dirty() == old.dirty()
}

/// The editing state of an editor on a `DocumentModel`.
pub struct TreviaEditor {
    document: DocumentModel,
    cursor_position: CursorPosition,
    selection_start: Option<CursorPosition>,
    selection_end: Option<CursorPosition>,
    page_lengths: Vec<usize>,
    is_dirty: bool,
}

impl TreviaEditor {
    pub closed spec fn doc(&self) -> DocumentModel {
        self.document
    }

    pub closed spec fn cursor(&self) -> CursorPosition {
        self.cursor_position
    }

    /// Where the selection was started.
    pub closed spec fn sel_start(&self) -> Option<CursorPosition> {
        self.selection_start
    }

    /// Where the selection was ended.
    pub closed spec fn sel_end(&self) -> Option<CursorPosition> {
        self.selection_end
    }

    /// The text length of each page of the last layout.
    pub closed spec fn pages(&self) -> Seq<usize> {
        self.page_lengths@
    }

    /// Whether the text or the page geometry changed since the last layout.
    pub closed spec fn dirty(&self) -> bool {
        self.is_dirty
    }

    /// The invariant: a well-formed document, and page lengths whose sum
    /// fits a `usize`.
    pub open spec fn wf(&self) -> bool {
        &&& self.doc().wf()
        &&& total(self.pages()) <= usize::MAX
    }

    /// The page that `offset` is shown on: 0 while a layout is due.
    pub open spec fn page_at(&self, offset: int) -> int {
        if self.dirty() {
            0
        } else {
            page_for(self.pages(), offset)
        }
    }

    /// Whether both ends of a selection are set.
    pub open spec fn selecting(&self) -> bool {
        self.sel_start() is Some && self.sel_end() is Some
    }

    /// The selection's ends, the smaller first.
    pub open spec fn sel_low(&self) -> usize {
        min_offset(self.sel_start()->0.offset, self.sel_end()->0.offset)
    }

    pub open spec fn sel_high(&self) -> usize {
        max_offset(self.sel_start()->0.offset, self.sel_end()->0.offset)
    }

    /// An editor on an empty document, waiting for its first layout.
    pub fn new() -> (e: TreviaEditor)
        ensures
            e.wf(),
            e.doc().text() == Seq::<u8>::empty(),
            e.cursor() == (CursorPosition { offset: 0, page: 0 }),
            e.sel_start() is None,
            e.sel_end() is None,
            e.pages() == Seq::<usize>::empty(),
            e.dirty(),
    {
        TreviaEditor {
            document: DocumentModel::new(),
            cursor_position: CursorPosition::new(0, 0),
            selection_start: None,
            selection_end: None,
            page_lengths: Vec::new(),
            is_dirty: true,
        }
    }

    /// The page that byte `offset` falls on: 0 while a layout is due, else
    /// the first page whose text reaches `offset`, or the last page.
    fn find_page_for_offset(&self, offset: usize) -> (page: usize)
        requires
            self.wf(),
        ensures
            page == self.page_at(offset as int),
    {
        if self.is_dirty {
            return 0;
        }
        let n = self.page_lengths.len();
        let ghost lens = self.page_lengths@;
        let mut current_offset: usize = 0;
        let mut i: usize = 0;
        assert(lens.skip(0) =~= lens);
        while i < n
            invariant
                n == lens.len(),
                lens == self.page_lengths@,
                !self.is_dirty,
                i <= n,
                current_offset + total(lens.skip(i as int)) == total(lens),
                total(lens) <= usize::MAX,
                i < n ==> page_for(lens, offset as int) == i + page_for(
                    lens.skip(i as int),
                    offset - current_offset,
                ),
                i == n && n > 0 ==> page_for(lens, offset as int) == n - 1,
            decreases n - i,
        {
            let ghost rest = lens.skip(i as int);
            proof {
                assert(rest.skip(1) =~= lens.skip(i + 1));
                assert(rest[0] == lens[i as int]);
                lemma_total_nonneg(rest.skip(1));
            }
            let page_text_length = self.page_lengths[i];
            if offset <= current_offset + page_text_length {
                assert(page_for(rest, offset - current_offset) == 0);
                return i;
            }
            current_offset = current_offset + page_text_length;
            i = i + 1;
        }
        if n == 0 {
            0
        } else {
            n - 1
        }
    }

    /// Types `text` at the cursor, which moves past it; a layout is due.
    pub fn insert_text(&mut self, text: &str)
        requires
            old(self).wf(),
            text.spec_bytes().len() > 0 ==> is_boundary(
                old(self).doc().text(),
                clamp(old(self).cursor().offset as int, old(self).doc().text().len() as int),
            ),
            old(self).cursor().offset + text.spec_bytes().len() <= i32::MAX,
        ensures
            final(self).wf(),
            typed_at_cursor(*old(self), *final(self), text.spec_bytes()),
    {
        let cursor_offset = self.cursor_position.offset;
        self.document.insert_text(cursor_offset, text);
        let n = text.len();
        self.move_cursor_by(n as i32);
        self.mark_dirty();
    }

    /// Deletes the `length` characters before the cursor (a cursor past the
    /// end counts from the end), which moves back over them; nothing happens
    /// when fewer characters lie before it, which is so in particular when
    /// the cursor's offset is below `length`.
    pub fn delete_text(&mut self, length: usize)
        requires
            old(self).wf(),
            old(self).cursor().offset >= length ==> is_boundary(
                old(self).doc().text(),
                clamp(old(self).cursor().offset as int, old(self).doc().text().len() as int),
            ),
        ensures
            final(self).wf(),
            chars_deleted(*old(self), *final(self), length as int),
    {
        if self.cursor_position.offset < length {
            return;
        }
        let full_text = self.document.get_text();
        let bytes = full_text.as_str().as_bytes();
        let ghost t = bytes@;
        proof {
            encode_utf8_valid_utf8(full_text@);
        }
        let len = bytes.len();
        let c = if self.cursor_position.offset < len {
            self.cursor_position.offset
        } else {
            len
        };
        let ghost w = t.take(c as int);
        proof {
            lemma_slice_valid(t, 0, c as int);
            assert(w =~= t.subrange(0, c as int));
            assert(w.subrange(c as int, c as int) =~= Seq::<u8>::empty());
            assert(decode_utf8(Seq::<u8>::empty()) =~= Seq::<char>::empty());
        }
        let mut i = c;
        let mut count: usize = 0;
        while count < length && i > 0
            invariant
                bytes@ == t,
                w == t.take(c as int),
                valid_utf8(w),
                c <= len == t.len(),
                i <= c,
                is_boundary(w, i as int),
                count <= length,
                count == decode_utf8(w.subrange(i as int, c as int)).len(),
            decreases i,
        {
            let mut j = i - 1;
            while j > 0 && 0x80u8 <= bytes[j] && bytes[j] <= 0xbfu8
                invariant
                    bytes@ == t,
                    w == t.take(c as int),
                    j < i <= c <= len == t.len(),
                    forall|k: int| j < k < i ==> is_continuation_byte(#[trigger] w[k]),
                decreases j,
            {
                j = j - 1;
            }
            proof {
                assert(w.len() == c);
                assert(is_boundary(w, j as int));
                lemma_one_char_back(w, j as int, i as int);
            }
            i = j;
            count = count + 1;
        }
        proof {
            let p = decode_utf8(w);
            assert(w.subrange(0, c as int) =~= w);
            if count < length {
                assert(i == 0);
            } else {
                lemma_is_boundary_agrees(w, i as int);
                decode_utf8_split(w, i as int);
                lemma_slice_valid(w, 0, i as int);
                decode_utf8_encode_utf8(w.subrange(0, i as int));
                assert(p =~= decode_utf8(w.subrange(0, i as int)) + decode_utf8(
                    w.subrange(i as int, c as int),
                ));
                assert(p.take(p.len() - length) =~= decode_utf8(w.subrange(0, i as int)));
                assert(w.subrange(0, i as int) =~= t.take(i as int));
                assert(t.take(i as int) + t.skip(c as int) =~= t.take(i as int) + t.skip(clamp(
                    c as int,
                    t.len() as int,
                )));
                assert(i == c ==> t.take(i as int) + t.skip(c as int) =~= t);
            }
        }
        if count == length {
            self.document.delete_text(i, c - i);
            self.set_cursor_position(i);
            self.mark_dirty();
        }
    }

    /// Deletes the selected bytes and puts the cursor at the selection's
    /// lower end, on the page where the selection was started; returns
    /// whether there was a selection.
    pub fn delete_selection(&mut self) -> (deleted: bool)
        requires
            old(self).wf(),
            old(self).selecting() ==> {
                let t = old(self).doc().text();
                let s = old(self).sel_low();
                let e = old(self).sel_high();
                s == e || s >= t.len() || (is_boundary(t, s as int) && is_boundary(
                    t,
                    clamp(e as int, t.len() as int),
                ))
            },
        ensures
            final(self).wf(),
            deleted == old(self).selecting(),
            !deleted ==> *final(self) == *old(self),
            deleted ==> {
                &&& final(self).doc().text() == remove_range(
                    old(self).doc().text(),
                    old(self).sel_low() as int,
                    old(self).sel_high() - old(self).sel_low(),
                )
                &&& final(self).cursor() == (CursorPosition {
                    offset: old(self).sel_low(),
                    page: old(self).sel_start()->0.page,
                })
                &&& final(self).sel_start() is None
                &&& final(self).sel_end() is None
                &&& final(self).pages() == old(self).pages()
                &&& final(self).dirty()
            },
    {
        match (&self.selection_start, &self.selection_end) {
            (Some(start), Some(end)) => {
                let start_offset = if start.offset <= end.offset {
                    start.offset
                } else {
                    end.offset
                };
                let end_offset = if start.offset <= end.offset {
                    end.offset
                } else {
                    start.offset
                };
                let page = start.page;
                let length = end_offset - start_offset;
                self.document.delete_text(start_offset, length);
                self.cursor_position = CursorPosition::new(start_offset, page);
                self.clear_selection();
                self.mark_dirty();
                true
            },
            _ => false,
        }
    }

    /// Puts the cursor at `offset` on its page and drops the selection;
    /// nothing happens when `offset` lies past the end of the text.
    pub fn set_cursor_position(&mut self, offset: usize)
        requires
            old(self).wf(),
        ensures
            final(self).wf(),
            offset > old(self).doc().text().len() ==> *final(self) == *old(self),
            offset <= old(self).doc().text().len() ==> placed(*old(self), *final(self), offset as int),
            final(self).doc() == old(self).doc(),
            final(self).pages() == old(self).pages(),
            final(self).dirty() == old(self).dirty(),
    {
        if offset <= self.document.get_text_length() {
            let page = self.find_page_for_offset(offset);
            self.cursor_position = CursorPosition::new(offset, page);
            self.clear_selection();
        }
    }

    /// Moves the cursor by `delta` bytes, stopping at 0 and at the end of
    /// the text, and drops the selection.
    pub fn move_cursor_by(&mut self, delta: i32)
        requires
            old(self).wf(),
            old(self).cursor().offset <= i32::MAX,
            i32::MIN <= old(self).cursor().offset + delta <= i32::MAX,
        ensures
            final(self).wf(),
            moved_by(*old(self), *final(self), delta as int),
    {
        let current_offset = self.cursor_position.offset as i32;
        let target = current_offset + delta;
        let new_offset: usize = if target < 0 {
            0
        } else {
            target as usize
        };
        let max_offset = self.document.get_text_length();
        let clamped = if new_offset < max_offset {
            new_offset
        } else {
            max_offset
        };
        self.set_cursor_position(clamped);
    }

    /// Selects from `start_offset` to `end_offset`, each clamped to the
    /// text, and puts the cursor at the end of the selection.
    pub fn set_selection(&mut self, start_offset: usize, end_offset: usize)
        requires
            old(self).wf(),
        ensures
            final(self).wf(),
            ({
                let n = old(self).doc().text().len() as int;
                let s = clamp(start_offset as int, n);
                let e = clamp(end_offset as int, n);
                &&& final(self).sel_start() == Some(
                    (CursorPosition { offset: s as usize, page: old(self).page_at(s) as usize }),
                )
                &&& final(self).sel_end() == Some(
                    (CursorPosition { offset: e as usize, page: old(self).page_at(e) as usize }),
                )
                &&& final(self).cursor() == (CursorPosition {
                    offset: e as usize,
                    page: old(self).page_at(e) as usize,
                })
            }),
            final(self).doc() == old(self).doc(),
            final(self).pages() == old(self).pages(),
            final(self).dirty() == old(self).dirty(),
    {
        let max_offset = self.document.get_text_length();
        let start = if start_offset < max_offset {
            start_offset
        } else {
            max_offset
        };
        let end = if end_offset < max_offset {
            end_offset
        } else {
            max_offset
        };
        let start_page = self.find_page_for_offset(start);
        let end_page = self.find_page_for_offset(end);
        self.selection_start = Some(CursorPosition::new(start, start_page));
        self.selection_end = Some(CursorPosition::new(end, end_page));
        self.cursor_position = CursorPosition::new(end, end_page);
    }

    /// Drops the selection.
    pub fn clear_selection(&mut self)
        ensures
            final(self).sel_start() is None,
            final(self).sel_end() is None,
            final(self).doc() == old(self).doc(),
            final(self).cursor() == old(self).cursor(),
            final(self).pages() == old(self).pages(),
            final(self).dirty() == old(self).dirty(),
    {
        self.selection_start = None;
        self.selection_end = None;
    }

    /// Whether both ends of a selection are set.
    pub fn has_selection(&self) -> (b: bool)
        ensures
            b == self.selecting(),
    {
        self.selection_start.is_some() && self.selection_end.is_some()
    }

    /// The selection's ends, the smaller first, when both are set.
    pub fn selection_range(&self) -> (r: Option<(usize, usize)>)
        ensures
            r == if self.selecting() {
                Some((self.sel_low(), self.sel_high()))
            } else {
                None
            },
    {
        match (&self.selection_start, &self.selection_end) {
            (Some(start), Some(end)) => {
                if start.offset <= end.offset {
                    Some((start.offset, end.offset))
                } else {
                    Some((end.offset, start.offset))
                }
            },
            _ => None,
        }
    }

    /// The selected text: empty when nothing is selected, or when the
    /// selection reaches past the end of the text or does not end on
    /// character boundaries.
    pub fn get_selected_text(&self) -> (s: String)
        requires
            self.wf(),
        ensures
            encode_utf8(s@) == if self.selecting() && self.sel_high() <= self.doc().text().len()
                && is_boundary(self.doc().text(), self.sel_low() as int) && is_boundary(
                self.doc().text(),
                self.sel_high() as int,
            ) {
                self.doc().text().subrange(self.sel_low() as int, self.sel_high() as int)
            } else {
                Seq::<u8>::empty()
            },
    {
        match (&self.selection_start, &self.selection_end) {
            (Some(start), Some(end)) => {
                let start_offset = if start.offset <= end.offset {
                    start.offset
                } else {
                    end.offset
                };
                let end_offset = if start.offset <= end.offset {
                    end.offset
                } else {
                    start.offset
                };
                let full_text = self.document.get_text();
                let bytes = full_text.as_str().as_bytes();
                if end_offset <= bytes.len() && is_boundary_at(bytes, start_offset)
                    && is_boundary_at(bytes, end_offset) {
                    let mut out: Vec<u8> = Vec::new();
                    let mut i = start_offset;
                    while i < end_offset
                        invariant
                            start_offset <= i <= end_offset,
                            end_offset <= bytes@.len(),
                            out@ == bytes@.subrange(start_offset as int, i as int),
                        decreases end_offset - i,
                    {
                        out.push(bytes[i]);
                        i = i + 1;
                        assert(out@ =~= bytes@.subrange(start_offset as int, i as int));
                    }
                    proof {
                        encode_utf8_valid_utf8(full_text@);
                        lemma_slice_valid(bytes@, start_offset as int, end_offset as int);
                        decode_utf8_encode_utf8(out@);
                    }
                    string_from_utf8(out)
                } else {
                    String::new()
                }
            },
            _ => String::new(),
        }
    }

    /// The document, for the layout to read.
    pub fn document(&self) -> (d: &DocumentModel)
        ensures
            *d == self.doc(),
    {
        &self.document
    }

    /// The text.
    pub fn get_document_text(&self) -> (s: String)
        requires
            self.wf(),
        ensures
            encode_utf8(s@) == self.doc().text(),
    {
        self.document.get_text()
    }

    /// The text's length in bytes.
    pub fn get_document_length(&self) -> (n: usize)
        ensures
            n == self.doc().text().len(),
    {
        self.document.get_text_length()
    }

    /// The cursor.
    pub fn get_cursor_position(&self) -> (c: CursorPosition)
        ensures
            c == self.cursor(),
    {
        self.cursor_position
    }

    /// Whether a layout is due; while it is, no page layout or cursor
    /// coordinates are given out.
    pub fn is_dirty(&self) -> (b: bool)
        ensures
            b == self.dirty(),
    {
        self.is_dirty
    }

    /// A click that the layout resolved to `offset`, or to nothing: the
    /// cursor goes there. Returns whether there was an offset.
    pub fn handle_click(&mut self, offset: Option<usize>) -> (hit: bool)
        requires
            old(self).wf(),
        ensures
            final(self).wf(),
            hit == offset is Some,
            offset is None ==> *final(self) == *old(self),
            offset matches Some(o) ==> (o > old(self).doc().text().len() ==> *final(self)
                == *old(self)) && (o <= old(self).doc().text().len() ==> placed(
                *old(self),
                *final(self),
                o as int,
            )),
            final(self).doc() == old(self).doc(),
            final(self).pages() == old(self).pages(),
            final(self).dirty() == old(self).dirty(),
    {
        match offset {
            Some(o) => {
                self.set_cursor_position(o);
                true
            },
            None => false,
        }
    }

    /// Records that a layout is due, as a change of the text or of the page
    /// geometry makes it.
    pub fn mark_dirty(&mut self)
        ensures
            final(self).dirty(),
            final(self).doc() == old(self).doc(),
            final(self).cursor() == old(self).cursor(),
            final(self).sel_start() == old(self).sel_start(),
            final(self).sel_end() == old(self).sel_end(),
            final(self).pages() == old(self).pages(),
    {
        self.is_dirty = true;
    }

    /// Takes the text lengths of the pages of a new layout, if one was due,
    /// and puts the cursor on its page; nothing happens otherwise.
    pub fn recompute_layout(&mut self, page_text_lengths: Vec<usize>)
        requires
            old(self).wf(),
            total(page_text_lengths@) <= usize::MAX,
        ensures
            final(self).wf(),
            !old(self).dirty() ==> *final(self) == *old(self),
            old(self).dirty() ==> {
                &&& final(self).pages() == page_text_lengths@
                &&& !final(self).dirty()
                &&& final(self).cursor() == (CursorPosition {
                    offset: old(self).cursor().offset,
                    page: page_for(page_text_lengths@, old(self).cursor().offset as int) as usize,
                })
                &&& final(self).doc() == old(self).doc()
                &&& final(self).sel_start() == old(self).sel_start()
                &&& final(self).sel_end() == old(self).sel_end()
            },
    {
        if self.is_dirty {
            self.page_lengths = page_text_lengths;
            self.is_dirty = false;
            let page = self.find_page_for_offset(self.cursor_position.offset);
            self.cursor_position.page = page;
        }
    }
}

} // verus!
