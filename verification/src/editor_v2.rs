//! The editing state of the second editor: a document and a flag that says
//! whether its pages must be laid out again. Keys, clicks and drags are
//! turned into document operations here; the layout itself is computed
//! elsewhere, from the text that this state hands out.

use vstd::prelude::*;
use vstd::utf8::*;
use vstd::string::StringSliceAdditionalSpecFns;
use crate::text_bytes::{count_newlines, is_boundary, line_text, str_eq};
use crate::document_v2::{
    DocumentV2, ordered, line_begin, typed, inserted_at, range_deleted, cursor_placed,
    selected, deselected, backspaced, forward_deleted, cursor_moved, moved_to_line_start,
    moved_to_line_end, all_selected, lemma_line_begin_props, lemma_line_finish_props,
};
use crate::text_bytes::NEWLINE;

verus! {

/// What a key press does to the editor.
#[derive(Debug, Clone, Copy, PartialEq, Eq, Structural)]
pub enum KeyCommand {
    DeleteBackward,
    DeleteForward,
    MoveLeft,
    MoveRight,
    LineStart,
    LineEnd,
    SelectAll,
    /// The key is taken but changes nothing.
    Ignore,
}

/// The command for `key` with the given modifiers, or `None` for a key the
/// editor does not handle. Arrows with Ctrl or Shift are taken and do
/// nothing; "a" selects all only with Ctrl.
pub open spec fn key_command(key: Seq<char>, ctrl: bool, shift: bool) -> Option<KeyCommand> {
    if key == "Backspace"@ {
        Some(KeyCommand::DeleteBackward)
    } else if key == "Delete"@ {
        Some(KeyCommand::DeleteForward)
    } else if key == "ArrowLeft"@ {
        if ctrl || shift {
            Some(KeyCommand::Ignore)
        } else {
            Some(KeyCommand::MoveLeft)
        }
    } else if key == "ArrowRight"@ {
        if ctrl || shift {
            Some(KeyCommand::Ignore)
        } else {
            Some(KeyCommand::MoveRight)
        }
    } else if key == "Home"@ {
        Some(KeyCommand::LineStart)
    } else if key == "End"@ {
        Some(KeyCommand::LineEnd)
    } else if key == "a"@ && ctrl {
        Some(KeyCommand::SelectAll)
    } else {
        None
    }
}

/// `new` is `old` after the key command `cmd`.
pub open spec fn key_applied(old: TreviaEditorV2, new: TreviaEditorV2, cmd: Option<KeyCommand>) -> bool {
    match cmd {
        Some(KeyCommand::DeleteBackward) => backspaced(old.doc(), new.doc(), 1) && new.needs_layout(),
        Some(KeyCommand::DeleteForward) => forward_deleted(old.doc(), new.doc(), 1) && new.needs_layout(),
        Some(KeyCommand::MoveLeft) => cursor_moved(old.doc(), new.doc(), -1) && new.needs_layout()
            == old.needs_layout(),
        Some(KeyCommand::MoveRight) => cursor_moved(old.doc(), new.doc(), 1) && new.needs_layout()
            == old.needs_layout(),
        Some(KeyCommand::LineStart) => moved_to_line_start(old.doc(), new.doc()) && new.needs_layout()
            == old.needs_layout(),
        Some(KeyCommand::LineEnd) => moved_to_line_end(old.doc(), new.doc()) && new.needs_layout()
            == old.needs_layout(),
        Some(KeyCommand::SelectAll) => all_selected(old.doc(), new.doc()) && new.needs_layout()
            == old.needs_layout(),
        Some(KeyCommand::Ignore) => new == old,
        None => new == old,
    }
}

/// The text of `d` without the bytes of its selection, lowest end first.
pub open spec fn without_selection(d: DocumentV2) -> Seq<u8> {
    d.text().take(ordered(d.selection()->0).0 as int) + d.text().skip(
        ordered(d.selection()->0).1 as int,
    )
}

/// The key names differ from one another.
proof fn lemma_key_names()
    ensures
        "Backspace"@ != "Delete"@,
        "ArrowLeft"@ != "Backspace"@,
        "ArrowLeft"@ != "Delete"@,
        "ArrowRight"@ != "Backspace"@,
        "ArrowRight"@ != "Delete"@,
        "ArrowRight"@ != "ArrowLeft"@,
        "Home"@ != "Backspace"@,
        "Home"@ != "Delete"@,
        "Home"@ != "ArrowLeft"@,
        "Home"@ != "ArrowRight"@,
        "End"@ != "Backspace"@,
        "End"@ != "Delete"@,
        "End"@ != "ArrowLeft"@,
        "End"@ != "ArrowRight"@,
        "End"@ != "Home"@,
        "a"@ != "Backspace"@,
        "a"@ != "Delete"@,
        "a"@ != "ArrowLeft"@,
        "a"@ != "ArrowRight"@,
        "a"@ != "Home"@,
        "a"@ != "End"@,
{
    reveal_strlit("Backspace");
    reveal_strlit("Delete");
    reveal_strlit("ArrowLeft");
    reveal_strlit("ArrowRight");
    reveal_strlit("Home");
    reveal_strlit("End");
    reveal_strlit("a");
    assert("Backspace"@[0] != "Delete"@[0]);
    assert("ArrowLeft"@[0] != "Backspace"@[0]);
    assert("ArrowLeft"@[0] != "Delete"@[0]);
    assert("ArrowRight"@.len() != "Backspace"@.len());
    assert("ArrowRight"@[0] != "Delete"@[0]);
    assert("ArrowRight"@.len() != "ArrowLeft"@.len());
    assert("Home"@.len() != "Backspace"@.len());
    assert("Home"@.len() != "Delete"@.len());
    assert("Home"@.len() != "ArrowLeft"@.len());
    assert("Home"@.len() != "ArrowRight"@.len());
    assert("End"@.len() != "Backspace"@.len());
    assert("End"@.len() != "Delete"@.len());
    assert("End"@.len() != "ArrowLeft"@.len());
    assert("End"@.len() != "ArrowRight"@.len());
    assert("End"@.len() != "Home"@.len());
    assert("a"@.len() != "Backspace"@.len());
    assert("a"@.len() != "Delete"@.len());
    assert("a"@.len() != "ArrowLeft"@.len());
    assert("a"@.len() != "ArrowRight"@.len());
    assert("a"@.len() != "Home"@.len());
    assert("a"@.len() != "End"@.len());
}

/// Backspace is taken and asks for a layout. With nothing selected it
/// removes exactly the one byte before the cursor and moves the cursor
/// back over it, and changes nothing at the start of the text; with a
/// selection it removes the selected bytes and puts the cursor where they
/// began. No selection is left.
pub proof fn lemma_key_backspace(old: TreviaEditorV2, new: TreviaEditorV2, ctrl: bool, shift: bool)
    requires
        old.wf(),
        key_applied(old, new, key_command("Backspace"@, ctrl, shift)),
    ensures
        key_command("Backspace"@, ctrl, shift) is Some,
        new.needs_layout(),
        new.doc().selection() is None,
        old.doc().selection() is None && old.doc().cursor() > 0 ==> new.doc().text() == old.doc().text().take(
            old.doc().cursor() - 1,
        ) + old.doc().text().skip(old.doc().cursor()) && new.doc().cursor() == old.doc().cursor() - 1,
        old.doc().selection() is None && old.doc().cursor() == 0 ==> new.doc().text() == old.doc().text()
            && new.doc().cursor() == 0,
        old.doc().selection() is Some ==> new.doc().text() == without_selection(old.doc())
            && new.doc().cursor() == ordered(old.doc().selection()->0).0,
{
    let t = old.doc().text();
    if old.doc().selection() is None && old.doc().cursor() == 0 {
        assert(t.take(0) + t.skip(0) =~= t);
    }
}

/// Delete is taken and asks for a layout. With nothing selected it removes
/// exactly the one byte after the cursor, which stays, and changes nothing
/// at the end of the text; with a selection it removes the selected bytes
/// and puts the cursor where they began. No selection is left.
pub proof fn lemma_key_delete(old: TreviaEditorV2, new: TreviaEditorV2, ctrl: bool, shift: bool)
    requires
        old.wf(),
        key_applied(old, new, key_command("Delete"@, ctrl, shift)),
    ensures
        key_command("Delete"@, ctrl, shift) is Some,
        new.needs_layout(),
        new.doc().selection() is None,
        old.doc().selection() is None && old.doc().cursor() < old.doc().text().len() ==> new.doc().text()
            == old.doc().text().take(old.doc().cursor()) + old.doc().text().skip(
            old.doc().cursor() + 1,
        ) && new.doc().cursor() == old.doc().cursor(),
        old.doc().selection() is None && old.doc().cursor() == old.doc().text().len() ==> new.doc().text()
            == old.doc().text() && new.doc().cursor() == old.doc().cursor(),
        old.doc().selection() is Some ==> new.doc().text() == without_selection(old.doc())
            && new.doc().cursor() == ordered(old.doc().selection()->0).0,
{
    lemma_key_names();
}

/// ArrowLeft without Ctrl or Shift moves the cursor exactly one byte left,
/// staying at 0 at the start, and drops the selection; the text stays.
/// With Ctrl or Shift it is taken and changes nothing.
pub proof fn lemma_key_arrow_left(old: TreviaEditorV2, new: TreviaEditorV2, ctrl: bool, shift: bool)
    requires
        old.wf(),
        key_applied(old, new, key_command("ArrowLeft"@, ctrl, shift)),
    ensures
        key_command("ArrowLeft"@, ctrl, shift) is Some,
        ctrl || shift ==> new == old,
        !ctrl && !shift ==> {
            &&& new.doc().text() == old.doc().text()
            &&& new.doc().cursor() == if old.doc().cursor() > 0 {
                old.doc().cursor() - 1
            } else {
                0
            }
            &&& new.doc().selection() is None
            &&& new.needs_layout() == old.needs_layout()
        },
{
    lemma_key_names();
}

/// ArrowRight without Ctrl or Shift moves the cursor exactly one byte
/// right, staying at the end of the text, and drops the selection; the
/// text stays. With Ctrl or Shift it is taken and changes nothing.
pub proof fn lemma_key_arrow_right(old: TreviaEditorV2, new: TreviaEditorV2, ctrl: bool, shift: bool)
    requires
        old.wf(),
        key_applied(old, new, key_command("ArrowRight"@, ctrl, shift)),
    ensures
        key_command("ArrowRight"@, ctrl, shift) is Some,
        ctrl || shift ==> new == old,
        !ctrl && !shift ==> {
            &&& new.doc().text() == old.doc().text()
            &&& new.doc().cursor() == if old.doc().cursor() < old.doc().text().len() {
                old.doc().cursor() + 1
            } else {
                old.doc().cursor()
            }
            &&& new.doc().selection() is None
            &&& new.needs_layout() == old.needs_layout()
        },
{
    lemma_key_names();
}

/// Home puts the cursor at the start of its line: at or before it, at 0 or
/// just after a newline, with no newline between; the text stays and the
/// selection goes.
pub proof fn lemma_key_home(old: TreviaEditorV2, new: TreviaEditorV2, ctrl: bool, shift: bool)
    requires
        old.wf(),
        key_applied(old, new, key_command("Home"@, ctrl, shift)),
    ensures
        key_command("Home"@, ctrl, shift) is Some,
        new.doc().text() == old.doc().text(),
        new.doc().selection() is None,
        new.needs_layout() == old.needs_layout(),
        0 <= new.doc().cursor() <= old.doc().cursor(),
        new.doc().cursor() > 0 ==> old.doc().text()[new.doc().cursor() - 1] == NEWLINE,
        forall|k: int|
            new.doc().cursor() <= k < old.doc().cursor() ==> old.doc().text()[k] != NEWLINE,
{
    lemma_key_names();
    lemma_line_begin_props(old.doc().text(), old.doc().cursor());
}

/// End puts the cursor at the end of its line: at or after it, at the end
/// of the text or on a newline, with no newline between; the text stays
/// and the selection goes.
pub proof fn lemma_key_end(old: TreviaEditorV2, new: TreviaEditorV2, ctrl: bool, shift: bool)
    requires
        old.wf(),
        key_applied(old, new, key_command("End"@, ctrl, shift)),
    ensures
        key_command("End"@, ctrl, shift) is Some,
        new.doc().text() == old.doc().text(),
        new.doc().selection() is None,
        new.needs_layout() == old.needs_layout(),
        old.doc().cursor() <= new.doc().cursor() <= old.doc().text().len(),
        new.doc().cursor() < old.doc().text().len() ==> old.doc().text()[new.doc().cursor()]
            == NEWLINE,
        forall|k: int|
            old.doc().cursor() <= k < new.doc().cursor() ==> old.doc().text()[k] != NEWLINE,
{
    lemma_key_names();
    lemma_line_finish_props(old.doc().text(), old.doc().cursor());
}

/// Ctrl+A selects the whole text, from 0 to its end, and puts the cursor at
/// the end; an empty text gets no selection. The text stays. Without Ctrl,
/// "a" is not taken and changes nothing.
pub proof fn lemma_key_select_all(old: TreviaEditorV2, new: TreviaEditorV2, ctrl: bool, shift: bool)
    requires
        old.wf(),
        key_applied(old, new, key_command("a"@, ctrl, shift)),
    ensures
        key_command("a"@, ctrl, shift) is Some <==> ctrl,
        !ctrl ==> new == old,
        ctrl ==> {
            &&& new.doc().text() == old.doc().text()
            &&& new.doc().cursor() == old.doc().text().len()
            &&& old.doc().text().len() > 0 ==> (new.doc().selection() matches Some(s) && s.start == 0
                && s.end == old.doc().text().len())
            &&& old.doc().text().len() == 0 ==> new.doc().selection() is None
        },
{
    lemma_key_names();
}

/// Any other key is not taken and changes nothing.
pub proof fn lemma_key_other(old: TreviaEditorV2, new: TreviaEditorV2, key: Seq<char>, ctrl: bool, shift: bool)
    requires
        key != "Backspace"@,
        key != "Delete"@,
        key != "ArrowLeft"@,
        key != "ArrowRight"@,
        key != "Home"@,
        key != "End"@,
        key != "a"@,
        key_applied(old, new, key_command(key, ctrl, shift)),
    ensures
        key_command(key, ctrl, shift) is None,
        new == old,
{
}

/// The editing state of an editor: its document, and whether the text has
/// changed since the pages were last laid out.
pub struct TreviaEditorV2 {
    document: DocumentV2,
    needs_layout: bool,
}

impl TreviaEditorV2 {
    /// The document.
    pub closed spec fn doc(&self) -> DocumentV2 {
        self.document
    }

    /// Whether the pages must be laid out again.
    pub closed spec fn needs_layout(&self) -> bool {
        self.needs_layout
    }

    /// The invariant: a well-formed document.
    pub open spec fn wf(&self) -> bool {
        self.doc().wf()
    }

    /// An editor on an empty document, waiting for its first layout.
    pub fn new() -> (e: TreviaEditorV2)
        ensures
            e.wf(),
            e.doc().sliceable(),
            e.doc().text() == Seq::<u8>::empty(),
            e.doc().cursor() == 0,
            e.doc().selection() is None,
            e.needs_layout(),
    {
        TreviaEditorV2 { document: DocumentV2::new(), needs_layout: true }
    }

    /// An editor on a document holding `text`, waiting for its first layout.
    pub fn from_text(text: String) -> (e: TreviaEditorV2)
        requires
            encode_utf8(text@).len() < usize::MAX,
        ensures
            e.wf(),
            e.doc().sliceable(),
            e.doc().text() == encode_utf8(text@),
            e.doc().cursor() == 0,
            e.doc().selection() is None,
            e.doc().table().spec_line_count() == 1 + count_newlines(encode_utf8(text@)),
            e.needs_layout(),
    {
        TreviaEditorV2 { document: DocumentV2::from_text(text), needs_layout: true }
    }

    /// Types `text` at the cursor, replacing the selection.
    pub fn insert_text(&mut self, text: &str)
        requires
            old(self).wf(),
            old(self).doc().text_unselected().len() + text.spec_bytes().len() <= usize::MAX,
            old(self).doc().lines_unselected() + count_newlines(text.spec_bytes()) <= usize::MAX,
        ensures
            final(self).wf(),
            typed(old(self).doc(), final(self).doc(), text.spec_bytes()),
            final(self).needs_layout(),
    {
        self.document.insert_text(text);
        self.needs_layout = true;
    }

    /// Inserts `text` at `position`.
    pub fn insert_text_at(&mut self, position: usize, text: &str)
        requires
            old(self).wf(),
            old(self).doc().text().len() + text.spec_bytes().len() <= usize::MAX,
            old(self).doc().table().spec_line_count() + count_newlines(text.spec_bytes())
                <= usize::MAX,
        ensures
            final(self).wf(),
            inserted_at(old(self).doc(), final(self).doc(), position as int, text.spec_bytes()),
            final(self).needs_layout(),
    {
        self.document.insert_text_at(position, text);
        self.needs_layout = true;
    }

    /// Backspace `count` times, or deletes the selection.
    pub fn delete_backward(&mut self, count: usize)
        requires
            old(self).wf(),
        ensures
            final(self).wf(),
            backspaced(old(self).doc(), final(self).doc(), count as int),
            final(self).needs_layout(),
    {
        self.document.delete_backward(count);
        self.needs_layout = true;
    }

    /// Delete `count` times, or deletes the selection.
    pub fn delete_forward(&mut self, count: usize)
        requires
            old(self).wf(),
        ensures
            final(self).wf(),
            forward_deleted(old(self).doc(), final(self).doc(), count as int),
            final(self).needs_layout(),
    {
        self.document.delete_forward(count);
        self.needs_layout = true;
    }

    /// Deletes the bytes between `start` and `end`.
    pub fn delete_range(&mut self, start: usize, end: usize)
        requires
            old(self).wf(),
        ensures
            final(self).wf(),
            range_deleted(old(self).doc(), final(self).doc(), start as int, end as int),
            final(self).needs_layout(),
    {
        self.document.delete_range(start, end);
        self.needs_layout = true;
    }

    /// The text.
    pub fn get_text(&self) -> (s: String)
        requires
            self.wf(),
            self.doc().sliceable(),
        ensures
            encode_utf8(s@) == self.doc().text(),
    {
        self.document.get_text()
    }

    /// The selected text; empty when nothing is selected.
    pub fn get_selected_text(&self) -> (s: String)
        requires
            self.wf(),
            self.doc().selection_sliceable(),
        ensures
            encode_utf8(s@) == if self.doc().selection() is Some {
                self.doc().text().subrange(self.doc().sel_from(), self.doc().sel_to())
            } else {
                Seq::<u8>::empty()
            },
    {
        self.document.get_selected_text()
    }

    /// The text's length in bytes.
    pub fn length(&self) -> (n: usize)
        requires
            self.wf(),
        ensures
            n == self.doc().text().len(),
    {
        self.document.length()
    }

    /// Puts the cursor at `position` (at the end when past it).
    pub fn set_cursor_position(&mut self, position: usize)
        requires
            old(self).wf(),
        ensures
            final(self).wf(),
            cursor_placed(old(self).doc(), final(self).doc(), position as int),
            final(self).needs_layout() == old(self).needs_layout(),
    {
        self.document.set_cursor_position(position);
    }

    /// The cursor's byte position.
    pub fn get_cursor_position(&self) -> (c: usize)
        ensures
            c == self.doc().cursor(),
    {
        self.document.get_cursor_position()
    }

    /// Moves the cursor by `delta` bytes.
    pub fn move_cursor(&mut self, delta: i32)
        requires
            old(self).wf(),
            delta != i32::MIN,
            delta >= 0 ==> old(self).doc().cursor() + delta <= usize::MAX,
        ensures
            final(self).wf(),
            cursor_moved(old(self).doc(), final(self).doc(), delta as int),
            final(self).needs_layout() == old(self).needs_layout(),
    {
        self.document.move_cursor(delta);
    }

    /// Moves the cursor to the start of its line.
    pub fn move_cursor_to_line_start(&mut self)
        requires
            old(self).wf(),
            old(self).doc().sliceable(),
            is_boundary(old(self).doc().text(), old(self).doc().cursor()),
        ensures
            final(self).wf(),
            moved_to_line_start(old(self).doc(), final(self).doc()),
            final(self).needs_layout() == old(self).needs_layout(),
    {
        self.document.move_cursor_to_line_start();
    }

    /// Moves the cursor to the end of its line.
    pub fn move_cursor_to_line_end(&mut self)
        requires
            old(self).wf(),
            old(self).doc().sliceable(),
            is_boundary(old(self).doc().text(), old(self).doc().cursor()),
        ensures
            final(self).wf(),
            moved_to_line_end(old(self).doc(), final(self).doc()),
            final(self).needs_layout() == old(self).needs_layout(),
    {
        self.document.move_cursor_to_line_end();
    }

    /// Selects from `start` to `end`.
    pub fn set_selection(&mut self, start: usize, end: usize)
        requires
            old(self).wf(),
        ensures
            final(self).wf(),
            selected(old(self).doc(), final(self).doc(), start as int, end as int),
            final(self).needs_layout() == old(self).needs_layout(),
    {
        self.document.set_selection(start, end);
    }

    /// Selects the whole text.
    pub fn select_all(&mut self)
        requires
            old(self).wf(),
        ensures
            final(self).wf(),
            all_selected(old(self).doc(), final(self).doc()),
            final(self).needs_layout() == old(self).needs_layout(),
    {
        self.document.select_all();
    }

    /// Drops the selection.
    pub fn clear_selection(&mut self)
        requires
            old(self).wf(),
        ensures
            final(self).wf(),
            deselected(old(self).doc(), final(self).doc()),
            final(self).needs_layout() == old(self).needs_layout(),
    {
        self.document.clear_selection();
    }

    /// Whether something is selected.
    pub fn has_selection(&self) -> (b: bool)
        ensures
            b == self.doc().selection() is Some,
    {
        self.document.has_selection()
    }

    /// The selection's ends, the smaller first.
    pub fn get_selection(&self) -> (res: Option<Vec<usize>>)
        ensures
            res is Some <==> self.doc().selection() is Some,
            res matches Some(v) ==> v@ == seq![
                ordered(self.doc().selection()->0).0,
                ordered(self.doc().selection()->0).1,
            ],
    {
        self.document.get_selection()
    }

    /// Whether the pages must be laid out again.
    pub fn layout_pending(&self) -> (b: bool)
        ensures
            b == self.needs_layout(),
    {
        self.needs_layout
    }

    /// Marks the pages as laid out; returns whether they had to be, that is
    /// whether the caller must lay out the current text now.
    pub fn update_layout(&mut self) -> (run: bool)
        ensures
            run == old(self).needs_layout(),
            !final(self).needs_layout(),
            final(self).doc() == old(self).doc(),
    {
        let run = self.needs_layout;
        self.needs_layout = false;
        run
    }

    /// Marks the pages as needing a new layout, as a change of page
    /// geometry does.
    pub fn invalidate_layout(&mut self)
        ensures
            final(self).needs_layout(),
            final(self).doc() == old(self).doc(),
    {
        self.needs_layout = true;
    }

    /// A click that the layout resolved to `position`, or to nothing: the
    /// cursor goes there. Returns whether there was a position.
    pub fn handle_click(&mut self, position: Option<usize>) -> (hit: bool)
        requires
            old(self).wf(),
        ensures
            final(self).wf(),
            hit == position is Some,
            final(self).needs_layout() == old(self).needs_layout(),
            position matches Some(p) ==> cursor_placed(old(self).doc(), final(self).doc(), p as int),
            position is None ==> final(self).doc() == old(self).doc(),
    {
        match position {
            Some(p) => {
                self.document.set_cursor_position(p);
                true
            },
            None => false,
        }
    }

    /// A drag that the layout resolved to `position`, or to nothing: the
    /// selection is extended from its first end to `position`, or, when
    /// there is none, made from the cursor to `position`.
    pub fn handle_drag(&mut self, position: Option<usize>)
        requires
            old(self).wf(),
        ensures
            final(self).wf(),
            final(self).needs_layout() == old(self).needs_layout(),
            position is None ==> final(self).doc() == old(self).doc(),
            position matches Some(p) ==> selected(
                old(self).doc(),
                final(self).doc(),
                if old(self).doc().selection() is Some {
                    ordered(old(self).doc().selection()->0).0 as int
                } else {
                    old(self).doc().cursor()
                },
                p as int,
            ),
    {
        match position {
            Some(p) => {
                let cursor_pos = self.document.get_cursor_position();
                match self.document.get_selection() {
                    Some(sel) => {
                        if sel.len() >= 2 {
                            self.document.set_selection(sel[0], p);
                        } else {
                            self.document.set_selection(cursor_pos, p);
                        }
                    },
                    None => {
                        self.document.set_selection(cursor_pos, p);
                    },
                }
            },
            None => {},
        }
    }

    /// The line count that the piece table keeps.
    pub fn get_line_count(&self) -> (n: usize)
        ensures
            n == self.doc().table().spec_line_count(),
    {
        self.document.line_count()
    }

    /// Line `line_number` (counted from 1).
    pub fn get_line(&self, line_number: usize) -> (res: Option<String>)
        requires
            self.wf(),
            1 <= line_number <= self.doc().table().spec_line_count() ==> self.doc().table().line_sliceable(
                line_number as int,
            ),
        ensures
            res is Some <==> line_text(self.doc().text(), line_number as int) is Some,
            res matches Some(s) ==> encode_utf8(s@) == line_text(
                self.doc().text(),
                line_number as int,
            )->0,
    {
        self.document.get_line(line_number)
    }

    /// The number of the cursor's line, counted from 1.
    pub fn get_cursor_line(&self) -> (line: usize)
        requires
            self.wf(),
            self.doc().sliceable(),
            is_boundary(self.doc().text(), self.doc().cursor()),
        ensures
            line == 1 + count_newlines(self.doc().text().take(self.doc().cursor())),
    {
        let position = self.document.get_cursor_position();
        self.document.get_line_at_position(position)
    }

    /// How many bytes the cursor lies after the start of its line.
    pub fn get_cursor_column(&self) -> (column: usize)
        requires
            self.wf(),
            self.doc().sliceable(),
            is_boundary(self.doc().text(), self.doc().cursor()),
        ensures
            column == self.doc().cursor() - line_begin(self.doc().text(), self.doc().cursor()),
    {
        let position = self.document.get_cursor_position();
        self.document.get_column_at_position(position)
    }

    /// Handles a key press: Backspace and Delete delete one byte (or the
    /// selection), the arrows move the cursor by one byte, Home and End go
    /// to the ends of the line, Ctrl+A selects all. Returns whether the key
    /// was taken.
    pub fn handle_key(&mut self, key: &str, ctrl: bool, shift: bool, _alt: bool) -> (taken: bool)
        requires
            old(self).wf(),
            key_command(key@, ctrl, shift) == Some(KeyCommand::MoveRight) ==> old(self).doc().cursor()
                < usize::MAX,
            key_command(key@, ctrl, shift) == Some(KeyCommand::LineStart) || key_command(
                key@,
                ctrl,
                shift,
            ) == Some(KeyCommand::LineEnd) ==> old(self).doc().sliceable() && is_boundary(
                old(self).doc().text(),
                old(self).doc().cursor(),
            ),
        ensures
            final(self).wf(),
            taken == key_command(key@, ctrl, shift) is Some,
            key_applied(*old(self), *final(self), key_command(key@, ctrl, shift)),
    {
        if str_eq(key, "Backspace") {
            self.delete_backward(1);
            true
        } else if str_eq(key, "Delete") {
            self.delete_forward(1);
            true
        } else if str_eq(key, "ArrowLeft") {
            if !ctrl && !shift {
                self.move_cursor(-1);
            }
            true
        } else if str_eq(key, "ArrowRight") {
            if !ctrl && !shift {
                self.move_cursor(1);
            }
            true
        } else if str_eq(key, "Home") {
            self.move_cursor_to_line_start();
            true
        } else if str_eq(key, "End") {
            self.move_cursor_to_line_end();
            true
        } else if ctrl && str_eq(key, "a") {
            self.select_all();
            true
        } else {
            false
        }
    }
}

} // verus!
