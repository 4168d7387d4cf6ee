//! Small value types shared by the documents and editors.

use vstd::prelude::*;

verus! {

/// The style of a run of text. Runs are made with the default style only.
#[derive(Debug, Clone, Copy, PartialEq, Eq)]
pub struct TextStyle {}

impl Default for TextStyle {
    fn default() -> (s: TextStyle)
        ensures
            s == (TextStyle {}),
    {
        TextStyle {}
    }
}

/// A cursor: its byte offset in the document and the page it is shown on.
#[derive(Debug, Clone, Copy, PartialEq, Eq)]
pub struct CursorPosition {
    pub offset: usize,
    pub page: usize,
}

impl CursorPosition {
    pub fn new(offset: usize, page: usize) -> (c: CursorPosition)
        ensures
            c.offset == offset,
            c.page == page,
    {
        CursorPosition { offset, page }
    }
}

} // verus!
