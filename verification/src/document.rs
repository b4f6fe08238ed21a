//! The per-file state kept for every open document: the buffered text,
//! the viewport position and the cursor handed back by the editing surface.

use vstd::prelude::*;

verus! {

/// Top-left visible cell of the editing viewport.
#[derive(Clone, Copy, PartialEq, Eq, Structural, Debug)]
pub struct ScrollOffset {
    pub x: usize,
    pub y: usize,
}

/// Opaque position marker supplied by the editing surface. The session
/// core stores it and hands it back unchanged; it never interprets it.
#[derive(Clone, Copy, PartialEq, Eq, Structural, Debug)]
pub struct Cursor {
    pub row: usize,
    pub column: usize,
}

/// In-memory state of one open file: the full text (authoritative until
/// persisted), the viewport offset and the cursor.
pub struct FileData {
    pub content: String,
    pub scroll_offset: ScrollOffset,
    pub cursor: Cursor,
}

/// Mathematical model of a [`FileData`]: the text as a sequence of
/// characters, beside the plain viewport and cursor values.
#[verifier::ext_equal]
pub struct DocView {
    pub content: Seq<char>,
    pub scroll_offset: ScrollOffset,
    pub cursor: Cursor,
}

impl View for FileData {
    type V = DocView;

    open spec fn view(&self) -> DocView {
        DocView { content: self.content@, scroll_offset: self.scroll_offset, cursor: self.cursor }
    }
}

} // verus!
