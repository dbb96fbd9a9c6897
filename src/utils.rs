use vstd::prelude::*;

verus! {

/// Whether the editor should stop after an event.
#[derive(Copy, Clone, PartialEq, Eq, Structural, Debug)]
pub enum QuitOption {
    Quitting,
    NotQuitting,
}

/// The caret of a piece-table document: its offset in the current piece, the
/// index of the current piece's line start at or before it, its column, and
/// the column that vertical moves aim for.
#[derive(Copy, Clone, Debug)]
pub struct Cursor {
    pub node_offset: usize,
    pub line_idx: usize,
    pub line_offset: usize,
    pub original_line_offset: usize,
}

impl Cursor {
    pub fn new() -> (r: Cursor)
        ensures
            r.node_offset == 0,
            r.line_idx == 0,
            r.line_offset == 0,
            r.original_line_offset == 0,
    {
        Cursor { node_offset: 0, line_idx: 0, line_offset: 0, original_line_offset: 0 }
    }
}

} // verus!
