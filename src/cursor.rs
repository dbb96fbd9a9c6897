use vstd::prelude::*;

verus! {

/// A caret on a grid of characters: a column and a row.
#[derive(Copy, Clone, Debug)]
pub struct Cursor {
    pub column: usize,
    pub row: usize,
}

impl Cursor {
    pub fn new() -> (r: Cursor)
        ensures
            r.column == 0,
            r.row == 0,
    {
        Cursor { column: 0, row: 0 }
    }

    pub fn column(&self) -> (r: usize)
        ensures
            r == self.column,
    {
        self.column
    }

    pub fn row(&self) -> (r: usize)
        ensures
            r == self.row,
    {
        self.row
    }

    pub fn move_right(&mut self)
        requires
            old(self).column < usize::MAX,
        ensures
            final(self).column == old(self).column + 1,
            final(self).row == old(self).row,
    {
        self.column = self.column + 1;
    }

    pub fn move_left(&mut self)
        requires
            old(self).column > 0,
        ensures
            final(self).column == old(self).column - 1,
            final(self).row == old(self).row,
    {
        self.column = self.column - 1;
    }
}

} // verus!
