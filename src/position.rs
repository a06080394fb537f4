use vstd::prelude::*;

verus! {

/// Where the scanner stands: the absolute index, the row, the index at which the row
/// starts, and the column within the row.
#[derive(Clone, Copy, Debug, PartialEq, Eq, Structural)]
pub struct LexerPosition {
    pub index: usize,
    pub row: usize,
    pub row_index: usize,
    pub column: usize,
}

impl LexerPosition {
    /// The column is the distance from the start of the row.
    pub open spec fn wf(&self) -> bool {
        &&& self.row_index <= self.index
        &&& self.row <= self.index
        &&& self.column == self.index - self.row_index
    }

    pub fn new() -> (r: Self)
        ensures
            r == (LexerPosition { index: 0, row: 0, row_index: 0, column: 0 }),
            r.wf(),
    {
        Self { index: 0, row: 0, row_index: 0, column: 0 }
    }

    /// Steps over a line break: the next character is the first of a new row.
    pub fn new_line(&mut self)
        requires
            old(self).wf(),
            old(self).index < usize::MAX,
        ensures
            final(self).wf(),
            final(self).index == old(self).index + 1,
            final(self).row == old(self).row + 1,
            final(self).row_index == final(self).index,
            final(self).column == 0,
    {
        self.index += 1;
        self.row += 1;
        self.row_index = self.index;
        self.column = 0;
    }

    /// Steps over `n` characters within the current row.
    pub fn advance(&mut self, n: usize)
        requires
            old(self).wf(),
            old(self).index + n <= usize::MAX,
        ensures
            final(self).wf(),
            final(self).index == old(self).index + n,
            final(self).column == old(self).column + n,
            final(self).row == old(self).row,
            final(self).row_index == old(self).row_index,
    {
        self.index += n;
        self.column += n;
    }
}

} // verus!
