use vstd::prelude::*;

verus! {

/// The cursor's position on the screen: a row and a column, both counted from zero.
pub struct Cursor {
    row: usize,
    col: usize,
}

impl Cursor {
    pub closed spec fn row_spec(&self) -> usize {
        self.row
    }

    pub closed spec fn col_spec(&self) -> usize {
        self.col
    }

    /// A cursor at the top left corner.
    pub fn new() -> (r: Cursor)
        ensures
            r.row_spec() == 0,
            r.col_spec() == 0,
    {
        Cursor { row: 0, col: 0 }
    }

    #[verifier::when_used_as_spec(row_spec)]
    pub fn row(&self) -> (r: usize)
        ensures
            r == self.row_spec(),
    {
        self.row
    }

    #[verifier::when_used_as_spec(col_spec)]
    pub fn col(&self) -> (r: usize)
        ensures
            r == self.col_spec(),
    {
        self.col
    }

    /// One column to the right.
    pub fn right(&mut self)
        requires
            old(self).col_spec() < usize::MAX,
        ensures
            final(self).row_spec() == old(self).row_spec(),
            final(self).col_spec() == old(self).col_spec() + 1,
    {
        self.goto(self.row, self.col + 1);
    }

    /// One column to the left; nothing at the first column.
    pub fn left(&mut self)
        ensures
            final(self).row_spec() == old(self).row_spec(),
            final(self).col_spec() == if old(self).col_spec() > 0 { old(self).col_spec() - 1 } else { 0 },
    {
        if self.col > 0 {
            self.goto(self.row, self.col - 1);
        }
    }

    /// The start of the next row.
    pub fn new_line(&mut self)
        requires
            old(self).row_spec() < usize::MAX,
        ensures
            final(self).row_spec() == old(self).row_spec() + 1,
            final(self).col_spec() == 0,
    {
        self.goto(self.row + 1, 0);
    }

    /// One row up; nothing at the first row.
    pub fn up(&mut self)
        ensures
            final(self).row_spec() == if old(self).row_spec() > 0 { old(self).row_spec() - 1 } else { 0 },
            final(self).col_spec() == old(self).col_spec(),
    {
        if self.row > 0 {
            self.goto(self.row - 1, self.col);
        }
    }

    /// One row down.
    pub fn down(&mut self)
        requires
            old(self).row_spec() < usize::MAX,
        ensures
            final(self).row_spec() == old(self).row_spec() + 1,
            final(self).col_spec() == old(self).col_spec(),
    {
        self.goto(self.row + 1, self.col);
    }

    /// After the line under the cursor was merged into the one above: to the
    /// row above, at the column where the merged text begins. Nothing at the
    /// first row.
    pub fn delete_line(&mut self, previous_line_len: usize)
        ensures
            old(self).row_spec() > 0 ==> final(self).row_spec() == old(self).row_spec() - 1 && final(self).col_spec()
                == previous_line_len,
            old(self).row_spec() == 0 ==> *final(self) == *old(self),
    {
        if self.row > 0 {
            self.goto(self.row - 1, previous_line_len);
        }
    }

    /// To the given position.
    pub fn goto(&mut self, row: usize, col: usize)
        ensures
            final(self).row_spec() == row,
            final(self).col_spec() == col,
    {
        self.row = row;
        self.col = col;
    }
}

} // verus!
