use vstd::prelude::*;

verus! {

/// The size of the terminal window, in columns and rows.
pub struct Terminal {
    cols: usize,
    rows: usize,
}

impl Terminal {
    pub closed spec fn rows_spec(&self) -> usize {
        self.rows
    }

    pub closed spec fn cols_spec(&self) -> usize {
        self.cols
    }

    /// A window of `cols` columns and `rows` rows.
    pub fn new(cols: usize, rows: usize) -> (r: Terminal)
        ensures
            r.cols_spec() == cols,
            r.rows_spec() == rows,
    {
        Terminal { cols, rows }
    }

    /// The number of rows.
    #[verifier::when_used_as_spec(rows_spec)]
    pub fn rows(&self) -> (r: usize)
        ensures
            r == self.rows_spec(),
    {
        self.rows
    }

    /// The number of columns.
    #[verifier::when_used_as_spec(cols_spec)]
    pub fn cols(&self) -> (r: usize)
        ensures
            r == self.cols_spec(),
    {
        self.cols
    }
}

} // verus!
