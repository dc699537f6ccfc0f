//! Grid positions.

use vstd::prelude::*;

verus! {

/// A grid position. Columns grow to the east, rows grow to the south.
#[derive(Clone, Copy, Debug, PartialEq, Eq, Hash, Structural)]
pub struct Cell {
    pub x: i32,
    pub y: i32,
}

impl View for Cell {
    type V = (int, int);

    /// The column and the row.
    open spec fn view(&self) -> (int, int) {
        (self.x as int, self.y as int)
    }
}

impl Cell {
    /// Builds the cell in column `x`, row `y`.
    pub fn new(x: i32, y: i32) -> (c: Cell)
        ensures
            c.x == x,
            c.y == y,
    {
        Cell { x, y }
    }
}

} // verus!
