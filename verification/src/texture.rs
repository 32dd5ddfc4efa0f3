//! Patterns on surfaces.

use vstd::prelude::*;

verus! {

/// A checkerboard of black and white cells, `repeats` of them along each
/// surface coordinate.
#[derive(Debug, Clone, Copy, PartialEq, Eq)]
pub struct Checkerboard(pub i32);

impl Checkerboard {
    /// The cell in column `i` and row `j` is black: exactly one of `i`
    /// and `j` is even.
    pub open spec fn spec_is_black(i: int, j: int) -> bool {
        (i % 2 == 0) != (j % 2 == 0)
    }

    pub fn new(repeats: i32) -> (c: Self)
        ensures
            c.0 == repeats,
    {
        Checkerboard(repeats)
    }

    /// The number of cells along each surface coordinate.
    pub fn repeats(&self) -> (r: i32)
        ensures
            r == self.0,
    {
        self.0
    }

    /// Whether the cell in column `i` and row `j` is black.
    pub fn is_black(i: i32, j: i32) -> (b: bool)
        ensures
            b == Self::spec_is_black(i as int, j as int),
    {
        (i % 2 == 0) != (j % 2 == 0)
    }
}

} // verus!
