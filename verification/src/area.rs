//! A 2-D range utility: inclusive row/column spans and rectangle sizes
//! computed from two corner coordinates, in either order.

use vstd::prelude::*;

use core::ops::RangeInclusive;
use crate::appstate::Pos;

verus! {

/// A rectangle given by two corner coordinates; the corners may come in any
/// order, so every query first sorts the two rows and the two columns.
pub struct Area {
    pub lhs: Pos,
    pub rhs: Pos,
}

/// The smaller of two row or column numbers.
pub open spec fn spec_min(a: usize, b: usize) -> usize {
    if a <= b {
        a
    } else {
        b
    }
}

/// The larger of two row or column numbers.
pub open spec fn spec_max(a: usize, b: usize) -> usize {
    if a <= b {
        b
    } else {
        a
    }
}

impl Area {
    /// The inclusive span of rows covered by the rectangle.
    pub fn row_rng(&self) -> (r: RangeInclusive<usize>)
        ensures
            r@.start == spec_min(self.lhs.row, self.rhs.row),
            r@.end == spec_max(self.lhs.row, self.rhs.row),
            !r@.exhausted,
    {
        if self.lhs.row <= self.rhs.row {
            RangeInclusive::new(self.lhs.row, self.rhs.row)
        } else {
            RangeInclusive::new(self.rhs.row, self.lhs.row)
        }
    }

    /// The inclusive span of columns covered by the rectangle.
    pub fn col_rng(&self) -> (r: RangeInclusive<usize>)
        ensures
            r@.start == spec_min(self.lhs.col, self.rhs.col),
            r@.end == spec_max(self.lhs.col, self.rhs.col),
            !r@.exhausted,
    {
        if self.lhs.col <= self.rhs.col {
            RangeInclusive::new(self.lhs.col, self.rhs.col)
        } else {
            RangeInclusive::new(self.rhs.col, self.lhs.col)
        }
    }

    /// The difference between the larger and the smaller row corner.
    pub fn row_cnt(&self) -> (r: usize)
        ensures
            r == spec_max(self.lhs.row, self.rhs.row) - spec_min(self.lhs.row, self.rhs.row),
    {
        if self.lhs.row <= self.rhs.row {
            self.rhs.row - self.lhs.row
        } else {
            self.lhs.row - self.rhs.row
        }
    }

    /// The difference between the larger and the smaller column corner.
    pub fn col_cnt(&self) -> (r: usize)
        ensures
            r == spec_max(self.lhs.col, self.rhs.col) - spec_min(self.lhs.col, self.rhs.col),
    {
        if self.lhs.col <= self.rhs.col {
            self.rhs.col - self.lhs.col
        } else {
            self.lhs.col - self.rhs.col
        }
    }

    /// The number of cells in the rectangle: row count times column count.
    pub fn size(&self) -> (r: usize)
        requires
            (spec_max(self.lhs.row, self.rhs.row) - spec_min(self.lhs.row, self.rhs.row)) * (
            spec_max(self.lhs.col, self.rhs.col) - spec_min(self.lhs.col, self.rhs.col))
                <= usize::MAX,
        ensures
            r == (spec_max(self.lhs.row, self.rhs.row) - spec_min(self.lhs.row, self.rhs.row)) * (
            spec_max(self.lhs.col, self.rhs.col) - spec_min(self.lhs.col, self.rhs.col)),
    {
        self.row_cnt() * self.col_cnt()
    }
}

} // verus!
