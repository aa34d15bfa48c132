use vstd::prelude::*;

verus! {

/// A zero-based position in a document: a row and a column within that row.
///
/// Positions arriving from producers are version-relative and unclipped: a
/// `Point` may lie past the end of its document and is only clipped when the
/// projection is computed.
#[derive(Clone, Copy, PartialEq, Eq, Structural, Debug)]
pub struct Point {
    pub row: u32,
    pub column: u32,
}

/// Row-major order on positions: `a` is at or before `b`.
pub open spec fn point_le(a: Point, b: Point) -> bool {
    a.row < b.row || (a.row == b.row && a.column <= b.column)
}

/// Row-major order on positions: `a` is strictly before `b`.
pub open spec fn point_lt(a: Point, b: Point) -> bool {
    a.row < b.row || (a.row == b.row && a.column < b.column)
}

impl Point {
    pub fn new(row: u32, column: u32) -> (p: Point)
        ensures
            p == (Point { row, column }),
    {
        Point { row, column }
    }

    /// Decides `point_le(self, other)`.
    pub fn at_or_before(self, other: Point) -> (r: bool)
        ensures
            r == point_le(self, other),
    {
        self.row < other.row || (self.row == other.row && self.column <= other.column)
    }

    /// Decides `point_lt(self, other)`.
    pub fn before(self, other: Point) -> (r: bool)
        ensures
            r == point_lt(self, other),
    {
        self.row < other.row || (self.row == other.row && self.column < other.column)
    }
}

} // verus!
