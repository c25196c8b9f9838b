//! Grid coordinates.
//!
//! A [`Point`] is a pair of machine integers; its view is a [`Cell`], a pair
//! of mathematical integers. Everything that the rest of the crate states
//! about positions is stated over cells.

use std::cmp::Ordering;
use vstd::prelude::*;

verus! {

/// A position on the unbounded integer grid: `(row, column)`.
pub type Cell = (int, int);

/// Row-major order on cells: first by row, then by column.
pub open spec fn cell_lt(a: Cell, b: Cell) -> bool {
    a.0 < b.0 || (a.0 == b.0 && a.1 < b.1)
}

/// The reflexive closure of [`cell_lt`].
pub open spec fn cell_le(a: Cell, b: Cell) -> bool {
    a == b || cell_lt(a, b)
}

/// The cell `c` moved by the offset `d`.
pub open spec fn shift(c: Cell, d: Cell) -> Cell {
    (c.0 + d.0, c.1 + d.1)
}

/// The quarter turn about the origin: `(r, c)` goes to `(c, -r)`.
pub open spec fn turn(c: Cell) -> Cell {
    (c.1, -c.0)
}

/// A grid coordinate with a row and a column.
#[derive(Clone, Copy, Debug, PartialEq, Eq, Structural, Ord, Hash)]
pub struct Point {
    pub row: i32,
    pub col: i32,
}

impl View for Point {
    type V = Cell;

    open spec fn view(&self) -> Cell {
        (self.row as int, self.col as int)
    }
}

impl Point {
    /// The point at `row` and `col`.
    pub fn new(row: i32, col: i32) -> (p: Point)
        ensures
            p.row == row,
            p.col == col,
    {
        Point { row, col }
    }

    /// The sum of the two points, coordinate by coordinate.
    pub fn add(self, other: Point) -> (p: Point)
        requires
            i32::MIN <= self.row + other.row <= i32::MAX,
            i32::MIN <= self.col + other.col <= i32::MAX,
        ensures
            p@ == shift(self@, other@),
    {
        Point { row: self.row + other.row, col: self.col + other.col }
    }

    /// The point turned by a quarter turn about the origin.
    pub fn rotate(self) -> (p: Point)
        requires
            self.row > i32::MIN,
        ensures
            p@ == turn(self@),
    {
        Point { row: self.col, col: -self.row }
    }
}

impl PartialOrd for Point {
    fn partial_cmp(&self, other: &Point) -> (r: Option<Ordering>) {
        if self.row < other.row {
            Some(Ordering::Less)
        } else if self.row > other.row {
            Some(Ordering::Greater)
        } else if self.col < other.col {
            Some(Ordering::Less)
        } else if self.col > other.col {
            Some(Ordering::Greater)
        } else {
            Some(Ordering::Equal)
        }
    }
}

impl vstd::std_specs::cmp::PartialOrdSpecImpl for Point {
    open spec fn obeys_partial_cmp_spec() -> bool {
        true
    }

    open spec fn partial_cmp_spec(&self, other: &Point) -> Option<Ordering> {
        if cell_lt(self@, other@) {
            Some(Ordering::Less)
        } else if cell_lt(other@, self@) {
            Some(Ordering::Greater)
        } else {
            Some(Ordering::Equal)
        }
    }
}

} // verus!
