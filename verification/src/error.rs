//! The reasons for which an operation of this crate fails.

use vstd::prelude::*;

verus! {

/// Why a block mask or a board layout was turned down.
#[derive(Clone, Copy, Debug, PartialEq, Eq, Structural)]
pub enum ParseError {
    /// The mask has no rows.
    EmptyMask,
    /// The rows of the mask differ in length.
    RaggedMask,
    /// The mask has more rows or columns than a coordinate can count.
    OversizedMask,
    /// The mask has no filled cell.
    BlankMask,
    /// The board has more rows or columns than a coordinate can count.
    OversizedBoard,
    /// A wall lies outside the board.
    WallOutside,
    /// Two walls lie on one cell.
    WallOverlap,
    /// The month is none of the twelve.
    UnknownMonth,
    /// The day is not one of 1 to 31.
    InvalidDay,
}

/// Why a block could not be laid on the board, or lifted from it.
#[derive(Clone, Copy, Debug, PartialEq, Eq, Structural)]
pub enum PlacementError {
    /// A cell of the block would lie outside the board.
    OutOfBounds,
    /// A cell of the block meets a cell that is not in the state that the
    /// operation needs.
    Collision,
}

/// Why the search ended without a tiling.
#[derive(Clone, Copy, Debug, PartialEq, Eq, Structural)]
pub enum SearchError {
    /// No arrangement of the blocks covers the board.
    SolutionNotFound,
}

impl ParseError {
    /// The reason in words, as contracts speak of it.
    pub open spec fn text(self) -> Seq<char> {
        match self {
            ParseError::EmptyMask => "the mask of a block has no rows"@,
            ParseError::RaggedMask => "the rows of the mask of a block differ in length"@,
            ParseError::OversizedMask => "the mask of a block is too large"@,
            ParseError::BlankMask => "the mask of a block has no filled cell"@,
            ParseError::OversizedBoard => "the board is too large"@,
            ParseError::WallOutside => "a wall lies outside the board"@,
            ParseError::WallOverlap => "two walls lie on one cell"@,
            ParseError::UnknownMonth => "unexpected month name"@,
            ParseError::InvalidDay => "the day is not one of 1 to 31"@,
        }
    }

    /// The reason in words.
    pub fn describe(&self) -> (words: &'static str)
        ensures
            words@ == self.text(),
    {
        match self {
            ParseError::EmptyMask => "the mask of a block has no rows",
            ParseError::RaggedMask => "the rows of the mask of a block differ in length",
            ParseError::OversizedMask => "the mask of a block is too large",
            ParseError::BlankMask => "the mask of a block has no filled cell",
            ParseError::OversizedBoard => "the board is too large",
            ParseError::WallOutside => "a wall lies outside the board",
            ParseError::WallOverlap => "two walls lie on one cell",
            ParseError::UnknownMonth => "unexpected month name",
            ParseError::InvalidDay => "the day is not one of 1 to 31",
        }
    }
}

impl PlacementError {
    /// The reason in words, as contracts speak of it.
    pub open spec fn text(self) -> Seq<char> {
        match self {
            PlacementError::OutOfBounds => "the block does not lie on the board"@,
            PlacementError::Collision => "the block meets a cell that is not free for it"@,
        }
    }

    /// The reason in words.
    pub fn describe(&self) -> (words: &'static str)
        ensures
            words@ == self.text(),
    {
        match self {
            PlacementError::OutOfBounds => "the block does not lie on the board",
            PlacementError::Collision => "the block meets a cell that is not free for it",
        }
    }
}

impl SearchError {
    /// The reason in words, as contracts speak of it.
    pub open spec fn text(self) -> Seq<char> {
        match self {
            SearchError::SolutionNotFound => "solution not found"@,
        }
    }

    /// The reason in words.
    pub fn describe(&self) -> (words: &'static str)
        ensures
            words@ == self.text(),
    {
        match self {
            SearchError::SolutionNotFound => "solution not found",
        }
    }
}

} // verus!
