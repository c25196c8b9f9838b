//! A solver for the perpetual-calendar packing puzzle.
//!
//! The puzzle is a 7×7 grid on which six cells are permanently blocked. A
//! month cell and a day cell are blocked as well, and eight blocks have to
//! cover every remaining cell, each block used once, turned in quarter turns
//! but never mirrored.
//!
//! * [`error`] holds the reasons for which an operation fails,
//! * [`point`] holds grid coordinates and the mathematics of cells,
//! * [`shape`] holds the mathematics of sets of cells,
//! * [`block`] holds the shapes and their rotation,
//! * [`board`] holds the grid and the placing and lifting of blocks,
//! * [`search`] holds the depth-first search for a complete tiling,
//! * [`tiling`] holds what the search is worth: the laws of its results,
//! * [`calendar`] holds the layout of the calendar puzzle itself.

pub mod error;
pub mod point;
pub mod shape;
pub mod block;
pub mod board;
pub mod search;
pub mod tiling;
pub mod calendar;
