//! Counting the swipe patterns of a 3x3 keypad.
//!
//! A pattern is a sequence of distinct points in which no stroke jumps over a
//! point that has not been swiped yet. [`position`] packs a partial pattern
//! (the points swiped so far and the last one) into a dense code and decides
//! which strokes are allowed; [`step`] keeps, for one pattern length, the
//! number of patterns that end in each code, and moves from one length to the
//! next. [`tally`] runs through all nine lengths.

pub mod pattern;
pub mod position;
pub mod step;
pub mod tally;
