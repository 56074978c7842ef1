//! A constraint-propagation engine for 9-by-9 sudoku: candidate sets over
//! the digits, the assign-and-eliminate fixed point used as a solving
//! oracle, and two random puzzle generators built on that oracle.

pub mod digit_set;
pub mod propagate;
pub mod rng;
pub mod sudoku;
pub mod topology;
