//! A deductive Sudoku solver.
//!
//! An 81-cell board holds, for each cell, either a fixed digit or the set of
//! digits still possible there. Three deduction rules (elimination by fixed
//! values, hidden singles within a block, and naked subsets of sizes two to
//! four) are applied by a fixed-point driver until none makes progress.
//! Every rule carries a contract stating that it only shrinks possibility
//! sets, never removes a digit that some solution of the board still needs,
//! and reports progress exactly when it says it does; the driver returns
//! only when all three rules are at their fixed point.

pub mod board;
pub mod digits;
pub mod geometry;
pub mod model;
