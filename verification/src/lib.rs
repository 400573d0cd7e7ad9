//! Global sequence alignment by the Needleman-Wunsch dynamic program:
//! a score grid over two sequences, a tie-aware traceback-direction grid,
//! exhaustive enumeration of every optimal backtracking path, and the
//! reconstruction of the aligned sequence pair that each path describes.

pub mod grid;
pub mod helpers;
pub mod models;
pub mod score;
