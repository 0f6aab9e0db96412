//! Diff, patch, and three-way merge for sequences of ternary values
//! (`{-1, 0, +1}`).
//!
//! - [`Trit`]: the ternary value (Neg, Zero, Pos).
//! - [`TernarySeq`]: an ordered, mutable sequence of trits.
//! - [`TernaryDiff`]: an LCS-based diff between two sequences.
//! - [`TernaryPatch`]: apply a diff to a sequence and reverse diffs.
//! - [`ThreeWayMerge`]: position-wise three-way merge with conflict detection.
//! - [`ConflictResolver`]: strategies for resolving merge conflicts.
//!
//! The laws that tie these together (round trips, optimality of the diff,
//! what the merge takes) are proof functions in [`laws`] and [`merge`].

pub mod trit;
pub mod seq;
pub mod script;
pub mod diff;
pub mod patch;
pub mod merge;
pub mod laws;

pub use diff::TernaryDiff;
pub use merge::{Conflict, ConflictResolver, MergeResult, ResolutionStrategy, ThreeWayMerge};
pub use patch::TernaryPatch;
pub use script::DiffOp;
pub use seq::TernarySeq;
pub use trit::Trit;
