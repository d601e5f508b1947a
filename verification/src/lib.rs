//! Grouped, multi-key sort-by evaluator for a columnar expression engine.
//!
//! Given an input column and one or more key columns, the library either
//! computes a flat permutation of the input ordered by the keys, or
//! re-partitions an existing group structure so that each group's members are
//! reordered by the keys while group identity and group order are preserved.

use vstd::prelude::*;

pub mod gather;
pub mod order;
pub mod argsort;
pub mod column;
pub mod groups;
pub mod expr;
pub mod sortby;

verus! {

/// Errors raised by sort-by evaluation. The first three are shape mismatches
/// (a length disagreement between columns or permutations); the last three are
/// compute errors (group structure or per-group list disagreements).
#[derive(Debug, Clone, PartialEq, Eq)]
pub enum SortByError {
    /// Shape mismatch: a length-1 key produced by a non-scalar expression may
    /// not be broadcast to the running broadcast length.
    NonScalarBroadcast,
    /// Shape mismatch: a key's length disagrees with an already established
    /// broadcast length greater than one.
    BroadcastMismatch { broadcast_len: usize, key_len: usize },
    /// Shape mismatch: the sort permutation's length differs from the length
    /// of the column that has to be sorted; carries the offending
    /// expression's identity.
    PermutationMismatch { idx_len: usize, series_len: usize, expr: String },
    /// Compute error: in grouped evaluation a key column's total length
    /// differs from the input column's total length; carries the offending
    /// expression's identity.
    KeyLengthMismatch { key_len: usize, input_len: usize, expr: String },
    /// Compute error: the key expression and the input expression produced a
    /// different number of groups (or a group is empty where it may not be).
    GroupsMismatch,
    /// Compute error: in the fallback path the per-group value lists of the
    /// input and of the key have different lengths.
    ListLengthMismatch { in_len: usize, by_len: usize },
}

} // verus!
