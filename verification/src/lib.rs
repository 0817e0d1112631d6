//! Checker for an external recommendation service.
//!
//! The library has two independent halves. The aggregation half turns raw
//! `user,item,timestamp` interaction lines into per-user item histories:
//! it drops rows carrying the `<nil>` marker, collapses adjacent duplicate
//! items, keeps only sufficiently active users, and serialises the result
//! one user per line. The evaluation half reads that format back, splits
//! each history into train and test portions by position, and scores a
//! recommender's answer for the train portion against the held-out test
//! items. All input handling, arithmetic and formatting is verified;
//! the surrounding process (files, HTTP) hands this library plain values.

use vstd::prelude::*;

pub mod aggregate;
pub mod errors;
pub mod evaluate;
pub mod laws;
pub mod num;
pub mod text;

verus! {

/// The activity threshold: how many items a user's deduplicated
/// history must hold for the user to be emitted at all.
pub open spec fn activity_threshold() -> int {
    25
}

} // verus!
