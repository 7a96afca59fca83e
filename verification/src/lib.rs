//! Session workspace engine: a verified core for browsing, searching and
//! safely mutating a store of line-delimited JSON conversation logs.
//!
//! The crate models sessions (one log file each), groups them into projects
//! by working directory, ranks them against fuzzy search queries, renders
//! foldable chat previews from lightweight markup, and plans safe move /
//! copy / fork / delete mutations with backups and batch aggregation.

use vstd::prelude::*;

pub mod fuzzy;
pub mod json;
pub mod markdown;
pub mod mutate;
pub mod order;
pub mod preview;
pub mod records;
pub mod scan;
pub mod search;
pub mod text;
pub mod ui;
pub mod workspace;
pub mod wrap;

verus! {

/// The exact, case-sensitive token that must be typed before a batch delete
/// is allowed to run.
pub fn delete_confirmation_valid(input: &str) -> (r: bool)
    ensures
        r == (input@ == "DELETE"@),
{
    crate::text::str_eq(input, "DELETE")
}

} // verus!
