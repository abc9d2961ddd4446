//! Rows of the manga queries.

use vstd::prelude::*;

verus! {

/// The columns of a minimal manga query: when it was last updated.
#[derive(Debug, Clone, Copy, PartialEq, Eq)]
pub enum Minimal {
    UpdatedAt,
}

} // verus!
