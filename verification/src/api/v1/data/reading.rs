//! Request bodies of the reading routes.

use vstd::prelude::*;

use crate::pagination::PaginateQuery;

verus! {

/// Starts reading manga `manga_id`.
#[derive(Debug, Clone, Copy, PartialEq, Eq)]
pub struct Post {
    pub manga_id: i32,
}

/// Sets the reading progress.
#[derive(Debug, Clone, Copy, PartialEq, Eq)]
pub struct Patch {
    pub progress: i32,
}

/// Query string of the reading listing.
#[derive(Debug, Clone)]
pub struct IndexQuery {
    pub paginate: PaginateQuery,
    pub search: Option<String>,
    pub order: Option<String>,
}

} // verus!
