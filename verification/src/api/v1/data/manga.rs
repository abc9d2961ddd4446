//! Request bodies of the manga routes.

use vstd::prelude::*;

use crate::pagination::PaginateQuery;

verus! {

/// Adds the mangas at `urls`.
#[derive(Debug, Clone)]
pub struct Post {
    pub urls: Vec<String>,
}

/// Points a manga at another url.
#[derive(Debug, Clone)]
pub struct Patch {
    pub url: String,
}

/// The columns of a minimal manga query.
#[derive(Debug, Clone, Copy, PartialEq, Eq)]
pub enum Minimal {
    Url,
    UpdatedAt,
}

/// Query string of the manga listing.
#[derive(Debug, Clone)]
pub struct IndexQuery {
    pub paginate: PaginateQuery,
    pub search: Option<String>,
}

} // verus!
