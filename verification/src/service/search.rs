//! The search service.

use vstd::prelude::*;

verus! {

/// Handler of the search service.
#[derive(Debug, Default, Clone, Copy)]
pub struct MySearch {}

} // verus!
