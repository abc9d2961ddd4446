//! The metadata service.

use vstd::prelude::*;

verus! {

/// Handler of the metadata service.
#[derive(Debug, Default, Clone, Copy)]
pub struct MyMeta {}

} // verus!
