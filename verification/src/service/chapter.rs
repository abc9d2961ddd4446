//! The chapter service.

use vstd::prelude::*;

verus! {

/// Handler of the chapter service.
#[derive(Debug, Default, Clone, Copy)]
pub struct MyChapter {}

} // verus!
