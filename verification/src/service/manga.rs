//! The manga service.

use vstd::prelude::*;

verus! {

/// Handler of the manga service.
#[derive(Debug, Default, Clone, Copy)]
pub struct MyManga {}

} // verus!
