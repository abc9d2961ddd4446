//! Routes of the chapters.

use vstd::prelude::*;

verus! {

/// Path under which the routes of the chapters are mounted.
pub fn base() -> (r: &'static str)
    ensures
        r@ == "/manga/"@,
{
    "/manga/"
}

} // verus!
