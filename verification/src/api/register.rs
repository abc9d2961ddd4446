//! The registration route's request.

use vstd::prelude::*;

verus! {

/// Credentials of a registration request.
#[derive(Debug, Clone)]
pub struct RegisterData {
    pub username: String,
    pub password: String,
}

} // verus!
