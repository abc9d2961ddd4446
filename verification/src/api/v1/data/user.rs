//! Request bodies of the user routes.

use vstd::prelude::*;

verus! {

/// Registers an account.
#[derive(Debug, Clone)]
pub struct Post {
    pub username: String,
    pub email: String,
    pub password: String,
}

/// Changes some fields of an account.
#[derive(Debug, Clone)]
pub struct Patch {
    pub username: Option<String>,
    pub email: Option<String>,
    pub password: Option<String>,
}

/// Logs in by username or by email.
#[derive(Debug, Clone)]
pub struct Login {
    pub username: Option<String>,
    pub email: Option<String>,
    pub password: String,
}

} // verus!
