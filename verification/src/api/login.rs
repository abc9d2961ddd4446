//! The login route's request and answer.

use vstd::prelude::*;

verus! {

/// Credentials of a login request.
#[derive(Debug, Clone)]
pub struct LoginData {
    pub username: String,
    pub password: String,
}

/// The bearer token that answers a successful login or registration.
#[derive(Debug, Clone)]
pub struct Token {
    pub token: String,
}

} // verus!
