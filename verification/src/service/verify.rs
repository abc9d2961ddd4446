//! The token verification service.

use vstd::prelude::*;

use crate::interceptor::auth::{LoggedInCheck, UserPermissions, USER};

verus! {

/// Handler of the token verification service.
#[derive(Debug, Default, Clone, Copy)]
pub struct MyVerify {}

impl MyVerify {
    /// The check every request to this service passes first: a registered user must be logged in.
    pub fn guard() -> (r: LoggedInCheck)
        ensures
            r.perms.bits == USER,
    {
        LoggedInCheck::new(UserPermissions { bits: USER })
    }
}

} // verus!
