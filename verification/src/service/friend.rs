//! The friend service.

use vstd::prelude::*;

use crate::interceptor::auth::{LoggedInCheck, UserPermissions, USER};

verus! {

/// Handler of the friend service.
#[derive(Debug, Default, Clone, Copy)]
pub struct MyFriend {}

impl MyFriend {
    /// The check every request to this service passes first: a registered user must be logged in.
    pub fn guard() -> (r: LoggedInCheck)
        ensures
            r.perms.bits == USER,
    {
        LoggedInCheck::new(UserPermissions { bits: USER })
    }
}

} // verus!
