//! The reading service.

use vstd::prelude::*;

use crate::interceptor::auth::{LoggedInCheck, UserPermissions, USER};

verus! {

/// Handler of the reading service.
#[derive(Debug, Default, Clone, Copy)]
pub struct ReadingController;

impl ReadingController {
    /// The check every request to this service passes first: a registered user must be logged in.
    pub fn guard() -> (r: LoggedInCheck)
        ensures
            r.perms.bits == USER,
    {
        LoggedInCheck::new(UserPermissions { bits: USER })
    }
}

} // verus!
