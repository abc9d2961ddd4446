//! Who may edit an item.

use vstd::prelude::*;

use crate::interceptor::auth::{spec_has_permission, valid_permissions, UserPermissions, ADMIN};
use crate::middleware::auth::AuthService;

verus! {

/// Why an edit was refused.
#[derive(Debug, Clone, Copy, PartialEq, Eq)]
pub enum EditError {
    NotAllowed,
}

impl EditError {
    /// The message the caller is answered with.
    pub fn message(&self) -> (r: &'static str)
        ensures
            r@ == "Not allowed to edit this item"@,
    {
        "Not allowed to edit this item"
    }
}

/// Whether the caller of `auth` may edit an item of user `user_id`: refused exactly when
/// the caller is someone else and holds the administrator permission.
pub fn can_edit(auth: AuthService, user_id: i32) -> (r: Result<(), EditError>)
    requires
        valid_permissions(auth.user.permissions),
    ensures
        r is Err <==> auth.user.id != user_id && spec_has_permission(auth.user.permissions, UserPermissions { bits: ADMIN }),
        r is Err ==> r == Err::<(), EditError>(EditError::NotAllowed),
{
    let user = auth.user;
    if user.id != user_id && user.has_permission(UserPermissions { bits: ADMIN }) {
        Err(EditError::NotAllowed)
    } else {
        Ok(())
    }
}

} // verus!
