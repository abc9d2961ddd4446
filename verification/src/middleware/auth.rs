//! Authentication of the HTTP API: its bearer tokens, signed with the API's fixed key,
//! and the permission questions asked of the logged-in user.

use vstd::prelude::*;
use vstd::string::*;

use crate::interceptor::auth::{has_permission as column_has_permission, jwt_hs256_token, sign_hs256, spec_has_permission, valid_permissions, UserPermissions};
use crate::text::{starts_with, trim, spec_trim};

verus! {

/// The key that the HTTP API signs its tokens with.
pub open spec fn api_key() -> Seq<u8> {
    "bUHhhHH#!bU@NkNUnK12".spec_bytes()
}

/// JWT Token
#[derive(Debug, Clone, Copy, PartialEq, Eq)]
pub struct Token {
    pub id: i32,
}

/// Signs the bearer token of user `id` with the API's key; signing always succeeds.
pub fn sign(id: i32) -> (r: Result<String, jwt::Error>)
    ensures
        r is Ok,
        r matches Ok(t) ==> t@ == jwt_hs256_token(api_key(), id),
{
    sign_hs256("bUHhhHH#!bU@NkNUnK12".as_bytes(), id)
}

/// The logged-in user, as far as permission checks look at it.
#[derive(Debug, Clone, Copy, PartialEq, Eq)]
pub struct User {
    pub id: i32,
    /// The stored permission bits.
    pub permissions: i16,
}

impl User {
    /// Whether the user has every permission of `permission`.
    pub fn has_permission(&self, permission: UserPermissions) -> (r: bool)
        requires
            valid_permissions(self.permissions),
        ensures
            r == spec_has_permission(self.permissions, permission),
    {
        column_has_permission(self.permissions, permission)
    }
}

/// What a request handler learns of its caller.
#[derive(Debug, Clone, Copy, PartialEq, Eq)]
pub struct AuthService {
    pub user: User,
}

/// Whether the permission column `permissions` has every bit of `perm`.
pub open spec fn has_bits(permissions: i16, perm: i16) -> bool {
    permissions & perm == perm
}

impl AuthService {
    /// Whether the user has no permission at all.
    pub fn is_restricted(&self) -> (r: bool)
        ensures
            r == (self.user.permissions == 0),
    {
        self.user.permissions == 0
    }

    /// Whether the user has the user permission.
    pub fn is_user(&self) -> (r: bool)
        ensures
            r == has_bits(self.user.permissions, 1),
    {
        self.has_permission(1)
    }

    /// Whether the user has the moderator permission.
    pub fn is_mod(&self) -> (r: bool)
        ensures
            r == has_bits(self.user.permissions, 2),
    {
        self.has_permission(2)
    }

    /// Whether the user has the administrator permission.
    pub fn is_admin(&self) -> (r: bool)
        ensures
            r == has_bits(self.user.permissions, 4),
    {
        self.has_permission(4)
    }

    fn has_permission(&self, perm: i16) -> (r: bool)
        ensures
            r == has_bits(self.user.permissions, perm),
    {
        (self.user.permissions & perm) == perm
    }
}

/// The bearer token of an `Authorization` header: what follows `Bearer `, trimmed.
pub fn bearer_token(header: &str) -> (r: Option<&str>)
    ensures
        r is Some <==> ("Bearer "@.len() <= header@.len() && header@.subrange(0, "Bearer "@.len() as int) == "Bearer "@),
        r matches Some(t) ==> t@ == spec_trim(header@.subrange("Bearer "@.len() as int, header@.len() as int)),
{
    if starts_with(header, "Bearer ") {
        let n = header.unicode_len();
        let m = "Bearer ".unicode_len();
        let rest = header.substring_char(m, n);
        Some(trim(rest))
    } else {
        None
    }
}

} // verus!
