//! Authentication of gRPC requests: signing the bearer tokens that identify a user,
//! reading them back out of the `authorization` header, and the permission check that
//! guards a whole service.

use hmac::{Hmac, Mac};
use jwt::{SignWithKey, VerifyWithKey};
use sha2::Sha256;
use std::collections::BTreeMap;
use vstd::prelude::*;

use crate::status::Code;
use crate::text::strip_prefix;

verus! {

#[verifier::external_type_specification]
#[verifier::external_body]
pub struct ExJwtError(jwt::Error);

/// The token that an HS256 JSON web token with claims `{"id": id}` signed with `key` is.
pub uninterp spec fn jwt_hs256_token(key: Seq<u8>, id: i32) -> Seq<char>;

/// Signs the claims `{"id": id}` into an HS256 JSON web token with `key`, through
/// `hmac`'s `Hmac::<Sha256>::new_from_slice` and `jwt`'s `SignWithKey::sign_with_key`.
/// Claimed: signing succeeds, and the token is the one that `key` and `id` determine.
/// (`Hmac::new_from_slice` accepts a key of any length, the header `sign_with_key` writes
/// names the key's own algorithm, the header and the claims `{"id": id}` serialise without
/// fail, and HMAC signing always returns its code.)
#[verifier::external_body]
pub(crate) fn sign_hs256(key: &[u8], id: i32) -> (r: Result<String, jwt::Error>)
    ensures
        r is Ok,
        r matches Ok(t) ==> t@ == jwt_hs256_token(key@, id),
{
    let mac: Hmac<Sha256> = Hmac::new_from_slice(key)?;
    let mut claims: BTreeMap<&str, i32> = BTreeMap::new();
    claims.insert("id", id);
    claims.sign_with_key(&mac)
}

/// The `id` claim of `token`, as an integer, when it is an HS256 JSON web token whose
/// signature `key` verifies (`None` when there is no `id` claim or it is no integer).
pub uninterp spec fn jwt_hs256_id_claim(key: Seq<u8>, token: Seq<char>) -> Option<i64>;

/// Whether `token` is an HS256 JSON web token with JSON-object claims whose signature
/// `key` verifies.
pub uninterp spec fn jwt_hs256_accepts(key: Seq<u8>, token: Seq<char>) -> bool;

/// Verifies `token` as an HS256 JSON web token with `key` and reads its `id` claim, through
/// `hmac`'s `Hmac::<Sha256>::new_from_slice`, `jwt`'s `VerifyWithKey::verify_with_key`
/// into a map of JSON values (other claims are read and ignored) and `serde_json`'s
/// `Value::as_i64`. Claimed: what comes back is what `key` and `token` determine, and a
/// token that `sign_hs256` makes with `key` for `id` is accepted with the claim `id` (the
/// header it writes names HS256 and the signature is the HMAC of the same key over the
/// same text). Which tokens are accepted is what `key` and `token` determine.
#[verifier::external_body]
pub(crate) fn verify_hs256(key: &[u8], token: &str) -> (r: Result<Option<i64>, jwt::Error>)
    ensures
        r is Ok <==> jwt_hs256_accepts(key@, token@),
        r matches Ok(c) ==> c == jwt_hs256_id_claim(key@, token@),
        r matches Ok(c) ==> forall|id: i32| token@ == #[trigger] jwt_hs256_token(key@, id) ==> c == Some(id as i64),
        r is Err ==> forall|id: i32| token@ != #[trigger] jwt_hs256_token(key@, id),
{
    let mac: Hmac<Sha256> = Hmac::new_from_slice(key)?;
    let claims: BTreeMap<String, serde_json::Value> = token.verify_with_key(&mac)?;
    Ok(claims.get("id").and_then(serde_json::Value::as_i64))
}

/// JWT Token
#[derive(Debug, Clone, Copy, PartialEq, Eq)]
pub struct Token {
    pub id: i32,
}

/// Signs the bearer token of user `id` with the server's secret; signing always succeeds.
pub fn sign(secret: &[u8], id: i32) -> (r: Result<String, jwt::Error>)
    ensures
        r is Ok,
        r matches Ok(t) ==> t@ == jwt_hs256_token(secret@, id),
{
    sign_hs256(secret, id)
}

/// Bit of the permission every registered user has.
pub const USER: u32 = 1;

/// Bit of the moderators' permission.
pub const MOD: u32 = 2;

/// Bit of the administrators' permission.
pub const ADMIN: u32 = 4;

/// The permissions a user has, as bit flags; only the three known bits can be set.
#[derive(Debug, Clone, Copy, PartialEq, Eq, Hash)]
pub struct UserPermissions {
    pub bits: u32,
}

impl UserPermissions {
    /// The permissions with exactly `bits` set, when only known bits are set.
    pub fn from_bits(bits: u32) -> (r: Option<UserPermissions>)
        ensures
            r is Some <==> bits <= 7,
            r matches Some(p) ==> p.bits == bits,
    {
        if bits <= 7 {
            Some(UserPermissions { bits })
        } else {
            None
        }
    }

    /// Whether every permission of `other` is in `self`.
    pub fn contains(&self, other: UserPermissions) -> (r: bool)
        ensures
            r == (self.bits & other.bits == other.bits),
    {
        self.bits & other.bits == other.bits
    }
}

/// Whether a user whose stored permission column is `permissions` has every permission of
/// `permission`.
pub open spec fn spec_has_permission(permissions: i16, permission: UserPermissions) -> bool {
    (permissions as u32) & permission.bits == permission.bits
}

/// Whether a stored permission column only holds known bits (anything else makes the
/// permission check fail hard).
pub open spec fn valid_permissions(permissions: i16) -> bool {
    0 <= permissions <= 7
}

/// Whether the user whose stored permission column is `permissions` has every
/// permission of `permission`.
pub fn has_permission(permissions: i16, permission: UserPermissions) -> (r: bool)
    requires
        valid_permissions(permissions),
    ensures
        r == spec_has_permission(permissions, permission),
{
    let bits = permissions as u32;
    let own = match UserPermissions::from_bits(bits) {
        Some(p) => p,
        None => {
            assert(false);
            UserPermissions { bits: 0 }
        },
    };
    own.contains(permission)
}

/// Having two sets of permissions is having their union.
pub proof fn lemma_has_permission_union(permissions: i16, a: UserPermissions, b: UserPermissions)
    ensures
        spec_has_permission(permissions, UserPermissions { bits: a.bits | b.bits }) == (spec_has_permission(
            permissions,
            a,
        ) && spec_has_permission(permissions, b)),
{
    let p = permissions as u32;
    let x = a.bits;
    let y = b.bits;
    assert((p & (x | y) == (x | y)) == ((p & x == x) && (p & y == y))) by (bit_vector);
}

/// Why a request was turned away by the permission check.
#[derive(Debug, Clone, Copy, PartialEq, Eq)]
pub enum AccessError {
    /// Nobody is logged in.
    Unauthenticated,
    /// The logged-in user lacks a required permission.
    PermissionDenied,
}

impl AccessError {
    /// The message the caller is answered with.
    pub fn message(&self) -> (r: &'static str)
        ensures
            *self == AccessError::Unauthenticated ==> r@ == "You need to be logged in to make this request!"@,
            *self == AccessError::PermissionDenied ==> r@ == "You are missing permissions to make this call"@,
    {
        match self {
            AccessError::Unauthenticated => "You need to be logged in to make this request!",
            AccessError::PermissionDenied => "You are missing permissions to make this call",
        }
    }

    /// The status code the caller is answered with.
    pub fn code(&self) -> (r: Code)
        ensures
            *self == AccessError::Unauthenticated ==> r == Code::Unauthenticated,
            *self == AccessError::PermissionDenied ==> r == Code::PermissionDenied,
    {
        match self {
            AccessError::Unauthenticated => Code::Unauthenticated,
            AccessError::PermissionDenied => Code::PermissionDenied,
        }
    }
}

/// The check that a whole service makes on every request: someone must be logged in,
/// with the service's permissions.
#[derive(Debug, Clone, Copy)]
pub struct LoggedInCheck {
    pub perms: UserPermissions,
}

impl LoggedInCheck {
    /// A check for the permissions `perms`.
    pub fn new(perms: UserPermissions) -> (r: Self)
        ensures
            r.perms == perms,
    {
        Self { perms }
    }

    /// Lets the request of the logged-in user (given by the stored permission column of
    /// the user, `None` when nobody is logged in) through, or says why not.
    pub fn call(&self, user_permissions: Option<i16>) -> (r: Result<(), AccessError>)
        requires
            user_permissions matches Some(p) ==> valid_permissions(p),
        ensures
            user_permissions is None ==> r == Err::<(), AccessError>(AccessError::Unauthenticated),
            user_permissions matches Some(p) ==> (r is Ok <==> spec_has_permission(p, self.perms)),
            user_permissions matches Some(p) && !spec_has_permission(p, self.perms) ==> r == Err::<
                (),
                AccessError,
            >(AccessError::PermissionDenied),
    {
        match user_permissions {
            Some(p) => {
                if has_permission(p, self.perms) {
                    Ok(())
                } else {
                    Err(AccessError::PermissionDenied)
                }
            },
            None => Err(AccessError::Unauthenticated),
        }
    }
}

/// What the `authorization` header of a gRPC request says.
#[derive(Debug, Clone, PartialEq, Eq)]
pub enum BearerHeader<'a> {
    /// No header: the request is anonymous.
    Absent,
    /// The header holds a token after `Bearer `.
    Token(&'a str),
    /// The header is there but is no bearer token.
    Invalid,
}

/// Reads the bearer token out of the `authorization` header, if there is one.
pub fn bearer_token<'a>(header: Option<&'a str>) -> (r: BearerHeader<'a>)
    ensures
        header is None ==> r == BearerHeader::Absent,
        header matches Some(h) ==> match r {
            BearerHeader::Token(t) => "Bearer "@.len() <= h@.len() && h@.subrange(0, "Bearer "@.len() as int)
                == "Bearer "@ && t@ == h@.subrange("Bearer "@.len() as int, h@.len() as int),
            BearerHeader::Invalid => !("Bearer "@.len() <= h@.len() && h@.subrange(0, "Bearer "@.len() as int)
                == "Bearer "@),
            BearerHeader::Absent => false,
        },
{
    match header {
        None => BearerHeader::Absent,
        Some(h) => match strip_prefix(h, "Bearer ") {
            Some(t) => BearerHeader::Token(t),
            None => BearerHeader::Invalid,
        },
    }
}

/// Whether an `authorization` header value starts with `Bearer `.
pub open spec fn has_bearer_prefix(h: Seq<char>) -> bool {
    "Bearer "@.len() <= h.len() && h.subrange(0, "Bearer "@.len() as int) == "Bearer "@
}

/// What follows `Bearer ` in an `authorization` header value.
pub open spec fn bearer_part(h: Seq<char>) -> Seq<char> {
    h.subrange("Bearer "@.len() as int, h.len() as int)
}

/// Why the bearer token of a request was not accepted.
#[derive(Debug)]
pub enum TokenRejection {
    /// The `authorization` header holds no bearer token.
    InvalidBearer,
    /// The token is no HS256 token signed with the server's secret.
    Unverified(jwt::Error),
    /// The token's claims name no user: no `id` claim, or one that is no 32-bit integer.
    NoUserId,
}

impl TokenRejection {
    /// The message the caller is answered with, where it does not come from the token
    /// library: a token that is refused, or whose claims do not decode into a user id,
    /// is answered with the text of the token library's own error for that token.
    pub fn message(&self) -> (r: Option<&'static str>)
        ensures
            match *self {
                TokenRejection::InvalidBearer => r == Some("Bearer token is invalid"),
                TokenRejection::NoUserId => r is None,
                TokenRejection::Unverified(_) => r is None,
            },
    {
        match self {
            TokenRejection::InvalidBearer => Some("Bearer token is invalid"),
            TokenRejection::NoUserId => None,
            TokenRejection::Unverified(_) => None,
        }
    }
}

/// The user a request is made by, read from its `authorization` header: nobody when there
/// is no header, the `id` claim of the bearer token when the server's secret verifies it,
/// and a rejection otherwise. A token that `sign` made with the same secret is accepted
/// for the user it was signed for.
pub fn authenticate(secret: &[u8], header: Option<&str>) -> (r: Result<Option<i32>, TokenRejection>)
    ensures
        match header {
            None => r matches Ok(None),
            Some(h) => if !has_bearer_prefix(h@) {
                r matches Err(TokenRejection::InvalidBearer)
            } else {
                match r {
                    Ok(u) => u matches Some(id) && jwt_hs256_accepts(secret@, bearer_part(h@)) && jwt_hs256_id_claim(
                        secret@,
                        bearer_part(h@),
                    ) == Some(id as i64),
                    Err(TokenRejection::NoUserId) => jwt_hs256_accepts(secret@, bearer_part(h@)) && match jwt_hs256_id_claim(
                        secret@,
                        bearer_part(h@),
                    ) {
                        None => true,
                        Some(x) => !(i32::MIN <= x <= i32::MAX),
                    },
                    Err(TokenRejection::InvalidBearer) => false,
                    Err(TokenRejection::Unverified(_)) => !jwt_hs256_accepts(secret@, bearer_part(h@)) && forall|id: i32|
                        bearer_part(h@) != #[trigger] jwt_hs256_token(secret@, id),
                }
            },
        },
        forall|id: i32|
            header matches Some(h) && h@ == "Bearer "@ + #[trigger] jwt_hs256_token(secret@, id) ==> r == Ok::<
                Option<i32>,
                TokenRejection,
            >(Some(id)),
{
    proof {
        if let Some(h) = header {
            assert forall|id: i32| h@ == "Bearer "@ + #[trigger] jwt_hs256_token(secret@, id) implies has_bearer_prefix(
                h@,
            ) && bearer_part(h@) == jwt_hs256_token(secret@, id) by {
                assert(h@.subrange(0, "Bearer "@.len() as int) =~= "Bearer "@);
                assert(h@.subrange("Bearer "@.len() as int, h@.len() as int) =~= jwt_hs256_token(secret@, id));
            }
        }
    }
    match bearer_token(header) {
        BearerHeader::Absent => Ok(None),
        BearerHeader::Invalid => Err(TokenRejection::InvalidBearer),
        BearerHeader::Token(t) => {
            match verify_hs256(secret, t) {
                Ok(Some(id)) => {
                    if i32::MIN as i64 <= id && id <= i32::MAX as i64 {
                        Ok(Some(id as i32))
                    } else {
                        Err(TokenRejection::NoUserId)
                    }
                },
                Ok(None) => Err(TokenRejection::NoUserId),
                Err(e) => Err(TokenRejection::Unverified(e)),
            }
        },
    }
}

} // verus!
