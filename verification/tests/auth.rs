use std::collections::BTreeMap;

use hmac::{Hmac, Mac};
use jwt::VerifyWithKey;
use rumgap::api::v1::util::permission::{can_edit, EditError};
use rumgap::interceptor::auth::{
    authenticate, bearer_token, has_permission, sign, AccessError, BearerHeader, LoggedInCheck, TokenRejection, UserPermissions,
    ADMIN, MOD, USER,
};
use rumgap::interceptor::logger::Logger;
use rumgap::middleware::auth::{self as middleware, AuthService, User};
use sha2::Sha256;

fn verify_id(key: &[u8], token: &str) -> i32 {
    let mac: Hmac<Sha256> = Hmac::new_from_slice(key).unwrap();
    let claims: BTreeMap<String, i32> = token.verify_with_key(&mac).unwrap();
    claims["id"]
}

#[test]
fn signed_tokens_carry_the_user_id() {
    let token = sign(b"secret", 42).unwrap();
    assert_ne!(token, "secret");
    assert_eq!(token.split('.').count(), 3);
    assert_eq!(verify_id(b"secret", &token), 42);
    assert_eq!(sign(b"secret", 42).unwrap(), token, "signing is deterministic");
    assert_ne!(sign(b"secret", 43).unwrap(), token);
    assert_ne!(sign(b"other", 42).unwrap(), token);
}

#[test]
fn api_tokens_use_the_fixed_key() {
    let token = middleware::sign(7).unwrap();
    assert_eq!(verify_id(b"bUHhhHH#!bU@NkNUnK12", &token), 7);
}

#[test]
fn permission_bits() {
    assert_eq!(UserPermissions::from_bits(7), Some(UserPermissions { bits: 7 }));
    assert_eq!(UserPermissions::from_bits(8), None);
    let admin = UserPermissions { bits: ADMIN };
    assert!(has_permission(4, admin));
    assert!(has_permission(7, admin));
    assert!(!has_permission(3, admin));
    assert!(has_permission(3, UserPermissions { bits: USER | MOD }));
    assert!(!has_permission(1, UserPermissions { bits: USER | MOD }));
    assert!(has_permission(0, UserPermissions { bits: 0 }));
}

#[test]
fn logged_in_check() {
    let check = LoggedInCheck::new(UserPermissions { bits: USER });
    assert_eq!(check.perms, UserPermissions { bits: USER });
    assert_eq!(check.call(None), Err(AccessError::Unauthenticated));
    assert_eq!(check.call(Some(0)), Err(AccessError::PermissionDenied));
    assert_eq!(check.call(Some(1)), Ok(()));
    assert_eq!(check.call(Some(5)), Ok(()));
    assert_eq!(AccessError::Unauthenticated.message(), "You need to be logged in to make this request!");
    assert_eq!(AccessError::PermissionDenied.message(), "You are missing permissions to make this call");
}

#[test]
fn bearer_headers() {
    assert_eq!(bearer_token(None), BearerHeader::Absent);
    assert_eq!(bearer_token(Some("Bearer abc.def")), BearerHeader::Token("abc.def"));
    assert_eq!(bearer_token(Some("Basic abc")), BearerHeader::Invalid);
    assert_eq!(bearer_token(Some("Bearer")), BearerHeader::Invalid);
    assert_eq!(middleware::bearer_token("Bearer  abc \n"), Some("abc"));
    assert_eq!(middleware::bearer_token("bearer abc"), None);
}

#[test]
fn auth_service_questions() {
    let admin = AuthService { user: User { id: 1, permissions: 5 } };
    assert!(admin.is_admin());
    assert!(admin.is_user());
    assert!(!admin.is_mod());
    assert!(!admin.is_restricted());
    assert!(AuthService { user: User { id: 2, permissions: 0 } }.is_restricted());
    assert!(admin.user.has_permission(UserPermissions { bits: ADMIN }));
}

#[test]
fn can_edit_follows_the_code() {
    let admin = AuthService { user: User { id: 1, permissions: 4 } };
    let plain = AuthService { user: User { id: 2, permissions: 1 } };
    assert_eq!(can_edit(admin, 1), Ok(()));
    assert_eq!(can_edit(admin, 2), Err(EditError::NotAllowed));
    assert_eq!(can_edit(plain, 1), Ok(()));
    assert_eq!(EditError::NotAllowed.message(), "Not allowed to edit this item");
}

#[test]
fn logger_wraps_its_service() {
    let logger = Logger::new(5u8);
    assert_eq!(logger.inner, 5);
}

#[test]
fn signed_tokens_authenticate_their_user() {
    let token = sign(b"secret", 42).unwrap();
    let header = format!("Bearer {}", token);
    assert_eq!(authenticate(b"secret", Some(&header)).unwrap(), Some(42));
    assert_eq!(authenticate(b"secret", None).unwrap(), None);
}

#[test]
fn bad_bearer_headers_are_rejected() {
    let token = sign(b"secret", 42).unwrap();
    let other_key = format!("Bearer {}", token);
    let rejected = authenticate(b"other", Some(&other_key)).unwrap_err();
    assert!(matches!(rejected, TokenRejection::Unverified(_)));
    assert_eq!(rejected.message(), None);
    let no_prefix = authenticate(b"secret", Some(&token)).unwrap_err();
    assert!(matches!(no_prefix, TokenRejection::InvalidBearer));
    assert_eq!(no_prefix.message(), Some("Bearer token is invalid"));
    assert!(matches!(authenticate(b"secret", Some("Bearer garbage")), Err(TokenRejection::Unverified(_))));
    assert!(matches!(authenticate(b"secret", Some("")), Err(TokenRejection::InvalidBearer)));
}

#[test]
fn tokens_without_a_user_are_rejected() {
    let mac: Hmac<Sha256> = Hmac::new_from_slice(b"secret").unwrap();
    let mut claims: BTreeMap<&str, i32> = BTreeMap::new();
    claims.insert("exp", 5);
    let token = jwt::SignWithKey::sign_with_key(claims, &mac).unwrap();
    let rejected = authenticate(b"secret", Some(&format!("Bearer {}", token))).unwrap_err();
    assert!(matches!(rejected, TokenRejection::NoUserId));
    assert_eq!(rejected.message(), None, "the token library's own error text answers it");
}

#[test]
fn extra_claims_are_ignored_and_ids_must_fit() {
    let mac: Hmac<Sha256> = Hmac::new_from_slice(b"secret").unwrap();
    let mut claims: BTreeMap<&str, serde_json::Value> = BTreeMap::new();
    claims.insert("id", serde_json::Value::from(9));
    claims.insert("name", serde_json::Value::from("someone"));
    let token = jwt::SignWithKey::sign_with_key(claims, &mac).unwrap();
    assert_eq!(authenticate(b"secret", Some(&format!("Bearer {}", token))).unwrap(), Some(9));

    let mut too_big: BTreeMap<&str, serde_json::Value> = BTreeMap::new();
    too_big.insert("id", serde_json::Value::from(1u64 << 40));
    let token = jwt::SignWithKey::sign_with_key(too_big, &mac).unwrap();
    assert!(matches!(authenticate(b"secret", Some(&format!("Bearer {}", token))), Err(TokenRejection::NoUserId)));

    let mut text_id: BTreeMap<&str, serde_json::Value> = BTreeMap::new();
    text_id.insert("id", serde_json::Value::from("9"));
    let token = jwt::SignWithKey::sign_with_key(text_id, &mac).unwrap();
    assert!(matches!(authenticate(b"secret", Some(&format!("Bearer {}", token))), Err(TokenRejection::NoUserId)));
}
