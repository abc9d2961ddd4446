//! The user service: how a login finds its user.

use vstd::prelude::*;

use crate::text::{ascii_lowercase, to_ascii_lowercase};

verus! {

/// Handler of the user service.
#[derive(Debug, Default, Clone, Copy)]
pub struct MyUser {}

/// What a login names its account by.
#[derive(Debug, Clone, PartialEq, Eq)]
pub enum LoginIdentifier {
    Username(String),
    Email(String),
}

/// The column of the `user` table a login searches.
#[derive(Debug, Clone, Copy, PartialEq, Eq)]
pub enum LoginColumn {
    Username,
    Email,
}

/// The row a login looks for: the value its column must hold.
#[derive(Debug, Clone, PartialEq, Eq)]
pub struct LoginLookup {
    pub column: LoginColumn,
    pub value: String,
}

impl MyUser {
    /// The user a login looks up: by username or by email, compared in ASCII lowercase
    /// (the form accounts are stored in).
    pub fn login_lookup(identifier: &LoginIdentifier) -> (r: LoginLookup)
        ensures
            match identifier {
                LoginIdentifier::Username(u) => r.column == LoginColumn::Username && r.value@ == ascii_lowercase(u@),
                LoginIdentifier::Email(e) => r.column == LoginColumn::Email && r.value@ == ascii_lowercase(e@),
            },
    {
        match identifier {
            LoginIdentifier::Username(u) => LoginLookup {
                column: LoginColumn::Username,
                value: to_ascii_lowercase(u.as_str()),
            },
            LoginIdentifier::Email(e) => LoginLookup { column: LoginColumn::Email, value: to_ascii_lowercase(e.as_str()) },
        }
    }
}

} // verus!
