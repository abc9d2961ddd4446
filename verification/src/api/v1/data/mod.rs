//! Request bodies and query strings of version 1 of the HTTP API.

pub mod manga;
pub mod reading;
pub mod user;
