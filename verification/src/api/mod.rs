//! The HTTP API: its routes' base paths, request bodies, and the checks its handlers make.

pub mod chapter;
pub mod login;
pub mod manga;
pub mod reading;
pub mod register;
pub mod v1;
