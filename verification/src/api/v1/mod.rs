//! Version 1 of the HTTP API.

pub mod data;
pub mod util;
