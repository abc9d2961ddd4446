//! Request guards of the HTTP API.

pub mod auth;
