//! Checks and helpers of the version 1 handlers.

pub mod order;
pub mod permission;
pub mod search;
pub mod verify;
