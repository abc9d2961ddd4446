//! Verified core of the rumgap manga-reading service: pagination windows,
//! permission checks, account-field validation, search filters and the
//! manga / source / chapter / reading catalog operations.

pub mod api;
pub mod catalog;
pub mod data;
pub mod image_server;
pub mod interceptor;
pub mod middleware;
pub mod pagination;
pub mod service;
pub mod status;
pub mod text;
