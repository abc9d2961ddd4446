//! Request interceptors of the gRPC server.

pub mod auth;
pub mod logger;
