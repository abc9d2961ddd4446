//! The gRPC status codes that the services answer refusals with.

use vstd::prelude::*;

verus! {

/// A gRPC status code.
#[derive(Debug, Clone, Copy, PartialEq, Eq)]
pub enum Code {
    InvalidArgument,
    NotFound,
    AlreadyExists,
    PermissionDenied,
    FailedPrecondition,
    Internal,
    Unauthenticated,
}

} // verus!
