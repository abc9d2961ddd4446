//! The gRPC services. Their handlers talk to the database; what they decide on the way is
//! here, next to the service types.

pub mod chapter;
pub mod friend;
pub mod manga;
pub mod meta;
pub mod reading;
pub mod search;
pub mod user;
pub mod v1;
pub mod verify;
