//! Version 1 of the gRPC services.

pub mod chapter;
pub mod manga;
pub mod meta;
pub mod reading;
pub mod scraper;
pub mod search;
