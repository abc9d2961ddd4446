//! Search filters of the manga listing: `name:value` terms become SQL conditions.

pub mod field;
pub mod manga;
