//! Shapes of the rows the gRPC handlers read.

pub mod manga;
