//! A dense, row-oriented matrix container and the arithmetic that splits its
//! elements into balanced, disjoint index ranges, one per worker.

pub mod error;
pub mod mat;
pub mod number;
pub mod partition;
pub mod row;
