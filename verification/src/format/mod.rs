//! Byte-level encodings shared by tables and logs.

pub mod coding;
pub mod fixed;
pub mod internal_key;
pub mod order;
pub mod shared;
pub mod slices;
