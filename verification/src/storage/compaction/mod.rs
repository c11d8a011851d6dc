//! Which parts of the key space are compacted together.

pub mod picker;
pub mod plan;
