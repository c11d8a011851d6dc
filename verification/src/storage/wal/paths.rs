//! Where log files lie.

pub use crate::utils::paths::WalPaths;
