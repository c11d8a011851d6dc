//! An LSM-style key-value storage engine: the formats, searches and rules of
//! its tables, logs, caches and options, with their contracts proved.

pub mod commands;
pub mod error;
pub mod error_text;
pub mod format;
pub mod storage;
pub mod utils;
pub mod varint;
pub mod wal_manager;

