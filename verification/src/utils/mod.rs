//! Paths, options, metadata and small helpers.

pub mod cache_key;
pub mod cleanup_task;
pub mod clock;
pub mod db_meta;
pub mod db_meta_laws;
pub mod db_path_manager;
pub mod io_helpers;
pub mod lru_list;
pub mod options;
pub mod path_helpers;
pub mod paths;
pub mod sequence_number;
pub mod shared_lru;
pub mod shared_lru_laws;
pub mod text;
pub mod text_laws;
