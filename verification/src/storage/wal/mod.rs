//! Write-ahead logs.

pub mod buffer_run_laws;
pub mod codec;
pub mod damage_laws;
pub mod error;
pub mod flush_laws;
pub mod handle;
pub mod manager;
pub mod paths;
pub mod reader;
pub mod record;
pub mod recovery;
pub mod replay_laws;
pub mod rotation;
pub mod run_laws;
pub mod wal_manager;
pub mod writer;

pub use codec::WalCodec;
pub use error::WalError;
pub use handle::WalHandle;
pub use manager::{WalManager, WalManagerConfig};
pub use paths::WalPaths;
pub use reader::WalReader;
pub use recovery::{replay_wal_file, WalReplay, WalReplayStats};
pub use writer::{WalAction, WalWriter, WalWriterConfig};
