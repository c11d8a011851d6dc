//! A log file that is in use.

use vstd::prelude::*;

use crate::utils::cleanup_task::CleanupTask;

verus! {

/// A log file that is in use, by its number; 0 for none.
#[derive(Debug)]
pub struct WalHandle {
    log_number: u64,
}

impl View for WalHandle {
    type V = u64;

    closed spec fn view(&self) -> u64 {
        self.log_number
    }
}

impl WalHandle {
    /// The log with this number.
    pub fn new(log_number: u64) -> (r: WalHandle)
        ensures
            r@ == log_number,
    {
        WalHandle { log_number }
    }

    /// The number of the log.
    pub fn log_number(&self) -> (r: u64)
        ensures
            r == self@,
    {
        self.log_number
    }

    /// What is to be cleaned up once the log is no longer in use: its file, where there is
    /// one and cleaning up is enabled.
    pub fn release(self, cleanup_enabled: bool) -> (r: Option<CleanupTask>)
        ensures
            r == if self@ == 0 || !cleanup_enabled {
                None
            } else {
                Some(CleanupTask::Wal(self@))
            },
    {
        if self.log_number == 0 || !cleanup_enabled {
            return None;
        }
        Some(CleanupTask::Wal(self.log_number))
    }
}

} // verus!
