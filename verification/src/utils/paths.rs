//! Where log, table and manifest files lie.

use vstd::prelude::*;

use crate::utils::path_helpers;
use crate::utils::path_helpers::{format_sstable_filename, format_wal_filename};
use crate::utils::text;
use crate::utils::text::join_path;

verus! {

/// Where log files lie.
#[derive(Debug)]
pub struct WalPaths {
    wal_dir: String,
}

impl View for WalPaths {
    type V = Seq<char>;

    closed spec fn view(&self) -> Seq<char> {
        self.wal_dir@
    }
}

impl Clone for WalPaths {
    fn clone(&self) -> (r: Self)
        ensures
            r@ == self@,
    {
        WalPaths { wal_dir: self.wal_dir.clone() }
    }
}

impl WalPaths {
    /// The paths in a log directory.
    pub fn new(wal_dir: String) -> (r: WalPaths)
        ensures
            r@ == wal_dir@,
    {
        WalPaths { wal_dir }
    }

    /// The log directory.
    pub fn wal_dir(&self) -> (r: &str)
        ensures
            r@ == self@,
    {
        self.wal_dir.as_str()
    }

    /// The main log file.
    pub fn main_wal_path(&self) -> (r: String)
        ensures
            r@ == text::joined(self@, "goatdb.wal"@),
    {
        join_path(self.wal_dir.as_str(), "goatdb.wal")
    }

    /// The log file with a number.
    pub fn wal_path_by_id(&self, log_number: u64) -> (r: String)
        ensures
            r@ == text::joined(self@, path_helpers::numbered(log_number, ".wal"@)),
    {
        join_path(self.wal_dir.as_str(), format_wal_filename(log_number).as_str())
    }

    /// The log file with a name.
    pub fn wal_path(&self, name: &str) -> (r: String)
        ensures
            r@ == text::joined(self@, name@),
    {
        join_path(self.wal_dir.as_str(), name)
    }

    /// The name of the log file with a number.
    pub fn format_wal_filename(log_number: u64) -> (r: String)
        ensures
            r@ == path_helpers::numbered(log_number, ".wal"@),
    {
        format_wal_filename(log_number)
    }
}

/// Where table files lie.
#[derive(Debug)]
pub struct SstablePaths {
    data_dir: String,
    tmp_dir: String,
}

impl Clone for SstablePaths {
    fn clone(&self) -> (r: Self)
        ensures
            r.data() == self.data(),
            r.tmp() == self.tmp(),
    {
        SstablePaths { data_dir: self.data_dir.clone(), tmp_dir: self.tmp_dir.clone() }
    }
}

impl SstablePaths {
    /// The directory of tables.
    pub closed spec fn data(&self) -> Seq<char> {
        self.data_dir@
    }

    /// The directory of unfinished tables.
    pub closed spec fn tmp(&self) -> Seq<char> {
        self.tmp_dir@
    }

    /// The paths in a data directory and a directory for unfinished files.
    pub fn new(data_dir: String, tmp_dir: String) -> (r: SstablePaths)
        ensures
            r.data() == data_dir@,
            r.tmp() == tmp_dir@,
    {
        SstablePaths { data_dir, tmp_dir }
    }

    /// The directory of tables.
    pub fn data_dir(&self) -> (r: &str)
        ensures
            r@ == self.data(),
    {
        self.data_dir.as_str()
    }

    /// The directory of unfinished tables.
    pub fn tmp_dir(&self) -> (r: &str)
        ensures
            r@ == self.tmp(),
    {
        self.tmp_dir.as_str()
    }

    /// The table file with a name.
    pub fn sstable_path(&self, name: &str) -> (r: String)
        ensures
            r@ == text::joined(self.data(), name@),
    {
        join_path(self.data_dir.as_str(), name)
    }

    /// The table file with a number.
    pub fn sstable_path_by_id(&self, file_id: u64) -> (r: String)
        ensures
            r@ == text::joined(self.data(), path_helpers::numbered(file_id, ".sst"@)),
    {
        join_path(self.data_dir.as_str(), format_sstable_filename(file_id).as_str())
    }

    /// A table file named after the time.
    pub fn timestamped_sstable_path(&self) -> (r: String)
        ensures
            exists|millis: u128|
                r@ == text::joined(self.data(), #[trigger] path_helpers::timestamped(millis as nat)),
    {
        let name = path_helpers::timestamped_sstable_filename();
        join_path(self.data_dir.as_str(), name.as_str())
    }

    /// The unfinished file with a name.
    pub fn tmp_path(&self, name: &str) -> (r: String)
        ensures
            r@ == text::joined(self.tmp(), name@),
    {
        join_path(self.tmp_dir.as_str(), name)
    }

    /// The name of the table file with a number.
    pub fn format_sstable_filename(file_id: u64) -> (r: String)
        ensures
            r@ == path_helpers::numbered(file_id, ".sst"@),
    {
        format_sstable_filename(file_id)
    }

    /// The name of a table file written now.
    pub fn timestamped_sstable_filename() -> (r: String)
        ensures
            exists|millis: u128| r@ == #[trigger] path_helpers::timestamped(millis as nat),
    {
        path_helpers::timestamped_sstable_filename()
    }
}

/// Where manifest files lie.
#[derive(Debug)]
pub struct ManifestPaths {
    base_dir: String,
    data_dir: String,
}

impl Clone for ManifestPaths {
    fn clone(&self) -> (r: Self)
        ensures
            r.base() == self.base(),
            r.data() == self.data(),
    {
        ManifestPaths { base_dir: self.base_dir.clone(), data_dir: self.data_dir.clone() }
    }
}

impl ManifestPaths {
    /// The base directory.
    pub closed spec fn base(&self) -> Seq<char> {
        self.base_dir@
    }

    /// The data directory.
    pub closed spec fn data(&self) -> Seq<char> {
        self.data_dir@
    }

    /// The paths of a base and a data directory.
    pub fn new(base_dir: String, data_dir: String) -> (r: ManifestPaths)
        ensures
            r.base() == base_dir@,
            r.data() == data_dir@,
    {
        ManifestPaths { base_dir, data_dir }
    }

    /// The base directory.
    pub fn base_dir(&self) -> (r: &str)
        ensures
            r@ == self.base(),
    {
        self.base_dir.as_str()
    }

    /// The data directory.
    pub fn data_dir(&self) -> (r: &str)
        ensures
            r@ == self.data(),
    {
        self.data_dir.as_str()
    }
}

} // verus!
