//! The directories of a database.
//!
//! ```text
//! base/
//!   data/     tables
//!   wal/      logs
//!   log/      messages
//!   tmp/      unfinished files
//!   CURRENT
//! ```

use vstd::prelude::*;

use crate::utils::path_helpers;
use crate::utils::path_helpers::format_sstable_filename;
use crate::utils::text;
use crate::utils::text::{join_path, owned, push_decimal, push_text};
use crate::utils::text_laws;

verus! {

/// A text in double quotes, with what cannot be shown written as escapes.
pub uninterp spec fn quoted(s: Seq<char>) -> Seq<char>;

/// `format!("{:?}", path)`: std's `Debug` form of the `Path` of a text. Claimed of it: it
/// is a function of the text, called [`quoted`] here.
#[verifier::external_body]
fn quote(s: &str) -> (r: String)
    ensures
        r@ == quoted(s@),
{
    format!("{:?}", std::path::Path::new(s))
}

/// The paths of a database.
#[derive(Debug)]
pub struct DbPathManager {
    base_path: String,
    data_dir: String,
    wal_dir: String,
    log_dir: String,
    tmp_dir: String,
    current_file: String,
}

impl View for DbPathManager {
    type V = Seq<char>;

    /// The base directory, which fixes all other paths.
    closed spec fn view(&self) -> Seq<char> {
        self.base_path@
    }
}

impl Clone for DbPathManager {
    fn clone(&self) -> (r: Self)
        ensures
            r@ == self@,
            self.wf() ==> r.wf(),
    {
        DbPathManager {
            base_path: self.base_path.clone(),
            data_dir: self.data_dir.clone(),
            wal_dir: self.wal_dir.clone(),
            log_dir: self.log_dir.clone(),
            tmp_dir: self.tmp_dir.clone(),
            current_file: self.current_file.clone(),
        }
    }
}

/// What is said of a directory that is not there.
pub open spec fn missing_text(name: Seq<char>, dir: Seq<char>) -> Seq<char> {
    "Directory '"@ + name + "' does not exist: "@ + quoted(dir)
}

/// The names of the five directories, in the order in which they are checked.
pub open spec fn directory_name(i: int) -> Seq<char> {
    if i == 0 {
        "base_path"@
    } else if i == 1 {
        "data_dir"@
    } else if i == 2 {
        "wal_dir"@
    } else if i == 3 {
        "log_dir"@
    } else {
        "tmp_dir"@
    }
}

/// The five directories below a base directory, itself first.
pub open spec fn directory_path(base: Seq<char>, i: int) -> Seq<char> {
    if i == 0 {
        base
    } else if i == 1 {
        text::joined(base, "data"@)
    } else if i == 2 {
        text::joined(base, "wal"@)
    } else if i == 3 {
        text::joined(base, "log"@)
    } else {
        text::joined(base, "tmp"@)
    }
}

/// The five directories are different ones with different names, and each but the first lies
/// below the base directory.
pub proof fn directories_differ(base: Seq<char>, i: int, j: int)
    requires
        0 <= i < j < 5,
    ensures
        directory_path(base, 0) == base,
        directory_path(base, i) != directory_path(base, j),
        directory_name(i) != directory_name(j),
        directory_path(base, j).len() > base.len() && directory_path(base, j).subrange(
            0,
            base.len() as int,
        ) == base,
{
    reveal_strlit("data");
    reveal_strlit("wal");
    reveal_strlit("log");
    reveal_strlit("tmp");
    reveal_strlit("base_path");
    reveal_strlit("data_dir");
    reveal_strlit("wal_dir");
    reveal_strlit("log_dir");
    reveal_strlit("tmp_dir");
    assert("wal"@[0] == 'w');
    assert("log"@[0] == 'l');
    assert("tmp"@[0] == 't');
    assert("data"@[0] == 'd');
    assert("base_path"@[0] == 'b');
    assert("data_dir"@[0] == 'd');
    assert("wal_dir"@[0] == 'w');
    assert("log_dir"@[0] == 'l');
    assert("tmp_dir"@[0] == 't');
    text_laws::joined_lies_below(base, "data"@);
    text_laws::joined_lies_below(base, "wal"@);
    text_laws::joined_lies_below(base, "log"@);
    text_laws::joined_lies_below(base, "tmp"@);
    text_laws::joined_paths_differ(base, "data"@, "wal"@);
    text_laws::joined_paths_differ(base, "data"@, "log"@);
    text_laws::joined_paths_differ(base, "data"@, "tmp"@);
    text_laws::joined_paths_differ(base, "wal"@, "log"@);
    text_laws::joined_paths_differ(base, "wal"@, "tmp"@);
    text_laws::joined_paths_differ(base, "log"@, "tmp"@);
}

impl DbPathManager {
    /// Each directory lies where it belongs below the base directory.
    pub closed spec fn wf(&self) -> bool {
        &&& self.data_dir@ == text::joined(self@, "data"@)
        &&& self.wal_dir@ == text::joined(self@, "wal"@)
        &&& self.log_dir@ == text::joined(self@, "log"@)
        &&& self.tmp_dir@ == text::joined(self@, "tmp"@)
        &&& self.current_file@ == text::joined(self@, "CURRENT"@)
    }

    /// The paths below a base directory.
    pub fn new(base_path: &str) -> (r: DbPathManager)
        ensures
            r.wf(),
            r@ == base_path@,
    {
        DbPathManager {
            base_path: owned(base_path),
            data_dir: join_path(base_path, "data"),
            wal_dir: join_path(base_path, "wal"),
            log_dir: join_path(base_path, "log"),
            tmp_dir: join_path(base_path, "tmp"),
            current_file: join_path(base_path, "CURRENT"),
        }
    }

    /// The paths of a throw-away database below a directory for temporary files, told from
    /// others by the time.
    pub fn for_test(temp_dir: &str, nanos: u128) -> (r: DbPathManager)
        ensures
            r.wf(),
            r@ == text::joined(
                text::joined(temp_dir@, "goatdb_test"@),
                "test_"@ + text::decimal(nanos as nat),
            ),
    {
        let mut name = owned("test_");
        push_decimal(&mut name, nanos);
        DbPathManager::new(
            join_path(join_path(temp_dir, "goatdb_test").as_str(), name.as_str()).as_str(),
        )
    }

    /// The directories that a database needs, in the order in which they are made and
    /// checked: base, data, logs, messages, unfinished files.
    pub fn directories(&self) -> (r: Vec<String>)
        requires
            self.wf(),
        ensures
            r@.len() == 5,
            forall|i: int| 0 <= i < 5 ==> (#[trigger] r@[i])@ == directory_path(self@, i),
    {
        let mut out: Vec<String> = Vec::new();
        out.push(self.base_path.clone());
        out.push(self.data_dir.clone());
        out.push(self.wal_dir.clone());
        out.push(self.log_dir.clone());
        out.push(self.tmp_dir.clone());
        out
    }

    /// Checks which of [`Self::directories`] are there. The error names the first that
    /// is not.
    pub fn validate_paths(&self, present: &[bool]) -> (r: Result<(), String>)
        requires
            self.wf(),
            present@.len() == 5,
        ensures
            r is Ok <==> forall|i: int| 0 <= i < 5 ==> present@[i],
            r matches Err(e) ==> exists|i: int|
                0 <= i < 5 && !present@[i] && (forall|j: int| 0 <= j < i ==> present@[j]) && e@
                    == #[trigger] missing_text(directory_name(i), directory_path(self@, i)),
    {
        let dirs = self.directories();
        let mut i: usize = 0;
        while i < 5
            invariant
                i <= 5,
                present@.len() == 5,
                dirs@.len() == 5,
                forall|k: int| 0 <= k < 5 ==> (#[trigger] dirs@[k])@ == directory_path(self@, k),
                forall|j: int| 0 <= j < i ==> present@[j],
            decreases 5 - i,
        {
            if !present[i] {
                let mut out = owned("Directory '");
                let name: &str = match i {
                    0 => "base_path",
                    1 => "data_dir",
                    2 => "wal_dir",
                    3 => "log_dir",
                    _ => "tmp_dir",
                };
                push_text(&mut out, name);
                push_text(&mut out, "' does not exist: ");
                push_text(&mut out, quote(dirs[i].as_str()).as_str());
                assert(out@ == missing_text(
                    directory_name(i as int),
                    directory_path(self@, i as int),
                ));
                return Err(out);
            }
            i = i + 1;
        }
        Ok(())
    }

    /// The base directory.
    pub fn base_path(&self) -> (r: &str)
        ensures
            r@ == self@,
    {
        self.base_path.as_str()
    }

    /// The directory of tables.
    pub fn data_dir(&self) -> (r: &str)
        requires
            self.wf(),
        ensures
            r@ == text::joined(self@, "data"@),
    {
        self.data_dir.as_str()
    }

    /// The directory of logs.
    pub fn wal_dir(&self) -> (r: &str)
        requires
            self.wf(),
        ensures
            r@ == text::joined(self@, "wal"@),
    {
        self.wal_dir.as_str()
    }

    /// The directory of messages.
    pub fn log_dir(&self) -> (r: &str)
        requires
            self.wf(),
        ensures
            r@ == text::joined(self@, "log"@),
    {
        self.log_dir.as_str()
    }

    /// The directory of unfinished files.
    pub fn tmp_dir(&self) -> (r: &str)
        requires
            self.wf(),
        ensures
            r@ == text::joined(self@, "tmp"@),
    {
        self.tmp_dir.as_str()
    }

    /// The main log file.
    pub fn main_wal_path(&self) -> (r: String)
        requires
            self.wf(),
        ensures
            r@ == text::joined(text::joined(self@, "wal"@), "goatdb.wal"@),
    {
        join_path(self.wal_dir.as_str(), "goatdb.wal")
    }

    /// The log file with a name.
    pub fn wal_path(&self, name: &str) -> (r: String)
        requires
            self.wf(),
        ensures
            r@ == text::joined(text::joined(self@, "wal"@), name@),
    {
        join_path(self.wal_dir.as_str(), name)
    }

    /// The table file with a name.
    pub fn sstable_path(&self, name: &str) -> (r: String)
        requires
            self.wf(),
        ensures
            r@ == text::joined(text::joined(self@, "data"@), name@),
    {
        join_path(self.data_dir.as_str(), name)
    }

    /// The `CURRENT` file.
    pub fn current_file(&self) -> (r: &str)
        requires
            self.wf(),
        ensures
            r@ == text::joined(self@, "CURRENT"@),
    {
        self.current_file.as_str()
    }

    /// The table file with a number.
    pub fn sstable_path_by_id(&self, file_id: u64) -> (r: String)
        requires
            self.wf(),
        ensures
            r@ == text::joined(
                text::joined(self@, "data"@),
                path_helpers::numbered(file_id, ".sst"@),
            ),
    {
        join_path(self.data_dir.as_str(), format_sstable_filename(file_id).as_str())
    }

    /// A table file named after the time.
    pub fn timestamped_sstable_path(&self) -> (r: String)
        requires
            self.wf(),
        ensures
            exists|millis: u128|
                r@ == text::joined(
                    text::joined(self@, "data"@),
                    #[trigger] path_helpers::timestamped(millis as nat),
                ),
    {
        let name = path_helpers::timestamped_sstable_filename();
        join_path(self.data_dir.as_str(), name.as_str())
    }

    /// The message file with a name.
    pub fn log_path(&self, name: &str) -> (r: String)
        requires
            self.wf(),
        ensures
            r@ == text::joined(text::joined(self@, "log"@), name@),
    {
        join_path(self.log_dir.as_str(), name)
    }

    /// The main message file.
    pub fn main_log_path(&self) -> (r: String)
        requires
            self.wf(),
        ensures
            r@ == text::joined(text::joined(self@, "log"@), "goatdb.log"@),
    {
        join_path(self.log_dir.as_str(), "goatdb.log")
    }

    /// The file of error messages.
    pub fn error_log_path(&self) -> (r: String)
        requires
            self.wf(),
        ensures
            r@ == text::joined(text::joined(self@, "log"@), "error.log"@),
    {
        join_path(self.log_dir.as_str(), "error.log")
    }

    /// The file of audit messages.
    pub fn audit_log_path(&self) -> (r: String)
        requires
            self.wf(),
        ensures
            r@ == text::joined(text::joined(self@, "log"@), "audit.log"@),
    {
        join_path(self.log_dir.as_str(), "audit.log")
    }

    /// The unfinished file with a name.
    pub fn tmp_path(&self, name: &str) -> (r: String)
        requires
            self.wf(),
        ensures
            r@ == text::joined(text::joined(self@, "tmp"@), name@),
    {
        join_path(self.tmp_dir.as_str(), name)
    }

    /// The configuration file with a name.
    pub fn config_path(&self, name: &str) -> (r: String)
        ensures
            r@ == text::joined(self@, name@),
    {
        join_path(self.base_path.as_str(), name)
    }

    /// The directory of backups.
    pub fn backup_dir(&self) -> (r: String)
        ensures
            r@ == text::joined(self@, "backup"@),
    {
        join_path(self.base_path.as_str(), "backup")
    }

    /// The backup with a name.
    pub fn backup_path(&self, name: &str) -> (r: String)
        ensures
            r@ == text::joined(text::joined(self@, "backup"@), name@),
    {
        join_path(self.backup_dir().as_str(), name)
    }

    /// The free disk space in bytes: not known.
    pub fn available_disk_space(&self) -> (r: Option<u64>)
        ensures
            r is None,
    {
        None
    }

    /// Whether there is room for `required_bytes`; taken for granted, as the free space
    /// is not known.
    pub fn has_enough_space(&self, required_bytes: u64) -> (r: bool)
        ensures
            r,
    {
        match self.available_disk_space() {
            Some(available) => available >= required_bytes,
            None => true,
        }
    }

    /// The data directory below the current directory, or below `.` where that is not
    /// known.
    pub fn default_data_dir(current_dir: Option<&str>) -> (r: String)
        ensures
            r@ == text::joined(
                match current_dir {
                    Some(dir) => dir@,
                    None => "."@,
                },
                "goatdb_data"@,
            ),
    {
        match current_dir {
            Some(dir) => join_path(dir, "goatdb_data"),
            None => join_path(".", "goatdb_data"),
        }
    }

    /// The paths, one a line.
    pub fn path_summary(&self) -> (r: String)
        requires
            self.wf(),
        ensures
            r@ == "Database Paths:\nBase: "@ + quoted(self@) + "\nData: "@ + quoted(
                text::joined(self@, "data"@),
            ) + "\nWAL:  "@ + quoted(text::joined(self@, "wal"@)) + "\nLog:  "@ + quoted(
                text::joined(self@, "log"@),
            ) + "\nTemp: "@ + quoted(text::joined(self@, "tmp"@)) + "\nCurrent: "@ + quoted(
                text::joined(self@, "CURRENT"@),
            ),
    {
        let mut out = owned("Database Paths:\nBase: ");
        push_text(&mut out, quote(self.base_path.as_str()).as_str());
        push_text(&mut out, "\nData: ");
        push_text(&mut out, quote(self.data_dir.as_str()).as_str());
        push_text(&mut out, "\nWAL:  ");
        push_text(&mut out, quote(self.wal_dir.as_str()).as_str());
        push_text(&mut out, "\nLog:  ");
        push_text(&mut out, quote(self.log_dir.as_str()).as_str());
        push_text(&mut out, "\nTemp: ");
        push_text(&mut out, quote(self.tmp_dir.as_str()).as_str());
        push_text(&mut out, "\nCurrent: ");
        push_text(&mut out, quote(self.current_file.as_str()).as_str());
        out
    }
}

} // verus!
