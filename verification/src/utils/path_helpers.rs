//! The names of log and table files.

use vstd::prelude::*;

use crate::utils::clock::millis_since_epoch;
use crate::utils::text;
use crate::utils::text::{owned, push_decimal, push_padded, push_text};

verus! {

/// The number in a file name: six digits at least.
pub open spec fn numbered(id: u64, extension: Seq<char>) -> Seq<char> {
    text::zero_padded(text::decimal(id as nat), 6) + extension
}

/// The name of a table written at a time.
pub open spec fn timestamped(millis: nat) -> Seq<char> {
    "sstable_"@ + text::decimal(millis) + ".db"@
}

/// The name of the log file with a number: `000001.wal`, or as many digits as the
/// number has where it has more than six.
pub fn format_wal_filename(log_number: u64) -> (r: String)
    ensures
        r@ == numbered(log_number, ".wal"@),
{
    let mut out = String::new();
    push_padded(&mut out, log_number as u128, 6);
    push_text(&mut out, ".wal");
    assert(out@ =~= numbered(log_number, ".wal"@));
    out
}

/// The name of the table file with a number: `000001.sst`, or as many digits as the
/// number has where it has more than six.
pub fn format_sstable_filename(file_id: u64) -> (r: String)
    ensures
        r@ == numbered(file_id, ".sst"@),
{
    let mut out = String::new();
    push_padded(&mut out, file_id as u128, 6);
    push_text(&mut out, ".sst");
    assert(out@ =~= numbered(file_id, ".sst"@));
    out
}

/// The name of a table file written `millis` milliseconds after the epoch.
pub fn sstable_filename_at(millis: u128) -> (r: String)
    ensures
        r@ == timestamped(millis as nat),
{
    let mut out = owned("sstable_");
    push_decimal(&mut out, millis);
    push_text(&mut out, ".db");
    out
}

/// The name of a table file written now.
pub fn timestamped_sstable_filename() -> (r: String)
    ensures
        exists|millis: u128| r@ == #[trigger] timestamped(millis as nat),
{
    let millis: u128 = millis_since_epoch();
    let name = sstable_filename_at(millis);
    assert(name@ == timestamped(millis as nat));
    name
}

} // verus!
