//! What is known of a table file.

use vstd::prelude::*;

use crate::format::slices::copy_range;

verus! {

/// What a finished table holds.
#[derive(Debug)]
pub struct TableProperties {
    /// The size of the file in bytes.
    pub file_size: u64,
    /// The first key written.
    pub smallest_key: Vec<u8>,
    /// The last key written.
    pub largest_key: Vec<u8>,
    /// The smallest sequence number among the keys.
    pub smallest_seqno: u64,
    /// The largest sequence number among the keys.
    pub largest_seqno: u64,
}

impl TableProperties {
    /// Properties from their parts.
    pub fn new(
        file_size: u64,
        smallest_key: Vec<u8>,
        largest_key: Vec<u8>,
        smallest_seqno: u64,
        largest_seqno: u64,
    ) -> (r: TableProperties)
        ensures
            r == (TableProperties {
                file_size,
                smallest_key,
                largest_key,
                smallest_seqno,
                largest_seqno,
            }),
    {
        TableProperties { file_size, smallest_key, largest_key, smallest_seqno, largest_seqno }
    }
}

/// A table file: its number and what it holds.
#[derive(Debug)]
pub struct FileMetadata {
    /// The number of the file.
    pub file_id: u64,
    /// What it holds.
    pub props: TableProperties,
}

/// The user key of a serialized key: all of it where it is shorter than a trailer.
pub open spec fn user_key_of(raw: Seq<u8>) -> Seq<u8> {
    if raw.len() >= 8 {
        raw.subrange(0, raw.len() - 8)
    } else {
        raw
    }
}

impl FileMetadata {
    /// The metadata of a file with known properties.
    pub fn from_props(file_id: u64, props: TableProperties) -> (r: FileMetadata)
        ensures
            r == (FileMetadata { file_id, props }),
    {
        FileMetadata { file_id, props }
    }

    /// The user key of the largest key.
    pub fn largest_user_key(&self) -> (r: Vec<u8>)
        ensures
            r@ == user_key_of(self.props.largest_key@),
    {
        let raw = self.props.largest_key.as_slice();
        let n: usize = raw.len();
        if n >= 8 {
            copy_range(raw, 0, n - 8)
        } else {
            let all = copy_range(raw, 0, n);
            assert(all@ =~= raw@);
            all
        }
    }
}

} // verus!
