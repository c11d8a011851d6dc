//! What the bytes of a block say: entries, keys rebuilt from shared prefixes, and
//! what a search among them finds.

use vstd::prelude::*;

use crate::error::BlockError;
use crate::format::coding;
use crate::format::coding::decode_varint64_with_length;
use crate::format::internal_key;
use crate::format::order;

verus! {

/// Where the parts of an entry lie in the block.
#[derive(Debug, Clone, Copy, PartialEq, Eq, Structural)]
pub struct EntryView {
    /// How many bytes of its key the entry shares with the one before it.
    pub shared: u32,
    /// Where the rest of the key begins.
    pub key_start: usize,
    /// Where the value begins: the end of the rest of the key.
    pub value_offset: usize,
    /// Where the value ends, and with it the entry.
    pub end: usize,
}

/// An entry with its whole key, and where its value lies in the block.
#[verifier::ext_equal]
pub struct Item {
    /// The whole key.
    pub key: Seq<u8>,
    /// Where the value begins.
    pub value_offset: int,
    /// The length of the value.
    pub value_len: int,
}

/// The varint at `pos`, and the position after it.
pub open spec fn varint_in(data: Seq<u8>, data_end: int, pos: int) -> Result<
    (u64, int),
    BlockError,
> {
    if pos >= data_end {
        Err(BlockError::PositionOutOfBounds)
    } else {
        match coding::varint_at_start(data.subrange(pos, data_end)) {
            Ok((value, len)) => Ok((value, pos + len)),
            Err(e) => Err(BlockError::Varint(e)),
        }
    }
}

/// The entry at `pos`, in a block whose entries end at `data_end`. Of the length of
/// the shared prefix the low 32 bits count.
pub open spec fn entry_at(data: Seq<u8>, data_end: int, pos: int) -> Result<EntryView, BlockError> {
    match varint_in(data, data_end, pos) {
        Err(e) => Err(e),
        Ok((shared, p1)) => match varint_in(data, data_end, p1) {
            Err(e) => Err(e),
            Ok((unshared, p2)) => match varint_in(data, data_end, p2) {
                Err(e) => Err(e),
                Ok((value_len, p3)) => if p3 + unshared + value_len > data_end {
                    Err(BlockError::EntryExceedsBoundary)
                } else {
                    Ok(
                        EntryView {
                            shared: (shared % 0x1_0000_0000) as u32,
                            key_start: p3 as usize,
                            value_offset: (p3 + unshared) as usize,
                            end: (p3 + unshared + value_len) as usize,
                        },
                    )
                },
            },
        },
    }
}

/// At the end of the entries and behind it there is no entry: the position is out of bounds. An
/// entry of which the key or the value would not lie before the end is refused for that, and one
/// whose first length cannot be read for what is wrong with the length.
pub proof fn no_entry_beyond_the_end(data: Seq<u8>, data_end: int, pos: int)
    requires
        0 <= pos,
        data_end <= data.len() <= usize::MAX,
    ensures
        pos >= data_end ==> entry_at(data, data_end, pos) == Err::<EntryView, BlockError>(
            BlockError::PositionOutOfBounds,
        ),
        pos < data_end ==> (coding::varint_at_start(data.subrange(pos, data_end)) matches Err(e)
            ==> entry_at(data, data_end, pos) == Err::<EntryView, BlockError>(
            BlockError::Varint(e),
        )),
        entry_at(data, data_end, pos) matches Ok(e) ==> e.end <= data_end,
{
    entry_bounds(data, data_end, pos);
}

/// The parts of an entry lie one after the other inside the block.
pub proof fn entry_bounds(data: Seq<u8>, data_end: int, pos: int)
    requires
        0 <= pos,
        data_end <= data.len() <= usize::MAX,
    ensures
        entry_at(data, data_end, pos) matches Ok(e) ==> pos < e.key_start <= e.value_offset
            <= e.end <= data_end,
{
    if let Ok((_, p1)) = varint_in(data, data_end, pos) {
        coding::varint_read_bounds(data.subrange(pos, data_end), 0, 0);
        if let Ok((_, p2)) = varint_in(data, data_end, p1) {
            coding::varint_read_bounds(data.subrange(p1, data_end), 0, 0);
            if let Ok((_, p3)) = varint_in(data, data_end, p2) {
                coding::varint_read_bounds(data.subrange(p2, data_end), 0, 0);
            }
        }
    }
}

/// How a reader treats entries that no builder writes.
pub enum Reading {
    /// A prefix longer than the key before counts as none; an entry without key
    /// bytes and value ends the block.
    Lenient,
    /// A prefix longer than the key before ends the block, as does an entry without
    /// key bytes and value.
    Strict,
    /// A prefix longer than the key before ends the block.
    StrictKeys,
}

/// The whole key of an entry after one with key `prev`.
pub open spec fn rebuilt(
    prev: Seq<u8>,
    shared: int,
    rest: Seq<u8>,
    reading: Reading,
) -> Option<Seq<u8>> {
    if reading is Lenient {
        if prev.len() > 0 && shared <= prev.len() {
            Some(prev.subrange(0, shared) + rest)
        } else {
            Some(rest)
        }
    } else if shared > prev.len() {
        None
    } else {
        Some(prev.subrange(0, shared) + rest)
    }
}

/// The entries from `pos` to `end`, after one with key `prev`. They stop where an
/// entry cannot be read.
pub open spec fn items(
    data: Seq<u8>,
    data_end: int,
    pos: int,
    end: int,
    prev: Seq<u8>,
    reading: Reading,
) -> Seq<Item>
    decreases
            (if end > pos {
                end - pos
            } else {
                0
            }),
{
    if pos >= end {
        Seq::empty()
    } else {
        match entry_at(data, data_end, pos) {
            Err(_) => Seq::empty(),
            Ok(e) => if e.end <= pos {
                Seq::empty()
            } else if e.key_start == e.end && !(reading is StrictKeys) {
                Seq::empty()
            } else {
                match rebuilt(
                    prev,
                    e.shared as int,
                    data.subrange(e.key_start as int, e.value_offset as int),
                    reading,
                ) {
                    None => Seq::empty(),
                    Some(key) => seq![
                        Item {
                            key,
                            value_offset: e.value_offset as int,
                            value_len: e.end - e.value_offset,
                        },
                    ] + items(data, data_end, e.end as int, end, key, reading),
                }
            },
        }
    }
}

/// The value of an entry.
pub open spec fn value_of(data: Seq<u8>, item: Item) -> Seq<u8> {
    data.subrange(item.value_offset, item.value_offset + item.value_len)
}

/// The first entry whose key is `key`, where the first that does not come before it
/// has that key.
pub open spec fn find_key(list: Seq<Item>, key: Seq<u8>) -> Option<Item>
    decreases list.len(),
{
    if list.len() == 0 {
        None
    } else if order::lex_lt(list[0].key, key) {
        find_key(list.subrange(1, list.len() as int), key)
    } else if list[0].key == key {
        Some(list[0])
    } else {
        None
    }
}

/// The first entry for a user key, before any entry with a larger one. Keys too
/// short to have a user key are passed over.
pub open spec fn find_user(list: Seq<Item>, user_key: Seq<u8>) -> Option<Item>
    decreases list.len(),
{
    if list.len() == 0 {
        None
    } else {
        let rest = list.subrange(1, list.len() as int);
        match internal_key::user_part(list[0].key) {
            None => find_user(rest, user_key),
            Some(user) => if order::lex_lt(user, user_key) {
                find_user(rest, user_key)
            } else if user == user_key {
                Some(list[0])
            } else {
                None
            },
        }
    }
}

/// The first entry for a user key that is no newer than `read_seq`, before any entry
/// with a larger user key.
pub open spec fn find_user_at(list: Seq<Item>, user_key: Seq<u8>, read_seq: u64) -> Option<Item>
    decreases list.len(),
{
    if list.len() == 0 {
        None
    } else {
        let rest = list.subrange(1, list.len() as int);
        match internal_key::parsed(list[0].key) {
            None => find_user_at(rest, user_key, read_seq),
            Some(key) => if order::lex_lt(key.user_key, user_key) {
                find_user_at(rest, user_key, read_seq)
            } else if key.user_key == user_key {
                if internal_key::sequence_of(key.encoded) <= read_seq {
                    Some(list[0])
                } else {
                    find_user_at(rest, user_key, read_seq)
                }
            } else {
                None
            },
        }
    }
}

/// The first entry for a user key.
pub open spec fn first_for_user(list: Seq<Item>, user_key: Seq<u8>) -> Option<Item>
    decreases list.len(),
{
    if list.len() == 0 {
        None
    } else if internal_key::user_part(list[0].key) == Some(user_key) {
        Some(list[0])
    } else {
        first_for_user(list.subrange(1, list.len() as int), user_key)
    }
}

/// Of each user key the first entry, in the order of the block.
pub open spec fn first_items(list: Seq<Item>) -> Seq<Item>
    decreases list.len(),
{
    if list.len() == 0 {
        Seq::empty()
    } else {
        let before = first_items(list.drop_last());
        match internal_key::user_part(list.last().key) {
            None => before,
            Some(user) => if first_for_user(before, user) is Some {
                before
            } else {
                before.push(list.last())
            },
        }
    }
}

/// What [`entry_at`] says of each position.
pub fn decode_entry_view_at(data: &[u8], data_end: usize, pos: usize) -> (r: Result<
    EntryView,
    BlockError,
>)
    requires
        data_end <= data@.len(),
    ensures
        r == entry_at(data@, data_end as int, pos as int),
        r matches Ok(e) ==> pos < e.key_start <= e.value_offset <= e.end <= data_end,
{
    proof {
        assert(data@.len() == data.len());
        entry_bounds(data@, data_end as int, pos as int);
    }
    let (shared, p1) = match decode_varint_at(data, data_end, pos) {
        Ok(v) => v,
        Err(e) => {
            return Err(e);
        },
    };
    let (unshared, p2) = match decode_varint_at(data, data_end, p1) {
        Ok(v) => v,
        Err(e) => {
            return Err(e);
        },
    };
    let (value_len, p3) = match decode_varint_at(data, data_end, p2) {
        Ok(v) => v,
        Err(e) => {
            return Err(e);
        },
    };
    let room: u64 = (data_end - p3) as u64;
    if unshared > room || value_len > room - unshared {
        return Err(BlockError::EntryExceedsBoundary);
    }
    let value_offset: usize = p3 + unshared as usize;
    Ok(
        EntryView {
            shared: (shared % 0x1_0000_0000) as u32,
            key_start: p3,
            value_offset,
            end: value_offset + value_len as usize,
        },
    )
}

/// What [`varint_in`] says of each position.
fn decode_varint_at(data: &[u8], data_end: usize, pos: usize) -> (r: Result<
    (u64, usize),
    BlockError,
>)
    requires
        data_end <= data@.len(),
    ensures
        match varint_in(data@, data_end as int, pos as int) {
            Ok((value, next)) => r == Ok::<(u64, usize), BlockError>((value, next as usize)) && pos
                < next <= data_end,
            Err(e) => r == Err::<(u64, usize), BlockError>(e),
        },
{
    if pos >= data_end {
        return Err(BlockError::PositionOutOfBounds);
    }
    match decode_varint64_with_length(vstd::slice::slice_subrange(data, pos, data_end)) {
        Ok((value, len)) => Ok((value, pos + len)),
        Err(e) => Err(BlockError::Varint(e)),
    }
}

} // verus!
