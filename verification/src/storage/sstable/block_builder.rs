//! Building blocks: sorted entries with shared key prefixes left out.
//!
//! A block is its entries, then the restart points, then their number:
//!
//! ```text
//! entry 1 .. entry N | restart point (4 bytes) .. | restart count (4 bytes)
//! ```
//!
//! An entry is three varints, the length of the prefix it shares with the key
//! before it, the length of the rest of its key and the length of its value; then
//! the rest of the key and the value. After every sixteenth entry the offset of the
//! next one is noted as a restart point, and the next entry shares nothing.

use vstd::prelude::*;

use crate::format::coding;
use crate::format::coding::{put_varint64, varint_len};
use crate::format::fixed;
use crate::format::fixed::put_le;
use crate::format::slices::append_bytes;

verus! {

/// The size from which on a block should be finished.
pub const MAX_BLOCK_SIZE: usize = 4096;

/// The number of entries between two restart points.
pub const RESTART_INTERVAL: u32 = 16;

/// One key and its value.
#[verifier::ext_equal]
pub struct KeyValue {
    /// The key.
    pub key: Seq<u8>,
    /// The value.
    pub value: Seq<u8>,
}

/// What a block builder holds.
#[verifier::ext_equal]
pub struct BlockState {
    /// The encoded entries.
    pub buffer: Seq<u8>,
    /// The encoded restart points.
    pub restarts: Seq<u8>,
    /// The number of entries since the last restart point.
    pub counter: nat,
    /// The key added last.
    pub last_key: Seq<u8>,
}

/// The first position from `i` on where `a` and `b` differ or one of them ends.
pub open spec fn shared_from(a: Seq<u8>, b: Seq<u8>, i: nat) -> nat
    decreases a.len() - i,
{
    if i < a.len() && i < b.len() && a[i as int] == b[i as int] {
        shared_from(a, b, i + 1)
    } else {
        i
    }
}

/// The length of the longest common prefix.
pub open spec fn shared_prefix(a: Seq<u8>, b: Seq<u8>) -> nat {
    shared_from(a, b, 0)
}

/// One entry, of whose key the first `shared` bytes are left out.
pub open spec fn entry_bytes(shared: nat, key: Seq<u8>, value: Seq<u8>) -> Seq<u8> {
    coding::varint_bytes(shared as u64) + coding::varint_bytes((key.len() - shared) as u64)
        + coding::varint_bytes(value.len() as u64) + key.subrange(shared as int, key.len() as int)
        + value
}

/// The builder of an empty block.
pub open spec fn empty_state() -> BlockState {
    BlockState {
        buffer: Seq::empty(),
        restarts: Seq::empty(),
        counter: 0,
        last_key: Seq::empty(),
    }
}

/// How much of `key` the next entry leaves out.
pub open spec fn next_shared(state: BlockState, key: Seq<u8>) -> nat {
    if state.counter == 0 {
        0
    } else {
        shared_prefix(state.last_key, key)
    }
}

/// The builder after one more entry.
pub open spec fn added(state: BlockState, key: Seq<u8>, value: Seq<u8>) -> BlockState {
    let buffer = state.buffer + entry_bytes(next_shared(state, key), key, value);
    if state.counter + 1 == 16 {
        BlockState {
            buffer,
            restarts: state.restarts + fixed::le_bytes(buffer.len(), 4),
            counter: 0,
            last_key: key,
        }
    } else {
        BlockState {
            buffer,
            restarts: state.restarts,
            counter: state.counter + 1,
            last_key: key,
        }
    }
}

/// The builder after the entries of a whole block.
pub open spec fn built(entries: Seq<KeyValue>) -> BlockState
    decreases entries.len(),
{
    if entries.len() == 0 {
        empty_state()
    } else {
        added(built(entries.drop_last()), entries.last().key, entries.last().value)
    }
}

/// The bytes of the finished block.
pub open spec fn finished(state: BlockState) -> Seq<u8> {
    state.buffer + state.restarts + fixed::le_bytes(state.restarts.len() / 4, 4)
}

/// The block that holds `entries`.
pub open spec fn block_bytes(entries: Seq<KeyValue>) -> Seq<u8> {
    finished(built(entries))
}

/// A shared prefix is a prefix of both strings.
pub proof fn shared_prefix_agrees(a: Seq<u8>, b: Seq<u8>, i: nat)
    requires
        i <= a.len(),
        i <= b.len(),
        forall|j: int| 0 <= j < i ==> a[j] == b[j],
    ensures
        i <= shared_from(a, b, i) <= a.len(),
        shared_from(a, b, i) <= b.len(),
        forall|j: int| 0 <= j < shared_from(a, b, i) ==> a[j] == b[j],
    decreases a.len() - i,
{
    if i < a.len() && i < b.len() && a[i as int] == b[i as int] {
        shared_prefix_agrees(a, b, i + 1);
    }
}

/// The builder after more entries.
pub open spec fn added_all(state: BlockState, entries: Seq<KeyValue>) -> BlockState
    decreases entries.len(),
{
    if entries.len() == 0 {
        state
    } else {
        added(added_all(state, entries.drop_last()), entries.last().key, entries.last().value)
    }
}

/// A builder that was reset builds what a new one builds: the same block with the same last
/// key, whatever it had built before.
pub proof fn reset_builder_builds_the_same(entries: Seq<KeyValue>)
    ensures
        added_all(empty_state(), entries) == built(entries),
        finished(added_all(empty_state(), entries)) == block_bytes(entries),
        entries.len() > 0 ==> added_all(empty_state(), entries).last_key == entries.last().key,
    decreases entries.len(),
{
    if entries.len() > 0 {
        reset_builder_builds_the_same(entries.drop_last());
    }
}

/// A builder of blocks.
pub struct BlockBuilder {
    buffer: Vec<u8>,
    restarts: Vec<u8>,
    counter: u32,
    last_key: Vec<u8>,
}

impl View for BlockBuilder {
    type V = BlockState;

    closed spec fn view(&self) -> BlockState {
        BlockState {
            buffer: self.buffer@,
            restarts: self.restarts@,
            counter: self.counter as nat,
            last_key: self.last_key@,
        }
    }
}

impl Default for BlockBuilder {
    fn default() -> (r: Self)
        ensures
            r.wf(),
            r@ == empty_state(),
    {
        BlockBuilder::new()
    }
}

impl BlockBuilder {
    /// The builder has fewer than sixteen entries since the last restart point.
    pub open spec fn wf(&self) -> bool {
        self@.counter < 16
    }

    /// A builder with no entries.
    pub fn new() -> (r: BlockBuilder)
        ensures
            r.wf(),
            r@ == empty_state(),
    {
        BlockBuilder {
            buffer: Vec::new(),
            restarts: Vec::new(),
            counter: 0,
            last_key: Vec::new(),
        }
    }

    /// Adds an entry. Entry lengths are stored in 32 bits, so a key is no longer
    /// than that.
    pub fn add(&mut self, key: &[u8], value: &[u8])
        requires
            old(self).wf(),
            key@.len() <= u32::MAX,
        ensures
            final(self).wf(),
            final(self)@ == added(old(self)@, key@, value@),
    {
        let mut shared: u32 = 0;
        if self.counter != 0 {
            shared = self.compute_shared(key);
        }
        let unshared: u32 = key.len() as u32 - shared;
        proof {
            coding::varint_len_bounds(shared as u64);
            coding::varint_len_bounds(unshared as u64);
            coding::varint_len_bounds(value@.len() as u64);
        }
        let reserve: usize = varint_len(shared as u64) + varint_len(unshared as u64) + varint_len(
            value.len() as u64,
        );
        let ghost before = self@;
        self.buffer.reserve(reserve.saturating_add(unshared as usize).saturating_add(value.len()));
        put_varint64(&mut self.buffer, shared as u64);
        put_varint64(&mut self.buffer, unshared as u64);
        put_varint64(&mut self.buffer, value.len() as u64);
        append_bytes(&mut self.buffer, vstd::slice::slice_subrange(key, shared as usize, key.len()));
        append_bytes(&mut self.buffer, value);
        assert(self.buffer@ =~= before.buffer + entry_bytes(shared as nat, key@, value@));
        if self.counter + 1 == RESTART_INTERVAL {
            self.counter = 0;
            let offset: u64 = self.buffer.len() as u64;
            put_le(&mut self.restarts, offset, 4);
        } else {
            self.counter = self.counter + 1;
        }
        self.last_key.clear();
        append_bytes(&mut self.last_key, key);
        assert(self.last_key@ =~= key@);
    }

    /// Ends the block: appends the restart points and their number. Gives the bytes
    /// of the block and the key added last.
    pub fn finish(&mut self) -> (r: (&[u8], &[u8]))
        ensures
            r.0@ == finished(old(self)@),
            r.1@ == old(self)@.last_key,
            final(self)@ == (BlockState { buffer: finished(old(self)@), ..old(self)@ }),
    {
        let ghost before = self@;
        append_bytes(&mut self.buffer, self.restarts.as_slice());
        put_le(&mut self.buffer, (self.restarts.len() / 4) as u64, 4);
        (self.buffer.as_slice(), self.last_key.as_slice())
    }

    /// The length of the prefix that `key` shares with the key added last.
    pub fn compute_shared(&self, key: &[u8]) -> (r: u32)
        requires
            key@.len() <= u32::MAX,
        ensures
            r == shared_prefix(self@.last_key, key@),
            r <= key@.len(),
    {
        let mut i: usize = 0;
        while i < self.last_key.len() && i < key.len() && self.last_key[i] == key[i]
            invariant
                i <= self.last_key.len(),
                i <= key.len(),
                shared_from(self.last_key@, key@, i as nat) == shared_prefix(self.last_key@, key@),
            decreases key.len() - i,
        {
            i = i + 1;
        }
        i as u32
    }

    /// The number of bytes so far.
    pub fn len(&self) -> (r: usize)
        ensures
            r == self@.buffer.len(),
    {
        self.buffer.len()
    }

    /// The number of bytes of the block if it were finished now.
    pub fn finished_len(&self) -> (r: u128)
        ensures
            r == finished(self@).len(),
    {
        proof {
            fixed::le_bytes_len(self@.restarts.len() / 4, 4);
        }
        self.buffer.len() as u128 + self.restarts.len() as u128 + 4
    }

    /// Whether there are no bytes yet.
    pub fn is_empty(&self) -> (r: bool)
        ensures
            r == (self@.buffer.len() == 0),
    {
        self.buffer.is_empty()
    }

    /// Whether the block has reached its size.
    pub fn should_finish(&self) -> (r: bool)
        ensures
            r == (self@.buffer.len() >= MAX_BLOCK_SIZE),
    {
        self.len() >= MAX_BLOCK_SIZE
    }

    /// Starts a new block.
    pub fn reset(&mut self)
        ensures
            final(self).wf(),
            final(self)@ == empty_state(),
    {
        self.buffer.clear();
        self.restarts.clear();
        self.counter = 0;
        self.last_key.clear();
    }

    /// Whether no entries were added.
    pub fn empty(&self) -> (r: bool)
        ensures
            r == (self@.buffer.len() == 0),
    {
        self.buffer.is_empty()
    }
}

} // verus!
