//! Building tables of the first layout: keys as they are given, blocks without checksums
//! and one filter for the whole table.
//!
//! ```text
//! data block 1 .. data block N
//! filter (1024 bytes)
//! index block
//! footer: filter offset, index offset, zeros, magic number (48 bytes)
//! ```

use vstd::prelude::*;

use crate::format::coding;
use crate::format::coding::{encode_varint64, put_varint64};
use crate::format::fixed;
use crate::format::fixed::put_le;
use crate::format::slices::{append_bytes, copy_bytes};
use crate::storage::block_builder::BlockBuilder;
use crate::storage::bloom_builder;
use crate::storage::bloom_builder::BloomBuilder;
use crate::storage::sstable;
use crate::storage::sstable::block_builder;
use crate::storage::sstable::block_builder::KeyValue;
use crate::storage::sstable::builder;
use crate::storage::sstable::table_format;
use crate::storage::sstable::table_format::{FOOTER_PADDING_BYTES, MAGIC_NUMBER};
use crate::storage::sstable_reader::SSTable;
use crate::utils::path_helpers;
use crate::utils::path_helpers::format_sstable_filename;
use crate::utils::text::{owned, push_text};

verus! {

/// The key of block `j` in the index.
pub open spec fn separator(blocks: Seq<Seq<KeyValue>>, j: int) -> Seq<u8> {
    if j + 1 < blocks.len() {
        table_format::separator_user(blocks[j].last().key, blocks[j + 1][0].key)
    } else {
        blocks[j].last().key
    }
}

/// The first `n` blocks as they stand in the file.
pub open spec fn data_section(blocks: Seq<Seq<KeyValue>>, n: nat) -> Seq<u8>
    decreases n,
{
    if n == 0 {
        Seq::empty()
    } else {
        data_section(blocks, (n - 1) as nat) + block_builder::block_bytes(blocks[n - 1])
    }
}

/// The entry of block `j` in the index: its separator, where it begins and its size.
pub open spec fn index_entry(blocks: Seq<Seq<KeyValue>>, j: int) -> KeyValue {
    KeyValue {
        key: separator(blocks, j),
        value: coding::varint_bytes(data_section(blocks, j as nat).len() as u64)
            + coding::varint_bytes(block_builder::block_bytes(blocks[j]).len() as u64),
    }
}

/// The first `n` entries of the index.
pub open spec fn index_entries(blocks: Seq<Seq<KeyValue>>, n: nat) -> Seq<KeyValue> {
    Seq::new(n, |j: int| index_entry(blocks, j))
}

/// What of a key goes into the filter: all but the last eight bytes, which are the trailer
/// of a versioned key; a shorter key as it is.
pub open spec fn filter_part(key: Seq<u8>) -> Seq<u8> {
    if key.len() >= 8 {
        key.subrange(0, key.len() - 8)
    } else {
        key
    }
}

/// What of a key goes into the filter.
pub(crate) fn filter_part_of(key: &[u8]) -> (r: &[u8])
    ensures
        r@ == filter_part(key@),
{
    if key.len() >= 8 {
        vstd::slice::slice_subrange(key, 0, key.len() - 8)
    } else {
        key
    }
}

/// What of each key goes into the filter.
pub open spec fn filter_parts(entries: Seq<KeyValue>) -> Seq<Seq<u8>> {
    Seq::new(entries.len(), |i: int| filter_part(entries[i].key))
}

/// The filter of a table with these entries.
pub open spec fn filter(entries: Seq<KeyValue>) -> Seq<u8> {
    bloom_builder::filter_of(1024, filter_parts(entries))
}

/// The footer.
pub open spec fn footer(filter_offset: u64, index_offset: u64) -> Seq<u8> {
    let offsets = coding::varint_bytes(filter_offset) + coding::varint_bytes(index_offset);
    offsets + Seq::new((40 - offsets.len()) as nat, |i: int| 0u8) + fixed::le_bytes(
        MAGIC_NUMBER as nat,
        8,
    )
}

/// The index block of a table with these blocks.
pub open spec fn index_block(blocks: Seq<Seq<KeyValue>>) -> Seq<u8> {
    block_builder::block_bytes(index_entries(blocks, blocks.len()))
}

/// The table with these entries in these blocks.
pub open spec fn table_of_blocks(entries: Seq<KeyValue>, blocks: Seq<Seq<KeyValue>>) -> Seq<u8> {
    let data = data_section(blocks, blocks.len());
    data + filter(entries) + index_block(blocks) + footer(
        data.len() as u64,
        (data.len() + 1024) as u64,
    )
}

/// The table with these entries.
pub open spec fn table_bytes(entries: Seq<KeyValue>) -> Seq<u8> {
    table_of_blocks(entries, table_format::all_blocks(entries))
}

/// The table that a builder is making.
#[verifier::ext_equal]
pub struct PlainModel {
    /// The entries written.
    pub entries: Seq<KeyValue>,
    /// Whether the table was finished.
    pub finished: bool,
}

/// A builder of tables.
pub struct SSTableBuilder {
    file: Vec<u8>,
    data_block_builder: BlockBuilder,
    index_block_builder: BlockBuilder,
    bloom_builder: BloomBuilder,
    id: u64,
    path: String,
    entries: Ghost<Seq<KeyValue>>,
    finished: Ghost<bool>,
}

impl View for SSTableBuilder {
    type V = PlainModel;

    closed spec fn view(&self) -> PlainModel {
        PlainModel { entries: self.entries@, finished: self.finished@ }
    }
}

/// All blocks of a table under construction, the open one last.
spec fn with_open(entries: Seq<KeyValue>) -> Seq<Seq<KeyValue>> {
    table_format::grouped(entries).done.push(table_format::grouped(entries).open)
}

proof fn lemma_same_sections(a: Seq<Seq<KeyValue>>, b: Seq<Seq<KeyValue>>, n: nat)
    requires
        n <= a.len(),
        n <= b.len(),
        forall|j: int| 0 <= j < n ==> #[trigger] a[j] == b[j],
    ensures
        data_section(a, n) == data_section(b, n),
    decreases n,
{
    if n > 0 {
        lemma_same_sections(a, b, (n - 1) as nat);
        assert(a[n - 1] == b[n - 1]);
    }
}

/// Complete blocks do not depend on what follows the next one's first entry.
proof fn lemma_same_start(a: Seq<Seq<KeyValue>>, b: Seq<Seq<KeyValue>>, n: nat)
    requires
        n < a.len(),
        n < b.len(),
        forall|j: int| 0 <= j < n ==> #[trigger] a[j] == b[j],
        n > 0 ==> a[n as int][0] == b[n as int][0],
    ensures
        data_section(a, n) == data_section(b, n),
        index_entries(a, n) == index_entries(b, n),
{
    lemma_same_sections(a, b, n);
    assert forall|j: int| 0 <= j < n implies index_entry(a, j) == index_entry(b, j) by {
        lemma_same_sections(a, b, j as nat);
        assert(a[j] == b[j]);
        if j + 1 < n {
            assert(a[j + 1] == b[j + 1]);
        }
    }
    assert(index_entries(a, n) =~= index_entries(b, n));
}

impl SSTableBuilder {
    /// The bytes of the file so far.
    pub closed spec fn file(&self) -> Seq<u8> {
        self.file@
    }

    /// The path of the file.
    pub closed spec fn path(&self) -> Seq<char> {
        self.path@
    }

    /// The number of the table.
    pub closed spec fn number(&self) -> u64 {
        self.id
    }

    /// The builder holds the table that its model describes.
    pub closed spec fn wf(&self) -> bool {
        let entries = self.entries@;
        let g = table_format::grouped(entries);
        let blocks = with_open(entries);
        &&& forall|i: int| 0 <= i < entries.len() ==> (#[trigger] entries[i]).key.len() <= u32::MAX
        &&& !self.finished@ ==> {
            &&& self.data_block_builder.wf()
            &&& self.index_block_builder.wf()
            &&& self.data_block_builder@ == block_builder::built(g.open)
            &&& self.file@ == data_section(blocks, g.done.len())
            &&& self.index_block_builder@ == block_builder::built(
                index_entries(blocks, g.done.len()),
            )
            &&& self.bloom_builder@ == filter(entries)
        }
    }

    /// A builder of table `id` in a directory.
    pub fn new(id: u64, path: &str) -> (r: SSTableBuilder)
        ensures
            r.wf(),
            r@ == (PlainModel { entries: Seq::empty(), finished: false }),
            r.file().len() == 0,
            r.number() == id,
            r.path() == path@ + "/"@ + path_helpers::numbered(id, ".sst"@),
    {
        let r = SSTableBuilder {
            file: Vec::new(),
            data_block_builder: BlockBuilder::new(),
            index_block_builder: BlockBuilder::new(),
            bloom_builder: BloomBuilder::new(),
            id,
            path: Self::get_file_name(id, path),
            entries: Ghost(Seq::empty()),
            finished: Ghost(false),
        };
        proof {
            assert(index_entries(with_open(Seq::empty()), 0) =~= Seq::empty());
            assert(filter_parts(Seq::empty()).len() == 0);
        }
        r
    }

    /// The path of table `id` in a directory: `000001.sst`, or as many digits as the number
    /// has where it has more than six.
    pub fn get_file_name(id: u64, path: &str) -> (r: String)
        ensures
            r@ == path@ + "/"@ + path_helpers::numbered(id, ".sst"@),
    {
        let mut out = owned(path);
        push_text(&mut out, "/");
        push_text(&mut out, format_sstable_filename(id).as_str());
        out
    }

    /// The bytes of the file so far.
    pub fn file_bytes(&self) -> (r: &[u8])
        ensures
            r@ == self.file(),
    {
        self.file.as_slice()
    }

    /// The key that separates two blocks.
    pub fn compute_separator(last_key: &[u8], key: &[u8]) -> (r: Vec<u8>)
        ensures
            r@ == table_format::separator_user(last_key@, key@),
            r@.len() <= last_key@.len(),
    {
        sstable::SSTableBuilder::compute_separator(last_key, key)
    }

    /// Appends a block to the file; gives its entry in the index.
    fn write_block(file: &mut Vec<u8>, content: &[u8]) -> (r: Vec<u8>)
        ensures
            final(file)@ == old(file)@ + content@,
            r@ == coding::varint_bytes(old(file)@.len() as u64) + coding::varint_bytes(
                content@.len() as u64,
            ),
    {
        let mut value = encode_varint64(file.len() as u64);
        put_varint64(&mut value, content.len() as u64);
        append_bytes(file, content);
        value
    }

    /// Ends the open block, which is followed by `key`.
    fn finish_data_block(&mut self, key: &[u8])
        requires
            old(self).wf(),
            !old(self)@.finished,
            old(self)@.entries.len() > 0,
        ensures
            ({
                let open = table_format::grouped(old(self)@.entries).open;
                let content = block_builder::block_bytes(open);
                &&& final(self).data_block_builder.wf()
                &&& final(self).data_block_builder@ == block_builder::empty_state()
                &&& final(self).index_block_builder.wf()
                &&& final(self).index_block_builder@ == block_builder::added(
                    old(self).index_block_builder@,
                    table_format::separator_user(open.last().key, key@),
                    coding::varint_bytes(old(self).file@.len() as u64) + coding::varint_bytes(
                        content.len() as u64,
                    ),
                )
                &&& final(self).file@ == old(self).file@ + content
            }),
            final(self).entries == old(self).entries,
            final(self).finished == old(self).finished,
            final(self).bloom_builder == old(self).bloom_builder,
            final(self).path == old(self).path,
            final(self).id == old(self).id,
    {
        let ghost entries = self.entries@;
        let ghost open = table_format::grouped(entries).open;
        proof {
            builder::lemma_open_nonempty(entries);
            crate::storage::sstable::block_laws::lemma_builder_parts(open);
            assert(open.last() == entries.last());
            assert(entries[entries.len() - 1].key.len() <= u32::MAX);
        }
        let (content, last_key) = {
            let (c, l) = self.data_block_builder.finish();
            (copy_bytes(c), copy_bytes(l))
        };
        let separator = Self::compute_separator(last_key.as_slice(), key);
        let value = Self::write_block(&mut self.file, content.as_slice());
        self.index_block_builder.add(separator.as_slice(), value.as_slice());
        self.data_block_builder.reset();
    }

    /// Writes an entry. Keys should come in increasing order: what readers find rests on
    /// it.
    pub fn write(&mut self, key: &[u8], value: &[u8])
        requires
            old(self).wf(),
            !old(self)@.finished,
            key@.len() <= u32::MAX,
        ensures
            final(self).wf(),
            final(self)@ == (PlainModel {
                entries: old(self)@.entries.push(KeyValue { key: key@, value: value@ }),
                finished: false,
            }),
            final(self).path() == old(self).path(),
            final(self).number() == old(self).number(),
    {
        let ghost entries = self.entries@;
        let ghost kv = KeyValue { key: key@, value: value@ };
        let ghost now = entries.push(kv);
        let ghost g = table_format::grouped(entries);
        let ghost blocks = with_open(entries);
        proof {
            builder::lemma_open_nonempty(entries);
            builder::lemma_push(entries, kv);
            assert(seq![kv].drop_last() =~= Seq::empty());
            assert(g.open.push(kv).drop_last() =~= g.open);
            assert(block_builder::built(g.open.push(kv)) == block_builder::added(
                block_builder::built(g.open),
                kv.key,
                kv.value,
            ));
            assert(block_builder::built(Seq::empty()) == block_builder::empty_state());
            assert(block_builder::built(seq![kv]) == block_builder::added(
                block_builder::empty_state(),
                kv.key,
                kv.value,
            ));
        }
        let ghost full = block_builder::built(g.open).buffer.len() >= block_builder::MAX_BLOCK_SIZE;
        if self.data_block_builder.should_finish() {
            self.finish_data_block(key);
        }
        self.data_block_builder.add(key, value);
        proof {
            bloom_builder::filter_len(1024, filter_parts(entries));
            assert(filter_parts(now).drop_last() =~= filter_parts(entries));
            assert(filter_parts(now).last() == filter_part(key@));
        }
        self.bloom_builder.add(filter_part_of(key));
        self.entries = Ghost(now);
        proof {
            let after = with_open(now);
            let n = g.done.len();
            assert forall|i: int| 0 <= i < now.len() implies (#[trigger] now[i]).key.len()
                <= u32::MAX by {
                if i < entries.len() {
                    assert(now[i] == entries[i]);
                }
            }
            lemma_same_start(blocks, after, n);
            if full {
                assert(after[n as int] == g.open);
                assert(index_entries(after, n + 1).drop_last() =~= index_entries(after, n));
            }
        }
    }

    /// Appends the footer.
    fn write_footer(file: &mut Vec<u8>, bloom_offset: u64, index_offset: u64)
        ensures
            final(file)@ == old(file)@ + footer(bloom_offset, index_offset),
    {
        let mut offsets = encode_varint64(bloom_offset);
        put_varint64(&mut offsets, index_offset);
        proof {
            coding::varint_len_bounds(bloom_offset);
            coding::varint_len_bounds(index_offset);
        }
        append_bytes(file, offsets.as_slice());
        let ghost start = file@;
        let len: usize = FOOTER_PADDING_BYTES - offsets.len();
        let mut i: usize = 0;
        while i < len
            invariant
                i <= len,
                file@ == start + Seq::new(i as nat, |j: int| 0u8),
            decreases len - i,
        {
            file.push(0);
            i = i + 1;
            assert(file@ =~= start + Seq::new(i as nat, |j: int| 0u8));
        }
        put_le(file, MAGIC_NUMBER, 8);
        assert(file@ =~= old(file)@ + footer(bloom_offset, index_offset));
    }

    /// Completes the table: the open block, the filter, the index and the footer. The bytes
    /// of the file are then in [`Self::file_bytes`], and nothing more is written.
    pub fn finish(&mut self) -> (r: SSTable)
        requires
            old(self).wf(),
            !old(self)@.finished,
        ensures
            final(self).wf(),
            final(self)@ == (PlainModel { finished: true, ..old(self)@ }),
            final(self).file() == table_bytes(old(self)@.entries),
            final(self).path() == old(self).path(),
            final(self).number() == old(self).number(),
            r@.id == old(self).number(),
            r@.path == old(self).path(),
    {
        let ghost entries = self.entries@;
        let ghost g = table_format::grouped(entries);
        let ghost blocks = with_open(entries);
        let ghost all = table_format::all_blocks(entries);
        let ghost n = g.done.len();
        proof {
            builder::lemma_open_nonempty(entries);
            crate::storage::sstable::block_laws::lemma_count_fits(g.open);
            crate::storage::sstable::block_laws::lemma_builder_parts(g.open);
        }
        if !self.data_block_builder.empty() {
            let (content, last_key) = {
                let (c, l) = self.data_block_builder.finish();
                (copy_bytes(c), copy_bytes(l))
            };
            let value = Self::write_block(&mut self.file, content.as_slice());
            proof {
                assert(all == blocks);
                assert(entries[entries.len() - 1].key.len() <= u32::MAX);
            }
            self.index_block_builder.add(last_key.as_slice(), value.as_slice());
            self.data_block_builder.reset();
            assert(index_entries(all, n + 1).drop_last() =~= index_entries(all, n));
        } else {
            assert(all.len() == 0);
            assert(index_entries(all, 0) =~= index_entries(blocks, 0));
        }
        assert(self.file@ == data_section(all, all.len()));
        assert(self.index_block_builder@ == block_builder::built(
            index_entries(all, all.len()),
        ));
        let bloom_offset: u64 = self.file.len() as u64;
        append_bytes(&mut self.file, self.bloom_builder.bitmap());
        proof {
            bloom_builder::filter_len(1024, filter_parts(entries));
        }
        let index_content = {
            let (c, _) = self.index_block_builder.finish();
            copy_bytes(c)
        };
        let index_offset: u64 = self.file.len() as u64;
        append_bytes(&mut self.file, index_content.as_slice());
        Self::write_footer(&mut self.file, bloom_offset, index_offset);
        self.finished = Ghost(true);
        assert(self.file@ =~= table_bytes(entries));
        SSTable::new(self.id, owned(self.path.as_str()))
    }
}

} // verus!
