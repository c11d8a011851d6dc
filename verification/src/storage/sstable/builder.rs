//! Building tables.

use vstd::prelude::*;

use crate::error::TableWriteError;
use crate::format::coding;
use crate::format::coding::{encode_varint64, put_varint64};
use crate::format::fixed;
use crate::format::fixed::{put_le, read_be64};
use crate::format::internal_key;
use crate::format::internal_key::InternalKey;
use crate::format::slices;
use crate::format::slices::{append_bytes, copy_bytes, copy_range};
use crate::storage::bloom_builder;
use crate::storage::checksum::checksum;
use crate::storage::metadata::TableProperties;
use crate::storage::sstable::block_builder;
use crate::storage::sstable::block_builder::{BlockBuilder, KeyValue};
use crate::storage::sstable::bloom::{
    bloom_lookup_key, BloomBuilder, PARTITIONED_BLOOM_MAGIC, PARTITIONED_BLOOM_VERSION,
};
use crate::storage::sstable::compression;
use crate::storage::sstable::compression::SstableBlockCompression;
use crate::storage::sstable::table_format;
use crate::storage::sstable::table_format::{FOOTER_PADDING_BYTES, MAGIC_NUMBER};
use crate::utils::paths::SstablePaths;
use crate::utils::path_helpers;
use crate::utils::text;
use crate::utils::text::{owned, push_padded, push_text};

verus! {

/// The table that a builder is making.
#[verifier::ext_equal]
pub struct TableModel {
    /// The entries written.
    pub entries: Seq<KeyValue>,
    /// How much of a user key goes into the filters; zero for all of it.
    pub prefix_len: nat,
    /// How blocks are compressed.
    pub compression: SstableBlockCompression,
    /// Whether the table was finished.
    pub finished: bool,
}

/// The model of a builder without entries.
pub open spec fn fresh(prefix_len: nat, compression: SstableBlockCompression) -> TableModel {
    TableModel {
        entries: Seq::empty(),
        prefix_len: if prefix_len > 0xFFFF {
            0xFFFF
        } else {
            prefix_len
        },
        compression,
        finished: false,
    }
}

/// A block that is to be compressed must not be larger than 32 bits can tell.
pub open spec fn too_large(kind: SstableBlockCompression, content: Seq<u8>) -> bool {
    kind != SstableBlockCompression::Uncompressed && content.len() > u32::MAX
}

/// The name of the file that table `id` is written to before it is complete.
pub open spec fn tmp_name(id: u64) -> Seq<char> {
    "sstable_"@ + text::zero_padded(text::decimal(id as nat), 6) + ".tmp"@
}

/// A builder of tables.
pub struct SSTableBuilder {
    file: Vec<u8>,
    data_block_builder: BlockBuilder,
    index_block_builder: BlockBuilder,
    bloom_builder: BloomBuilder,
    bloom_partitions: Vec<Vec<u8>>,
    bloom_prefix_extractor_len: usize,
    block_compression: SstableBlockCompression,
    id: u64,
    smallest_key: Option<Vec<u8>>,
    largest_key: Option<Vec<u8>>,
    smallest_seqno: Option<u64>,
    largest_seqno: Option<u64>,
    tmp_path: String,
    final_path: String,
    finished: bool,
    entries: Ghost<Seq<KeyValue>>,
}

impl View for SSTableBuilder {
    type V = TableModel;

    closed spec fn view(&self) -> TableModel {
        TableModel {
            entries: self.entries@,
            prefix_len: self.bloom_prefix_extractor_len as nat,
            compression: self.block_compression,
            finished: self.finished,
        }
    }
}

/// All blocks of a table under construction, the open one last.
spec fn with_open(entries: Seq<KeyValue>) -> Seq<Seq<KeyValue>> {
    table_format::grouped(entries).done.push(table_format::grouped(entries).open)
}

impl SSTableBuilder {
    /// The bytes of the file so far.
    pub closed spec fn file(&self) -> Seq<u8> {
        self.file@
    }

    /// The path of the complete file.
    pub closed spec fn path(&self) -> Seq<char> {
        self.final_path@
    }

    /// The path of the file before it is complete.
    pub closed spec fn unfinished_path(&self) -> Seq<char> {
        self.tmp_path@
    }

    /// The number of the table.
    pub closed spec fn number(&self) -> u64 {
        self.id
    }

    /// The builder holds the table that its model describes.
    pub closed spec fn wf(&self) -> bool {
        let entries = self.entries@;
        let g = table_format::grouped(entries);
        let blocks = with_open(entries);
        let n = g.done.len();
        let prefix = self.bloom_prefix_extractor_len as nat;
        &&& self.bloom_prefix_extractor_len <= 0xFFFF
        &&& forall|i: int|
            0 <= i < entries.len() ==> 8 <= (#[trigger] entries[i]).key.len() <= u32::MAX
        &&& !self.finished ==> {
            &&& self.data_block_builder.wf()
            &&& self.index_block_builder.wf()
            &&& self.data_block_builder@ == block_builder::built(g.open)
            &&& self.file@ == table_format::data_section(blocks, n, self.block_compression)
            &&& self.index_block_builder@ == block_builder::built(
                table_format::index_entries(blocks, n, self.block_compression),
            )
            &&& self.bloom_builder@ == table_format::partition(g.open, prefix)
            &&& slices::views(self.bloom_partitions@) == table_format::partitions(
                blocks,
                n,
                prefix,
            )
            &&& (self.smallest_key is Some <==> entries.len() > 0)
            &&& (self.largest_key is Some <==> entries.len() > 0)
            &&& (self.smallest_seqno is Some <==> entries.len() > 0)
            &&& (self.largest_seqno is Some <==> entries.len() > 0)
            &&& entries.len() > 0 ==> {
                &&& self.smallest_key->Some_0@ == table_format::first_key(entries)
                &&& self.largest_key->Some_0@ == table_format::last_key(entries)
                &&& self.smallest_seqno->Some_0 == table_format::smallest_seq(entries)
                &&& self.largest_seqno->Some_0 == table_format::largest_seq(entries)
            }
        }
    }

    /// A builder of table `id`: filters take whole user keys, blocks are not compressed.
    pub fn new(id: u64, sstable_paths: &SstablePaths) -> (r: SSTableBuilder)
        ensures
            r.wf(),
            r@ == fresh(0, SstableBlockCompression::Uncompressed),
            r.file().len() == 0,
            r.number() == id,
            r.path() == text::joined(
                sstable_paths.data(),
                path_helpers::numbered(id, ".sst"@),
            ),
            r.unfinished_path() == text::joined(sstable_paths.tmp(), tmp_name(id)),
    {
        Self::new_with_bloom_prefix_extractor_and_compression(
            id,
            sstable_paths,
            0,
            SstableBlockCompression::Uncompressed,
        )
    }

    /// A builder of table `id` whose filters take a prefix of user keys.
    pub fn new_with_bloom_prefix_extractor(
        id: u64,
        sstable_paths: &SstablePaths,
        bloom_prefix_extractor_len: usize,
    ) -> (r: SSTableBuilder)
        ensures
            r.wf(),
            r@ == fresh(bloom_prefix_extractor_len as nat, SstableBlockCompression::Uncompressed),
            r.file().len() == 0,
            r.number() == id,
            r.path() == text::joined(
                sstable_paths.data(),
                path_helpers::numbered(id, ".sst"@),
            ),
            r.unfinished_path() == text::joined(sstable_paths.tmp(), tmp_name(id)),
    {
        Self::new_with_bloom_prefix_extractor_and_compression(
            id,
            sstable_paths,
            bloom_prefix_extractor_len,
            SstableBlockCompression::Uncompressed,
        )
    }

    /// A builder of table `id` whose filters take a prefix of user keys and whose blocks
    /// are compressed.
    pub fn new_with_bloom_prefix_extractor_and_compression(
        id: u64,
        sstable_paths: &SstablePaths,
        bloom_prefix_extractor_len: usize,
        block_compression: SstableBlockCompression,
    ) -> (r: SSTableBuilder)
        ensures
            r.wf(),
            r@ == fresh(bloom_prefix_extractor_len as nat, block_compression),
            r.file().len() == 0,
            r.number() == id,
            r.path() == text::joined(
                sstable_paths.data(),
                path_helpers::numbered(id, ".sst"@),
            ),
            r.unfinished_path() == text::joined(sstable_paths.tmp(), tmp_name(id)),
    {
        Self::new_with_manager_and_compression(
            id,
            sstable_paths,
            bloom_prefix_extractor_len,
            block_compression,
        )
    }

    /// Like [`Self::new_with_bloom_prefix_extractor`].
    pub fn new_with_manager(
        id: u64,
        sstable_paths: &SstablePaths,
        bloom_prefix_extractor_len: usize,
    ) -> (r: SSTableBuilder)
        ensures
            r.wf(),
            r@ == fresh(bloom_prefix_extractor_len as nat, SstableBlockCompression::Uncompressed),
            r.file().len() == 0,
            r.number() == id,
            r.path() == text::joined(
                sstable_paths.data(),
                path_helpers::numbered(id, ".sst"@),
            ),
            r.unfinished_path() == text::joined(sstable_paths.tmp(), tmp_name(id)),
    {
        Self::new_with_manager_and_compression(
            id,
            sstable_paths,
            bloom_prefix_extractor_len,
            SstableBlockCompression::Uncompressed,
        )
    }

    /// Like [`Self::new_with_bloom_prefix_extractor_and_compression`].
    pub fn new_with_manager_and_compression(
        id: u64,
        sstable_paths: &SstablePaths,
        bloom_prefix_extractor_len: usize,
        block_compression: SstableBlockCompression,
    ) -> (r: SSTableBuilder)
        ensures
            r.wf(),
            r@ == fresh(bloom_prefix_extractor_len as nat, block_compression),
            r.file().len() == 0,
            r.number() == id,
            r.path() == text::joined(
                sstable_paths.data(),
                path_helpers::numbered(id, ".sst"@),
            ),
            r.unfinished_path() == text::joined(sstable_paths.tmp(), tmp_name(id)),
    {
        let final_path = sstable_paths.sstable_path_by_id(id);
        let mut name = owned("sstable_");
        push_padded(&mut name, id as u128, 6);
        push_text(&mut name, ".tmp");
        let tmp_path = sstable_paths.tmp_path(name.as_str());
        let prefix: usize = if bloom_prefix_extractor_len > 0xFFFF {
            0xFFFF
        } else {
            bloom_prefix_extractor_len
        };
        let r = SSTableBuilder {
            file: Vec::new(),
            data_block_builder: BlockBuilder::new(),
            index_block_builder: BlockBuilder::new(),
            bloom_builder: BloomBuilder::new(),
            bloom_partitions: Vec::new(),
            bloom_prefix_extractor_len: prefix,
            block_compression,
            id,
            smallest_key: None,
            largest_key: None,
            smallest_seqno: None,
            largest_seqno: None,
            tmp_path,
            final_path,
            finished: false,
            entries: Ghost(Seq::empty()),
        };
        proof {
            let g = table_format::grouped(Seq::empty());
            let blocks = with_open(Seq::empty());
            assert(table_format::lookup_keys(g.open, prefix as nat).len() == 0);
            assert(table_format::index_entries(blocks, 0, block_compression) =~= Seq::empty());
            assert(slices::views(r.bloom_partitions@) =~= table_format::partitions(
                blocks,
                0,
                prefix as nat,
            ));
        }
        r
    }

    /// The number of the table.
    pub fn id(&self) -> (r: u64)
        ensures
            r == self.number(),
    {
        self.id
    }

    /// The bytes of the file so far.
    pub fn file_bytes(&self) -> (r: &[u8])
        ensures
            r@ == self.file(),
    {
        self.file.as_slice()
    }

    /// Where the file is written before it is complete.
    pub fn tmp_path(&self) -> (r: &str)
        ensures
            r@ == self.unfinished_path(),
    {
        self.tmp_path.as_str()
    }

    /// Where the complete file belongs.
    pub fn final_path(&self) -> (r: &str)
        ensures
            r@ == self.path(),
    {
        self.final_path.as_str()
    }

    /// The user key that separates two blocks.
    pub fn compute_separator(last_key: &[u8], key: &[u8]) -> (r: Vec<u8>)
        ensures
            r@ == table_format::separator_user(last_key@, key@),
            r@.len() <= last_key@.len(),
    {
        let mut i: usize = 0;
        while i < last_key.len() && i < key.len() && last_key[i] == key[i]
            invariant
                i <= last_key.len(),
                i <= key.len(),
                block_builder::shared_from(last_key@, key@, i as nat)
                    == block_builder::shared_prefix(last_key@, key@),
            decreases last_key.len() - i,
        {
            i = i + 1;
        }
        if i < last_key.len() && i < key.len() {
            let n: usize = last_key.len();
            if n == key.len() && i == n - 1 && last_key[i] < 0xFF && last_key[i] + 1 == key[i] {
                return copy_bytes(last_key);
            }
            if last_key[i] < 0xFF {
                let mut result = copy_range(last_key, 0, i);
                result.push(last_key[i] + 1);
                return result;
            }
        }
        copy_bytes(last_key)
    }

    /// The sequence number of a serialized key.
    fn parse_seqno_from_internal_key(key: &[u8]) -> (r: Result<u64, TableWriteError>)
        ensures
            key@.len() < 8 ==> r == Err::<u64, TableWriteError>(TableWriteError::KeyTooShort),
            key@.len() >= 8 ==> r == Ok::<u64, TableWriteError>(table_format::seq_of(key@)),
    {
        if key.len() < 8 {
            return Err(TableWriteError::KeyTooShort);
        }
        let at: usize = key.len() - 8;
        proof {
            fixed::byte_range_values();
            fixed::be_bytes_of_value(key@.subrange(at as int, at + 8));
        }
        let flipped: u64 = read_be64(key, at);
        Ok((u64::MAX - flipped) / 256)
    }

    /// A block as it is stored.
    fn encode_block_payload(kind: SstableBlockCompression, content: &[u8]) -> (r: Result<
        Vec<u8>,
        TableWriteError,
    >)
        ensures
            too_large(kind, content@) ==> r is Err && r->Err_0 == TableWriteError::BlockTooLarge(
                content@.len() as u128,
            ),
            !too_large(kind, content@) ==> r is Ok && r->Ok_0@ == table_format::payload(
                kind,
                content@,
            ),
    {
        if kind == SstableBlockCompression::Uncompressed {
            return Ok(copy_bytes(content));
        }
        if content.len() as u64 > u32::MAX as u64 {
            return Err(TableWriteError::BlockTooLarge(content.len() as u128));
        }
        let packed = kind.compress(content);
        let mut out: Vec<u8> = Vec::new();
        if packed.len() < content.len() {
            out.push(kind.as_tag());
            put_le(&mut out, content.len() as u64, 4);
            append_bytes(&mut out, packed.as_slice());
            assert(out@ =~= table_format::payload(kind, content@));
        } else {
            out.push(SstableBlockCompression::Uncompressed.as_tag());
            put_le(&mut out, content.len() as u64, 4);
            append_bytes(&mut out, content);
            assert(out@ =~= table_format::payload(kind, content@));
        }
        Ok(out)
    }

    /// Appends a stored block and its checksum; gives their size.
    fn write_block_with_checksum(file: &mut Vec<u8>, block_payload: &[u8]) -> (r: u64)
        ensures
            final(file)@ == old(file)@ + table_format::sealed(block_payload@),
            r == table_format::sealed(block_payload@).len(),
    {
        let before: usize = file.len();
        append_bytes(file, block_payload);
        put_le(file, checksum(block_payload) as u64, 4);
        assert(file@ =~= old(file)@ + table_format::sealed(block_payload@));
        (file.len() - before) as u64
    }
}

/// Complete blocks do not depend on what follows the next one's first entry.
proof fn lemma_same_start(
    a: Seq<Seq<KeyValue>>,
    b: Seq<Seq<KeyValue>>,
    n: nat,
    kind: SstableBlockCompression,
    prefix: nat,
)
    requires
        n < a.len(),
        n < b.len(),
        forall|j: int| 0 <= j < n ==> #[trigger] a[j] == b[j],
        n > 0 ==> a[n as int][0] == b[n as int][0],
    ensures
        table_format::data_section(a, n, kind) == table_format::data_section(b, n, kind),
        table_format::index_entries(a, n, kind) == table_format::index_entries(b, n, kind),
        table_format::partitions(a, n, prefix) == table_format::partitions(b, n, prefix),
{
    lemma_same_sections(a, b, n, kind);
    assert forall|j: int| 0 <= j < n implies table_format::index_entry(a, j, kind)
        == table_format::index_entry(b, j, kind) by {
        lemma_same_sections(a, b, j as nat, kind);
        assert(a[j] == b[j]);
        if j + 1 < n {
            assert(a[j + 1] == b[j + 1]);
        }
    }
    assert(table_format::index_entries(a, n, kind) =~= table_format::index_entries(b, n, kind));
    assert forall|j: int| 0 <= j < n implies table_format::partition(a[j], prefix)
        == table_format::partition(b[j], prefix) by {
        assert(a[j] == b[j]);
    }
    assert(table_format::partitions(a, n, prefix) =~= table_format::partitions(b, n, prefix));
}

proof fn lemma_same_sections(
    a: Seq<Seq<KeyValue>>,
    b: Seq<Seq<KeyValue>>,
    n: nat,
    kind: SstableBlockCompression,
)
    requires
        n <= a.len(),
        n <= b.len(),
        forall|j: int| 0 <= j < n ==> #[trigger] a[j] == b[j],
    ensures
        table_format::data_section(a, n, kind) == table_format::data_section(b, n, kind),
    decreases n,
{
    if n > 0 {
        lemma_same_sections(a, b, (n - 1) as nat, kind);
        assert(a[n - 1] == b[n - 1]);
    }
}

/// The open block is empty only where nothing was written.
pub(crate) proof fn lemma_open_nonempty(entries: Seq<KeyValue>)
    ensures
        table_format::grouped(entries).open.len() == 0 <==> entries.len() == 0,
        entries.len() == 0 ==> table_format::grouped(entries).done.len() == 0,
        entries.len() > 0 ==> table_format::grouped(entries).open.last() == entries.last(),
{
}

/// The blocks after one more entry.
pub(crate) proof fn lemma_push(entries: Seq<KeyValue>, kv: KeyValue)
    ensures
        ({
            let before = table_format::grouped(entries);
            let now = table_format::grouped(entries.push(kv));
            if block_builder::built(before.open).buffer.len() >= block_builder::MAX_BLOCK_SIZE {
                now.done == before.done.push(before.open) && now.open == seq![kv]
            } else {
                now.done == before.done && now.open == before.open.push(kv)
            }
        }),
{
    assert(entries.push(kv).drop_last() =~= entries);
}

proof fn lemma_partition_push(block: Seq<KeyValue>, kv: KeyValue, prefix: nat)
    ensures
        table_format::partition(block.push(kv), prefix) == bloom_builder::with_key(
            table_format::partition(block, prefix),
            crate::storage::sstable::bloom::lookup_part(table_format::user_of(kv.key), prefix),
        ),
        table_format::partition(block, prefix).len() == 1024,
{
    let keys = table_format::lookup_keys(block.push(kv), prefix);
    assert(keys.drop_last() =~= table_format::lookup_keys(block, prefix));
    bloom_builder::filter_len(1024, table_format::lookup_keys(block, prefix));
}

impl SSTableBuilder {
    /// Ends the open block, which is followed by `key`.
    fn finish_data_block(&mut self, key: &[u8])
        requires
            old(self).wf(),
            !old(self)@.finished,
            old(self)@.entries.len() > 0,
            !too_large(
                old(self)@.compression,
                block_builder::block_bytes(table_format::grouped(old(self)@.entries).open),
            ),
            8 <= key@.len() <= u32::MAX,
        ensures
            ({
                let open = table_format::grouped(old(self)@.entries).open;
                let stored = table_format::sealed(
                    table_format::payload(
                        old(self)@.compression,
                        block_builder::block_bytes(open),
                    ),
                );
                let old_file = old(self).file@;
                &&& final(self).data_block_builder.wf()
                &&& final(self).data_block_builder@ == block_builder::empty_state()
                &&& final(self).index_block_builder.wf()
                &&& final(self).index_block_builder@ == block_builder::added(
                    old(self).index_block_builder@,
                    internal_key::serialized(
                        table_format::separator_user(
                            table_format::user_of(open.last().key),
                            table_format::user_of(key@),
                        ),
                        table_format::newest(),
                    ),
                    coding::varint_bytes(old_file.len() as u64) + coding::varint_bytes(
                        stored.len() as u64,
                    ),
                )
                &&& final(self).file@ == old_file + stored
                &&& final(self).bloom_builder@ == bloom_builder::blank(1024)
                &&& slices::views(final(self).bloom_partitions@) == slices::views(
                    old(self).bloom_partitions@,
                ).push(old(self).bloom_builder@)
            }),
            final(self).entries == old(self).entries,
            final(self).bloom_prefix_extractor_len == old(self).bloom_prefix_extractor_len,
            final(self).block_compression == old(self).block_compression,
            final(self).finished == old(self).finished,
            final(self).smallest_key == old(self).smallest_key,
            final(self).largest_key == old(self).largest_key,
            final(self).smallest_seqno == old(self).smallest_seqno,
            final(self).largest_seqno == old(self).largest_seqno,
            final(self).path() == old(self).path(),
            final(self).unfinished_path() == old(self).unfinished_path(),
            final(self).number() == old(self).number(),
    {
        let ghost entries = self.entries@;
        let ghost open = table_format::grouped(entries).open;
        proof {
            lemma_open_nonempty(entries);
            crate::storage::sstable::block_laws::lemma_builder_parts(open);
            assert(open.last() == entries.last());
            assert(8 <= entries[entries.len() - 1].key.len() <= u32::MAX);
        }
        let (content, last_key) = {
            let (c, l) = self.data_block_builder.finish();
            (copy_bytes(c), copy_bytes(l))
        };
        let separator_user_key = Self::compute_separator(
            vstd::slice::slice_subrange(last_key.as_slice(), 0, last_key.len() - 8),
            vstd::slice::slice_subrange(key, 0, key.len() - 8),
        );
        let separator = InternalKey::new_separator(separator_user_key);
        let block_offset: u64 = self.file.len() as u64;
        match Self::encode_block_payload(self.block_compression, content.as_slice()) {
            Ok(block_payload) => {
                let block_size: u64 = Self::write_block_with_checksum(
                    &mut self.file,
                    block_payload.as_slice(),
                );
                let mut value: Vec<u8> = Vec::new();
                put_varint64(&mut value, block_offset);
                put_varint64(&mut value, block_size);
                proof {
                    internal_key::serialize_round_trip(separator@.user_key, separator@.encoded);
                    assert(value@ =~= coding::varint_bytes(block_offset) + coding::varint_bytes(
                        block_size,
                    ));
                }
                self.index_block_builder.add(separator.serialize().as_slice(), value.as_slice());
            },
            Err(_) => {},
        }
        self.finalize_current_bloom_partition();
        self.data_block_builder.reset();
    }

    /// Puts the filter of the open block aside and starts a new one.
    fn finalize_current_bloom_partition(&mut self)
        ensures
            *final(self) == (SSTableBuilder {
                bloom_partitions: final(self).bloom_partitions,
                bloom_builder: final(self).bloom_builder,
                ..*old(self)
            }),
            slices::views(final(self).bloom_partitions@) == slices::views(
                old(self).bloom_partitions@,
            ).push(old(self).bloom_builder@),
            final(self).bloom_builder@ == bloom_builder::blank(1024),
    {
        let bitmap = copy_bytes(self.bloom_builder.bitmap());
        let ghost before = self.bloom_partitions@;
        self.bloom_partitions.push(bitmap);
        self.bloom_builder = BloomBuilder::new();
        assert(slices::views(self.bloom_partitions@) =~= slices::views(before).push(
            old(self).bloom_builder@,
        ));
    }

    /// Writes an entry. Keys should come in increasing order: what readers find rests
    /// on it.
    pub fn write(&mut self, key: &[u8], value: &[u8]) -> (r: Result<(), TableWriteError>)
        requires
            old(self).wf(),
            !old(self)@.finished,
            key@.len() <= u32::MAX,
        ensures
            final(self).wf(),
            final(self).path() == old(self).path(),
            final(self).unfinished_path() == old(self).unfinished_path(),
            final(self).number() == old(self).number(),
            ({
                let open = table_format::grouped(old(self)@.entries).open;
                let content = block_builder::block_bytes(open);
                if key@.len() < 8 {
                    r == Err::<(), TableWriteError>(TableWriteError::KeyTooShort) && final(self)@
                        == old(self)@
                } else if block_builder::built(open).buffer.len() >= block_builder::MAX_BLOCK_SIZE
                    && too_large(old(self)@.compression, content) {
                    r is Err && final(self)@ == old(self)@ && r->Err_0
                        == TableWriteError::BlockTooLarge(content.len() as u128)
                } else {
                    r is Ok && final(self)@ == (TableModel {
                        entries: old(self)@.entries.push(KeyValue { key: key@, value: value@ }),
                        ..old(self)@
                    })
                }
            }),
    {
        let seqno: u64 = match Self::parse_seqno_from_internal_key(key) {
            Ok(seqno) => seqno,
            Err(e) => {
                return Err(e);
            },
        };
        let ghost entries = self.entries@;
        let ghost kv = KeyValue { key: key@, value: value@ };
        let ghost g = table_format::grouped(entries);
        let ghost blocks = with_open(entries);
        let ghost kind = self.block_compression;
        let ghost prefix = self.bloom_prefix_extractor_len as nat;
        proof {
            lemma_open_nonempty(entries);
            lemma_push(entries, kv);
            lemma_partition_push(g.open, kv, prefix);
            lemma_partition_push(Seq::empty(), kv, prefix);
            assert(Seq::<KeyValue>::empty().push(kv) =~= seq![kv]);
            assert(seq![kv].drop_last() =~= Seq::empty());
            assert(g.open.push(kv).drop_last() =~= g.open);
            assert(table_format::lookup_keys(Seq::empty(), prefix).len() == 0);
            assert(block_builder::built(g.open.push(kv)) == block_builder::added(
                block_builder::built(g.open),
                kv.key,
                kv.value,
            ));
            assert(block_builder::built(Seq::empty()) == block_builder::empty_state());
            assert(block_builder::built(seq![kv]) == block_builder::added(
                block_builder::empty_state(),
                kv.key,
                kv.value,
            ));
            assert(table_format::largest_seq(Seq::empty()) == 0);
        }
        let ghost full = block_builder::built(g.open).buffer.len() >= block_builder::MAX_BLOCK_SIZE;
        if self.data_block_builder.should_finish() {
            let len: u128 = self.data_block_builder.finished_len();
            if self.block_compression != SstableBlockCompression::Uncompressed && len
                > u32::MAX as u128 {
                return Err(TableWriteError::BlockTooLarge(len));
            }
            self.finish_data_block(key);
        }
        self.data_block_builder.add(key, value);
        let user_key = vstd::slice::slice_subrange(key, 0, key.len() - 8);
        proof {
            bloom_builder::filter_len(1024, table_format::lookup_keys(g.open, prefix));
        }
        self.bloom_builder.add(bloom_lookup_key(user_key, self.bloom_prefix_extractor_len));
        self.smallest_seqno = match self.smallest_seqno {
            Some(seq) => Some(
                if seqno < seq {
                    seqno
                } else {
                    seq
                },
            ),
            None => Some(seqno),
        };
        self.largest_seqno = match self.largest_seqno {
            Some(seq) => Some(
                if seqno > seq {
                    seqno
                } else {
                    seq
                },
            ),
            None => Some(seqno),
        };
        if self.smallest_key.is_none() {
            self.smallest_key = Some(copy_bytes(key));
        }
        self.largest_key = Some(copy_bytes(key));
        self.entries = Ghost(entries.push(kv));
        proof {
            let now = entries.push(kv);
            let after = with_open(now);
            let n = g.done.len();
            assert(now.drop_last() =~= entries);
            if entries.len() == 0 {
                assert(entries =~= Seq::empty());
            }
            assert forall|i: int| 0 <= i < now.len() implies 8 <= (#[trigger] now[i]).key.len()
                <= u32::MAX by {
                if i < entries.len() {
                    assert(now[i] == entries[i]);
                }
            }
            lemma_same_start(blocks, after, n, kind, prefix);
            if full {
                assert(after[n as int] == g.open);
                assert(table_format::index_entries(after, n + 1, kind).drop_last()
                    =~= table_format::index_entries(after, n, kind));
                assert(table_format::partitions(after, n + 1, prefix)
                    =~= table_format::partitions(after, n, prefix).push(
                    table_format::partition(g.open, prefix),
                ));
            }
        }
        Ok(())
    }
}

impl SSTableBuilder {
    /// The filter section.
    fn encode_partitioned_bloom_section(parts: &Vec<Vec<u8>>, prefix_len: usize) -> (r: Vec<u8>)
        ensures
            r@ == table_format::filter_section(slices::views(parts@), prefix_len as nat),
    {
        let ghost views = slices::views(parts@);
        let mut out: Vec<u8> = Vec::new();
        put_le(&mut out, PARTITIONED_BLOOM_MAGIC as u64, 4);
        out.push(PARTITIONED_BLOOM_VERSION);
        put_le(&mut out, prefix_len as u64, 2);
        put_le(&mut out, parts.len() as u64, 4);
        let ghost header = out@;
        assert(header =~= fixed::le_bytes(PARTITIONED_BLOOM_MAGIC as nat, 4)
            + seq![PARTITIONED_BLOOM_VERSION] + fixed::le_bytes(prefix_len as nat, 2)
            + fixed::le_bytes(parts@.len(), 4));
        let start: u128 = 11 + 16 * (parts.len() as u128);
        let mut running: u64 = (start % 0x1_0000_0000_0000_0000u128) as u64;
        let mut i: usize = 0;
        proof {
            fixed::byte_range_values();
            assert(out@ =~= header + table_format::partition_index(views, 0));
        }
        while i < parts.len()
            invariant
                i <= parts@.len(),
                views == slices::views(parts@),
                out@ == header + table_format::partition_index(views, i as nat),
                running == table_format::partition_offset(views, i as int)
                    % 0x1_0000_0000_0000_0000,
                fixed::byte_range(8) == 0x1_0000_0000_0000_0000,
            decreases parts.len() - i,
        {
            let ghost before = out@;
            let len: u64 = parts[i].len() as u64;
            put_le(&mut out, running, 8);
            put_le(&mut out, len, 8);
            proof {
                fixed::le_bytes_wrap(table_format::partition_offset(views, i as int), 8);
                assert(views[i as int] == parts@[i as int]@);
                assert(out@ =~= header + table_format::partition_index(views, (i + 1) as nat));
            }
            running = ((running as u128 + len as u128) % 0x1_0000_0000_0000_0000u128) as u64;
            i = i + 1;
        }
        let ghost with_index = out@;
        let mut j: usize = 0;
        assert(out@ =~= with_index + table_format::partition_bytes(views, 0));
        while j < parts.len()
            invariant
                j <= parts@.len(),
                views == slices::views(parts@),
                out@ == with_index + table_format::partition_bytes(views, j as nat),
            decreases parts.len() - j,
        {
            append_bytes(&mut out, parts[j].as_slice());
            assert(views[j as int] == parts@[j as int]@);
            j = j + 1;
            assert(out@ =~= with_index + table_format::partition_bytes(views, j as nat));
        }
        out
    }

    /// Appends the footer.
    fn write_footer(file: &mut Vec<u8>, bloom_offset: u64, index_offset: u64, version: u8)
        ensures
            final(file)@ == old(file)@ + table_format::footer(bloom_offset, index_offset, version),
            table_format::footer(bloom_offset, index_offset, version).len() == 48,
    {
        let mut offsets = encode_varint64(bloom_offset);
        put_varint64(&mut offsets, index_offset);
        proof {
            coding::varint_len_bounds(bloom_offset);
            coding::varint_len_bounds(index_offset);
            fixed::le_bytes_len(MAGIC_NUMBER as nat, 8);
        }
        append_bytes(file, offsets.as_slice());
        let ghost start = file@;
        let len: usize = FOOTER_PADDING_BYTES - offsets.len();
        let ghost pad = table_format::padding(len as nat, version);
        let mut i: usize = 0;
        while i < len
            invariant
                i <= len,
                pad == table_format::padding(len as nat, version),
                file@ == start + pad.subrange(0, i as int),
            decreases len - i,
        {
            let byte: u8 = match i {
                0 => 0x47,
                1 => 0x4B,
                2 => 0x46,
                3 => 0x56,
                4 => version,
                _ => 0,
            };
            file.push(byte);
            assert(pad[i as int] == byte);
            i = i + 1;
            assert(file@ =~= start + pad.subrange(0, i as int));
        }
        assert(pad.subrange(0, len as int) =~= pad);
        put_le(file, MAGIC_NUMBER, 8);
        assert(file@ =~= old(file)@ + table_format::footer(bloom_offset, index_offset, version));
    }

    /// The version of the table.
    fn footer_format_version(kind: SstableBlockCompression) -> (r: u8)
        ensures
            r == table_format::version_of(kind),
    {
        match kind {
            SstableBlockCompression::Uncompressed => 1,
            SstableBlockCompression::Rle => 2,
        }
    }

    /// Completes the table: the open block, the filters, the index and the footer. The
    /// bytes of the file are then in [`Self::file_bytes`]. A table that was finished,
    /// or that holds a block too large to be compressed, gives an error.
    pub fn finish(&mut self) -> (r: Result<TableProperties, TableWriteError>)
        requires
            old(self).wf(),
        ensures
            final(self).wf(),
            final(self).path() == old(self).path(),
            final(self).unfinished_path() == old(self).unfinished_path(),
            final(self).number() == old(self).number(),
            final(self)@ == (TableModel { finished: true, ..old(self)@ }),
            ({
                let m = old(self)@;
                let open = block_builder::block_bytes(table_format::grouped(m.entries).open);
                let index = table_format::index_block(
                    table_format::all_blocks(m.entries),
                    m.compression,
                );
                if m.finished {
                    r is Err && r->Err_0 == TableWriteError::Finished
                } else if m.entries.len() > 0 && too_large(m.compression, open) {
                    r is Err && r->Err_0 == TableWriteError::BlockTooLarge(open.len() as u128)
                } else if too_large(m.compression, index) {
                    r is Err && r->Err_0 == TableWriteError::BlockTooLarge(index.len() as u128)
                } else {
                    &&& r is Ok
                    &&& final(self).file() == table_format::table_bytes(
                        m.entries,
                        m.prefix_len,
                        m.compression,
                    )
                    &&& r->Ok_0.file_size == final(self).file().len()
                    &&& r->Ok_0.smallest_key@ == table_format::first_key(m.entries)
                    &&& r->Ok_0.largest_key@ == table_format::last_key(m.entries)
                    &&& r->Ok_0.smallest_seqno == table_format::smallest_seq(m.entries)
                    &&& r->Ok_0.largest_seqno == table_format::largest_seq(m.entries)
                }
            }),
    {
        if self.finished {
            return Err(TableWriteError::Finished);
        }
        self.finished = true;
        let ghost entries = self.entries@;
        let ghost g = table_format::grouped(entries);
        let ghost blocks = with_open(entries);
        let ghost all = table_format::all_blocks(entries);
        let ghost kind = self.block_compression;
        let ghost prefix = self.bloom_prefix_extractor_len as nat;
        let ghost n = g.done.len();
        proof {
            lemma_open_nonempty(entries);
            crate::storage::sstable::block_laws::lemma_count_fits(g.open);
            crate::storage::sstable::block_laws::lemma_builder_parts(g.open);
        }
        if !self.data_block_builder.empty() {
            let len: u128 = self.data_block_builder.finished_len();
            if self.block_compression != SstableBlockCompression::Uncompressed && len
                > u32::MAX as u128 {
                return Err(TableWriteError::BlockTooLarge(len));
            }
            let (content, last_key) = {
                let (c, l) = self.data_block_builder.finish();
                (copy_bytes(c), copy_bytes(l))
            };
            let block_offset: u64 = self.file.len() as u64;
            let block_payload = match Self::encode_block_payload(
                self.block_compression,
                content.as_slice(),
            ) {
                Ok(p) => p,
                Err(e) => {
                    return Err(e);
                },
            };
            let block_size: u64 = Self::write_block_with_checksum(
                &mut self.file,
                block_payload.as_slice(),
            );
            self.finalize_current_bloom_partition();
            let mut value: Vec<u8> = Vec::new();
            put_varint64(&mut value, block_offset);
            put_varint64(&mut value, block_size);
            proof {
                assert(value@ =~= coding::varint_bytes(block_offset) + coding::varint_bytes(
                    block_size,
                ));
                assert(all == blocks);
                assert(entries[entries.len() - 1].key.len() <= u32::MAX);
            }
            self.index_block_builder.add(last_key.as_slice(), value.as_slice());
            self.data_block_builder.reset();
            proof {
                assert(table_format::index_entries(all, n + 1, kind).drop_last()
                    =~= table_format::index_entries(all, n, kind));
                assert(table_format::partitions(all, n + 1, prefix) =~= table_format::partitions(
                    all,
                    n,
                    prefix,
                ).push(table_format::partition(g.open, prefix)));
            }
        } else {
            proof {
                assert(all.len() == 0);
                assert(table_format::index_entries(all, 0, kind) =~= table_format::index_entries(
                    blocks,
                    0,
                    kind,
                ));
                assert(table_format::partitions(all, 0, prefix) =~= table_format::partitions(
                    blocks,
                    0,
                    prefix,
                ));
            }
        }
        assert(self.file@ == table_format::data_section(all, all.len(), kind));
        assert(self.index_block_builder@ == block_builder::built(
            table_format::index_entries(all, all.len(), kind),
        ));
        assert(slices::views(self.bloom_partitions@) == table_format::partitions(
            all,
            all.len(),
            prefix,
        ));
        let bloom_section = Self::encode_partitioned_bloom_section(
            &self.bloom_partitions,
            self.bloom_prefix_extractor_len,
        );
        let bloom_offset: u64 = self.file.len() as u64;
        append_bytes(&mut self.file, bloom_section.as_slice());
        let index_len: u128 = self.index_block_builder.finished_len();
        if self.block_compression != SstableBlockCompression::Uncompressed && index_len
            > u32::MAX as u128 {
            return Err(TableWriteError::BlockTooLarge(index_len));
        }
        let index_content = {
            let (c, _) = self.index_block_builder.finish();
            copy_bytes(c)
        };
        let index_offset: u64 = self.file.len() as u64;
        let index_payload = match Self::encode_block_payload(
            self.block_compression,
            index_content.as_slice(),
        ) {
            Ok(p) => p,
            Err(e) => {
                return Err(e);
            },
        };
        let _ = Self::write_block_with_checksum(&mut self.file, index_payload.as_slice());
        Self::write_footer(
            &mut self.file,
            bloom_offset,
            index_offset,
            Self::footer_format_version(self.block_compression),
        );
        assert(self.file@ =~= table_format::table_bytes(entries, prefix, kind));
        let smallest_key = match &self.smallest_key {
            Some(key) => copy_bytes(key.as_slice()),
            None => Vec::new(),
        };
        let largest_key = match &self.largest_key {
            Some(key) => copy_bytes(key.as_slice()),
            None => Vec::new(),
        };
        let smallest_seqno: u64 = match self.smallest_seqno {
            Some(seq) => seq,
            None => 0,
        };
        let largest_seqno: u64 = match self.largest_seqno {
            Some(seq) => seq,
            None => 0,
        };
        Ok(
            TableProperties {
                file_size: self.file.len() as u64,
                smallest_key,
                largest_key,
                smallest_seqno,
                largest_seqno,
            },
        )
    }
}

} // verus!
