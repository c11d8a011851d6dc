//! Reading blocks: iteration, and lookups that use the restart points and an index
//! of the block's user keys.

use std::sync::Arc;

use vstd::prelude::*;

use crate::error::BlockError;
use crate::format::fixed;
use crate::format::fixed::read_u32;
use crate::format::internal_key;
use crate::format::internal_key::InternalKey;
use crate::format::order;
use crate::format::order::{compare_bytes, same_bytes, ByteOrder};
use crate::format::slices;
use crate::format::slices::{append_bytes, copy_range};
use crate::storage::sstable::block_format;
use crate::storage::sstable::block_format::{decode_entry_view_at, EntryView, Item, Reading};

verus! {

/// What a search in a block starts from.
#[verifier::ext_equal]
pub struct SearchIndex {
    /// Where entries begin that share nothing with the one before.
    pub restarts: Seq<u32>,
    /// The key at each restart point; empty where there is none.
    pub restart_keys: Seq<Seq<u8>>,
    /// Of each user key the first entry.
    pub first: Seq<Item>,
    /// Where the entries end.
    pub data_end: int,
}

/// The number of restart points that a block counts.
pub open spec fn restart_count(data: Seq<u8>) -> nat {
    fixed::u32_at(data, data.len() - 4)
}

/// Where the entries of a block end.
pub open spec fn entries_end(data: Seq<u8>) -> int {
    data.len() - 4 - 4 * restart_count(data)
}

/// The restart points in the block.
pub open spec fn stored_restarts(data: Seq<u8>) -> Seq<u32> {
    Seq::new(
        restart_count(data),
        |i: int| fixed::u32_at(data, entries_end(data) + 4 * i) as u32,
    )
}

/// The restart points with the start of the block in front, where a block has any.
pub open spec fn restart_points(data: Seq<u8>) -> Seq<u32> {
    let stored = stored_restarts(data);
    if stored.len() == 0 || stored[0] == 0 {
        stored
    } else {
        seq![0u32] + stored
    }
}

/// The key at a restart point: empty where no entry begins there that shares nothing.
pub open spec fn restart_key(data: Seq<u8>, data_end: int, restart: u32) -> Seq<u8> {
    match block_format::entry_at(data, data_end, restart as int) {
        Ok(e) => if e.shared == 0 {
            data.subrange(e.key_start as int, e.value_offset as int)
        } else {
            Seq::empty()
        },
        Err(_) => Seq::empty(),
    }
}

/// The entries of a block as lookups read them.
pub open spec fn strict_items(data: Seq<u8>, data_end: int) -> Seq<Item> {
    block_format::items(data, data_end, 0, data_end, Seq::empty(), Reading::Strict)
}

/// The entries of a block as iteration reads them.
pub open spec fn block_items(data: Seq<u8>, data_end: int) -> Seq<Item> {
    block_format::items(data, data_end, 0, data_end, Seq::empty(), Reading::Lenient)
}

/// The search index of a block.
pub open spec fn search_index(data: Seq<u8>) -> Result<SearchIndex, BlockError> {
    if data.len() < 4 {
        Err(BlockError::TooSmallForCount)
    } else if entries_end(data) < 0 {
        Err(BlockError::TooSmallForRestarts)
    } else {
        let data_end = entries_end(data);
        let restarts = restart_points(data);
        Ok(
            SearchIndex {
                restarts,
                restart_keys: Seq::new(
                    restarts.len(),
                    |i: int| restart_key(data, data_end, restarts[i]),
                ),
                first: block_format::first_items(strict_items(data, data_end)),
                data_end,
            },
        )
    }
}

/// Where the entries of a restart point end: at the next one, or with the block.
pub open spec fn restart_end(index: SearchIndex, i: int) -> int {
    if i + 1 < index.restarts.len() {
        index.restarts[i + 1] as int
    } else {
        index.data_end
    }
}

/// How the user key at a restart point compares with `user_key`; none where the key
/// there is too short to have one.
pub open spec fn restart_order(index: SearchIndex, i: int, user_key: Seq<u8>) -> Option<ByteOrder> {
    match internal_key::user_part(index.restart_keys[i]) {
        Some(user) => Some(order::order_of(user, user_key)),
        None => None,
    }
}

/// The first restart point in `left..right` whose user key does not come before
/// `user_key`, by halving; none where a key on the way has no user key.
pub open spec fn lower_bound(
    index: SearchIndex,
    user_key: Seq<u8>,
    left: int,
    right: int,
) -> Option<int>
    decreases right - left,
{
    if left >= right {
        Some(left)
    } else {
        let mid = left + (right - left) / 2;
        match restart_order(index, mid, user_key) {
            None => None,
            Some(ByteOrder::Less) => lower_bound(index, user_key, mid + 1, right),
            Some(_) => lower_bound(index, user_key, left, mid),
        }
    }
}

/// The parts of a block that a lookup of a user key reads.
pub enum SearchPlan {
    /// From one position to another.
    Range(int, int),
    /// The entries of a restart point, and where they hold nothing those of the next,
    /// which begins with the user key.
    Pair(int),
    /// The entries of the first restart point, which begins with the user key.
    Start,
}

/// Where a lookup of a user key looks.
pub open spec fn search_plan(index: SearchIndex, user_key: Seq<u8>) -> SearchPlan {
    let n = index.restarts.len() as int;
    let whole = SearchPlan::Range(0, index.data_end);
    if n == 0 {
        whole
    } else {
        let probe = if n - 1 < 8 {
            n - 1
        } else {
            8
        };
        if probe > 0 && restart_order(index, probe, user_key) is None {
            whole
        } else if probe > 0 && restart_order(index, probe, user_key) == Some(ByteOrder::Greater) {
            SearchPlan::Range(0, index.restarts[probe] as int)
        } else {
            match lower_bound(index, user_key, 0, n) {
                None => whole,
                Some(left) => if left >= n {
                    SearchPlan::Range(index.restarts[n - 1] as int, restart_end(index, n - 1))
                } else {
                    match restart_order(index, left, user_key) {
                        None => whole,
                        Some(ByteOrder::Greater) => {
                            let at = if left > 0 {
                                left - 1
                            } else {
                                0
                            };
                            SearchPlan::Range(index.restarts[at] as int, restart_end(index, at))
                        },
                        Some(ByteOrder::Equal) => if left > 0 {
                            SearchPlan::Pair(left - 1)
                        } else {
                            SearchPlan::Start
                        },
                        Some(ByteOrder::Less) => SearchPlan::Range(
                            index.restarts[left] as int,
                            restart_end(index, left),
                        ),
                    }
                },
            }
        }
    }
}

/// The entries in part of a block, as lookups read them.
pub open spec fn range_items(data: Seq<u8>, index: SearchIndex, start: int, end: int) -> Seq<Item> {
    block_format::items(data, index.data_end, start, end, Seq::empty(), Reading::Strict)
}

/// The first entry of a user key, as a lookup finds it.
pub open spec fn find_entry(data: Seq<u8>, index: SearchIndex, user_key: Seq<u8>) -> Option<Item> {
    match block_format::first_for_user(index.first, user_key) {
        Some(item) => Some(item),
        None => match search_plan(index, user_key) {
            SearchPlan::Range(start, end) => block_format::find_user(
                range_items(data, index, start, end),
                user_key,
            ),
            SearchPlan::Start => block_format::find_user(
                range_items(data, index, index.restarts[0] as int, restart_end(index, 0)),
                user_key,
            ),
            SearchPlan::Pair(at) => {
                let first = block_format::find_user(
                    range_items(data, index, index.restarts[at] as int, restart_end(index, at)),
                    user_key,
                );
                if first is Some {
                    first
                } else {
                    block_format::find_user(
                        range_items(
                            data,
                            index,
                            index.restarts[at + 1] as int,
                            restart_end(index, at + 1),
                        ),
                        user_key,
                    )
                }
            },
        },
    }
}

/// The newest entry of a user key that is no newer than `read_seq`, as a lookup
/// finds it.
pub open spec fn find_entry_at(
    data: Seq<u8>,
    index: SearchIndex,
    user_key: Seq<u8>,
    read_seq: u64,
) -> Option<Item> {
    let newest = find_entry(data, index, user_key);
    if newest is Some && internal_key::sequence_of(
        internal_key::encoded_part(newest->Some_0.key),
    ) <= read_seq {
        newest
    } else {
        let (start, end) = match search_plan(index, user_key) {
            SearchPlan::Range(start, end) => (start, end),
            SearchPlan::Pair(at) => (index.restarts[at] as int, index.data_end),
            SearchPlan::Start => (index.restarts[0] as int, index.data_end),
        };
        block_format::find_user_at(range_items(data, index, start, end), user_key, read_seq)
    }
}

/// What a lookup of a whole key finds.
pub open spec fn exact_lookup(data: Seq<u8>, index: SearchIndex, key: Seq<u8>) -> Option<Item> {
    if index.restarts.len() == 0 {
        block_format::find_key(strict_items(data, index.data_end), key)
    } else {
        find_exact(data, index, key, 0, index.restarts.len() - 1)
    }
}

/// What a lookup of a whole key finds, halving the restart points `left..=right`.
pub open spec fn find_exact(
    data: Seq<u8>,
    index: SearchIndex,
    key: Seq<u8>,
    left: int,
    right: int,
) -> Option<Item>
    decreases right - left + 1,
{
    if left > right {
        let at = if left > 0 {
            left - 1
        } else {
            0
        };
        exact_in_restart(data, index, key, at)
    } else {
        let mid = (left + right) / 2;
        match block_format::entry_at(data, index.data_end, index.restarts[mid] as int) {
            Err(_) => block_format::find_key(block_items(data, index.data_end), key),
            Ok(e) => match order::order_of(
                data.subrange(e.key_start as int, e.value_offset as int),
                key,
            ) {
                ByteOrder::Less => find_exact(data, index, key, mid + 1, right),
                ByteOrder::Greater => find_exact(data, index, key, left, mid - 1),
                ByteOrder::Equal => exact_in_restart(data, index, key, mid),
            },
        }
    }
}

/// What a lookup of a whole key finds among the entries of a restart point.
pub open spec fn exact_in_restart(data: Seq<u8>, index: SearchIndex, key: Seq<u8>, at: int) -> Option<
    Item,
> {
    block_format::find_key(
        block_format::items(
            data,
            index.data_end,
            index.restarts[at] as int,
            restart_end(index, at),
            Seq::empty(),
            Reading::StrictKeys,
        ),
        key,
    )
}

/// The first entry of a user key in a search index.
#[derive(Debug)]
pub struct IndexedKey {
    key: Vec<u8>,
    value_offset: usize,
    value_len: usize,
}

impl View for IndexedKey {
    type V = Item;

    closed spec fn view(&self) -> Item {
        Item {
            key: self.key@,
            value_offset: self.value_offset as int,
            value_len: self.value_len as int,
        }
    }
}

/// What a search in a block starts from, read once and shared.
#[derive(Debug)]
pub struct BlockSearchIndex {
    restarts: Vec<u32>,
    restart_keys: Vec<Vec<u8>>,
    first: Vec<IndexedKey>,
    data_end: usize,
}

/// The views of a list of index entries.
pub open spec fn item_views(list: Seq<IndexedKey>) -> Seq<Item> {
    Seq::new(list.len(), |i: int| list[i]@)
}

impl View for BlockSearchIndex {
    type V = SearchIndex;

    closed spec fn view(&self) -> SearchIndex {
        SearchIndex {
            restarts: self.restarts@,
            restart_keys: slices::views(self.restart_keys@),
            first: item_views(self.first@),
            data_end: self.data_end as int,
        }
    }
}

/// An entry that a lookup found, by where it lies.
struct Found {
    key: Vec<u8>,
    value_offset: usize,
    value_len: usize,
}

impl Found {
    spec fn item(self) -> Item {
        Item {
            key: self.key@,
            value_offset: self.value_offset as int,
            value_len: self.value_len as int,
        }
    }
}

/// Whether `found` is what the model says.
spec fn found_is(found: Option<Found>, item: Option<Item>) -> bool {
    match item {
        Some(i) => found is Some && found->Some_0.item() == i,
        None => found is None,
    }
}

/// A list of entries is its first one and the rest.
proof fn lemma_cons(item: Item, rest: Seq<Item>)
    ensures
        (seq![item] + rest).subrange(1, (seq![item] + rest).len() as int) == rest,
        (seq![item] + rest)[0] == item,
{
    assert((seq![item] + rest).subrange(1, (seq![item] + rest).len() as int) =~= rest);
}

/// Rebuilds the key of entry `e` in place; false where its prefix is too long.
fn rebuild_key(data: &[u8], e: EntryView, prev: &mut Vec<u8>) -> (ok: bool)
    requires
        e.key_start <= e.value_offset <= data@.len(),
    ensures
        match block_format::rebuilt(
            old(prev)@,
            e.shared as int,
            data@.subrange(e.key_start as int, e.value_offset as int),
            Reading::Strict,
        ) {
            Some(key) => ok && final(prev)@ == key,
            None => !ok,
        },
{
    let shared: usize = e.shared as usize;
    if shared > prev.len() {
        return false;
    }
    prev.truncate(shared);
    append_bytes(prev, vstd::slice::slice_subrange(data, e.key_start, e.value_offset));
    true
}

/// A reader of one block.
pub struct BlockReader<'a> {
    data: &'a [u8],
    index: Arc<BlockSearchIndex>,
}

impl<'a> BlockReader<'a> {
    /// The bytes of the block.
    pub closed spec fn data(&self) -> Seq<u8> {
        self.data@
    }

    /// The search index in use.
    pub closed spec fn index(&self) -> SearchIndex {
        (*self.index)@
    }

    /// The index fits the block: entries end inside it, and each restart point has
    /// a key.
    pub open spec fn wf(&self) -> bool {
        &&& 0 <= self.index().data_end <= self.data().len()
        &&& self.index().restart_keys.len() == self.index().restarts.len()
        &&& self.index().restarts.len() <= usize::MAX
    }

    /// Reads a block.
    pub fn new(data: &'a [u8]) -> (r: Result<BlockReader<'a>, BlockError>)
        ensures
            match search_index(data@) {
                Ok(index) => r is Ok && r->Ok_0.wf() && r->Ok_0.data() == data@
                    && r->Ok_0.index() == index,
                Err(e) => r is Err && r->Err_0 == e,
            },
    {
        match Self::parse_search_index(data) {
            Ok(index) => Self::with_search_index(data, Arc::new(index)),
            Err(e) => Err(e),
        }
    }

    /// Reads the search index of a block.
    pub fn parse_search_index(data: &[u8]) -> (r: Result<BlockSearchIndex, BlockError>)
        ensures
            match search_index(data@) {
                Ok(index) => r is Ok && r->Ok_0@ == index && 0 <= index.data_end <= data@.len()
                    && index.restart_keys.len() == index.restarts.len(),
                Err(e) => r is Err && r->Err_0 == e,
            },
    {
        let len: usize = data.len();
        if len < 4 {
            return Err(BlockError::TooSmallForCount);
        }
        let count: usize = read_u32(data, len - 4) as usize;
        if (len - 4) / 4 < count {
            return Err(BlockError::TooSmallForRestarts);
        }
        let data_end: usize = len - 4 - 4 * count;
        let mut restarts: Vec<u32> = Vec::new();
        let mut i: usize = 0;
        while i < count
            invariant
                i <= count,
                len == data@.len(),
                len >= 4,
                count == restart_count(data@),
                data_end == entries_end(data@),
                data_end + 4 * count + 4 == len,
                restarts@ == stored_restarts(data@).subrange(0, i as int),
            decreases count - i,
        {
            let point: u32 = read_u32(data, data_end + 4 * i);
            restarts.push(point);
            i = i + 1;
            assert(restarts@ =~= stored_restarts(data@).subrange(0, i as int));
        }
        assert(restarts@ =~= stored_restarts(data@));
        if restarts.len() > 0 && restarts[0] != 0 {
            restarts.insert(0, 0);
            assert(restarts@ =~= seq![0u32] + stored_restarts(data@));
        }
        let restart_keys = Self::collect_restart_keys(data, data_end, &restarts);
        let first = Self::collect_user_key_hash_index(data, data_end);
        let index = BlockSearchIndex { restarts, restart_keys, first, data_end };
        assert(index@ =~= search_index(data@)->Ok_0);
        Ok(index)
    }

    /// Reads a block with a search index that was read before.
    pub fn with_search_index(data: &'a [u8], index: Arc<BlockSearchIndex>) -> (r: Result<
        BlockReader<'a>,
        BlockError,
    >)
        ensures
            ({
                let i = (*index)@;
                if data@.len() < 4 {
                    r is Err && r->Err_0 == BlockError::TooSmallForCount
                } else if i.data_end > data@.len() {
                    r is Err && r->Err_0 == BlockError::DataEndOutOfRange
                } else if i.restart_keys.len() != i.restarts.len() {
                    r is Err && r->Err_0 == BlockError::RestartKeyCountMismatch
                } else {
                    r is Ok && r->Ok_0.wf() && r->Ok_0.data() == data@ && r->Ok_0.index() == i
                }
            }),
    {
        if data.len() < 4 {
            return Err(BlockError::TooSmallForCount);
        }
        if index.data_end > data.len() {
            return Err(BlockError::DataEndOutOfRange);
        }
        if index.restart_keys.len() != index.restarts.len() {
            return Err(BlockError::RestartKeyCountMismatch);
        }
        Ok(BlockReader { data, index })
    }

    /// Where the restart points are.
    pub fn restarts(&self) -> (r: &[u32])
        ensures
            r@ == self.index().restarts,
    {
        self.index.restarts.as_slice()
    }

    /// The number of entries in the block.
    pub fn entry_count(&self) -> (r: usize)
        requires
            self.wf(),
        ensures
            r == block_items(self.data(), self.index().data_end).len(),
    {
        let mut iter = self.iter();
        let mut n: usize = 0;
        let ghost whole = iter.remaining();
        proof {
            assert(self.data@.len() == self.data.len());
            lemma_items_len(
                self.data@,
                self.index.data_end as int,
                0,
                self.index.data_end as int,
                Seq::empty(),
                Reading::Lenient,
            );
        }
        loop
            invariant
                iter.wf(),
                n + iter.remaining().len() == whole.len(),
                whole.len() <= self.data@.len(),
                self.data@.len() == self.data.len(),
            ensures
                n == whole.len(),
            decreases iter.remaining().len(),
        {
            match iter.next() {
                Some(_) => {
                    n = n + 1;
                },
                None => {
                    break;
                },
            }
        }
        n
    }

    /// Of each user key the first entry.
    fn collect_user_key_hash_index(data: &[u8], data_end: usize) -> (r: Vec<IndexedKey>)
        requires
            data_end <= data@.len(),
        ensures
            item_views(r@) == block_format::first_items(strict_items(data@, data_end as int)),
    {
        let mut index: Vec<IndexedKey> = Vec::new();
        let mut pos: usize = 0;
        let mut prev: Vec<u8> = Vec::new();
        let ghost all = strict_items(data@, data_end as int);
        let ghost mut done: Seq<Item> = Seq::empty();
        assert(done + all =~= all);
        loop
            invariant_except_break
                data_end <= data@.len(),
                all == strict_items(data@, data_end as int),
                done + block_format::items(
                    data@,
                    data_end as int,
                    pos as int,
                    data_end as int,
                    prev@,
                    Reading::Strict,
                ) == all,
                item_views(index@) == block_format::first_items(done),
            ensures
                item_views(index@) == block_format::first_items(all),
            decreases data_end - pos,
        {
            if pos >= data_end {
                assert(done =~= all);
                break;
            }
            let ghost before = prev@;
            let e = match decode_entry_view_at(data, data_end, pos) {
                Ok(e) => e,
                Err(_) => {
                    assert(done =~= all);
                    break;
                },
            };
            if e.key_start == e.end {
                assert(done =~= all);
                break;
            }
            if !rebuild_key(data, e, &mut prev) {
                assert(done =~= all);
                break;
            }
            let ghost item = Item {
                key: prev@,
                value_offset: e.value_offset as int,
                value_len: e.end - e.value_offset,
            };
            let n: usize = prev.len();
            if n >= 8 {
                let user_key = vstd::slice::slice_subrange(prev.as_slice(), 0, n - 8);
                if Self::lookup(&index, user_key).is_none() {
                    let ghost old_index = index@;
                    let key = prev.clone();
                    assert(key@ =~= prev@);
                    index.push(
                        IndexedKey {
                            key,
                            value_offset: e.value_offset,
                            value_len: e.end - e.value_offset,
                        },
                    );
                    assert(item_views(index@) =~= item_views(old_index).push(item));
                }
            }
            proof {
                let rest = block_format::items(
                    data@,
                    data_end as int,
                    e.end as int,
                    data_end as int,
                    prev@,
                    Reading::Strict,
                );
                assert(done.push(item) + rest =~= done + (seq![item] + rest));
                assert(done.push(item).drop_last() =~= done);
                done = done.push(item);
            }
            pos = e.end;
        }
        index
    }

    /// Which entry of an index is for a user key.
    fn lookup(index: &Vec<IndexedKey>, user_key: &[u8]) -> (r: Option<usize>)
        ensures
            match block_format::first_for_user(item_views(index@), user_key@) {
                Some(item) => r is Some && r->Some_0 < index@.len() && index@[r->Some_0 as int]@
                    == item && internal_key::user_part(item.key) == Some(user_key@),
                None => r is None,
            },
    {
        let ghost all = item_views(index@);
        let mut i: usize = 0;
        assert(all.subrange(0, all.len() as int) =~= all);
        while i < index.len()
            invariant
                i <= index@.len(),
                all == item_views(index@),
                block_format::first_for_user(all.subrange(i as int, all.len() as int), user_key@)
                    == block_format::first_for_user(all, user_key@),
            decreases index.len() - i,
        {
            let n: usize = index[i].key.len();
            proof {
                let here = all.subrange(i as int, all.len() as int);
                assert(here.subrange(1, here.len() as int) =~= all.subrange(
                    i + 1,
                    all.len() as int,
                ));
                assert(here[0] == index@[i as int]@);
            }
            if n >= 8 && same_bytes(
                vstd::slice::slice_subrange(index[i].key.as_slice(), 0, n - 8),
                user_key,
            ) {
                return Some(i);
            }
            i = i + 1;
        }
        None
    }

    /// The key at each restart point.
    fn collect_restart_keys(data: &[u8], data_end: usize, restarts: &Vec<u32>) -> (r: Vec<Vec<u8>>)
        requires
            data_end <= data@.len(),
        ensures
            slices::views(r@) == Seq::new(
                restarts@.len(),
                |i: int| restart_key(data@, data_end as int, restarts@[i]),
            ),
    {
        let mut keys: Vec<Vec<u8>> = Vec::new();
        let mut i: usize = 0;
        while i < restarts.len()
            invariant
                i <= restarts@.len(),
                data_end <= data@.len(),
                keys@.len() == i,
                forall|j: int|
                    0 <= j < i ==> #[trigger] keys@[j]@ == restart_key(
                        data@,
                        data_end as int,
                        restarts@[j],
                    ),
            decreases restarts.len() - i,
        {
            let mut key: Vec<u8> = Vec::new();
            match decode_entry_view_at(data, data_end, restarts[i] as usize) {
                Ok(e) => {
                    if e.shared == 0 {
                        key = copy_range(data, e.key_start, e.value_offset);
                    }
                },
                Err(_) => {},
            }
            keys.push(key);
            i = i + 1;
        }
        assert(slices::views(keys@) =~= Seq::new(
            restarts@.len(),
            |i: int| restart_key(data@, data_end as int, restarts@[i]),
        ));
        keys
    }

    /// An iterator over the entries.
    pub fn iter(&self) -> (r: BlockIterator<'_>)
        requires
            self.wf(),
        ensures
            r.wf(),
            r.data() == self.data(),
            r.remaining() == block_items(self.data(), self.index().data_end),
    {
        BlockIterator {
            data: self.data,
            data_end: self.index.data_end,
            pos: 0,
            prev: Vec::new(),
        }
    }
}

/// Each entry takes at least one byte.
proof fn lemma_items_len(
    data: Seq<u8>,
    data_end: int,
    pos: int,
    end: int,
    prev: Seq<u8>,
    reading: Reading,
)
    requires
        0 <= pos,
        data_end <= data.len() <= usize::MAX,
    ensures
        pos <= data_end ==> block_format::items(data, data_end, pos, end, prev, reading).len()
            <= data_end - pos,
        pos > data_end ==> block_format::items(data, data_end, pos, end, prev, reading).len() == 0,
    decreases
            (if end > pos {
                end - pos
            } else {
                0
            }),
{
    block_format::entry_bounds(data, data_end, pos);
    if pos < end {
        match block_format::entry_at(data, data_end, pos) {
            Err(_) => {},
            Ok(e) => {
                if e.end > pos {
                    match block_format::rebuilt(
                        prev,
                        e.shared as int,
                        data.subrange(e.key_start as int, e.value_offset as int),
                        reading,
                    ) {
                        None => {},
                        Some(key) => {
                            lemma_items_len(data, data_end, e.end as int, end, key, reading);
                        },
                    }
                }
            },
        }
    }
}

/// An iterator over the entries of a block.
pub struct BlockIterator<'a> {
    data: &'a [u8],
    data_end: usize,
    pos: usize,
    prev: Vec<u8>,
}

impl<'a> BlockIterator<'a> {
    /// The bytes of the block.
    pub closed spec fn data(&self) -> Seq<u8> {
        self.data@
    }

    /// The entries end inside the block.
    pub closed spec fn wf(&self) -> bool {
        self.data_end <= self.data@.len()
    }

    /// The entries that are still to come.
    pub closed spec fn remaining(&self) -> Seq<Item> {
        block_format::items(
            self.data@,
            self.data_end as int,
            self.pos as int,
            self.data_end as int,
            self.prev@,
            Reading::Lenient,
        )
    }

    /// The next key and value.
    pub fn next(&mut self) -> (r: Option<(Vec<u8>, Vec<u8>)>)
        requires
            old(self).wf(),
        ensures
            final(self).wf(),
            final(self).data() == old(self).data(),
            old(self).remaining().len() == 0 ==> r is None && final(self).remaining().len() == 0,
            old(self).remaining().len() > 0 ==> {
                let item = old(self).remaining()[0];
                &&& r is Some
                &&& r->Some_0.0@ == item.key
                &&& r->Some_0.1@ == block_format::value_of(old(self).data(), item)
                &&& final(self).remaining() == old(self).remaining().subrange(
                    1,
                    old(self).remaining().len() as int,
                )
            },
    {
        if self.pos >= self.data_end {
            return None;
        }
        let e = match decode_entry_view_at(self.data, self.data_end, self.pos) {
            Ok(e) => e,
            Err(_) => {
                self.pos = self.data_end;
                return None;
            },
        };
        if e.key_start == e.end {
            self.pos = self.data_end;
            return None;
        }
        let mut key: Vec<u8> = Vec::new();
        let shared: usize = e.shared as usize;
        if self.prev.len() > 0 && shared <= self.prev.len() {
            append_bytes(&mut key, vstd::slice::slice_subrange(self.prev.as_slice(), 0, shared));
            assert(key@ =~= self.prev@.subrange(0, shared as int));
        }
        let ghost prefix = key@;
        append_bytes(
            &mut key,
            vstd::slice::slice_subrange(self.data, e.key_start, e.value_offset),
        );
        let ghost rest = self.data@.subrange(e.key_start as int, e.value_offset as int);
        assert(Some(key@) == block_format::rebuilt(
            self.prev@,
            e.shared as int,
            rest,
            Reading::Lenient,
        )) by {
            assert(Seq::<u8>::empty() + rest =~= rest);
        }
        let value = copy_range(self.data, e.value_offset, e.end);
        self.prev = key.clone();
        assert(self.prev@ =~= key@);
        self.pos = e.end;
        proof {
            let item = Item {
                key: key@,
                value_offset: e.value_offset as int,
                value_len: e.end - e.value_offset,
            };
            lemma_cons(item, self.remaining());
            assert(old(self).remaining() == seq![item] + self.remaining());
        }
        Some((key, value))
    }
}

/// Where a lookup of a user key looks.
enum Plan {
    Range(usize, usize),
    Pair(usize),
    Start,
}

spec fn plan_is(plan: Plan, model: SearchPlan) -> bool {
    match model {
        SearchPlan::Range(start, end) => plan matches Plan::Range(s, e) && s == start && e == end,
        SearchPlan::Pair(at) => plan matches Plan::Pair(a) && a == at,
        SearchPlan::Start => plan is Start,
    }
}

impl<'a> BlockReader<'a> {
    /// Looks up a whole key.
    pub fn get(&self, key: &[u8]) -> (r: Option<Vec<u8>>)
        requires
            self.wf(),
        ensures
            match exact_lookup(self.data(), self.index(), key@) {
                Some(item) => r is Some && r->Some_0@ == block_format::value_of(self.data(), item),
                None => r is None,
            },
    {
        let n: usize = self.index.restarts.len();
        if n == 0 {
            return self.linear_search_from_start(key);
        }
        let mut left: usize = 0;
        // One past the last restart point that is still in question.
        let mut right: usize = n;
        while left < right
            invariant
                self.wf(),
                left <= right <= n,
                n == self.index@.restarts.len(),
                find_exact(self.data@, self.index@, key@, left as int, right - 1) == find_exact(
                    self.data@,
                    self.index@,
                    key@,
                    0,
                    n - 1,
                ),
            decreases right - left,
        {
            let mid: usize = left + (right - 1 - left) / 2;
            assert(mid == (left + (right - 1)) / 2);
            let pos: usize = self.index.restarts[mid] as usize;
            match decode_entry_view_at(self.data, self.index.data_end, pos) {
                Ok(e) => {
                    let entry_key = vstd::slice::slice_subrange(
                        self.data,
                        e.key_start,
                        e.value_offset,
                    );
                    match compare_bytes(entry_key, key) {
                        ByteOrder::Less => {
                            left = mid + 1;
                        },
                        ByteOrder::Greater => {
                            right = mid;
                        },
                        ByteOrder::Equal => {
                            return self.linear_search_from_restart(mid, key);
                        },
                    }
                },
                Err(_) => {
                    return self.linear_search_full(key);
                },
            }
        }
        if left > 0 {
            left = left - 1;
        }
        self.linear_search_from_restart(left, key)
    }

    /// Looks up a key among the entries of a restart point.
    fn linear_search_from_restart(&self, at: usize, key: &[u8]) -> (r: Option<Vec<u8>>)
        requires
            self.wf(),
            at < self.index().restarts.len(),
        ensures
            match exact_in_restart(self.data(), self.index(), key@, at as int) {
                Some(item) => r is Some && r->Some_0@ == block_format::value_of(self.data(), item),
                None => r is None,
            },
    {
        let start: usize = self.index.restarts[at] as usize;
        let end: usize = self.end_of_restart(at);
        self.linear_search_keys(start, end, key, true)
    }

    /// Looks up a key among all entries, where the block has no restart points.
    fn linear_search_from_start(&self, key: &[u8]) -> (r: Option<Vec<u8>>)
        requires
            self.wf(),
        ensures
            match block_format::find_key(strict_items(self.data(), self.index().data_end), key@) {
                Some(item) => r is Some && r->Some_0@ == block_format::value_of(self.data(), item),
                None => r is None,
            },
    {
        self.linear_search_keys(0, self.index.data_end, key, false)
    }

    /// Looks up a key in part of the block; `all` says whether an entry without key
    /// bytes and value is an entry like any other.
    fn linear_search_keys(&self, start: usize, end: usize, key: &[u8], all: bool) -> (r: Option<
        Vec<u8>,
    >)
        requires
            self.wf(),
        ensures
            match block_format::find_key(
                block_format::items(
                    self.data(),
                    self.index().data_end,
                    start as int,
                    end as int,
                    Seq::empty(),
                    if all {
                        Reading::StrictKeys
                    } else {
                        Reading::Strict
                    },
                ),
                key@,
            ) {
                Some(item) => r is Some && r->Some_0@ == block_format::value_of(self.data(), item),
                None => r is None,
            },
    {
        let mut pos: usize = start;
        let mut prev: Vec<u8> = Vec::new();
        let ghost reading = if all {
            Reading::StrictKeys
        } else {
            Reading::Strict
        };
        let ghost target = block_format::find_key(
            block_format::items(
                self.data@,
                self.index.data_end as int,
                start as int,
                end as int,
                Seq::empty(),
                reading,
            ),
            key@,
        );
        while pos < end
            invariant
                self.wf(),
                reading == (if all {
                    Reading::StrictKeys
                } else {
                    Reading::Strict
                }),
                target == block_format::find_key(
                    block_format::items(
                        self.data@,
                        self.index.data_end as int,
                        start as int,
                        end as int,
                        Seq::empty(),
                        reading,
                    ),
                    key@,
                ),
                target == block_format::find_key(
                    block_format::items(
                        self.data@,
                        self.index.data_end as int,
                        pos as int,
                        end as int,
                        prev@,
                        reading,
                    ),
                    key@,
                ),
            decreases usize::MAX - pos,
        {
            let e = match decode_entry_view_at(self.data, self.index.data_end, pos) {
                Ok(e) => e,
                Err(_) => {
                    return None;
                },
            };
            if e.key_start == e.end && !all {
                return None;
            }
            if !rebuild_key(self.data, e, &mut prev) {
                return None;
            }
            proof {
                lemma_cons(
                    Item {
                        key: prev@,
                        value_offset: e.value_offset as int,
                        value_len: e.end - e.value_offset,
                    },
                    block_format::items(
                        self.data@,
                        self.index.data_end as int,
                        e.end as int,
                        end as int,
                        prev@,
                        reading,
                    ),
                );
            }
            match compare_bytes(prev.as_slice(), key) {
                ByteOrder::Less => {
                    pos = e.end;
                },
                ByteOrder::Equal => {
                    return Some(copy_range(self.data, e.value_offset, e.end));
                },
                ByteOrder::Greater => {
                    return None;
                },
            }
        }
        None
    }

    /// Looks up a key among all entries as iteration reads them.
    fn linear_search_full(&self, key: &[u8]) -> (r: Option<Vec<u8>>)
        requires
            self.wf(),
        ensures
            match block_format::find_key(block_items(self.data(), self.index().data_end), key@) {
                Some(item) => r is Some && r->Some_0@ == block_format::value_of(self.data(), item),
                None => r is None,
            },
    {
        let mut iter = self.iter();
        loop
            invariant
                iter.wf(),
                iter.data() == self.data@,
                block_format::find_key(iter.remaining(), key@) == block_format::find_key(
                    block_items(self.data@, self.index@.data_end),
                    key@,
                ),
            decreases iter.remaining().len(),
        {
            match iter.next() {
                Some((entry_key, entry_value)) => match compare_bytes(entry_key.as_slice(), key) {
                    ByteOrder::Less => {},
                    ByteOrder::Equal => {
                        return Some(entry_value);
                    },
                    ByteOrder::Greater => {
                        return None;
                    },
                },
                None => {
                    return None;
                },
            }
        }
    }

    /// Where the entries of a restart point end.
    fn end_of_restart(&self, at: usize) -> (r: usize)
        requires
            self.wf(),
            at < self.index().restarts.len(),
        ensures
            r == restart_end(self.index(), at as int),
    {
        if at + 1 < self.index.restarts.len() {
            self.index.restarts[at + 1] as usize
        } else {
            self.index.data_end
        }
    }

    /// How the user key at a restart point compares with `user_key`.
    fn restart_user_key_order(&self, at: usize, user_key: &[u8]) -> (r: Option<ByteOrder>)
        requires
            self.wf(),
            at < self.index().restarts.len(),
        ensures
            r == restart_order(self.index(), at as int, user_key@),
    {
        let key = &self.index.restart_keys[at];
        let n: usize = key.len();
        assert(self.index@.restart_keys[at as int] == key@);
        if n < 8 {
            return None;
        }
        Some(compare_bytes(vstd::slice::slice_subrange(key.as_slice(), 0, n - 8), user_key))
    }

    /// Where a lookup of a user key looks.
    fn plan(&self, user_key: &[u8]) -> (r: Plan)
        requires
            self.wf(),
        ensures
            plan_is(r, search_plan(self.index(), user_key@)),
            r matches Plan::Pair(at) ==> at + 1 < self.index().restarts.len(),
            r is Start ==> self.index().restarts.len() > 0,
    {
        let n: usize = self.index.restarts.len();
        let whole = Plan::Range(0, self.index.data_end);
        if n == 0 {
            return whole;
        }
        let probe: usize = if n - 1 < 8 {
            n - 1
        } else {
            8
        };
        if probe > 0 {
            match self.restart_user_key_order(probe, user_key) {
                None => {
                    return whole;
                },
                Some(ByteOrder::Greater) => {
                    return Plan::Range(0, self.index.restarts[probe] as usize);
                },
                Some(_) => {},
            }
        }
        let mut left: usize = 0;
        let mut right: usize = n;
        while left < right
            invariant
                self.wf(),
                left <= right <= n,
                n == self.index@.restarts.len(),
                lower_bound(self.index@, user_key@, left as int, right as int) == lower_bound(
                    self.index@,
                    user_key@,
                    0,
                    n as int,
                ),
                probe == (if n - 1 < 8 {
                    n - 1
                } else {
                    8
                }),
                probe > 0 ==> restart_order(self.index@, probe as int, user_key@) is Some,
                probe > 0 ==> restart_order(self.index@, probe as int, user_key@) != Some(
                    ByteOrder::Greater,
                ),
                plan_is(whole, SearchPlan::Range(0, self.index@.data_end)),
            decreases right - left,
        {
            let mid: usize = left + (right - left) / 2;
            match self.restart_user_key_order(mid, user_key) {
                None => {
                    return whole;
                },
                Some(ByteOrder::Less) => {
                    left = mid + 1;
                },
                Some(_) => {
                    right = mid;
                },
            }
        }
        if left >= n {
            return Plan::Range(self.index.restarts[n - 1] as usize, self.end_of_restart(n - 1));
        }
        match self.restart_user_key_order(left, user_key) {
            None => whole,
            Some(ByteOrder::Greater) => {
                let at: usize = if left > 0 {
                    left - 1
                } else {
                    0
                };
                Plan::Range(self.index.restarts[at] as usize, self.end_of_restart(at))
            },
            Some(ByteOrder::Equal) => if left > 0 {
                Plan::Pair(left - 1)
            } else {
                Plan::Start
            },
            Some(ByteOrder::Less) => Plan::Range(
                self.index.restarts[left] as usize,
                self.end_of_restart(left),
            ),
        }
    }

    /// Looks up the first entry of a user key in part of the block.
    fn linear_search_range_by_user_key_entry(
        &self,
        start: usize,
        end: usize,
        user_key: &[u8],
    ) -> (r: Option<Found>)
        requires
            self.wf(),
        ensures
            found_is(
                r,
                block_format::find_user(
                    range_items(self.data(), self.index(), start as int, end as int),
                    user_key@,
                ),
            ),
            r matches Some(f) ==> f.key@.len() >= 8,
    {
        let mut pos: usize = start;
        let mut prev: Vec<u8> = Vec::new();
        let ghost target = block_format::find_user(
            range_items(self.data@, self.index@, start as int, end as int),
            user_key@,
        );
        while pos < end
            invariant
                self.wf(),
                target == block_format::find_user(
                    range_items(self.data@, self.index@, start as int, end as int),
                    user_key@,
                ),
                target == block_format::find_user(
                    block_format::items(
                        self.data@,
                        self.index@.data_end,
                        pos as int,
                        end as int,
                        prev@,
                        Reading::Strict,
                    ),
                    user_key@,
                ),
            decreases usize::MAX - pos,
        {
            let e = match decode_entry_view_at(self.data, self.index.data_end, pos) {
                Ok(e) => e,
                Err(_) => {
                    return None;
                },
            };
            if e.key_start == e.end {
                return None;
            }
            if !rebuild_key(self.data, e, &mut prev) {
                return None;
            }
            proof {
                lemma_cons(
                    Item {
                        key: prev@,
                        value_offset: e.value_offset as int,
                        value_len: e.end - e.value_offset,
                    },
                    block_format::items(
                        self.data@,
                        self.index.data_end as int,
                        e.end as int,
                        end as int,
                        prev@,
                        Reading::Strict,
                    ),
                );
            }
            let n: usize = prev.len();
            if n >= 8 {
                match compare_bytes(
                    vstd::slice::slice_subrange(prev.as_slice(), 0, n - 8),
                    user_key,
                ) {
                    ByteOrder::Less => {},
                    ByteOrder::Equal => {
                        return Some(
                            Found {
                                key: prev,
                                value_offset: e.value_offset,
                                value_len: e.end - e.value_offset,
                            },
                        );
                    },
                    ByteOrder::Greater => {
                        return None;
                    },
                }
            }
            pos = e.end;
        }
        None
    }

    /// Looks up the newest entry of a user key that is no newer than `read_seq`, in
    /// part of the block.
    fn linear_search_range_by_user_key_entry_at_seq(
        &self,
        start: usize,
        end: usize,
        user_key: &[u8],
        read_seq: u64,
    ) -> (r: Option<Found>)
        requires
            self.wf(),
        ensures
            found_is(
                r,
                block_format::find_user_at(
                    range_items(self.data(), self.index(), start as int, end as int),
                    user_key@,
                    read_seq,
                ),
            ),
            r matches Some(f) ==> f.key@.len() >= 8,
    {
        let mut pos: usize = start;
        let mut prev: Vec<u8> = Vec::new();
        let ghost target = block_format::find_user_at(
            range_items(self.data@, self.index@, start as int, end as int),
            user_key@,
            read_seq,
        );
        while pos < end
            invariant
                self.wf(),
                target == block_format::find_user_at(
                    range_items(self.data@, self.index@, start as int, end as int),
                    user_key@,
                    read_seq,
                ),
                target == block_format::find_user_at(
                    block_format::items(
                        self.data@,
                        self.index@.data_end,
                        pos as int,
                        end as int,
                        prev@,
                        Reading::Strict,
                    ),
                    user_key@,
                    read_seq,
                ),
            decreases usize::MAX - pos,
        {
            let e = match decode_entry_view_at(self.data, self.index.data_end, pos) {
                Ok(e) => e,
                Err(_) => {
                    return None;
                },
            };
            if e.key_start == e.end {
                return None;
            }
            if !rebuild_key(self.data, e, &mut prev) {
                return None;
            }
            proof {
                lemma_cons(
                    Item {
                        key: prev@,
                        value_offset: e.value_offset as int,
                        value_len: e.end - e.value_offset,
                    },
                    block_format::items(
                        self.data@,
                        self.index.data_end as int,
                        e.end as int,
                        end as int,
                        prev@,
                        Reading::Strict,
                    ),
                );
            }
            match InternalKey::parse(prev.as_slice()) {
                None => {},
                Some(key) => match compare_bytes(key.user_key(), user_key) {
                    ByteOrder::Less => {},
                    ByteOrder::Equal => {
                        if key.sequence_number() <= read_seq {
                            return Some(
                                Found {
                                    key: prev,
                                    value_offset: e.value_offset,
                                    value_len: e.end - e.value_offset,
                                },
                            );
                        }
                    },
                    ByteOrder::Greater => {
                        return None;
                    },
                },
            }
            pos = e.end;
        }
        None
    }

    /// Looks up the first entry of a user key.
    fn get_by_user_key_entry(&self, user_key: &[u8]) -> (r: Option<Found>)
        requires
            self.wf(),
        ensures
            found_is(r, find_entry(self.data(), self.index(), user_key@)),
            r matches Some(f) ==> f.key@.len() >= 8,
    {
        match Self::lookup(&self.index.first, user_key) {
            Some(i) => {
                let hit = &self.index.first[i];
                let key = hit.key.clone();
                assert(key@ =~= hit.key@);
                return Some(
                    Found { key, value_offset: hit.value_offset, value_len: hit.value_len },
                );
            },
            None => {},
        }
        match self.plan(user_key) {
            Plan::Range(start, end) => self.linear_search_range_by_user_key_entry(
                start,
                end,
                user_key,
            ),
            Plan::Start => {
                let start: usize = self.index.restarts[0] as usize;
                self.linear_search_range_by_user_key_entry(start, self.end_of_restart(0), user_key)
            },
            Plan::Pair(at) => {
                let start: usize = self.index.restarts[at] as usize;
                let first = self.linear_search_range_by_user_key_entry(
                    start,
                    self.end_of_restart(at),
                    user_key,
                );
                if first.is_some() {
                    return first;
                }
                let start: usize = self.index.restarts[at + 1] as usize;
                self.linear_search_range_by_user_key_entry(
                    start,
                    self.end_of_restart(at + 1),
                    user_key,
                )
            },
        }
    }

    /// Looks up the newest version of a user key: its key, and where its value lies.
    pub fn get_by_user_key_with_value_range(&self, user_key: &[u8]) -> (r: Option<
        (InternalKey, usize, usize),
    >)
        requires
            self.wf(),
        ensures
            match find_entry(self.data(), self.index(), user_key@) {
                Some(item) => r is Some && Some(r->Some_0.0@) == internal_key::parsed(item.key)
                    && r->Some_0.1 == item.value_offset && r->Some_0.2 == item.value_len,
                None => r is None,
            },
    {
        match self.get_by_user_key_entry(user_key) {
            Some(found) => match InternalKey::parse(found.key.as_slice()) {
                Some(key) => Some((key, found.value_offset, found.value_len)),
                None => None,
            },
            None => None,
        }
    }

    /// Looks up the newest version of a user key: its key and its value. None also
    /// where the search index places the value outside the block.
    pub fn get_by_user_key(&self, user_key: &[u8]) -> (r: Option<(InternalKey, Vec<u8>)>)
        requires
            self.wf(),
        ensures
            match find_entry(self.data(), self.index(), user_key@) {
                Some(item) => if item.value_offset + item.value_len <= self.data().len() {
                    r is Some && Some(r->Some_0.0@) == internal_key::parsed(item.key)
                        && r->Some_0.1@ == block_format::value_of(self.data(), item)
                } else {
                    r is None
                },
                None => r is None,
            },
    {
        match self.get_by_user_key_with_value_range(user_key) {
            Some((key, offset, len)) => if offset <= self.data.len() && len <= self.data.len()
                - offset {
                Some((key, copy_range(self.data, offset, offset + len)))
            } else {
                None
            },
            None => None,
        }
    }

    /// Looks up the newest version of a user key that is no newer than `read_seq`: its
    /// key, and where its value lies.
    pub fn get_by_user_key_with_value_range_at_seq(&self, user_key: &[u8], read_seq: u64) -> (r:
        Option<(InternalKey, usize, usize)>)
        requires
            self.wf(),
        ensures
            match find_entry_at(self.data(), self.index(), user_key@, read_seq) {
                Some(item) => r is Some && Some(r->Some_0.0@) == internal_key::parsed(item.key)
                    && r->Some_0.1 == item.value_offset && r->Some_0.2 == item.value_len,
                None => r is None,
            },
    {
        if let Some((key, offset, len)) = self.get_by_user_key_with_value_range(user_key) {
            if key.sequence_number() <= read_seq {
                return Some((key, offset, len));
            }
        }
        let (start, end): (usize, usize) = match self.plan(user_key) {
            Plan::Range(start, end) => (start, end),
            Plan::Pair(at) => (self.index.restarts[at] as usize, self.index.data_end),
            Plan::Start => (self.index.restarts[0] as usize, self.index.data_end),
        };
        match self.linear_search_range_by_user_key_entry_at_seq(start, end, user_key, read_seq) {
            Some(found) => match InternalKey::parse(found.key.as_slice()) {
                Some(key) => Some((key, found.value_offset, found.value_len)),
                None => None,
            },
            None => None,
        }
    }
}

} // verus!
