//! Open tables, of which those that were not used for longest are closed first.

use std::marker::PhantomData;
use std::sync::Arc;
use vstd::prelude::*;

use crate::error::TableReadError;
use crate::storage::sstable::reader::SSTableReader;
use crate::storage::sstable::table_reading;
use crate::utils::shared_lru;
use crate::utils::shared_lru::{
    Lru, LruLimits, LruParts, SharedLruCache, SharedLruMetrics, SharedLruMetricsOptions,
    SharedLruOptions, Unheard, Weigher,
};

verus! {

/// How a cache of open tables is set up.
#[derive(Debug, Clone, Copy, PartialEq, Eq, Structural)]
pub struct TableCacheOptions {
    /// How many tables it holds at most.
    pub max_entries: usize,
    /// How much they count as at most, if there is a limit.
    pub max_charge: Option<usize>,
    /// How many parts it has.
    pub shards: usize,
    /// Whether a lookup counts as use.
    pub promote_on_get: bool,
    /// How many tables to expect: a hint.
    pub hash_capacity: usize,
    /// What is counted.
    pub metrics: SharedLruMetricsOptions,
    /// Whether a table counts as the size of its file, and not as one.
    pub charge_by_file_size: bool,
}

impl Default for TableCacheOptions {
    fn default() -> (r: Self)
        ensures
            r == (TableCacheOptions {
                max_entries: 1024,
                max_charge: None,
                shards: 16,
                promote_on_get: true,
                hash_capacity: 1024,
                metrics: SharedLruMetricsOptions {
                    hits: true,
                    misses: true,
                    inserts: true,
                    updates: true,
                    evictions: true,
                    removals: true,
                },
                charge_by_file_size: true,
            }),
    {
        TableCacheOptions {
            max_entries: 1024,
            max_charge: None,
            shards: 16,
            promote_on_get: true,
            hash_capacity: 1024,
            metrics: SharedLruMetricsOptions::default(),
            charge_by_file_size: true,
        }
    }
}

impl TableCacheOptions {
    /// Holds at most so many tables, and expects as many where nothing else was said.
    pub fn with_max_entries(self, max_entries: usize) -> (r: Self)
        ensures
            r == (TableCacheOptions {
                max_entries,
                hash_capacity: if self.hash_capacity == 0 {
                    max_entries
                } else {
                    self.hash_capacity
                },
                ..self
            }),
    {
        let hash_capacity: usize = if self.hash_capacity == 0 {
            max_entries
        } else {
            self.hash_capacity
        };
        TableCacheOptions { max_entries, hash_capacity, ..self }
    }

    /// Tables count as at most so much.
    pub fn with_max_charge(self, max_charge: usize) -> (r: Self)
        ensures
            r == (TableCacheOptions { max_charge: Some(max_charge), ..self }),
    {
        TableCacheOptions { max_charge: Some(max_charge), ..self }
    }

    /// There is no limit on what tables count as.
    pub fn without_max_charge(self) -> (r: Self)
        ensures
            r == (TableCacheOptions { max_charge: None, ..self }),
    {
        TableCacheOptions { max_charge: None, ..self }
    }

    /// Has so many parts, at least one.
    pub fn with_shards(self, shards: usize) -> (r: Self)
        ensures
            r == (TableCacheOptions {
                shards: if shards == 0 {
                    1
                } else {
                    shards
                },
                ..self
            }),
    {
        let shards: usize = if shards == 0 {
            1
        } else {
            shards
        };
        TableCacheOptions { shards, ..self }
    }

    /// Whether a lookup counts as use.
    pub fn with_promote_on_get(self, promote_on_get: bool) -> (r: Self)
        ensures
            r == (TableCacheOptions { promote_on_get, ..self }),
    {
        TableCacheOptions { promote_on_get, ..self }
    }

    /// Expects so many tables.
    pub fn with_hash_capacity(self, hash_capacity: usize) -> (r: Self)
        ensures
            r == (TableCacheOptions { hash_capacity, ..self }),
    {
        TableCacheOptions { hash_capacity, ..self }
    }

    /// Counts these.
    pub fn with_metrics(self, metrics: SharedLruMetricsOptions) -> (r: Self)
        ensures
            r == (TableCacheOptions { metrics, ..self }),
    {
        TableCacheOptions { metrics, ..self }
    }

    /// Whether a table counts as the size of its file.
    pub fn with_charge_by_file_size(self, charge_by_file_size: bool) -> (r: Self)
        ensures
            r == (TableCacheOptions { charge_by_file_size, ..self }),
    {
        TableCacheOptions { charge_by_file_size, ..self }
    }

    /// How much a table with a file of this size counts as.
    pub open spec fn charge_of(self, file_size: u64) -> usize {
        if !self.charge_by_file_size {
            1
        } else if file_size > usize::MAX {
            usize::MAX
        } else {
            file_size as usize
        }
    }

    /// Whether a table that counts as this much is kept.
    pub open spec fn keeps(self, charge: usize) -> bool {
        self.max_entries > 0 && (self.max_charge matches Some(max) ==> max > 0 && charge <= max)
    }
}

/// An open table.
#[derive(Debug)]
pub struct TableHandle<R> {
    reader: R,
    charge: usize,
}

impl<R> TableHandle<R> {
    /// The reader of the table.
    pub closed spec fn table(&self) -> R {
        self.reader
    }

    /// How much the table counts as.
    pub closed spec fn weight(&self) -> usize {
        self.charge
    }

    fn new(reader: R, charge: usize) -> (r: TableHandle<R>)
        ensures
            r.table() == reader,
            r.weight() == charge,
    {
        TableHandle { reader, charge }
    }

    /// The reader of the table.
    pub fn reader(&self) -> (r: &R)
        ensures
            *r == self.table(),
    {
        &self.reader
    }

    /// How much the table counts as.
    pub fn charge(&self) -> (r: usize)
        ensures
            r == self.weight(),
    {
        self.charge
    }
}

/// A table counts as what its handle says.
#[derive(Debug)]
pub struct ByCharge;

impl<R> Weigher<u64, Arc<TableHandle<R>>> for ByCharge {
    open spec fn can_weigh(&self, key: u64, value: Arc<TableHandle<R>>) -> bool {
        true
    }

    open spec fn may_weigh(&self, key: u64, value: Arc<TableHandle<R>>, charge: usize) -> bool {
        charge == value.weight()
    }

    fn weigh(&self, key: &u64, value: &Arc<TableHandle<R>>) -> (charge: usize) {
        value.charge()
    }
}

/// Open tables.
pub struct TableCache<R> {
    cache: SharedLruCache<u64, Arc<TableHandle<R>>, ByCharge, Unheard<u64, Arc<TableHandle<R>>>>,
    options: TableCacheOptions,
}

/// The limits of part `i` of a cache.
pub open spec fn part_limits(options: TableCacheOptions, i: int, shards: int) -> LruLimits {
    LruLimits {
        max_entries: shared_lru::quota(options.max_entries, i, shards),
        max_charge: match options.max_charge {
            Some(max) => Some(shared_lru::quota(max, i, shards)),
            None => None,
        },
        promote_on_get: options.promote_on_get,
        metrics: options.metrics,
    }
}

/// Where tables count by their size a table counts as the size of its file, as far as that is a
/// number here, and a larger file as no less than a smaller one; else each counts as one.
pub proof fn larger_files_count_more(options: TableCacheOptions, a: u64, b: u64)
    requires
        a <= b,
    ensures
        options.charge_by_file_size && a <= usize::MAX ==> options.charge_of(a) == a,
        options.charge_by_file_size ==> options.charge_of(a) <= options.charge_of(b) <= b,
        !options.charge_by_file_size ==> options.charge_of(a) == 1,
{
}

/// A table is kept exactly where tables may be kept at all and it counts as no more than all
/// together may.
pub proof fn kept_iff_it_can_be(options: TableCacheOptions, charge: usize)
    ensures
        options.max_charge is None ==> (options.keeps(charge) <==> options.max_entries >= 1),
        options.max_charge matches Some(max) ==> (options.keeps(charge) <==> options.max_entries
            >= 1 && max >= 1 && charge <= max),
{
}

/// The limits of the parts are the shares of those of the whole cache.
pub proof fn limits_are_shared_out(options: TableCacheOptions, i: int, shards: int)
    requires
        0 <= i < shards,
    ensures
        ({
            let limits = part_limits(options, i, shards);
            &&& limits.max_entries == shared_lru::quota(options.max_entries, i, shards)
            &&& limits.max_charge is None <==> options.max_charge is None
            &&& options.max_charge matches Some(max) ==> limits.max_charge == Some(
                shared_lru::quota(max, i, shards),
            )
            &&& limits.promote_on_get == options.promote_on_get
            &&& limits.metrics == options.metrics
        }),
{
}

impl<R> View for TableCache<R> {
    type V = LruParts<u64, Arc<TableHandle<R>>>;

    closed spec fn view(&self) -> LruParts<u64, Arc<TableHandle<R>>> {
        self.cache@
    }
}

impl<R> TableCache<R> {
    /// The parts are well-formed.
    pub closed spec fn wf(&self) -> bool {
        self.cache.wf()
    }

    /// How the cache is set up.
    pub closed spec fn options(&self) -> TableCacheOptions {
        self.options
    }

    /// A cache that is set up like this, without tables.
    pub fn new(options: TableCacheOptions) -> (r: Self)
        ensures
            r.wf(),
            r.options() == options,
            ({
                let n = if options.shards == 0 {
                    1int
                } else {
                    options.shards as int
                };
                r@ == (LruParts::<u64, Arc<TableHandle<R>>> {
                    parts: Seq::new(n as nat, |i: int| Lru::fresh()),
                    limits: Seq::new(
                        n as nat,
                        |i: int| part_limits(options, i, n),
                    ),
                })
            }),
    {
        let parts: SharedLruOptions<
            u64,
            Arc<TableHandle<R>>,
            ByCharge,
            Unheard<u64, Arc<TableHandle<R>>>,
        > = SharedLruOptions {
            max_entries: options.max_entries,
            max_charge: options.max_charge,
            promote_on_get: options.promote_on_get,
            hash_capacity: options.hash_capacity,
            shards: options.shards,
            weigher: ByCharge,
            metrics: options.metrics,
            evict_hook: Unheard::new(),
            entries: PhantomData,
        };
        let r = TableCache { cache: SharedLruCache::new(parts), options };
        proof {
            let n = if options.shards == 0 {
                1int
            } else {
                options.shards as int
            };
            assert(r@.limits =~= Seq::new(
                n as nat,
                |i: int| part_limits(options, i, n),
            ));
        }
        r
    }

    /// Table `file_id`, where it is open.
    pub fn get(&mut self, file_id: u64) -> (r: Option<Arc<TableHandle<R>>>)
        requires
            old(self).wf(),
        ensures
            final(self).wf(),
            final(self).options() == old(self).options(),
            final(self)@ == old(self)@.asked(file_id, file_id, true),
            r == old(self)@.lookup(file_id, file_id),
    {
        match self.cache.ask(&file_id, true) {
            Some(handle) => Some(handle.clone()),
            None => None,
        }
    }

    /// Table `file_id`, with a file of this size, was opened: its handle, which is kept
    /// where such a table is.
    pub fn take_in(&mut self, file_id: u64, file_size: u64, reader: R) -> (r: Arc<TableHandle<R>>)
        requires
            old(self).wf(),
        ensures
            final(self).wf(),
            final(self).options() == old(self).options(),
            (*r).table() == reader,
            (*r).weight() == old(self).options().charge_of(file_size),
            final(self)@ == if old(self).options().keeps((*r).weight()) {
                old(self)@.with_part(
                    file_id,
                    old(self)@.inserted(file_id, file_id, r, (*r).weight()).lru,
                )
            } else {
                old(self)@
            },
    {
        let charge: usize = self.entry_charge(file_size);
        let handle = Arc::new(TableHandle::new(reader, charge));
        if self.should_cache(charge) {
            let kept = handle.clone();
            let _ = self.cache.insert(file_id, kept);
        }
        handle
    }

    /// Closes table `file_id`: its handle.
    pub fn remove(&mut self, file_id: u64) -> (r: Option<Arc<TableHandle<R>>>)
        requires
            old(self).wf(),
        ensures
            final(self).wf(),
            final(self).options() == old(self).options(),
            final(self)@ == old(self)@.removed(file_id, file_id),
            r == old(self)@.lookup(file_id, file_id),
    {
        self.cache.remove(&file_id)
    }

    /// Closes all tables.
    pub fn clear(&mut self)
        requires
            old(self).wf(),
        ensures
            final(self).wf(),
            final(self).options() == old(self).options(),
            final(self)@ == (LruParts {
                parts: Seq::new(
                    old(self)@.parts.len(),
                    |i: int| old(self)@.parts[i].cleared(old(self)@.limits[i]),
                ),
                ..old(self)@
            }),
    {
        self.cache.clear();
    }

    /// How many tables are open; the largest number where there are more.
    pub fn len(&self) -> (r: usize)
        requires
            self.wf(),
        ensures
            r == (if self@.len_from(0) > usize::MAX {
                usize::MAX as nat
            } else {
                self@.len_from(0)
            }),
    {
        self.cache.len()
    }

    /// How much the open tables count as; the largest number where it is more.
    pub fn charge(&self) -> (r: usize)
        requires
            self.wf(),
        ensures
            r == (if self@.charge_from(0) > usize::MAX {
                usize::MAX as nat
            } else {
                self@.charge_from(0)
            }),
    {
        self.cache.charge()
    }

    /// What was counted.
    pub fn metrics(&self) -> (r: SharedLruMetrics)
        ensures
            r == self@.counts(self@.parts.len()),
    {
        self.cache.metrics()
    }

    /// Starts counting again.
    pub fn reset_metrics(&mut self)
        requires
            old(self).wf(),
        ensures
            final(self).wf(),
            final(self).options() == old(self).options(),
            final(self)@ == (LruParts {
                parts: Seq::new(
                    old(self)@.parts.len(),
                    |i: int| Lru { metrics: shared_lru::no_counts(), ..old(self)@.parts[i] },
                ),
                ..old(self)@
            }),
    {
        self.cache.reset_metrics();
    }

    fn entry_charge(&self, file_size: u64) -> (r: usize)
        ensures
            r == self.options().charge_of(file_size),
    {
        if !self.options.charge_by_file_size {
            return 1;
        }
        if file_size > usize::MAX as u64 {
            usize::MAX
        } else {
            file_size as usize
        }
    }

    fn should_cache(&self, charge: usize) -> (r: bool)
        ensures
            r == self.options().keeps(charge),
    {
        if self.options.max_entries == 0 {
            return false;
        }
        match self.options.max_charge {
            Some(max_charge) => max_charge > 0 && charge <= max_charge,
            None => true,
        }
    }
}

impl TableCache<SSTableReader> {
    /// Table `file_id`, with a file of this size: the one that is open, or else the one with
    /// these bytes, which is opened.
    pub fn get_or_open(&mut self, file_id: u64, file_size: u64, path: &str, file: Vec<u8>) -> (r:
        Result<Arc<TableHandle<SSTableReader>>, TableReadError>)
        requires
            old(self).wf(),
        ensures
            final(self).wf(),
            final(self).options() == old(self).options(),
            ({
                let asked = old(self)@.asked(file_id, file_id, true);
                match old(self)@.lookup(file_id, file_id) {
                    Some(handle) => r is Ok && r->Ok_0 == handle && final(self)@ == asked,
                    None => match table_reading::opened(file@) {
                        Ok(table) => {
                            let reader = (*r->Ok_0).table();
                            let charge = (*r->Ok_0).weight();
                            &&& r is Ok
                            &&& reader.wf()
                            &&& reader.file() == file@
                            &&& reader.table() == table
                            &&& reader.path() == path@
                            &&& charge == old(self).options().charge_of(file_size)
                            &&& final(self)@ == if old(self).options().keeps(charge) {
                                asked.with_part(
                                    file_id,
                                    asked.inserted(file_id, file_id, r->Ok_0, charge).lru,
                                )
                            } else {
                                asked
                            }
                        },
                        Err(e) => r is Err && r->Err_0 == e && final(self)@ == asked,
                    },
                }
            }),
    {
        if let Some(handle) = self.get(file_id) {
            return Ok(handle);
        }
        match SSTableReader::open(path, file) {
            Ok(reader) => Ok(self.take_in(file_id, file_size, reader)),
            Err(e) => Err(e),
        }
    }
}

} // verus!
