//! Options of the state store that the storage core reads.

use vstd::prelude::*;
use crate::iterator::EntryView;

verus! {

/// Number of low bits of an epoch that do not belong to its time.
pub const EPOCH_PHYSICAL_SHIFT_BITS: u64 = 16;

/// Failure of a read, as the state store reports it.
#[derive(Clone, Copy, Debug, PartialEq, Eq, Structural)]
pub enum StorageError {
    /// The backing store could not be read.
    Io,
    /// A block or a key could not be decoded.
    Decode,
}

/// An iterator over the items that a read of the state store yields.
///
/// Each call hands out the next item, or `Ok(None)` once none is left. An
/// error ends the read; it comes only while items are left, and only from
/// an iterator that can fail.
pub trait StateStoreIter: Sized {
    type Item;

    /// The iterator is in a state that `next` can start from.
    spec fn ready(&self) -> bool;

    /// Nothing that the iterator reads can fail to be read or decoded.
    spec fn cannot_fail(&self) -> bool;

    /// The entries that are left to be handed out, in order.
    spec fn rest(&self) -> Seq<EntryView>;

    /// `item` is the entry `e` as the iterator hands it out.
    spec fn shows(item: Self::Item, e: EntryView) -> bool;

    fn next(&mut self) -> (r: Result<Option<Self::Item>, StorageError>)
        requires
            old(self).ready(),
        ensures
            final(self).ready(),
            final(self).cannot_fail() == old(self).cannot_fail(),
            old(self).cannot_fail() ==> r is Ok,
            match r {
                Ok(Some(item)) => {
                    &&& old(self).rest().len() > 0
                    &&& Self::shows(item, old(self).rest()[0])
                    &&& final(self).rest() == old(self).rest().drop_first()
                },
                Ok(None) => old(self).rest().len() == 0 && final(self).rest() == old(self).rest(),
                Err(_) => old(self).rest().len() > 0,
            },
    ;
}

/// Number of items that a scan with the given limit takes of `available`
/// ones: all of them where there is no limit.
pub open spec fn scan_len(limit: Option<usize>, available: nat) -> nat {
    match limit {
        Some(n) => if available <= n {
            available
        } else {
            n as nat
        },
        None => if available <= usize::MAX {
            available
        } else {
            usize::MAX as nat
        },
    }
}

/// The options with which a scan reads: a scan with a limit does not run
/// to the end of its range, so it does not load blocks ahead.
pub fn scan_read_options(limit: Option<usize>, read_options: ReadOptions) -> (r: ReadOptions)
    ensures
        r.prefetch_options.preload == (limit is None && read_options.prefetch_options.preload),
        r.prefix_hint == read_options.prefix_hint,
        r.ignore_range_tombstone == read_options.ignore_range_tombstone,
        r.cache_policy == read_options.cache_policy,
        r.retention_seconds == read_options.retention_seconds,
        r.table_id == read_options.table_id,
        r.read_version_from_backup == read_options.read_version_from_backup,
{
    let mut options = read_options;
    if limit.is_some() {
        options.prefetch_options.preload = false;
    }
    options
}

/// Takes the first `limit` items of an iterator, or all of them where
/// there is no limit. The items come in the order of the iterator, and the
/// iterator is left behind the last item taken. A scan fails only where
/// the iterator does: never with a limit of zero, and never at the end.
pub fn scan<I: StateStoreIter>(iter: &mut I, limit: Option<usize>) -> (r: Result<
    Vec<I::Item>,
    StorageError,
>)
    requires
        old(iter).ready(),
    ensures
        final(iter).ready(),
        final(iter).cannot_fail() == old(iter).cannot_fail(),
        old(iter).cannot_fail() ==> r is Ok,
        limit == Some(0usize) ==> r is Ok,
        old(iter).rest().len() == 0 ==> r is Ok,
        r matches Ok(items) ==> {
            let n = scan_len(limit, old(iter).rest().len());
            &&& items.len() == n
            &&& forall|i: int| 0 <= i < n ==> I::shows(#[trigger] items[i], old(iter).rest()[i])
            &&& final(iter).rest() == old(iter).rest().skip(n as int)
        },
{
    let ghost all = iter.rest();
    let most: usize = match limit {
        Some(n) => n,
        None => usize::MAX,
    };
    let mut items: Vec<I::Item> = Vec::new();
    let mut more = true;
    assert(all.skip(0) =~= all);
    while more && items.len() < most
        invariant
            iter.ready(),
            iter.cannot_fail() == old(iter).cannot_fail(),
            all == old(iter).rest(),
            limit == Some(0usize) ==> most == 0,
            items.len() <= most,
            items.len() <= all.len(),
            iter.rest() == all.skip(items.len() as int),
            forall|i: int| 0 <= i < items.len() ==> I::shows(#[trigger] items[i], all[i]),
            !more ==> items.len() == all.len(),
        decreases all.len() - items.len() + if more { 1int } else { 0int },
    {
        match iter.next() {
            Ok(Some(item)) => {
                let ghost taken = items.len() as int;
                assert(all.skip(taken)[0] == all[taken]);
                assert(all.skip(taken).drop_first() =~= all.skip(taken + 1));
                items.push(item);
            },
            Ok(None) => {
                more = false;
            },
            Err(e) => {
                return Err(e);
            },
        }
    }
    Ok(items)
}

/// Whether a read loads blocks ahead of its position. Blocks loaded ahead
/// cannot be evicted, so the setting costs memory.
#[derive(Clone, Copy, Debug, Default, PartialEq, Eq, Structural)]
pub struct PrefetchOptions {
    /// Set only for a read that is certain to run to its end.
    pub preload: bool,
}

impl PrefetchOptions {
    pub fn new_for_large_range_scan() -> (r: Self)
        ensures
            r.preload,
    {
        Self::new_with_exhaust_iter(true)
    }

    pub fn new_with_exhaust_iter(exhaust_iter: bool) -> (r: Self)
        ensures
            r.preload == exhaust_iter,
    {
        Self { preload: exhaust_iter }
    }
}

/// How a read treats the block cache.
#[derive(Clone, Copy, Debug, Default, PartialEq, Eq, Structural)]
pub enum CachePolicy {
    Disable,
    #[default]
    Fill,
    NotFill,
}

/// Settings of a table that the store honours.
#[derive(Clone, Copy, Debug, Default, PartialEq, Eq, Structural)]
pub struct TableOption {
    pub retention_seconds: Option<u32>,
}

/// The options of one read.
#[derive(Debug, Default, PartialEq, Eq)]
pub struct ReadOptions {
    /// A prefix of the key or the key range that is read, for the bloom
    /// filter.
    pub prefix_hint: Option<Vec<u8>>,
    pub ignore_range_tombstone: bool,
    pub prefetch_options: PrefetchOptions,
    pub cache_policy: CachePolicy,
    pub retention_seconds: Option<u32>,
    pub table_id: u32,
    /// Read from a version of a backup instead of the current one.
    pub read_version_from_backup: bool,
}

/// The epoch below which a read with the given retention sees nothing:
/// the time of `base_epoch` less the retention, or zero where the
/// retention reaches back beyond the start of time or there is none.
pub open spec fn spec_gen_min_epoch(base_epoch: u64, retention_seconds: Option<u32>) -> u64 {
    match retention_seconds {
        Some(seconds) => {
            let physical_time = base_epoch >> EPOCH_PHYSICAL_SHIFT_BITS;
            let retention_ms = (seconds * 1000) as u64;
            if physical_time < retention_ms {
                0
            } else {
                ((physical_time - retention_ms) as u64) << EPOCH_PHYSICAL_SHIFT_BITS
            }
        },
        None => 0,
    }
}

/// Computes the epoch below which a read with the given retention sees
/// nothing.
pub fn gen_min_epoch(base_epoch: u64, retention_seconds: Option<u32>) -> (r: u64)
    ensures
        r == spec_gen_min_epoch(base_epoch, retention_seconds),
{
    match retention_seconds {
        Some(seconds) => {
            let physical_time: u64 = base_epoch >> EPOCH_PHYSICAL_SHIFT_BITS;
            let seconds: u64 = seconds as u64;
            let retention_ms: u64 = seconds * 1000;
            if physical_time < retention_ms {
                0
            } else {
                (physical_time - retention_ms) << EPOCH_PHYSICAL_SHIFT_BITS
            }
        },
        None => 0,
    }
}

/// The options of one write batch.
#[derive(Clone, Copy, Debug, Default, PartialEq, Eq, Structural)]
pub struct WriteOptions {
    pub epoch: u64,
    pub table_id: u32,
}

/// The options with which a local state store is opened.
#[derive(Clone, Copy, Debug, Default, PartialEq, Eq, Structural)]
pub struct NewLocalOptions {
    pub table_id: u32,
    /// Whether every key is inserted and deleted at most once, and every
    /// old value passed in matches the stored one.
    pub is_consistent_op: bool,
    pub table_option: TableOption,
    /// A replicated store does not upload what it reads.
    pub is_replicated: bool,
}

impl NewLocalOptions {
    pub fn new(table_id: u32, is_consistent_op: bool, table_option: TableOption) -> (r: Self)
        ensures
            r == (NewLocalOptions { table_id, is_consistent_op, table_option, is_replicated: false }),
    {
        NewLocalOptions { table_id, is_consistent_op, table_option, is_replicated: false }
    }

    pub fn new_replicated(table_id: u32, is_consistent_op: bool, table_option: TableOption) -> (r:
        Self)
        ensures
            r == (NewLocalOptions { table_id, is_consistent_op, table_option, is_replicated: true }),
    {
        NewLocalOptions { table_id, is_consistent_op, table_option, is_replicated: true }
    }

    pub fn for_test(table_id: u32) -> (r: Self)
        ensures
            r == (NewLocalOptions {
                table_id,
                is_consistent_op: false,
                table_option: TableOption { retention_seconds: None },
                is_replicated: false,
            }),
    {
        Self {
            table_id,
            is_consistent_op: false,
            table_option: TableOption { retention_seconds: None },
            is_replicated: false,
        }
    }
}

/// The epoch that a store writes at, and the one before it.
#[derive(Clone, Copy, Debug, Default, PartialEq, Eq, Structural)]
pub struct EpochPair {
    pub curr: u64,
    pub prev: u64,
}

/// The options with which a local state store is initialised.
#[derive(Clone, Copy, Debug, PartialEq, Eq, Structural)]
pub struct InitOptions {
    pub epoch: EpochPair,
}

impl InitOptions {
    pub fn new_with_epoch(epoch: EpochPair) -> (r: Self)
        ensures
            r.epoch == epoch,
    {
        Self { epoch }
    }
}

/// The options with which the current epoch is sealed.
#[derive(Clone, Copy, Debug, PartialEq, Eq, Structural)]
pub struct SealCurrentEpochOptions {}

impl SealCurrentEpochOptions {
    pub fn new() -> (r: Self)
        ensures
            r == (SealCurrentEpochOptions {  }),
    {
        Self {  }
    }

    pub fn for_test() -> (r: Self)
        ensures
            r == (SealCurrentEpochOptions {  }),
    {
        Self::new()
    }
}

} // verus!
