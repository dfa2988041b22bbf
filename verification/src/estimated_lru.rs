//! A cache in order of use that knows the size of what it holds and gives
//! up what has not been used since a given epoch.
//!
//! The order of use is kept by `lru::LruCache`. What that cache does is
//! taken on trust, in the contracts marked below; what is built on it, the
//! stamps of the epochs, the eviction and the account of the sizes, is
//! verified.

use vstd::prelude::*;
use lru::LruCache;

verus! {

/// `lru::LruCache`, whose inside is not looked into.
#[verifier::external_type_specification]
#[verifier::external_body]
#[verifier::reject_recursive_types(K)]
#[verifier::reject_recursive_types(V)]
#[verifier::reject_recursive_types(S)]
pub struct ExLruCache<K, V, S>(LruCache<K, V, S>);

/// `lru::DefaultHasher`, the hasher that an `lru::LruCache` is built with
/// where none is named.
#[verifier::external_type_specification]
#[verifier::external_body]
pub struct ExDefaultHasher(lru::DefaultHasher);

/// What a cache entry holds besides its key: the epoch of its last use and
/// its value.
pub type Stamped = (u64, Vec<u8>);

/// The entries of the cache from the most recently used to the least
/// recently used one, each as key, epoch of last use, and value.
pub uninterp spec fn lru_entries(c: LruCache<u64, Stamped>) -> Seq<(u64, u64, Seq<u8>)>;

/// The number of entries that the cache was made to hold at most.
pub uninterp spec fn lru_cap(c: LruCache<u64, Stamped>) -> nat;

/// The position of the entry with the key `k`, or the number of entries
/// where there is none.
pub open spec fn index_of_key(s: Seq<(u64, u64, Seq<u8>)>, k: u64, from: int) -> int
    decreases s.len() - from,
{
    if from < 0 || from >= s.len() {
        s.len() as int
    } else if s[from].0 == k {
        from
    } else {
        index_of_key(s, k, from + 1)
    }
}

/// Where a key is found, the entry there has the key.
pub proof fn lemma_index_of_key(s: Seq<(u64, u64, Seq<u8>)>, k: u64, from: int)
    requires
        0 <= from <= s.len(),
    ensures
        from <= index_of_key(s, k, from) <= s.len(),
        index_of_key(s, k, from) < s.len() ==> s[index_of_key(s, k, from)].0 == k,
        forall|j: int| from <= j < index_of_key(s, k, from) ==> (#[trigger] s[j]).0 != k,
    decreases s.len() - from,
{
    if from < s.len() && s[from].0 != k {
        lemma_index_of_key(s, k, from + 1);
    }
}

/// Whether an entry has the key `k`.
pub open spec fn has_key(s: Seq<(u64, u64, Seq<u8>)>, k: u64) -> bool {
    index_of_key(s, k, 0) < s.len()
}

/// `LruCache::unbounded`: a cache without entries, whose capacity is the
/// greatest `usize`.
#[verifier::external_body]
fn lru_unbounded() -> (r: LruCache<u64, Stamped>)
    ensures
        lru_entries(r) == Seq::<(u64, u64, Seq<u8>)>::empty(),
        lru_cap(r) == usize::MAX,
{
    LruCache::unbounded()
}

/// `LruCache::len`: the number of entries.
#[verifier::external_body]
fn lru_len(c: &LruCache<u64, Stamped>) -> (r: usize)
    ensures
        r == lru_entries(*c).len(),
{
    c.len()
}

/// `LruCache::contains`: whether an entry has the key; the order of use
/// stays as it is.
#[verifier::external_body]
fn lru_contains(c: &LruCache<u64, Stamped>, k: u64) -> (r: bool)
    ensures
        r == has_key(lru_entries(*c), k),
{
    c.contains(&k)
}

/// `LruCache::push`: an entry with the key gets the new contents and
/// becomes the most recently used one, and its old contents are returned.
/// For a new key a cache that holds as many entries as it was made for
/// gives up its least recently used entry and returns it; any other cache
/// returns nothing. The new entry stands before all others. The capacity
/// stays as it is.
#[verifier::external_body]
fn lru_push(c: &mut LruCache<u64, Stamped>, k: u64, epoch: u64, v: Vec<u8>) -> (r: Option<
    (u64, Stamped),
>)
    ensures
        lru_cap(*final(c)) == lru_cap(*old(c)),
        ({
            let before = lru_entries(*old(c));
            let i = index_of_key(before, k, 0);
            if has_key(before, k) {
                &&& lru_entries(*final(c)) == seq![(k, epoch, v@)] + before.remove(i)
                &&& r matches Some(old_entry)
                &&& (old_entry.0, old_entry.1.0, old_entry.1.1@) == before[i]
            } else if before.len() == lru_cap(*old(c)) {
                &&& lru_entries(*final(c)) == seq![(k, epoch, v@)] + before.drop_last()
                &&& r matches Some(old_entry)
                &&& (old_entry.0, old_entry.1.0, old_entry.1.1@) == before.last()
            } else {
                &&& lru_entries(*final(c)) == seq![(k, epoch, v@)] + before
                &&& r is None
            }
        }),
{
    c.push(k, (epoch, v))
}

/// `LruCache::get_mut`: the entry with the key becomes the most recently
/// used one and is handed out for writing; what is written to it is what
/// the cache holds afterwards. The capacity stays as it is.
#[verifier::external_body]
fn lru_get_mut(c: &mut LruCache<u64, Stamped>, k: u64) -> (r: Option<&mut Stamped>)
    ensures
        ({
            let before = lru_entries(*old(c));
            let i = index_of_key(before, k, 0);
            match r {
                Some(e) => {
                    &&& has_key(before, k)
                    &&& (k, e.0, e.1@) == before[i]
                    &&& lru_entries(*final(c)) == seq![(k, final(e).0, final(e).1@)]
                        + before.remove(i)
                },
                None => !has_key(before, k) && lru_entries(*final(c)) == before,
            }
        }),
        lru_cap(*final(c)) == lru_cap(*old(c)),
{
    c.get_mut(&k)
}

/// `LruCache::peek_lru`: the epoch stamp of the least recently used entry;
/// the order of use stays as it is.
#[verifier::external_body]
fn lru_peek_lru_epoch(c: &LruCache<u64, Stamped>) -> (r: Option<u64>)
    ensures
        match r {
            Some(epoch) => lru_entries(*c).len() > 0 && epoch == lru_entries(*c).last().1,
            None => lru_entries(*c).len() == 0,
        },
{
    c.peek_lru().map(|(_, e)| e.0)
}

/// `LruCache::pop_lru`: the least recently used entry leaves the cache and
/// is returned. The capacity stays as it is.
#[verifier::external_body]
fn lru_pop_lru(c: &mut LruCache<u64, Stamped>) -> (r: Option<(u64, Stamped)>)
    ensures
        ({
            let before = lru_entries(*old(c));
            match r {
                Some(e) => {
                    &&& before.len() > 0
                    &&& (e.0, e.1.0, e.1.1@) == before.last()
                    &&& lru_entries(*final(c)) == before.drop_last()
                },
                None => before.len() == 0 && lru_entries(*final(c)) == before,
            }
        }),
        lru_cap(*final(c)) == lru_cap(*old(c)),
{
    c.pop_lru()
}

/// `LruCache::clear`: every entry leaves the cache. The capacity stays as
/// it is.
#[verifier::external_body]
fn lru_clear(c: &mut LruCache<u64, Stamped>)
    ensures
        lru_entries(*final(c)) == Seq::<(u64, u64, Seq<u8>)>::empty(),
        lru_cap(*final(c)) == lru_cap(*old(c)),
{
    c.clear()
}

/// `LruCache::iter`: the values from the most recently used entry to the
/// least recently used one; the order of use stays as it is.
#[verifier::external_body]
fn lru_values(c: &LruCache<u64, Stamped>) -> (r: Vec<&Vec<u8>>)
    ensures
        r.len() == lru_entries(*c).len(),
        forall|i: int| 0 <= i < r.len() ==> (#[trigger] r[i])@ == lru_entries(*c)[i].2,
{
    c.iter().map(|(_, e)| &e.1).collect()
}

/// Estimated size in bytes of a key.
pub const KEY_SIZE: usize = 8;

/// Estimated size in bytes of a value without its contents.
pub const VALUE_OVERHEAD: usize = 24;

/// Estimated size in bytes of an entry with the given value.
pub open spec fn entry_size(v: Seq<u8>) -> int {
    KEY_SIZE + VALUE_OVERHEAD + v.len()
}

/// Estimated size in bytes of all entries.
pub open spec fn total_size(s: Seq<(u64, u64, Seq<u8>)>) -> int
    decreases s.len(),
{
    if s.len() == 0 {
        0
    } else {
        total_size(s.drop_last()) + entry_size(s.last().2)
    }
}

/// The entries without the least recently used ones that were last used
/// before `epoch`: from the far end of the order of use, entries leave
/// until one is met that has been used since.
pub open spec fn without_stale_tail(s: Seq<(u64, u64, Seq<u8>)>, epoch: u64) -> Seq<
    (u64, u64, Seq<u8>),
>
    decreases s.len(),
{
    if s.len() > 0 && s.last().1 < epoch {
        without_stale_tail(s.drop_last(), epoch)
    } else {
        s
    }
}

/// The account after the least recently used entries that were last used
/// before `epoch` left: the size of each is taken off, down to zero at
/// most.
pub open spec fn size_without_stale_tail(s: Seq<(u64, u64, Seq<u8>)>, epoch: u64, size: int) -> int
    decreases s.len(),
{
    if s.len() > 0 && s.last().1 < epoch {
        size_without_stale_tail(
            s.drop_last(),
            epoch,
            saturating_difference(size, saturating_sum(entry_size(s.last().2), 0)),
        )
    } else {
        size
    }
}

/// The sizes of two lists in a row add up.
pub proof fn lemma_total_size_concat(a: Seq<(u64, u64, Seq<u8>)>, b: Seq<(u64, u64, Seq<u8>)>)
    ensures
        total_size(a + b) == total_size(a) + total_size(b),
        total_size(a) >= 0,
    decreases b.len(),
{
    lemma_total_size_nonnegative(a);
    if b.len() == 0 {
        assert(a + b =~= a);
    } else {
        assert((a + b).drop_last() =~= a + b.drop_last());
        lemma_total_size_concat(a, b.drop_last());
    }
}

/// A total size is not negative.
pub proof fn lemma_total_size_nonnegative(s: Seq<(u64, u64, Seq<u8>)>)
    ensures
        total_size(s) >= 0,
    decreases s.len(),
{
    if s.len() > 0 {
        lemma_total_size_nonnegative(s.drop_last());
    }
}

/// Taking an entry out of a list takes its size off the total.
pub proof fn lemma_total_size_remove(s: Seq<(u64, u64, Seq<u8>)>, i: int)
    requires
        0 <= i < s.len(),
    ensures
        total_size(s.remove(i)) == total_size(s) - entry_size(s[i].2),
{
    let a = s.subrange(0, i);
    let b = s.subrange(i + 1, s.len() as int);
    assert(s =~= (a + seq![s[i]]) + b);
    assert(s.remove(i) =~= a + b);
    lemma_total_size_concat(a, b);
    lemma_total_size_concat(a + seq![s[i]], b);
    lemma_total_size_concat(a, seq![s[i]]);
    lemma_total_size_one(s[i]);
}

/// The total size of one entry is its size.
pub proof fn lemma_total_size_one(e: (u64, u64, Seq<u8>))
    ensures
        total_size(seq![e]) == entry_size(e.2),
{
    assert(seq![e].drop_last() =~= Seq::<(u64, u64, Seq<u8>)>::empty());
    assert(total_size(seq![e].drop_last()) == 0);
    assert(seq![e].last() == e);
}

/// Giving up stale entries from an exact account leaves an exact account.
pub proof fn lemma_evict_keeps_account(s: Seq<(u64, u64, Seq<u8>)>, epoch: u64)
    requires
        total_size(s) <= usize::MAX,
    ensures
        size_without_stale_tail(s, epoch, total_size(s)) == total_size(without_stale_tail(s, epoch)),
    decreases s.len(),
{
    lemma_total_size_nonnegative(s);
    if s.len() > 0 && s.last().1 < epoch {
        lemma_total_size_nonnegative(s.drop_last());
        lemma_evict_keeps_account(s.drop_last(), epoch);
    }
}

/// `a + b`, or the greatest `usize` where the sum is beyond it.
pub open spec fn saturating_sum(a: int, b: int) -> int {
    if a + b > usize::MAX {
        usize::MAX as int
    } else {
        a + b
    }
}

/// `a - b`, or zero where the difference is below it.
pub open spec fn saturating_difference(a: int, b: int) -> int {
    if a < b {
        0
    } else {
        a - b
    }
}

/// The estimated size of an entry, capped at the greatest `usize`.
fn estimate(v: &Vec<u8>) -> (r: usize)
    ensures
        r == saturating_sum(entry_size(v@), 0),
{
    let base: usize = KEY_SIZE + VALUE_OVERHEAD;
    match base.checked_add(v.len()) {
        Some(x) => x,
        None => usize::MAX,
    }
}

/// A cache from keys to byte strings in order of use. It bounds memory by
/// epoch: every use stamps the entry with the current epoch, and entries
/// not used since a given epoch can be given up, least recently used
/// first.
pub struct EstimatedLruCache {
    inner: LruCache<u64, Stamped>,
    kv_heap_size: usize,
    cur_epoch: u64,
}

impl EstimatedLruCache {
    /// The entries from the most recently used to the least recently used
    /// one, each as key, epoch of last use, and value.
    pub closed spec fn entries(&self) -> Seq<(u64, u64, Seq<u8>)> {
        lru_entries(self.inner)
    }

    /// The size that the cache accounts for.
    pub closed spec fn heap_size(&self) -> int {
        self.kv_heap_size as int
    }

    /// The epoch that uses are stamped with.
    pub closed spec fn epoch(&self) -> u64 {
        self.cur_epoch
    }

    /// The number of entries that the cache holds at most.
    pub closed spec fn capacity(&self) -> nat {
        lru_cap(self.inner)
    }

    /// The account is exact: it is the estimated size of all entries.
    pub open spec fn accounted(&self) -> bool {
        self.heap_size() == total_size(self.entries())
    }

    /// An exact account stays exact when an entry is pushed, as long as
    /// the sizes stay within `usize`.
    pub proof fn law_push_keeps_account(before: Self, after: Self, k: u64, v: Seq<u8>)
        requires
            before.accounted(),
            before.heap_size() + entry_size(v) <= usize::MAX,
            before.entries().len() != before.capacity(),
            ({
                let s = before.entries();
                let i = index_of_key(s, k, 0);
                let grown = saturating_sum(before.heap_size(), saturating_sum(entry_size(v), 0));
                if has_key(s, k) {
                    &&& after.entries() == seq![(k, before.epoch(), v)] + s.remove(i)
                    &&& after.heap_size() == saturating_difference(
                        grown,
                        saturating_sum(entry_size(s[i].2), 0),
                    )
                } else {
                    &&& after.entries() == seq![(k, before.epoch(), v)] + s
                    &&& after.heap_size() == grown
                }
            }),
        ensures
            after.accounted(),
    {
        let s = before.entries();
        let i = index_of_key(s, k, 0);
        let e = (k, before.epoch(), v);
        lemma_index_of_key(s, k, 0);
        lemma_total_size_one(e);
        lemma_total_size_nonnegative(s);
        if has_key(s, k) {
            lemma_total_size_remove(s, i);
            lemma_total_size_concat(seq![e], s.remove(i));
            lemma_total_size_nonnegative(s.remove(i));
        } else {
            lemma_total_size_concat(seq![e], s);
        }
    }

    /// An exact account stays exact when stale entries are given up.
    pub proof fn law_evict_keeps_account(before: Self, after: Self, epoch: u64)
        requires
            before.accounted(),
            after.entries() == without_stale_tail(before.entries(), epoch),
            after.heap_size() == size_without_stale_tail(
                before.entries(),
                epoch,
                before.heap_size(),
            ),
        ensures
            after.accounted(),
    {
        lemma_evict_keeps_account(before.entries(), epoch);
    }

    /// A cache without entries and without a bound on their number.
    pub fn unbounded() -> (r: Self)
        ensures
            r.entries().len() == 0,
            r.heap_size() == 0,
            r.epoch() == 0,
            r.capacity() == usize::MAX,
    {
        Self { inner: lru_unbounded(), kv_heap_size: 0, cur_epoch: 0 }
    }

    /// Sets the epoch that uses are stamped with from now on.
    pub fn update_epoch(&mut self, epoch: u64)
        ensures
            final(self).epoch() == epoch,
            final(self).entries() == old(self).entries(),
            final(self).heap_size() == old(self).heap_size(),
            final(self).capacity() == old(self).capacity(),
    {
        self.cur_epoch = epoch;
    }

    pub fn current_epoch(&mut self) -> (r: u64)
        ensures
            r == old(self).epoch(),
            final(self).epoch() == old(self).epoch(),
            final(self).capacity() == old(self).capacity(),
            final(self).entries() == old(self).entries(),
            final(self).heap_size() == old(self).heap_size(),
    {
        self.cur_epoch
    }

    pub fn len(&self) -> (r: usize)
        ensures
            r == self.entries().len(),
    {
        lru_len(&self.inner)
    }

    pub fn is_empty(&self) -> (r: bool)
        ensures
            r == (self.entries().len() == 0),
    {
        lru_len(&self.inner) == 0
    }

    /// Whether the cache holds the key. The order of use stays as it is.
    pub fn contains(&self, k: u64) -> (r: bool)
        ensures
            r == has_key(self.entries(), k),
    {
        lru_contains(&self.inner, k)
    }

    /// The estimated size in bytes of what the cache holds.
    pub fn estimated_heap_size(&self) -> (r: usize)
        ensures
            r == self.heap_size(),
    {
        self.kv_heap_size
    }

    /// Gives up every entry. The account of the sizes goes back to zero
    /// with them, so that it remains the sum over the entries that the cache
    /// holds.
    pub fn clear(&mut self)
        ensures
            final(self).entries().len() == 0,
            final(self).heap_size() == 0,
            final(self).epoch() == old(self).epoch(),
            final(self).capacity() == old(self).capacity(),
    {
        lru_clear(&mut self.inner);
        self.kv_heap_size = 0;
    }

    /// The values from the most recently used entry to the least recently
    /// used one.
    pub fn values(&self) -> (r: Vec<&Vec<u8>>)
        ensures
            r.len() == self.entries().len(),
            forall|i: int| 0 <= i < r.len() ==> (#[trigger] r[i])@ == self.entries()[i].2,
    {
        lru_values(&self.inner)
    }

    /// Looks the key up. An entry that is found becomes the most recently
    /// used one and is stamped with the current epoch.
    pub fn get(&mut self, k: u64) -> (r: Option<&Vec<u8>>)
        ensures
            final(self).epoch() == old(self).epoch(),
            final(self).capacity() == old(self).capacity(),
            final(self).heap_size() == old(self).heap_size(),
            ({
                let before = old(self).entries();
                let i = index_of_key(before, k, 0);
                match r {
                    Some(v) => {
                        &&& has_key(before, k)
                        &&& v@ == before[i].2
                        &&& final(self).entries() == seq![(k, old(self).epoch(), before[i].2)]
                            + before.remove(i)
                    },
                    None => !has_key(before, k) && final(self).entries() == before,
                }
            }),
    {
        let epoch = self.cur_epoch;
        match lru_get_mut(&mut self.inner, k) {
            Some(e) => {
                e.0 = epoch;
                Some(&e.1)
            },
            None => None,
        }
    }

    /// Puts an entry into the cache as the most recently used one, stamped
    /// with the current epoch, and adds its size to the account. Returns
    /// the entry that had the key before, whose size leaves the account.
    /// A cache that holds as many entries as it can gives up its least
    /// recently used entry for a new key, and returns that entry.
    pub fn push(&mut self, k: u64, v: Vec<u8>) -> (r: Option<(u64, Vec<u8>)>)
        ensures
            final(self).epoch() == old(self).epoch(),
            final(self).capacity() == old(self).capacity(),
            ({
                let before = old(self).entries();
                let i = index_of_key(before, k, 0);
                let grown = saturating_sum(old(self).heap_size(), saturating_sum(entry_size(v@), 0));
                if has_key(before, k) {
                    &&& final(self).entries() == seq![(k, old(self).epoch(), v@)] + before.remove(i)
                    &&& r matches Some(old_entry)
                    &&& old_entry.0 == k
                    &&& old_entry.1@ == before[i].2
                    &&& final(self).heap_size() == saturating_difference(
                        grown,
                        saturating_sum(entry_size(before[i].2), 0),
                    )
                } else if before.len() == old(self).capacity() {
                    &&& final(self).entries() == seq![(k, old(self).epoch(), v@)]
                        + before.drop_last()
                    &&& r matches Some(old_entry)
                    &&& old_entry.0 == before.last().0
                    &&& old_entry.1@ == before.last().2
                    &&& final(self).heap_size() == saturating_difference(
                        grown,
                        saturating_sum(entry_size(before.last().2), 0),
                    )
                } else {
                    &&& final(self).entries() == seq![(k, old(self).epoch(), v@)] + before
                    &&& r is None
                    &&& final(self).heap_size() == grown
                }
            }),
    {
        let ghost before = self.entries();
        proof {
            lemma_index_of_key(before, k, 0);
        }
        let added = estimate(&v);
        self.kv_heap_size = match self.kv_heap_size.checked_add(added) {
            Some(x) => x,
            None => usize::MAX,
        };
        match lru_push(&mut self.inner, k, self.cur_epoch, v) {
            Some((old_key, (_, old_val))) => {
                let removed = estimate(&old_val);
                self.kv_heap_size = if self.kv_heap_size < removed {
                    0
                } else {
                    self.kv_heap_size - removed
                };
                Some((old_key, old_val))
            },
            None => None,
        }
    }

    /// Gives up the least recently used entries that were last used before
    /// `epoch`, and takes their sizes off the account.
    pub fn evict_by_epoch(&mut self, epoch: u64)
        ensures
            final(self).entries() == without_stale_tail(old(self).entries(), epoch),
            final(self).epoch() == old(self).epoch(),
            final(self).capacity() == old(self).capacity(),
            final(self).heap_size() == size_without_stale_tail(
                old(self).entries(),
                epoch,
                old(self).heap_size(),
            ),
    {
        let mut go = true;
        while go
            invariant
                self.epoch() == old(self).epoch(),
                self.capacity() == old(self).capacity(),
                without_stale_tail(old(self).entries(), epoch) == without_stale_tail(
                    self.entries(),
                    epoch,
                ),
                size_without_stale_tail(old(self).entries(), epoch, old(self).heap_size())
                    == size_without_stale_tail(self.entries(), epoch, self.heap_size()),
                !go ==> without_stale_tail(self.entries(), epoch) == self.entries()
                    && size_without_stale_tail(self.entries(), epoch, self.heap_size())
                    == self.heap_size(),
            decreases self.entries().len() + if go { 1int } else { 0int },
        {
            match lru_peek_lru_epoch(&self.inner) {
                Some(stamp) => {
                    if stamp < epoch {
                        match lru_pop_lru(&mut self.inner) {
                            Some((_, (_, value))) => {
                                let removed = estimate(&value);
                                self.kv_heap_size = if self.kv_heap_size < removed {
                                    0
                                } else {
                                    self.kv_heap_size - removed
                                };
                            },
                            None => {
                                go = false;
                            },
                        }
                    } else {
                        go = false;
                    }
                },
                None => {
                    go = false;
                },
            }
        }
    }
}

} // verus!
