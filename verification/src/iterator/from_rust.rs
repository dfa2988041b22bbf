//! An iterator over a sorted batch that lives in memory.
//!
//! All entries of a batch belong to one table and were written at one
//! epoch. The batch holds them in ascending order of their keys, each key
//! once.

use vstd::prelude::*;
use crate::iterator::{
    count_before, key_before, DirectionEnum, EntryView, Forward,
    FullKey, FullKeyView, HummockIterator, HummockValue, UserKey, UserKeyView};
use crate::key::{compare_byte_strings, compare_bytes, KeyOrder};
use crate::laws::key_order::{lemma_compare_equal, lemma_compare_reverse_from};
use crate::sstable::copy_bytes;
use crate::store::StorageError;

verus! {

/// One item of a batch: the key within the table, and what was written.
pub type BatchItem = (Vec<u8>, HummockValue);

/// The keys of the batch ascend strictly.
pub open spec fn batch_sorted(items: Seq<BatchItem>) -> bool {
    forall|i: int, j: int|
        0 <= i < j < items.len() ==> compare_bytes(items[i].0@, items[j].0@) == KeyOrder::Less
}

/// The entries that a batch holds for its table at its epoch.
pub open spec fn batch_entries(items: Seq<BatchItem>, table_id: u32, epoch: u64) -> Seq<EntryView> {
    Seq::new(
        items.len(),
        |i: int|
            EntryView {
                key: FullKeyView {
                    user_key: UserKeyView { table_id, table_key: items[i].0@ },
                    epoch,
                },
                value: items[i].1@,
            },
    )
}

/// A prefix of entries that all come before `key`, followed by one that
/// does not or by nothing, is what [`count_before`] counts.
pub proof fn lemma_count_before_is(d: DirectionEnum, s: Seq<EntryView>, key: FullKeyView, n: int)
    requires
        0 <= n <= s.len(),
        forall|i: int| 0 <= i < n ==> key_before(d, (#[trigger] s[i]).key, key),
        n < s.len() ==> !key_before(d, s[n].key, key),
    ensures
        count_before(d, s, key) == n,
    decreases n,
{
    if n > 0 {
        assert(key_before(d, s[0].key, key));
        assert forall|i: int| 0 <= i < n - 1 implies key_before(
            d,
            (#[trigger] s.drop_first()[i]).key,
            key,
        ) by {
            assert(s.drop_first()[i] == s[i + 1]);
        }
        if n - 1 < s.drop_first().len() {
            assert(s.drop_first()[n - 1] == s[n]);
        }
        lemma_count_before_is(d, s.drop_first(), key, n - 1);
    }
}

/// Decides [`batch_sorted`].
pub fn is_sorted_batch(items: &Vec<BatchItem>) -> (r: bool)
    ensures
        r == batch_sorted(items@),
{
    let mut i: usize = 1;
    while i < items.len()
        invariant
            1 <= i,
            forall|a: int, b: int|
                0 <= a < b < i && b < items.len() ==> compare_bytes(items[a].0@, items[b].0@)
                    == KeyOrder::Less,
        decreases items.len() - i,
    {
        if compare_byte_strings(&items[i - 1].0, &items[i].0) != KeyOrder::Less {
            return false;
        }
        proof {
            assert forall|a: int, b: int| 0 <= a < b < i + 1 && b < items.len() implies compare_bytes(
                items[a].0@,
                items[b].0@,
            ) == KeyOrder::Less by {
                if b == i && a < i - 1 {
                    crate::laws::key_order::lemma_order_transitive(
                        items[a].0@,
                        items[i - 1].0@,
                        items[i as int].0@,
                    );
                }
            }
        }
        i += 1;
    }
    true
}

/// A forward iterator over a batch.
pub struct FromRustIterator<'a> {
    inner: &'a Vec<BatchItem>,
    iter: Option<usize>,
    epoch: u64,
    table_id: u32,
}

impl<'a> FromRustIterator<'a> {
    /// An iterator over `inner`, not yet at any position.
    pub fn new(inner: &'a Vec<BatchItem>, epoch: u64, table_id: u32) -> (r: Self)
        requires
            batch_sorted(inner@),
        ensures
            r.wf(),
            r.all() == batch_entries(inner@, table_id, epoch),
            r.remaining().len() == 0,
    {
        Self { inner, iter: None, epoch, table_id }
    }

    /// The first position whose key is not below `table_key`.
    fn lower_bound(&self, table_key: &Vec<u8>) -> (r: usize)
        ensures
            r <= self.inner.len(),
            forall|i: int|
                0 <= i < r ==> compare_bytes((#[trigger] self.inner[i]).0@, table_key@)
                    == KeyOrder::Less,
            r < self.inner.len() ==> compare_bytes(self.inner[r as int].0@, table_key@)
                != KeyOrder::Less,
    {
        let mut i: usize = 0;
        while i < self.inner.len() && compare_byte_strings(&self.inner[i].0, table_key)
            == KeyOrder::Less
            invariant
                i <= self.inner.len(),
                forall|k: int|
                    0 <= k < i ==> compare_bytes((#[trigger] self.inner[k]).0@, table_key@)
                        == KeyOrder::Less,
            decreases self.inner.len() - i,
        {
            i += 1;
        }
        i
    }

    /// Puts the iterator at position `p`, or past the end.
    fn place(&mut self, p: usize)
        requires
            old(self).wf(),
            p <= old(self).inner.len(),
        ensures
            final(self).wf(),
            final(self).all() == old(self).all(),
            final(self).remaining() == old(self).all().skip(p as int),
            final(self).inner == old(self).inner,
            final(self).epoch == old(self).epoch,
            final(self).table_id == old(self).table_id,
    {
        if p < self.inner.len() {
            self.iter = Some(p);
        } else {
            self.iter = None;
            assert(self.all().skip(p as int) =~= Seq::<EntryView>::empty());
        }
    }
}

impl<'a> HummockIterator for FromRustIterator<'a> {
    type Direction = Forward;

    closed spec fn all(&self) -> Seq<EntryView> {
        batch_entries(self.inner@, self.table_id, self.epoch)
    }

    closed spec fn remaining(&self) -> Seq<EntryView> {
        match self.iter {
            Some(p) => self.all().skip(p as int),
            None => Seq::empty(),
        }
    }

    closed spec fn wf(&self) -> bool {
        &&& batch_sorted(self.inner@)
        &&& self.iter matches Some(p) ==> p < self.inner.len()
    }

    open spec fn never_fails(&self) -> bool {
        true
    }

    proof fn lemma_sorted(&self) {
        let s = self.all();
        assert forall|i: int, j: int| 0 <= i < j < s.len() implies !key_before(
            DirectionEnum::Forward,
            s[j].key,
            s[i].key,
        ) by {
            let items = self.inner@;
            assert(compare_bytes(items[i].0@, items[j].0@) == KeyOrder::Less);
            lemma_compare_reverse_from(items[i].0@, items[j].0@, 0);
            assert(compare_bytes(items[j].0@, items[i].0@) == KeyOrder::Greater);
            assert(s[j].key.user_key.table_key == items[j].0@);
            assert(s[i].key.user_key.table_key == items[i].0@);
        }
    }

    fn is_valid(&self) -> (r: bool) {
        self.iter.is_some()
    }

    fn key(&self) -> (r: FullKey) {
        match self.iter {
            Some(p) => FullKey {
                user_key: UserKey {
                    table_id: self.table_id,
                    table_key: copy_bytes(&self.inner[p].0),
                },
                epoch: self.epoch,
            },
            None => FullKey { user_key: UserKey { table_id: 0, table_key: Vec::new() }, epoch: 0 },
        }
    }

    fn value(&self) -> (r: HummockValue) {
        match self.iter {
            Some(p) => self.inner[p].1.clone(),
            None => HummockValue::Delete,
        }
    }

    fn next(&mut self) -> (r: Result<(), StorageError>) {
        match self.iter {
            Some(p) => {
                let ghost before = self.remaining();
                self.place(p + 1);
                assert(self.remaining() =~= before.drop_first());
            },
            None => {},
        }
        Ok(())
    }

    fn rewind(&mut self) -> (r: Result<(), StorageError>) {
        self.place(0);
        assert(self.all().skip(0) =~= self.all());
        Ok(())
    }

    fn seek(&mut self, key: &FullKey) -> (r: Result<(), StorageError>) {
        let ghost s = self.all();
        let ghost d = DirectionEnum::Forward;
        if self.table_id < key.user_key.table_id {
            // Every key of the batch lies below the key that is sought.
            proof {
                lemma_count_before_is(d, s, key@, s.len() as int);
                assert(s.skip(s.len() as int) =~= Seq::<EntryView>::empty());
            }
            self.iter = None;
            return Ok(());
        }
        if self.table_id > key.user_key.table_id {
            proof {
                lemma_count_before_is(d, s, key@, 0);
            }
            return self.rewind();
        }
        let p = self.lower_bound(&key.user_key.table_key);
        let skip = p < self.inner.len() && compare_byte_strings(
            &self.inner[p].0,
            &key.user_key.table_key,
        ) == KeyOrder::Equal && self.epoch > key.epoch;
        // An entry with the key that is sought, written at a newer epoch
        // than the one sought, comes before what is sought and is passed.
        let target: usize = if skip {
            p + 1
        } else {
            p
        };
        proof {
            assert forall|i: int| 0 <= i < target implies key_before(d, (#[trigger] s[i]).key, key@) by {
                if i < p {
                } else {
                }
            }
            if target < s.len() {
                if skip {
                    lemma_compare_equal(self.inner[p as int].0@, key@.user_key.table_key);
                    assert(compare_bytes(self.inner[p as int].0@, self.inner[p + 1].0@)
                        == KeyOrder::Less);
                    lemma_compare_reverse_from(self.inner[p as int].0@, self.inner[p + 1].0@, 0);
                }
            }
            lemma_count_before_is(d, s, key@, target as int);
        }
        self.place(target);
        Ok(())
    }
}

} // verus!
