//! The iterator that a read sees.
//!
//! Of all versions of a user key it shows the newest one that the read
//! epoch may see, and only if that version is a value rather than a
//! deletion, lies under no range tombstone, and belongs to the table that
//! is read. A deletion is seen as absence.

use vstd::prelude::*;
use crate::iterator::{
    compare_user_key_pair, compare_user_keys, entries_from, lemma_entries_from_user_key,
    DirectionEnum, EntryView, FullKey, HummockIterator, HummockIteratorDirection, HummockValue,
    UserKey, UserKeyView,
};
use crate::key::{compare_byte_strings, compare_bytes, KeyOrder};
use crate::sstable::copy_bytes;
use crate::store::{StateStoreIter, StorageError};

verus! {

/// The deletion of all keys from `start` up to, but without, `end`, made
/// at `epoch`.
#[derive(Debug, Default, PartialEq, Eq)]
pub struct RangeTombstone {
    pub start: UserKey,
    pub end: UserKey,
    pub epoch: u64,
}

/// Mathematical value of a [`RangeTombstone`].
#[verifier::ext_equal]
pub struct TombstoneView {
    pub start: UserKeyView,
    pub end: UserKeyView,
    pub epoch: u64,
}

impl View for RangeTombstone {
    type V = TombstoneView;

    open spec fn view(&self) -> TombstoneView {
        TombstoneView { start: self.start@, end: self.end@, epoch: self.epoch }
    }
}

/// The values of a list of tombstones.
pub open spec fn tombstones_view(s: Seq<RangeTombstone>) -> Seq<TombstoneView> {
    s.map_values(|t: RangeTombstone| t@)
}

/// What a read asks for: the epoch it reads at, the table it reads, the
/// keys within the table that it wants, from `lower` up to, but without,
/// `upper`, and the range tombstones it has to honour.
#[verifier::ext_equal]
pub struct ReadView {
    pub read_epoch: u64,
    pub table_id: u32,
    pub lower: Option<Seq<u8>>,
    pub upper: Option<Seq<u8>>,
    pub tombstones: Seq<TombstoneView>,
}

/// The key within the table lies in the range that the read wants.
pub open spec fn in_bounds(table_key: Seq<u8>, r: ReadView) -> bool {
    &&& r.lower matches Some(lower) ==> compare_bytes(lower, table_key) != KeyOrder::Greater
    &&& r.upper matches Some(upper) ==> compare_bytes(table_key, upper) == KeyOrder::Less
}

/// The tombstone deletes the entry for the read: the read sees the
/// tombstone, the tombstone is not older than the entry, and the key of
/// the entry lies in its range.
pub open spec fn tombstone_covers(t: TombstoneView, e: EntryView, read_epoch: u64) -> bool {
    &&& t.epoch <= read_epoch
    &&& t.epoch >= e.key.epoch
    &&& compare_user_keys(t.start, e.key.user_key) != KeyOrder::Greater
    &&& compare_user_keys(e.key.user_key, t.end) == KeyOrder::Less
}

/// One of the tombstones of the read deletes the entry.
pub open spec fn covered(e: EntryView, r: ReadView) -> bool {
    exists|k: int|
        0 <= k < r.tombstones.len() && tombstone_covers(#[trigger] r.tombstones[k], e, r.read_epoch)
}

/// The entry is a value of the table that is read, its key is wanted, and
/// no tombstone deletes it.
pub open spec fn presentable(e: EntryView, r: ReadView) -> bool {
    &&& e.value is Some
    &&& !covered(e, r)
    &&& e.key.user_key.table_id == r.table_id
    &&& in_bounds(e.key.user_key.table_key, r)
}

/// What the read is shown of the entries `rem`, given the user key that
/// was settled last.
///
/// An entry of the settled key is passed, and so is an entry that the
/// read epoch does not see yet. The first entry of a key that the read
/// sees settles the key: it is shown if it is presentable, and in no case
/// is another entry of the key shown.
pub open spec fn shown_rest(rem: Seq<EntryView>, done: Option<UserKeyView>, r: ReadView) -> Seq<
    EntryView,
>
    decreases rem.len(),
{
    if rem.len() == 0 {
        Seq::empty()
    } else {
        let e = rem[0];
        let rest = rem.drop_first();
        if done == Some(e.key.user_key) || e.key.epoch > r.read_epoch {
            shown_rest(rest, done, r)
        } else if presentable(e, r) {
            seq![e] + shown_rest(rest, Some(e.key.user_key), r)
        } else {
            shown_rest(rest, Some(e.key.user_key), r)
        }
    }
}

/// A forward iterator that shows what a read at one epoch sees.
pub struct UserIterator<I: HummockIterator> {
    iterator: I,
    read_epoch: u64,
    table_id: u32,
    key_range: (Option<Vec<u8>>, Option<Vec<u8>>),
    delete_ranges: Vec<RangeTombstone>,
    last_key: Option<UserKey>,
    current: Option<(FullKey, Vec<u8>)>,
}

/// A bound of the wanted range, as a value.
pub open spec fn bound_view(b: Option<Vec<u8>>) -> Option<Seq<u8>> {
    match b {
        Some(k) => Some(k@),
        None => None,
    }
}

/// The key that was settled last, as a value.
pub open spec fn done_view(k: Option<UserKey>) -> Option<UserKeyView> {
    match k {
        Some(u) => Some(u@),
        None => None,
    }
}

impl<I: HummockIterator> UserIterator<I> {
    /// What the read asks for.
    pub closed spec fn read(&self) -> ReadView {
        ReadView {
            read_epoch: self.read_epoch,
            table_id: self.table_id,
            lower: bound_view(self.key_range.0),
            upper: bound_view(self.key_range.1),
            tombstones: tombstones_view(self.delete_ranges@),
        }
    }

    /// The entries that the iterator under this one walks.
    pub closed spec fn source(&self) -> Seq<EntryView> {
        self.iterator.all()
    }

    /// The entries still to be shown, the one at the position first.
    pub closed spec fn output(&self) -> Seq<EntryView> {
        match self.current {
            Some((k, v)) => seq![EntryView { key: k@, value: Some(v@) }] + shown_rest(
                self.iterator.remaining(),
                done_view(self.last_key),
                self.read(),
            ),
            None => Seq::empty(),
        }
    }

    /// Nothing that the iterator under this one reads can fail to be read
    /// or decoded, so none of the moves of this iterator returns an error.
    pub closed spec fn never_fails(&self) -> bool {
        self.iterator.never_fails()
    }

    /// The iterator is in a state that its operations can start from.
    pub closed spec fn wf(&self) -> bool {
        self.iterator.wf() && I::Direction::spec_direction() == DirectionEnum::Forward
    }

    /// A user iterator over a forward iterator, not yet at any position.
    pub fn new(
        iterator: I,
        read_epoch: u64,
        table_id: u32,
        key_range: (Option<Vec<u8>>, Option<Vec<u8>>),
        delete_ranges: Vec<RangeTombstone>,
    ) -> (r: Self)
        requires
            iterator.wf(),
            I::Direction::spec_direction() == DirectionEnum::Forward,
        ensures
            r.wf(),
            r.source() == iterator.all(),
            r.never_fails() == iterator.never_fails(),
            r.output().len() == 0,
            r.read() == (ReadView {
                read_epoch,
                table_id,
                lower: bound_view(key_range.0),
                upper: bound_view(key_range.1),
                tombstones: tombstones_view(delete_ranges@),
            }),
    {
        Self {
            iterator,
            read_epoch,
            table_id,
            key_range,
            delete_ranges,
            last_key: None,
            current: None,
        }
    }

    /// Whether the key within the table lies in the range that the read
    /// wants.
    fn is_in_bounds(&self, table_key: &Vec<u8>) -> (r: bool)
        ensures
            r == in_bounds(table_key@, self.read()),
    {
        let above = match &self.key_range.0 {
            Some(lower) => compare_byte_strings(lower, table_key) != KeyOrder::Greater,
            None => true,
        };
        let below = match &self.key_range.1 {
            Some(upper) => compare_byte_strings(table_key, upper) == KeyOrder::Less,
            None => true,
        };
        above && below
    }

    /// Whether a tombstone of the read deletes the entry.
    fn is_covered(&self, key: &FullKey, value: &HummockValue) -> (r: bool)
        ensures
            r == covered(EntryView { key: key@, value: value@ }, self.read()),
    {
        let ghost e = EntryView { key: key@, value: value@ };
        let ghost ts = tombstones_view(self.delete_ranges@);
        let mut k: usize = 0;
        while k < self.delete_ranges.len()
            invariant
                k <= self.delete_ranges.len(),
                ts == tombstones_view(self.delete_ranges@),
                e == (EntryView { key: key@, value: value@ }),
                forall|j: int| 0 <= j < k ==> !tombstone_covers(#[trigger] ts[j], e, self.read_epoch),
            decreases self.delete_ranges.len() - k,
        {
            let t = &self.delete_ranges[k];
            assert(ts[k as int] == t@);
            if t.epoch <= self.read_epoch && t.epoch >= key.epoch && compare_user_key_pair(
                &t.start,
                &key.user_key,
            ) != KeyOrder::Greater && compare_user_key_pair(&key.user_key, &t.end) == KeyOrder::Less {
                assert(tombstone_covers(self.read().tombstones[k as int], e, self.read().read_epoch));
                return true;
            }
            k += 1;
        }
        false
    }

    /// Moves on to the next entry that the read is shown.
    fn find_next(&mut self) -> (r: Result<(), StorageError>)
        requires
            old(self).wf(),
        ensures
            final(self).wf(),
            final(self).source() == old(self).source(),
            final(self).read() == old(self).read(),
            final(self).never_fails() == old(self).never_fails(),
            old(self).never_fails() ==> r is Ok,
            r is Ok ==> final(self).output() == shown_rest(
                old(self).iterator.remaining(),
                done_view(old(self).last_key),
                old(self).read(),
            ),
    {
        let ghost target = shown_rest(
            self.iterator.remaining(),
            done_view(self.last_key),
            self.read(),
        );
        self.current = None;
        while self.iterator.is_valid()
            invariant
                self.wf(),
                self.current is None,
                self.source() == old(self).source(),
                self.read() == old(self).read(),
                self.never_fails() == old(self).never_fails(),
                target == shown_rest(
                    old(self).iterator.remaining(),
                    done_view(old(self).last_key),
                    old(self).read(),
                ),
                target == shown_rest(
                    self.iterator.remaining(),
                    done_view(self.last_key),
                    self.read(),
                ),
            decreases self.iterator.remaining().len(),
        {
            let ghost rem = self.iterator.remaining();
            let key = self.iterator.key();
            let value = self.iterator.value();
            let ghost e = rem[0];
            assert(e =~~= (EntryView { key: key@, value: value@ }));
            let settled = match &self.last_key {
                Some(last) => compare_user_key_pair(last, &key.user_key) == KeyOrder::Equal,
                None => false,
            };
            proof {
                if self.last_key is Some {
                    crate::laws::key_order::lemma_user_keys_equal(
                        self.last_key->0@,
                        key@.user_key,
                    );
                }
            }
            if settled || key.epoch > self.read_epoch {
                match self.iterator.next() {
                    Ok(()) => {},
                    Err(err) => {
                        return Err(err);
                    },
                }
            } else {
                let covered = self.is_covered(&key, &value);
                let in_table = key.user_key.table_id == self.table_id && self.is_in_bounds(
                    &key.user_key.table_key,
                );
                let ghost done_before = done_view(self.last_key);
                let ghost read = self.read();
                assert(target == shown_rest(rem, done_before, read));
                assert(done_before != Some(e.key.user_key));
                self.last_key = Some(key.user_key.clone());
                assert(done_view(self.last_key) == Some(e.key.user_key));
                match self.iterator.next() {
                    Ok(()) => {},
                    Err(err) => {
                        return Err(err);
                    },
                }
                assert(self.iterator.remaining() == rem.drop_first());
                assert(self.read() == read);
                match value {
                    HummockValue::Put(v) => {
                        if !covered && in_table {
                            assert(presentable(e, read));
                            assert(target == seq![e] + shown_rest(
                                rem.drop_first(),
                                Some(e.key.user_key),
                                read,
                            ));
                            self.current = Some((key, v));
                            assert(self.output() =~= target);
                            return Ok(());
                        } else {
                            assert(!presentable(e, read));
                        }
                    },
                    HummockValue::Delete => {
                        assert(!presentable(e, read));
                    },
                }
            }
        }
        Ok(())
    }

    /// Moves to the first entry that the read is shown.
    pub fn rewind(&mut self) -> (r: Result<(), StorageError>)
        requires
            old(self).wf(),
        ensures
            final(self).wf(),
            final(self).source() == old(self).source(),
            final(self).read() == old(self).read(),
            final(self).never_fails() == old(self).never_fails(),
            old(self).never_fails() ==> r is Ok,
            r is Ok ==> final(self).output() == shown_rest(old(self).source(), None, old(self).read()),
    {
        self.current = None;
        self.last_key = None;
        match self.iterator.rewind() {
            Ok(()) => {},
            Err(err) => {
                return Err(err);
            },
        }
        self.find_next()
    }

    /// Moves to the first entry that the read is shown of those whose user
    /// key does not come before `key`.
    pub fn seek(&mut self, key: &UserKey) -> (r: Result<(), StorageError>)
        requires
            old(self).wf(),
        ensures
            final(self).wf(),
            final(self).source() == old(self).source(),
            final(self).read() == old(self).read(),
            final(self).never_fails() == old(self).never_fails(),
            old(self).never_fails() ==> r is Ok,
            r is Ok ==> final(self).output() == shown_rest(
                entries_from(DirectionEnum::Forward, old(self).source(), key@),
                None,
                old(self).read(),
            ),
    {
        self.current = None;
        self.last_key = None;
        let first = FullKey { user_key: key.clone(), epoch: u64::MAX };
        match self.iterator.seek(&first) {
            Ok(()) => {},
            Err(err) => {
                return Err(err);
            },
        }
        proof {
            lemma_entries_from_user_key(DirectionEnum::Forward, self.iterator.all(), key@);
        }
        self.find_next()
    }

    /// Moves to the next entry that the read is shown.
    pub fn next(&mut self) -> (r: Result<(), StorageError>)
        requires
            old(self).wf(),
            old(self).output().len() > 0,
        ensures
            final(self).wf(),
            final(self).source() == old(self).source(),
            final(self).read() == old(self).read(),
            final(self).never_fails() == old(self).never_fails(),
            old(self).never_fails() ==> r is Ok,
            r is Ok ==> final(self).output() == old(self).output().drop_first(),
    {
        let ghost before = self.output();
        let ghost rest = shown_rest(
            self.iterator.remaining(),
            done_view(self.last_key),
            self.read(),
        );
        assert(before.drop_first() =~= rest);
        self.find_next()
    }

    /// From its first position on the iterator shows exactly the entries
    /// that are the first of their user key which the read epoch sees, and
    /// that are values of the table read under no tombstone.
    pub proof fn law_shows_what_the_read_sees(&self)
        requires
            self.wf(),
        ensures
            shown_rest(self.source(), None, self.read()) == crate::laws::visibility::visible_from(
                self.source(),
                0,
                self.read(),
            ),
    {
        self.iterator.lemma_sorted();
        crate::laws::visibility::law_read_shows_first_seen(self.source(), self.read());
    }

    /// Whether an entry is left to be shown.
    pub fn is_valid(&self) -> (r: bool)
        ensures
            r == (self.output().len() > 0),
    {
        self.current.is_some()
    }

    /// The key of the entry at the position.
    pub fn key(&self) -> (r: &FullKey)
        requires
            self.output().len() > 0,
        ensures
            r@ == self.output()[0].key,
    {
        match &self.current {
            Some((k, _)) => k,
            None => vstd::pervasive::unreached(),
        }
    }

    /// The value of the entry at the position.
    pub fn value(&self) -> (r: &Vec<u8>)
        requires
            self.output().len() > 0,
        ensures
            Some(r@) == self.output()[0].value,
    {
        match &self.current {
            Some((_, v)) => v,
            None => vstd::pervasive::unreached(),
        }
    }
}

impl<I: HummockIterator> StateStoreIter for UserIterator<I> {
    type Item = (FullKey, Vec<u8>);

    open spec fn ready(&self) -> bool {
        self.wf()
    }

    open spec fn cannot_fail(&self) -> bool {
        self.never_fails()
    }

    open spec fn rest(&self) -> Seq<EntryView> {
        self.output()
    }

    open spec fn shows(item: (FullKey, Vec<u8>), e: EntryView) -> bool {
        item.0@ == e.key && Some(item.1@) == e.value
    }

    /// Hands out the entry at the position and moves on.
    fn next(&mut self) -> (r: Result<Option<(FullKey, Vec<u8>)>, StorageError>) {
        if !self.is_valid() {
            return Ok(None);
        }
        let item = (self.key().clone(), copy_bytes(self.value()));
        match UserIterator::next(self) {
            Ok(()) => Ok(Some(item)),
            Err(err) => Err(err),
        }
    }
}

} // verus!
