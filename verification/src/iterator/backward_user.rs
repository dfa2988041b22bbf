//! The iterator that a read sees when it walks backwards.
//!
//! Walking backwards, the versions of a user key come from the oldest to
//! the newest, so the version to show is the last one that the read epoch
//! sees. It is known only when the walk has passed it, and is held back
//! until then.

use vstd::prelude::*;
use crate::iterator::user::{
    bound_view, presentable, tombstone_covers, tombstones_view, RangeTombstone,
    ReadView};
use crate::iterator::{
    compare_user_key_pair, entries_from, lemma_entries_from_user_key, DirectionEnum, EntryView,
    FullKey, HummockIterator, HummockIteratorDirection, HummockValue, UserKey,
};
use crate::key::{compare_byte_strings, KeyOrder};
use crate::store::StorageError;

verus! {

/// The entry that was held back, if it is to be shown.
pub open spec fn emitted(pending: Option<EntryView>, r: ReadView) -> Seq<EntryView> {
    if pending is Some && presentable(pending->0, r) {
        seq![pending->0]
    } else {
        Seq::empty()
    }
}

/// What is held back once the entry `e` has been met.
pub open spec fn held_after(pending: Option<EntryView>, e: EntryView, r: ReadView) -> Option<
    EntryView,
> {
    if e.key.epoch <= r.read_epoch {
        Some(e)
    } else if pending is Some && pending->0.key.user_key == e.key.user_key {
        pending
    } else {
        None
    }
}

/// What a backward read is shown of the entries `rem`, given the entry
/// that is held back.
///
/// An entry of the user key of the held entry replaces it if the read
/// epoch sees the entry, and is passed if not. An entry of another key
/// releases the held entry, which is shown if it is presentable.
pub open spec fn shown_back(rem: Seq<EntryView>, pending: Option<EntryView>, r: ReadView) -> Seq<
    EntryView,
>
    decreases rem.len(),
{
    if rem.len() == 0 {
        emitted(pending, r)
    } else {
        let e = rem[0];
        let rest = rem.drop_first();
        if pending is Some && pending->0.key.user_key == e.key.user_key {
            shown_back(rest, held_after(pending, e, r), r)
        } else {
            emitted(pending, r) + shown_back(rest, held_after(pending, e, r), r)
        }
    }
}

/// A backward iterator that shows what a read at one epoch sees.
pub struct BackwardUserIterator<I: HummockIterator> {
    iterator: I,
    read_epoch: u64,
    table_id: u32,
    key_range: (Option<Vec<u8>>, Option<Vec<u8>>),
    delete_ranges: Vec<RangeTombstone>,
    pending: Option<(FullKey, HummockValue)>,
    current: Option<(FullKey, Vec<u8>)>,
}

/// The entry at the position, as a value.
pub open spec fn current_view(c: Option<(FullKey, Vec<u8>)>) -> Option<EntryView> {
    match c {
        Some((k, v)) => Some(EntryView { key: k@, value: Some(v@) }),
        None => None,
    }
}

/// The entry that is held back, as a value.
pub open spec fn pending_view(p: Option<(FullKey, HummockValue)>) -> Option<EntryView> {
    match p {
        Some((k, v)) => Some(EntryView { key: k@, value: v@ }),
        None => None,
    }
}

impl<I: HummockIterator> BackwardUserIterator<I> {
    /// What the read asks for.
    pub closed spec fn read(&self) -> ReadView {
        ReadView {
            read_epoch: self.read_epoch,
            table_id: self.table_id,
            lower: bound_view(self.key_range.0),
            upper: bound_view(self.key_range.1),
            tombstones: tombstones_view(self.delete_ranges@),
        }
    }

    /// The entries that the iterator under this one walks.
    pub closed spec fn source(&self) -> Seq<EntryView> {
        self.iterator.all()
    }

    /// The entries still to be shown, the one at the position first.
    pub closed spec fn output(&self) -> Seq<EntryView> {
        match current_view(self.current) {
            Some(e) => seq![e] + shown_back(
                self.iterator.remaining(),
                pending_view(self.pending),
                self.read(),
            ),
            None => Seq::empty(),
        }
    }

    /// Nothing that the iterator under this one reads can fail to be read
    /// or decoded, so none of the moves of this iterator returns an error.
    pub closed spec fn never_fails(&self) -> bool {
        self.iterator.never_fails()
    }

    /// The iterator is in a state that its operations can start from.
    pub closed spec fn wf(&self) -> bool {
        self.iterator.wf() && I::Direction::spec_direction() == DirectionEnum::Backward
    }

    /// A user iterator over a backward iterator, not yet at any position.
    pub fn new(
        iterator: I,
        read_epoch: u64,
        table_id: u32,
        key_range: (Option<Vec<u8>>, Option<Vec<u8>>),
        delete_ranges: Vec<RangeTombstone>,
    ) -> (r: Self)
        requires
            iterator.wf(),
            I::Direction::spec_direction() == DirectionEnum::Backward,
        ensures
            r.wf(),
            r.source() == iterator.all(),
            r.never_fails() == iterator.never_fails(),
            r.output().len() == 0,
            r.read() == (ReadView {
                read_epoch,
                table_id,
                lower: bound_view(key_range.0),
                upper: bound_view(key_range.1),
                tombstones: tombstones_view(delete_ranges@),
            }),
    {
        Self {
            iterator,
            read_epoch,
            table_id,
            key_range,
            delete_ranges,
            pending: None,
            current: None,
        }
    }

    /// Whether the entry is to be shown.
    fn is_presentable(&self, key: &FullKey, value: &HummockValue) -> (r: bool)
        ensures
            r == presentable(EntryView { key: key@, value: value@ }, self.read()),
    {
        let ghost e = EntryView { key: key@, value: value@ };
        match value {
            HummockValue::Delete => {
                return false;
            },
            HummockValue::Put(_) => {},
        }
        if key.user_key.table_id != self.table_id {
            return false;
        }
        let above = match &self.key_range.0 {
            Some(lower) => compare_byte_strings(lower, &key.user_key.table_key) != KeyOrder::Greater,
            None => true,
        };
        let below = match &self.key_range.1 {
            Some(upper) => compare_byte_strings(&key.user_key.table_key, upper) == KeyOrder::Less,
            None => true,
        };
        if !(above && below) {
            return false;
        }
        let ghost ts = tombstones_view(self.delete_ranges@);
        let mut k: usize = 0;
        while k < self.delete_ranges.len()
            invariant
                k <= self.delete_ranges.len(),
                ts == tombstones_view(self.delete_ranges@),
                e == (EntryView { key: key@, value: value@ }),
                forall|j: int| 0 <= j < k ==> !tombstone_covers(#[trigger] ts[j], e, self.read_epoch),
            decreases self.delete_ranges.len() - k,
        {
            let t = &self.delete_ranges[k];
            assert(ts[k as int] == t@);
            if t.epoch <= self.read_epoch && t.epoch >= key.epoch && compare_user_key_pair(
                &t.start,
                &key.user_key,
            ) != KeyOrder::Greater && compare_user_key_pair(&key.user_key, &t.end) == KeyOrder::Less {
                assert(tombstone_covers(self.read().tombstones[k as int], e, self.read().read_epoch));
                return false;
            }
            k += 1;
        }
        true
    }

    /// Shows the entry that is released, if it is to be shown.
    fn release(&mut self, released: Option<(FullKey, HummockValue)>) -> (r: bool)
        requires
            old(self).current is None,
        ensures
            final(self).iterator == old(self).iterator,
            final(self).pending == old(self).pending,
            final(self).read() == old(self).read(),
            final(self).wf() == old(self).wf(),
            r == (emitted(pending_view(released), old(self).read()).len() > 0),
            r ==> current_view(final(self).current) == pending_view(released),
            !r ==> final(self).current is None,
    {
        match released {
            Some((key, value)) => {
                if self.is_presentable(&key, &value) {
                    match value {
                        HummockValue::Put(v) => {
                            self.current = Some((key, v));
                            true
                        },
                        HummockValue::Delete => false,
                    }
                } else {
                    false
                }
            },
            None => false,
        }
    }

    /// Moves on to the next entry that the read is shown.
    fn find_next(&mut self) -> (r: Result<(), StorageError>)
        requires
            old(self).wf(),
        ensures
            final(self).wf(),
            final(self).source() == old(self).source(),
            final(self).read() == old(self).read(),
            final(self).never_fails() == old(self).never_fails(),
            old(self).never_fails() ==> r is Ok,
            r is Ok ==> final(self).output() == shown_back(
                old(self).iterator.remaining(),
                pending_view(old(self).pending),
                old(self).read(),
            ),
    {
        let ghost target = shown_back(
            self.iterator.remaining(),
            pending_view(self.pending),
            self.read(),
        );
        self.current = None;
        while self.iterator.is_valid()
            invariant
                self.wf(),
                self.current is None,
                self.source() == old(self).source(),
                self.read() == old(self).read(),
                self.never_fails() == old(self).never_fails(),
                target == shown_back(
                    old(self).iterator.remaining(),
                    pending_view(old(self).pending),
                    old(self).read(),
                ),
                target == shown_back(
                    self.iterator.remaining(),
                    pending_view(self.pending),
                    self.read(),
                ),
            decreases self.iterator.remaining().len(),
        {
            let ghost rem = self.iterator.remaining();
            let ghost read = self.read();
            let ghost held = pending_view(self.pending);
            let key = self.iterator.key();
            let value = self.iterator.value();
            let ghost e = rem[0];
            assert(e =~~= (EntryView { key: key@, value: value@ }));
            let same_key = match &self.pending {
                Some((k, _)) => compare_user_key_pair(&k.user_key, &key.user_key) == KeyOrder::Equal,
                None => false,
            };
            proof {
                if self.pending is Some {
                    crate::laws::key_order::lemma_user_keys_equal(
                        pending_view(self.pending)->0.key.user_key,
                        key@.user_key,
                    );
                }
            }
            let visible = key.epoch <= self.read_epoch;
            match self.iterator.next() {
                Ok(()) => {},
                Err(err) => {
                    return Err(err);
                },
            }
            if same_key {
                if visible {
                    self.pending = Some((key, value));
                }
                assert(pending_view(self.pending) == held_after(held, e, read));
            } else {
                let mut released: Option<(FullKey, HummockValue)> = if visible {
                    Some((key, value))
                } else {
                    None
                };
                core::mem::swap(&mut self.pending, &mut released);
                assert(pending_view(self.pending) == held_after(held, e, read));
                assert(pending_view(released) == held);
                if self.release(released) {
                    assert(self.output() =~= target);
                    return Ok(());
                }
                assert(emitted(held, read).len() == 0);
                assert(target =~= shown_back(rem.drop_first(), held_after(held, e, read), read));
            }
        }
        let ghost held = pending_view(self.pending);
        let mut released: Option<(FullKey, HummockValue)> = None;
        core::mem::swap(&mut self.pending, &mut released);
        assert(self.iterator.remaining().len() == 0);
        if self.release(released) {
            assert(self.output() =~= target);
        }
        Ok(())
    }

    /// Moves to the first entry that the read is shown.
    pub fn rewind(&mut self) -> (r: Result<(), StorageError>)
        requires
            old(self).wf(),
        ensures
            final(self).wf(),
            final(self).source() == old(self).source(),
            final(self).read() == old(self).read(),
            final(self).never_fails() == old(self).never_fails(),
            old(self).never_fails() ==> r is Ok,
            r is Ok ==> final(self).output() == shown_back(old(self).source(), None, old(self).read()),
    {
        self.current = None;
        self.pending = None;
        match self.iterator.rewind() {
            Ok(()) => {},
            Err(err) => {
                return Err(err);
            },
        }
        self.find_next()
    }

    /// Moves to the first entry that the read is shown of those whose user
    /// key does not come after `key`.
    pub fn seek(&mut self, key: &UserKey) -> (r: Result<(), StorageError>)
        requires
            old(self).wf(),
        ensures
            final(self).wf(),
            final(self).source() == old(self).source(),
            final(self).read() == old(self).read(),
            final(self).never_fails() == old(self).never_fails(),
            old(self).never_fails() ==> r is Ok,
            r is Ok ==> final(self).output() == shown_back(
                entries_from(DirectionEnum::Backward, old(self).source(), key@),
                None,
                old(self).read(),
            ),
    {
        self.current = None;
        self.pending = None;
        let first = FullKey { user_key: key.clone(), epoch: 0 };
        match self.iterator.seek(&first) {
            Ok(()) => {},
            Err(err) => {
                return Err(err);
            },
        }
        proof {
            lemma_entries_from_user_key(DirectionEnum::Backward, self.iterator.all(), key@);
        }
        self.find_next()
    }

    /// Moves to the next entry that the read is shown.
    pub fn next(&mut self) -> (r: Result<(), StorageError>)
        requires
            old(self).wf(),
            old(self).output().len() > 0,
        ensures
            final(self).wf(),
            final(self).source() == old(self).source(),
            final(self).read() == old(self).read(),
            final(self).never_fails() == old(self).never_fails(),
            old(self).never_fails() ==> r is Ok,
            r is Ok ==> final(self).output() == old(self).output().drop_first(),
    {
        let ghost rest = shown_back(
            self.iterator.remaining(),
            pending_view(self.pending),
            self.read(),
        );
        assert(self.output().drop_first() =~= rest);
        self.find_next()
    }

    /// From its first position on the iterator shows exactly the entries
    /// that are the last of their user key which the read epoch sees, and
    /// that are presentable.
    pub proof fn law_shows_what_the_read_sees(&self)
        requires
            self.wf(),
        ensures
            shown_back(self.source(), None, self.read())
                == crate::laws::visibility::visible_back_from(self.source(), 0, self.read()),
    {
        self.iterator.lemma_sorted();
        crate::laws::visibility::law_backward_read_shows_last_seen(self.source(), self.read());
    }

    /// Whether an entry is left to be shown.
    pub fn is_valid(&self) -> (r: bool)
        ensures
            r == (self.output().len() > 0),
    {
        self.current.is_some()
    }

    /// The key of the entry at the position.
    pub fn key(&self) -> (r: &FullKey)
        requires
            self.output().len() > 0,
        ensures
            r@ == self.output()[0].key,
    {
        match &self.current {
            Some((k, _)) => k,
            None => vstd::pervasive::unreached(),
        }
    }

    /// The value of the entry at the position.
    pub fn value(&self) -> (r: &Vec<u8>)
        requires
            self.output().len() > 0,
        ensures
            Some(r@) == self.output()[0].value,
    {
        match &self.current {
            Some((_, v)) => v,
            None => vstd::pervasive::unreached(),
        }
    }
}

} // verus!
