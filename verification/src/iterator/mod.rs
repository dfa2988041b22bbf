//! Iterators over keyed, versioned entries.
//!
//! Every iterator walks a fixed sequence of entries in the order of its
//! direction. An iterator is valid while entries remain; moving past the
//! end is no error. A returned error tells that the backing data could not
//! be read or decoded.

pub mod backward_user;
pub mod concat;
pub mod from_rust;
pub mod merge;
pub mod run;
pub mod user;

use vstd::prelude::*;
use crate::key::{compare_byte_strings, compare_bytes, KeyOrder};
use crate::sstable::copy_bytes;
use crate::store::StorageError;

verus! {

/// The two directions in which a sequence of entries can be walked.
#[derive(Clone, Copy, Debug, PartialEq, Eq, Structural)]
pub enum DirectionEnum {
    Forward,
    Backward,
}

/// The direction of an iterator, fixed by its type.
pub trait HummockIteratorDirection {
    spec fn spec_direction() -> DirectionEnum;

    fn direction() -> (r: DirectionEnum)
        ensures
            r == Self::spec_direction(),
    ;
}

/// From the lowest key to the highest; for one user key from the newest
/// epoch to the oldest.
pub struct Forward;

impl HummockIteratorDirection for Forward {
    open spec fn spec_direction() -> DirectionEnum {
        DirectionEnum::Forward
    }

    fn direction() -> (r: DirectionEnum) {
        DirectionEnum::Forward
    }
}

/// The reverse of [`Forward`].
pub struct Backward;

impl HummockIteratorDirection for Backward {
    open spec fn spec_direction() -> DirectionEnum {
        DirectionEnum::Backward
    }

    fn direction() -> (r: DirectionEnum) {
        DirectionEnum::Backward
    }
}

/// The key of a row as its table knows it: the table and the key within
/// the table.
#[derive(Debug, Default, PartialEq, Eq)]
pub struct UserKey {
    pub table_id: u32,
    pub table_key: Vec<u8>,
}

/// Mathematical value of a [`UserKey`].
#[verifier::ext_equal]
pub struct UserKeyView {
    pub table_id: u32,
    pub table_key: Seq<u8>,
}

impl View for UserKey {
    type V = UserKeyView;

    open spec fn view(&self) -> UserKeyView {
        UserKeyView { table_id: self.table_id, table_key: self.table_key@ }
    }
}

impl Clone for UserKey {
    fn clone(&self) -> (r: Self)
        ensures
            r@ == self@,
    {
        UserKey { table_id: self.table_id, table_key: copy_bytes(&self.table_key) }
    }
}

/// A user key at one epoch.
#[derive(Debug, Default, PartialEq, Eq)]
pub struct FullKey {
    pub user_key: UserKey,
    pub epoch: u64,
}

/// Mathematical value of a [`FullKey`].
#[verifier::ext_equal]
pub struct FullKeyView {
    pub user_key: UserKeyView,
    pub epoch: u64,
}

impl View for FullKey {
    type V = FullKeyView;

    open spec fn view(&self) -> FullKeyView {
        FullKeyView { user_key: self.user_key@, epoch: self.epoch }
    }
}

impl Clone for FullKey {
    fn clone(&self) -> (r: Self)
        ensures
            r@ == self@,
    {
        FullKey { user_key: self.user_key.clone(), epoch: self.epoch }
    }
}

/// What a write left behind: a value, or the mark of a deletion.
#[derive(Debug, PartialEq, Eq)]
pub enum HummockValue {
    Put(Vec<u8>),
    Delete,
}

impl View for HummockValue {
    type V = Option<Seq<u8>>;

    open spec fn view(&self) -> Option<Seq<u8>> {
        match self {
            HummockValue::Put(v) => Some(v@),
            HummockValue::Delete => None,
        }
    }
}

impl Clone for HummockValue {
    fn clone(&self) -> (r: Self)
        ensures
            r@ == self@,
    {
        match self {
            HummockValue::Put(v) => HummockValue::Put(copy_bytes(v)),
            HummockValue::Delete => HummockValue::Delete,
        }
    }
}

/// One entry as an iterator shows it: the key, and the value, which is
/// `None` for a deletion.
#[verifier::ext_equal]
pub struct EntryView {
    pub key: FullKeyView,
    pub value: Option<Seq<u8>>,
}

/// Order of two user keys: by table, then bytewise by the key within the
/// table.
pub open spec fn compare_user_keys(a: UserKeyView, b: UserKeyView) -> KeyOrder {
    if a.table_id < b.table_id {
        KeyOrder::Less
    } else if a.table_id > b.table_id {
        KeyOrder::Greater
    } else {
        compare_bytes(a.table_key, b.table_key)
    }
}

/// Order of two full keys: by user key, then by epoch, the newer epoch
/// first.
pub open spec fn compare_full_keys(a: FullKeyView, b: FullKeyView) -> KeyOrder {
    match compare_user_keys(a.user_key, b.user_key) {
        KeyOrder::Equal => if a.epoch > b.epoch {
            KeyOrder::Less
        } else if a.epoch < b.epoch {
            KeyOrder::Greater
        } else {
            KeyOrder::Equal
        },
        o => o,
    }
}

/// `a` comes strictly before `b` for an iterator of the direction `d`.
pub open spec fn key_before(d: DirectionEnum, a: FullKeyView, b: FullKeyView) -> bool {
    match d {
        DirectionEnum::Forward => compare_full_keys(a, b) == KeyOrder::Less,
        DirectionEnum::Backward => compare_full_keys(a, b) == KeyOrder::Greater,
    }
}

/// No entry comes before an entry that stands before it.
pub open spec fn entries_sorted(d: DirectionEnum, s: Seq<EntryView>) -> bool {
    forall|i: int, j: int| 0 <= i < j < s.len() ==> !key_before(d, s[j].key, s[i].key)
}

/// Number of entries at the start of `s` that come before `key`.
pub open spec fn count_before(d: DirectionEnum, s: Seq<EntryView>, key: FullKeyView) -> int
    decreases s.len(),
{
    if s.len() > 0 && key_before(d, s[0].key, key) {
        1 + count_before(d, s.drop_first(), key)
    } else {
        0
    }
}

/// The count lies within the list.
pub proof fn lemma_count_before_bounds(d: DirectionEnum, s: Seq<EntryView>, key: FullKeyView)
    ensures
        0 <= count_before(d, s, key) <= s.len(),
    decreases s.len(),
{
    if s.len() > 0 && key_before(d, s[0].key, key) {
        lemma_count_before_bounds(d, s.drop_first(), key);
    }
}

/// The entries from the first one on that does not come before `key`.
pub open spec fn suffix_from(d: DirectionEnum, s: Seq<EntryView>, key: FullKeyView) -> Seq<EntryView> {
    s.skip(count_before(d, s, key))
}

/// The user key `a` comes strictly before the user key `b` for an iterator
/// of the direction `d`.
pub open spec fn user_key_before(d: DirectionEnum, a: UserKeyView, b: UserKeyView) -> bool {
    match d {
        DirectionEnum::Forward => compare_user_keys(a, b) == KeyOrder::Less,
        DirectionEnum::Backward => compare_user_keys(a, b) == KeyOrder::Greater,
    }
}

/// Number of entries at the start of `s` whose user key comes before
/// `key`.
pub open spec fn count_user_before(d: DirectionEnum, s: Seq<EntryView>, key: UserKeyView) -> int
    decreases s.len(),
{
    if s.len() > 0 && user_key_before(d, s[0].key.user_key, key) {
        1 + count_user_before(d, s.drop_first(), key)
    } else {
        0
    }
}

/// The entries from the first one on whose user key does not come before
/// `key`.
pub open spec fn entries_from(d: DirectionEnum, s: Seq<EntryView>, key: UserKeyView) -> Seq<
    EntryView,
> {
    s.skip(count_user_before(d, s, key))
}

/// The full key that no entry of the user key comes before, for an
/// iterator of the direction `d`: the one of the newest epoch for a forward
/// iterator, the one of the oldest for a backward one.
pub open spec fn first_of_user_key(d: DirectionEnum, key: UserKeyView) -> FullKeyView {
    FullKeyView {
        user_key: key,
        epoch: match d {
            DirectionEnum::Forward => u64::MAX,
            DirectionEnum::Backward => 0,
        },
    }
}

/// The entries from a user key on are those from its first full key on.
pub proof fn lemma_entries_from_user_key(d: DirectionEnum, s: Seq<EntryView>, key: UserKeyView)
    ensures
        count_before(d, s, first_of_user_key(d, key)) == count_user_before(d, s, key),
        suffix_from(d, s, first_of_user_key(d, key)) == entries_from(d, s, key),
    decreases s.len(),
{
    if s.len() > 0 {
        lemma_entries_from_user_key(d, s.drop_first(), key);
    }
}

/// Compares two user keys.
pub fn compare_user_key_pair(a: &UserKey, b: &UserKey) -> (r: KeyOrder)
    ensures
        r == compare_user_keys(a@, b@),
{
    if a.table_id < b.table_id {
        KeyOrder::Less
    } else if a.table_id > b.table_id {
        KeyOrder::Greater
    } else {
        compare_byte_strings(&a.table_key, &b.table_key)
    }
}

/// Compares two full keys.
pub fn compare_full_key_pair(a: &FullKey, b: &FullKey) -> (r: KeyOrder)
    ensures
        r == compare_full_keys(a@, b@),
{
    match compare_user_key_pair(&a.user_key, &b.user_key) {
        KeyOrder::Equal => if a.epoch > b.epoch {
            KeyOrder::Less
        } else if a.epoch < b.epoch {
            KeyOrder::Greater
        } else {
            KeyOrder::Equal
        },
        o => o,
    }
}

/// Whether `a` comes strictly before `b` in the direction `d`.
pub fn is_key_before(d: DirectionEnum, a: &FullKey, b: &FullKey) -> (r: bool)
    ensures
        r == key_before(d, a@, b@),
{
    let o = compare_full_key_pair(a, b);
    match d {
        DirectionEnum::Forward => o == KeyOrder::Less,
        DirectionEnum::Backward => o == KeyOrder::Greater,
    }
}

/// The interface of all iterators.
///
/// An iterator walks the entries `all()`; `remaining()` are those from its
/// position on. After a call that returned an error the iterator is still
/// well-formed, but its position is not specified.
pub trait HummockIterator {
    type Direction: HummockIteratorDirection;

    /// The entries that the iterator walks, in the order of its direction.
    spec fn all(&self) -> Seq<EntryView>;

    /// The entries from the position of the iterator on.
    spec fn remaining(&self) -> Seq<EntryView>;

    /// The iterator is in a state that its operations can start from.
    spec fn wf(&self) -> bool;

    /// Nothing that the iterator reads can fail to be read or decoded, so
    /// none of its moves returns an error.
    spec fn never_fails(&self) -> bool;

    /// The entries of a well-formed iterator are in order.
    proof fn lemma_sorted(&self)
        requires
            self.wf(),
        ensures
            entries_sorted(Self::Direction::spec_direction(), self.all()),
    ;

    /// Whether an entry is left at the position.
    fn is_valid(&self) -> (r: bool)
        requires
            self.wf(),
        ensures
            r == (self.remaining().len() > 0),
    ;

    /// The key at the position.
    fn key(&self) -> (r: FullKey)
        requires
            self.wf(),
            self.remaining().len() > 0,
        ensures
            r@ == self.remaining()[0].key,
    ;

    /// The value at the position.
    fn value(&self) -> (r: HummockValue)
        requires
            self.wf(),
            self.remaining().len() > 0,
        ensures
            r@ == self.remaining()[0].value,
    ;

    /// Moves to the next entry.
    fn next(&mut self) -> (r: Result<(), StorageError>)
        requires
            old(self).wf(),
            old(self).remaining().len() > 0,
        ensures
            final(self).wf(),
            final(self).all() == old(self).all(),
            final(self).never_fails() == old(self).never_fails(),
            old(self).never_fails() ==> r is Ok,
            r is Ok ==> final(self).remaining() == old(self).remaining().drop_first(),
    ;

    /// Moves to the first entry.
    fn rewind(&mut self) -> (r: Result<(), StorageError>)
        requires
            old(self).wf(),
        ensures
            final(self).wf(),
            final(self).all() == old(self).all(),
            final(self).never_fails() == old(self).never_fails(),
            old(self).never_fails() ==> r is Ok,
            r is Ok ==> final(self).remaining() == final(self).all(),
    ;

    /// Moves to the first entry that does not come before `key`.
    fn seek(&mut self, key: &FullKey) -> (r: Result<(), StorageError>)
        requires
            old(self).wf(),
        ensures
            final(self).wf(),
            final(self).all() == old(self).all(),
            final(self).never_fails() == old(self).never_fails(),
            old(self).never_fails() ==> r is Ok,
            r is Ok ==> final(self).remaining() == suffix_from(
                Self::Direction::spec_direction(),
                final(self).all(),
                key@,
            ),
    ;
}

/// An iterator without entries. It fills the unused places of a
/// [`HummockIteratorUnion`]. It is never valid, so its key, its value and a
/// step from its position are never asked for.
#[verifier::reject_recursive_types(D)]
pub struct PhantomHummockIterator<D: HummockIteratorDirection> {
    _phantom: core::marker::PhantomData<D>,
}

impl<D: HummockIteratorDirection> PhantomHummockIterator<D> {
    pub fn new() -> (r: Self)
        ensures
            r.wf(),
            r.all().len() == 0,
    {
        PhantomHummockIterator { _phantom: core::marker::PhantomData }
    }
}

impl<D: HummockIteratorDirection> HummockIterator for PhantomHummockIterator<D> {
    type Direction = D;

    open spec fn all(&self) -> Seq<EntryView> {
        Seq::empty()
    }

    open spec fn remaining(&self) -> Seq<EntryView> {
        Seq::empty()
    }

    open spec fn wf(&self) -> bool {
        true
    }

    open spec fn never_fails(&self) -> bool {
        true
    }

    proof fn lemma_sorted(&self) {
    }

    fn is_valid(&self) -> (r: bool) {
        false
    }

    fn key(&self) -> (r: FullKey) {
        FullKey { user_key: UserKey { table_id: 0, table_key: Vec::new() }, epoch: 0 }
    }

    fn value(&self) -> (r: HummockValue) {
        HummockValue::Delete
    }

    fn next(&mut self) -> (r: Result<(), StorageError>) {
        Ok(())
    }

    fn rewind(&mut self) -> (r: Result<(), StorageError>) {
        Ok(())
    }

    fn seek(&mut self, key: &FullKey) -> (r: Result<(), StorageError>) {
        assert(suffix_from(D::spec_direction(), Seq::<EntryView>::empty(), key@) =~= Seq::<
            EntryView,
        >::empty());
        Ok(())
    }
}

/// One of up to four kinds of iterators of one direction. The kind is
/// known where the union is built, so a merge over sources of different
/// kinds needs no dispatch at run time beyond one match.
#[verifier::reject_recursive_types(D)]
pub enum HummockIteratorUnion<
    D: HummockIteratorDirection,
    I1: HummockIterator<Direction = D>,
    I2: HummockIterator<Direction = D>,
    I3: HummockIterator<Direction = D> = PhantomHummockIterator<D>,
    I4: HummockIterator<Direction = D> = PhantomHummockIterator<D>,
> {
    First(I1),
    Second(I2),
    Third(I3),
    Fourth(I4),
}

impl<
    D: HummockIteratorDirection,
    I1: HummockIterator<Direction = D>,
    I2: HummockIterator<Direction = D>,
    I3: HummockIterator<Direction = D>,
    I4: HummockIterator<Direction = D>,
> HummockIterator for HummockIteratorUnion<D, I1, I2, I3, I4> {
    type Direction = D;

    open spec fn all(&self) -> Seq<EntryView> {
        match self {
            HummockIteratorUnion::First(iter) => iter.all(),
            HummockIteratorUnion::Second(iter) => iter.all(),
            HummockIteratorUnion::Third(iter) => iter.all(),
            HummockIteratorUnion::Fourth(iter) => iter.all(),
        }
    }

    open spec fn remaining(&self) -> Seq<EntryView> {
        match self {
            HummockIteratorUnion::First(iter) => iter.remaining(),
            HummockIteratorUnion::Second(iter) => iter.remaining(),
            HummockIteratorUnion::Third(iter) => iter.remaining(),
            HummockIteratorUnion::Fourth(iter) => iter.remaining(),
        }
    }

    open spec fn wf(&self) -> bool {
        match self {
            HummockIteratorUnion::First(iter) => iter.wf(),
            HummockIteratorUnion::Second(iter) => iter.wf(),
            HummockIteratorUnion::Third(iter) => iter.wf(),
            HummockIteratorUnion::Fourth(iter) => iter.wf(),
        }
    }

    open spec fn never_fails(&self) -> bool {
        match self {
            HummockIteratorUnion::First(iter) => iter.never_fails(),
            HummockIteratorUnion::Second(iter) => iter.never_fails(),
            HummockIteratorUnion::Third(iter) => iter.never_fails(),
            HummockIteratorUnion::Fourth(iter) => iter.never_fails(),
        }
    }

    proof fn lemma_sorted(&self) {
        match self {
            HummockIteratorUnion::First(iter) => iter.lemma_sorted(),
            HummockIteratorUnion::Second(iter) => iter.lemma_sorted(),
            HummockIteratorUnion::Third(iter) => iter.lemma_sorted(),
            HummockIteratorUnion::Fourth(iter) => iter.lemma_sorted(),
        }
    }

    fn is_valid(&self) -> (r: bool) {
        match self {
            HummockIteratorUnion::First(iter) => iter.is_valid(),
            HummockIteratorUnion::Second(iter) => iter.is_valid(),
            HummockIteratorUnion::Third(iter) => iter.is_valid(),
            HummockIteratorUnion::Fourth(iter) => iter.is_valid(),
        }
    }

    fn key(&self) -> (r: FullKey) {
        match self {
            HummockIteratorUnion::First(iter) => iter.key(),
            HummockIteratorUnion::Second(iter) => iter.key(),
            HummockIteratorUnion::Third(iter) => iter.key(),
            HummockIteratorUnion::Fourth(iter) => iter.key(),
        }
    }

    fn value(&self) -> (r: HummockValue) {
        match self {
            HummockIteratorUnion::First(iter) => iter.value(),
            HummockIteratorUnion::Second(iter) => iter.value(),
            HummockIteratorUnion::Third(iter) => iter.value(),
            HummockIteratorUnion::Fourth(iter) => iter.value(),
        }
    }

    fn next(&mut self) -> (r: Result<(), StorageError>) {
        match self {
            HummockIteratorUnion::First(iter) => iter.next(),
            HummockIteratorUnion::Second(iter) => iter.next(),
            HummockIteratorUnion::Third(iter) => iter.next(),
            HummockIteratorUnion::Fourth(iter) => iter.next(),
        }
    }

    fn rewind(&mut self) -> (r: Result<(), StorageError>) {
        match self {
            HummockIteratorUnion::First(iter) => iter.rewind(),
            HummockIteratorUnion::Second(iter) => iter.rewind(),
            HummockIteratorUnion::Third(iter) => iter.rewind(),
            HummockIteratorUnion::Fourth(iter) => iter.rewind(),
        }
    }

    fn seek(&mut self, key: &FullKey) -> (r: Result<(), StorageError>) {
        match self {
            HummockIteratorUnion::First(iter) => iter.seek(key),
            HummockIteratorUnion::Second(iter) => iter.seek(key),
            HummockIteratorUnion::Third(iter) => iter.seek(key),
            HummockIteratorUnion::Fourth(iter) => iter.seek(key),
        }
    }
}

} // verus!
