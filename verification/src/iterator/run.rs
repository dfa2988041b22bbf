//! An iterator over the entries of one sorted run held in memory.
//!
//! The direction is fixed by the type. The entries are held in the order
//! in which the iterator walks them.

use vstd::prelude::*;
use crate::iterator::from_rust::lemma_count_before_is;
use crate::iterator::{
    entries_sorted, is_key_before, key_before, DirectionEnum, EntryView, FullKey,
    HummockIterator, HummockIteratorDirection, HummockValue, UserKey};
use crate::laws::key_order::lemma_not_before_transitive;
use crate::store::StorageError;

verus! {

/// One entry of a run.
pub type RunEntry = (FullKey, HummockValue);

/// The values of the entries of a run.
pub open spec fn run_entries(s: Seq<RunEntry>) -> Seq<EntryView> {
    Seq::new(s.len(), |i: int| EntryView { key: s[i].0@, value: s[i].1@ })
}

/// Whether the entries are in the order of the direction `d`.
pub fn is_sorted_run(d: DirectionEnum, entries: &Vec<RunEntry>) -> (r: bool)
    ensures
        r == entries_sorted(d, run_entries(entries@)),
{
    let ghost s = run_entries(entries@);
    let mut i: usize = 1;
    while i < entries.len()
        invariant
            1 <= i,
            s == run_entries(entries@),
            forall|a: int, b: int| 0 <= a < b < i && b < s.len() ==> !key_before(d, s[b].key, s[a].key),
        decreases entries.len() - i,
    {
        if is_key_before(d, &entries[i].0, &entries[i - 1].0) {
            assert(key_before(d, s[i as int].key, s[i - 1].key));
            return false;
        }
        proof {
            assert forall|a: int, b: int| 0 <= a < b < i + 1 && b < s.len() implies !key_before(
                d,
                s[b].key,
                s[a].key,
            ) by {
                if b == i && a < i - 1 {
                    lemma_not_before_transitive(d, s[i as int].key, s[i - 1].key, s[a].key);
                }
            }
        }
        i += 1;
    }
    true
}

/// An iterator over a run in the direction `D`.
#[verifier::reject_recursive_types(D)]
pub struct RunIterator<D: HummockIteratorDirection> {
    pub entries: Vec<RunEntry>,
    /// The position; the number of entries where none is left.
    pub pos: usize,
    pub _direction: core::marker::PhantomData<D>,
}

impl<D: HummockIteratorDirection> RunIterator<D> {
    /// An iterator over entries that are in the order of `D`, not yet at
    /// any position.
    pub fn new(entries: Vec<RunEntry>) -> (r: Self)
        requires
            entries_sorted(D::spec_direction(), run_entries(entries@)),
        ensures
            r.wf(),
            r.all() == run_entries(entries@),
            r.remaining().len() == 0,
    {
        let pos = entries.len();
        let r = RunIterator { entries, pos, _direction: core::marker::PhantomData };
        assert(r.all().skip(pos as int) =~= Seq::<EntryView>::empty());
        r
    }
}

impl<D: HummockIteratorDirection> HummockIterator for RunIterator<D> {
    type Direction = D;

    open spec fn all(&self) -> Seq<EntryView> {
        run_entries(self.entries@)
    }

    open spec fn remaining(&self) -> Seq<EntryView> {
        self.all().skip(self.pos as int)
    }

    open spec fn wf(&self) -> bool {
        self.pos <= self.entries.len() && entries_sorted(D::spec_direction(), self.all())
    }

    open spec fn never_fails(&self) -> bool {
        true
    }

    proof fn lemma_sorted(&self) {
    }

    fn is_valid(&self) -> (r: bool) {
        self.pos < self.entries.len()
    }

    fn key(&self) -> (r: FullKey) {
        if self.pos < self.entries.len() {
            self.entries[self.pos].0.clone()
        } else {
            FullKey { user_key: UserKey { table_id: 0, table_key: Vec::new() }, epoch: 0 }
        }
    }

    fn value(&self) -> (r: HummockValue) {
        if self.pos < self.entries.len() {
            self.entries[self.pos].1.clone()
        } else {
            HummockValue::Delete
        }
    }

    fn next(&mut self) -> (r: Result<(), StorageError>) {
        if self.pos < self.entries.len() {
            let ghost before = self.remaining();
            self.pos = self.pos + 1;
            assert(self.remaining() =~= before.drop_first());
        }
        Ok(())
    }

    fn rewind(&mut self) -> (r: Result<(), StorageError>) {
        self.pos = 0;
        assert(self.all().skip(0) =~= self.all());
        Ok(())
    }

    fn seek(&mut self, key: &FullKey) -> (r: Result<(), StorageError>) {
        let d = D::direction();
        let ghost s = self.all();
        let mut i: usize = 0;
        while i < self.entries.len() && is_key_before(d, &self.entries[i].0, key)
            invariant
                i <= self.entries.len(),
                s == run_entries(self.entries@),
                forall|k: int| 0 <= k < i ==> key_before(d, (#[trigger] s[k]).key, key@),
            decreases self.entries.len() - i,
        {
            i += 1;
        }
        proof {
            lemma_count_before_is(d, s, key@, i as int);
        }
        self.pos = i;
        Ok(())
    }
}

} // verus!
