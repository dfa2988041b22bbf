//! Walking several iterators one after the other.
//!
//! The iterators stand for runs that do not overlap and follow each other
//! in key order, so their entries, taken one iterator after the other, are
//! in order. A child is opened only when the walk reaches it.

use vstd::prelude::*;
use crate::iterator::{
    count_before, entries_sorted, key_before, lemma_count_before_bounds, suffix_from,
    DirectionEnum, EntryView, FullKey, FullKeyView, HummockIterator, HummockIteratorDirection,
    HummockValue, UserKey,
};
use crate::iterator::merge::{all_never_fail, children_all, lemma_step_keeps_reliability};
use crate::store::StorageError;

verus! {

/// The entries of the lists from the list at `from` on, one list after the
/// other.
pub open spec fn flat_from(cs: Seq<Seq<EntryView>>, from: int) -> Seq<EntryView>
    decreases cs.len() - from,
{
    if from < 0 || from >= cs.len() {
        Seq::empty()
    } else {
        cs[from] + flat_from(cs, from + 1)
    }
}

/// Counting the entries before a key in two lists in a row: the second
/// list counts only where the first is passed as a whole.
pub proof fn lemma_count_before_concat(
    d: DirectionEnum,
    a: Seq<EntryView>,
    b: Seq<EntryView>,
    key: FullKeyView,
)
    ensures
        count_before(d, a + b, key) == if count_before(d, a, key) == a.len() {
            a.len() + count_before(d, b, key)
        } else {
            count_before(d, a, key)
        },
    decreases a.len(),
{
    if a.len() == 0 {
        assert(a + b =~= b);
    } else {
        assert((a + b)[0] == a[0]);
        assert((a + b).drop_first() =~= a.drop_first() + b);
        if key_before(d, a[0].key, key) {
            lemma_count_before_concat(d, a.drop_first(), b, key);
        }
    }
}

/// Seeking in lists in a row: lists that lie before the key as a whole
/// are passed, and the first list with an entry that does not lie before
/// the key is entered at that entry.
pub proof fn lemma_seek_in_row(
    d: DirectionEnum,
    cs: Seq<Seq<EntryView>>,
    from: int,
    c: int,
    key: FullKeyView,
)
    requires
        0 <= from <= c <= cs.len(),
        forall|i: int| from <= i < c ==> count_before(d, #[trigger] cs[i], key) == cs[i].len(),
        c < cs.len() ==> count_before(d, cs[c], key) < cs[c].len(),
    ensures
        suffix_from(d, flat_from(cs, from), key) == if c < cs.len() {
            suffix_from(d, cs[c], key) + flat_from(cs, c + 1)
        } else {
            Seq::empty()
        },
    decreases c - from,
{
    let whole = flat_from(cs, from);
    if from == c {
        if c < cs.len() {
            lemma_count_before_concat(d, cs[c], flat_from(cs, c + 1), key);
            lemma_count_before_bounds(d, cs[c], key);
            assert(whole.skip(count_before(d, cs[c], key)) =~= cs[c].skip(
                count_before(d, cs[c], key),
            ) + flat_from(cs, c + 1));
        } else {
            assert(whole.skip(0) =~= whole);
        }
    } else {
        let rest = flat_from(cs, from + 1);
        lemma_seek_in_row(d, cs, from + 1, c, key);
        lemma_count_before_concat(d, cs[from], rest, key);
        lemma_count_before_bounds(d, rest, key);
        assert(whole.skip(cs[from].len() + count_before(d, rest, key)) =~= rest.skip(
            count_before(d, rest, key),
        ));
    }
}

/// Lists that are empty add nothing to a row.
pub proof fn lemma_skip_empty(cs: Seq<Seq<EntryView>>, from: int, c: int)
    requires
        0 <= from <= c <= cs.len(),
        forall|i: int| from <= i < c ==> (#[trigger] cs[i]).len() == 0,
    ensures
        flat_from(cs, from) == flat_from(cs, c),
    decreases c - from,
{
    if from < c {
        lemma_skip_empty(cs, from + 1, c);
        assert(cs[from] + flat_from(cs, from + 1) =~= flat_from(cs, from + 1));
    }
}

/// An iterator over iterators that follow each other in key order.
pub struct ConcatIterator<I: HummockIterator> {
    pub children: Vec<I>,
    /// The child at which the iterator stands; the number of children
    /// where no entry is left.
    pub cur: usize,
}

impl<I: HummockIterator> ConcatIterator<I> {
    /// An iterator over the given iterators, not yet at any position.
    pub fn new(children: Vec<I>) -> (r: Self)
        requires
            forall|i: int| 0 <= i < children.len() ==> (#[trigger] children[i]).wf(),
            entries_sorted(I::Direction::spec_direction(), flat_from(children_all(children@), 0)),
        ensures
            r.wf(),
            r.all() == flat_from(children_all(children@), 0),
            r.remaining().len() == 0,
    {
        let cur = children.len();
        ConcatIterator { children, cur }
    }

    /// Opens the children from `from` on until one has an entry at the
    /// position that `seek_key` asks for: the first entry, or the first
    /// entry that does not lie before the key.
    fn open_from(&mut self, from: usize, seek_key: Option<&FullKey>) -> (r: Result<(), StorageError>)
        requires
            old(self).children_wf(),
            from <= old(self).children.len(),
        ensures
            final(self).wf(),
            final(self).all() == old(self).all(),
            final(self).never_fails() == old(self).never_fails(),
            old(self).never_fails() ==> r is Ok,
            r is Ok ==> {
                let alls = children_all(old(self).children@);
                let d = I::Direction::spec_direction();
                match seek_key {
                    Some(key) => final(self).remaining() == suffix_from(
                        d,
                        flat_from(alls, from as int),
                        key@,
                    ),
                    None => final(self).remaining() == flat_from(alls, from as int),
                }
            },
    {
        let ghost alls = children_all(self.children@);
        let ghost d = I::Direction::spec_direction();
        let ghost sorted = entries_sorted(d, flat_from(alls, 0));
        let n = self.children.len();
        self.cur = n;
        let mut c: usize = from;
        while c < n
            invariant
                from <= c <= n,
                n == self.children.len(),
                self.cur == n,
                self.children_wf(),
                children_all(self.children@) == alls,
                alls == children_all(old(self).children@),
                all_never_fail(self.children@) == all_never_fail(old(self).children@),
                d == I::Direction::spec_direction(),
                entries_sorted(d, flat_from(alls, 0)),
                seek_key matches Some(key) ==> forall|i: int|
                    from <= i < c ==> count_before(d, #[trigger] alls[i], key@) == alls[i].len(),
                seek_key is None ==> forall|i: int| from <= i < c ==> (#[trigger] alls[i]).len() == 0,
            decreases n - c,
        {
            let ghost before = self.children@;
            let r = match seek_key {
                Some(key) => self.children[c].seek(key),
                None => self.children[c].rewind(),
            };
            proof {
                lemma_step_keeps_reliability(before, self.children@, c as int);
                assert forall|k: int| 0 <= k < self.children.len() implies (
                #[trigger] self.children[k]).wf() by {
                    if k != c {
                        assert(self.children[k] == before[k]);
                    }
                }
                assert(children_all(self.children@) =~= alls) by {
                    assert forall|k: int| 0 <= k < self.children.len() implies children_all(
                        self.children@,
                    )[k] == alls[k] by {
                        assert(alls[k] == before[k].all());
                        if k != c {
                            assert(self.children[k] == before[k]);
                        }
                    }
                }
            }
            if r.is_err() {
                return r;
            }
            assert(alls[c as int] == self.children[c as int].all());
            if self.children[c].is_valid() {
                self.cur = c;
                proof {
                    match seek_key {
                        Some(key) => {
                            lemma_count_before_bounds(d, alls[c as int], key@);
                            lemma_seek_in_row(d, alls, from as int, c as int, key@);
                        },
                        None => {
                            lemma_skip_empty(alls, from as int, c as int);
                        },
                    }
                }
                return Ok(());
            }
            proof {
                if seek_key is Some {
                    lemma_count_before_bounds(d, alls[c as int], seek_key->0@);
                }
            }
            c += 1;
        }
        proof {
            match seek_key {
                Some(key) => {
                    lemma_seek_in_row(d, alls, from as int, n as int, key@);
                },
                None => {
                    lemma_skip_empty(alls, from as int, n as int);
                },
            }
        }
        Ok(())
    }

    /// Every child is well-formed, and the entries of all children in a
    /// row are in order.
    pub open spec fn children_wf(&self) -> bool {
        &&& forall|i: int| 0 <= i < self.children.len() ==> (#[trigger] self.children[i]).wf()
        &&& entries_sorted(I::Direction::spec_direction(), flat_from(children_all(self.children@), 0))
    }
}

impl<I: HummockIterator> HummockIterator for ConcatIterator<I> {
    type Direction = I::Direction;

    open spec fn all(&self) -> Seq<EntryView> {
        flat_from(children_all(self.children@), 0)
    }

    open spec fn remaining(&self) -> Seq<EntryView> {
        if 0 <= (self.cur as int) < self.children@.len() {
            self.children@[(self.cur as int)].remaining() + flat_from(
                children_all(self.children@),
                (self.cur as int) + 1,
            )
        } else {
            Seq::empty()
        }
    }

    open spec fn never_fails(&self) -> bool {
        all_never_fail(self.children@)
    }

    open spec fn wf(&self) -> bool {
        &&& self.children_wf()
        &&& 0 <= (self.cur as int) <= self.children@.len()
        &&& (self.cur as int) < self.children@.len() ==> self.children@[(self.cur as int)].remaining().len()
            > 0
    }

    proof fn lemma_sorted(&self) {
    }

    fn is_valid(&self) -> (r: bool) {
        self.cur < self.children.len()
    }

    fn key(&self) -> (r: FullKey) {
        if self.cur < self.children.len() {
            self.children[self.cur].key()
        } else {
            FullKey { user_key: UserKey { table_id: 0, table_key: Vec::new() }, epoch: 0 }
        }
    }

    fn value(&self) -> (r: HummockValue) {
        if self.cur < self.children.len() {
            self.children[self.cur].value()
        } else {
            HummockValue::Delete
        }
    }

    fn next(&mut self) -> (r: Result<(), StorageError>) {
        let ghost alls = children_all(self.children@);
        let ghost before = self.children@;
        let ghost rem = self.remaining();
        let cur = self.cur;
        if cur >= self.children.len() {
            return Ok(());
        }
        let r = self.children[cur].next();
        proof {
            lemma_step_keeps_reliability(before, self.children@, cur as int);
            assert forall|k: int| 0 <= k < self.children.len() implies (
            #[trigger] self.children[k]).wf() by {
                if k != cur {
                    assert(self.children[k] == before[k]);
                }
            }
            assert(children_all(self.children@) =~= alls) by {
                assert forall|k: int| 0 <= k < self.children.len() implies children_all(
                    self.children@,
                )[k] == alls[k] by {
                    assert(alls[k] == before[k].all());
                    if k != cur {
                        assert(self.children[k] == before[k]);
                    }
                }
            }
        }
        if r.is_err() {
            self.cur = self.children.len();
            return r;
        }
        if self.children[cur].is_valid() {
            assert(self.remaining() =~= rem.drop_first());
            Ok(())
        } else {
            assert(rem.drop_first() =~= flat_from(alls, cur + 1));
            self.open_from(cur + 1, None)
        }
    }

    fn rewind(&mut self) -> (r: Result<(), StorageError>) {
        self.open_from(0, None)
    }

    fn seek(&mut self, key: &FullKey) -> (r: Result<(), StorageError>) {
        self.open_from(0, Some(key))
    }
}

} // verus!
