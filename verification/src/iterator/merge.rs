//! Merging several iterators of one direction into one.
//!
//! The merged iterator shows, at each step, the entry that comes first
//! among those at the positions of its children; of entries that tie, the
//! one of the child that stands first.

use vstd::prelude::*;
use crate::iterator::{
    count_before, entries_sorted, is_key_before, key_before, suffix_from, DirectionEnum, EntryView,
    FullKey, FullKeyView, HummockIterator, HummockIteratorDirection, HummockValue, UserKey,
};
use crate::laws::key_order::{lemma_before_transitive, lemma_not_before_transitive};
use crate::store::StorageError;

verus! {

/// Number of entries in all the lists together.
pub open spec fn total_len(cs: Seq<Seq<EntryView>>) -> nat
    decreases cs.len(),
{
    if cs.len() == 0 {
        0
    } else {
        total_len(cs.drop_last()) + cs.last().len()
    }
}

/// Among the first `n` lists, the one whose first entry comes first; of
/// several such the one that stands first; `-1` where all are empty.
pub open spec fn best_child(d: DirectionEnum, cs: Seq<Seq<EntryView>>, n: int) -> int
    decreases n,
{
    if n <= 0 {
        -1
    } else {
        let b = best_child(d, cs, n - 1);
        let c = n - 1;
        if cs[c].len() == 0 {
            b
        } else if b < 0 {
            c
        } else if key_before(d, cs[c][0].key, cs[b][0].key) {
            c
        } else {
            b
        }
    }
}

/// The lists after the list at `b` lost its first entry.
pub open spec fn advance(cs: Seq<Seq<EntryView>>, b: int) -> Seq<Seq<EntryView>> {
    cs.update(b, cs[b].drop_first())
}

/// The best child is one of the first `n` lists and is not empty; no list
/// among them starts with an entry that comes before its first entry.
pub proof fn lemma_best_child(d: DirectionEnum, cs: Seq<Seq<EntryView>>, n: int)
    requires
        0 <= n <= cs.len(),
    ensures
        -1 <= best_child(d, cs, n) < n,
        best_child(d, cs, n) >= 0 ==> cs[best_child(d, cs, n)].len() > 0,
        best_child(d, cs, n) < 0 ==> forall|c: int| 0 <= c < n ==> (#[trigger] cs[c]).len() == 0,
        best_child(d, cs, n) >= 0 ==> forall|c: int|
            0 <= c < n && (#[trigger] cs[c]).len() > 0 ==> !key_before(
                d,
                cs[c][0].key,
                cs[best_child(d, cs, n)][0].key,
            ),
    decreases n,
{
    if n > 0 {
        lemma_best_child(d, cs, n - 1);
        let b = best_child(d, cs, n - 1);
        let c = n - 1;
        let r = best_child(d, cs, n);
        if cs[c].len() > 0 && b >= 0 && key_before(d, cs[c][0].key, cs[b][0].key) {
            assert forall|e: int| 0 <= e < n && (#[trigger] cs[e]).len() > 0 implies !key_before(
                d,
                cs[e][0].key,
                cs[c][0].key,
            ) by {
                if e < c {
                    if key_before(d, cs[e][0].key, cs[c][0].key) {
                        lemma_before_transitive(d, cs[e][0].key, cs[c][0].key, cs[b][0].key);
                    }
                } else {
                    crate::laws::key_order::lemma_full_keys_reverse(cs[c][0].key, cs[c][0].key);
                }
            }
        } else if cs[c].len() > 0 && b < 0 {
            crate::laws::key_order::lemma_full_keys_reverse(cs[c][0].key, cs[c][0].key);
        }
    }
}

/// Taking the first entry off a list that is not empty leaves fewer
/// entries.
pub proof fn lemma_advance_shrinks(cs: Seq<Seq<EntryView>>, b: int)
    requires
        0 <= b < cs.len(),
        cs[b].len() > 0,
    ensures
        total_len(advance(cs, b)) + 1 == total_len(cs),
    decreases cs.len(),
{
    let next = advance(cs, b);
    if b == cs.len() - 1 {
        assert(next.drop_last() =~= cs.drop_last());
    } else {
        assert(next.drop_last() =~= advance(cs.drop_last(), b));
        assert(next.last() == cs.last());
        lemma_advance_shrinks(cs.drop_last(), b);
    }
}

/// The entries of all lists in the order in which a merge shows them.
pub open spec fn merge_seq(d: DirectionEnum, cs: Seq<Seq<EntryView>>) -> Seq<EntryView>
    decreases total_len(cs),
{
    let b = best_child(d, cs, cs.len() as int);
    if 0 <= b < cs.len() && cs[b].len() > 0 {
        proof {
            lemma_advance_shrinks(cs, b);
        }
        seq![cs[b][0]] + merge_seq(d, advance(cs, b))
    } else {
        Seq::empty()
    }
}

/// The lists from their first entries on that do not come before `key`.
pub open spec fn suffixes_from(d: DirectionEnum, cs: Seq<Seq<EntryView>>, key: FullKeyView) -> Seq<
    Seq<EntryView>,
> {
    Seq::new(cs.len(), |i: int| suffix_from(d, cs[i], key))
}

/// Merging the lists from the key on is the same as merging them whole and
/// looking at the outcome from the key on.
pub proof fn lemma_merge_from_key(d: DirectionEnum, cs: Seq<Seq<EntryView>>, key: FullKeyView)
    ensures
        merge_seq(d, suffixes_from(d, cs, key)) == suffix_from(d, merge_seq(d, cs), key),
    decreases total_len(cs),
{
    let b = best_child(d, cs, cs.len() as int);
    lemma_best_child(d, cs, cs.len() as int);
    let merged = merge_seq(d, cs);
    if b < 0 {
        assert(suffixes_from(d, cs, key) =~= cs) by {
            assert forall|i: int| 0 <= i < cs.len() implies suffix_from(d, cs[i], key) == cs[i] by {
                assert(cs[i].len() == 0);
                assert(cs[i].skip(0) =~= cs[i]);
            }
        }
        assert(merged.skip(0) =~= merged);
    } else {
        let head = cs[b][0];
        let next = advance(cs, b);
        assert(merged == seq![head] + merge_seq(d, next));
        assert(merged[0] == head);
        assert(merged.drop_first() =~= merge_seq(d, next));
        if key_before(d, head.key, key) {
            lemma_advance_shrinks(cs, b);
            lemma_merge_from_key(d, next, key);
            assert(suffixes_from(d, next, key) =~= suffixes_from(d, cs, key)) by {
                assert forall|i: int| 0 <= i < cs.len() implies suffix_from(d, next[i], key)
                    == suffix_from(d, cs[i], key) by {
                    if i == b {
                        crate::iterator::lemma_count_before_bounds(d, cs[b].drop_first(), key);
                        assert(cs[b].skip(1 + count_before(d, cs[b].drop_first(), key))
                            =~= cs[b].drop_first().skip(count_before(d, cs[b].drop_first(), key)));
                    }
                }
            }
            crate::iterator::lemma_count_before_bounds(d, merged.drop_first(), key);
            assert(merged.skip(1 + count_before(d, merged.drop_first(), key))
                =~= merged.drop_first().skip(count_before(d, merged.drop_first(), key)));
        } else {
            assert(suffixes_from(d, cs, key) =~= cs) by {
                assert forall|i: int| 0 <= i < cs.len() implies suffix_from(d, cs[i], key) == cs[i] by {
                    if cs[i].len() > 0 {
                        assert(!key_before(d, cs[i][0].key, head.key));
                        if key_before(d, cs[i][0].key, key) {
                            lemma_key_order_total(d, cs[i][0].key, head.key, key);
                        }
                    }
                    assert(cs[i].skip(0) =~= cs[i]);
                }
            }
            assert(merged.skip(0) =~= merged);
        }
    }
}

/// An entry that does not come before another, which does not come before
/// a key, does not come before the key.
pub proof fn lemma_key_order_total(d: DirectionEnum, a: FullKeyView, b: FullKeyView, key: FullKeyView)
    requires
        !key_before(d, a, b),
        !key_before(d, b, key),
    ensures
        !key_before(d, a, key),
{
    lemma_not_before_transitive(d, a, b, key);
}

/// Every entry of a merge is an entry of one of the lists.
pub proof fn lemma_merge_sources(d: DirectionEnum, cs: Seq<Seq<EntryView>>, k: int) -> (r: (int, int))
    requires
        0 <= k < merge_seq(d, cs).len(),
    ensures
        0 <= r.0 < cs.len(),
        0 <= r.1 < cs[r.0].len(),
        cs[r.0][r.1] == merge_seq(d, cs)[k],
    decreases total_len(cs),
{
    let b = best_child(d, cs, cs.len() as int);
    lemma_best_child(d, cs, cs.len() as int);
    if k == 0 {
        (b, 0)
    } else {
        lemma_advance_shrinks(cs, b);
        let next = advance(cs, b);
        let (c, i) = lemma_merge_sources(d, next, k - 1);
        if c == b {
            (c, i + 1)
        } else {
            (c, i)
        }
    }
}

/// Every list is in order.
pub open spec fn all_sorted(d: DirectionEnum, cs: Seq<Seq<EntryView>>) -> bool {
    forall|c: int| 0 <= c < cs.len() ==> entries_sorted(d, #[trigger] cs[c])
}

/// The merge of lists that are in order is in order.
pub proof fn lemma_merge_sorted(d: DirectionEnum, cs: Seq<Seq<EntryView>>)
    requires
        all_sorted(d, cs),
    ensures
        entries_sorted(d, merge_seq(d, cs)),
    decreases total_len(cs),
{
    let b = best_child(d, cs, cs.len() as int);
    lemma_best_child(d, cs, cs.len() as int);
    let merged = merge_seq(d, cs);
    if b >= 0 {
        let head = cs[b][0];
        let next = advance(cs, b);
        lemma_advance_shrinks(cs, b);
        assert(all_sorted(d, next)) by {
            assert forall|c: int| 0 <= c < next.len() implies entries_sorted(d, #[trigger] next[c]) by {
                assert(entries_sorted(d, cs[c]));
                if c == b {
                    assert forall|i: int, j: int| 0 <= i < j < next[c].len() implies !key_before(
                        d,
                        next[c][j].key,
                        next[c][i].key,
                    ) by {
                        assert(next[c][i] == cs[c][i + 1]);
                        assert(next[c][j] == cs[c][j + 1]);
                    }
                }
            }
        }
        lemma_merge_sorted(d, next);
        let rest = merge_seq(d, next);
        assert forall|i: int, j: int| 0 <= i < j < merged.len() implies !key_before(
            d,
            merged[j].key,
            merged[i].key,
        ) by {
            if i == 0 {
                let (c, p) = lemma_merge_sources(d, next, j - 1);
                assert(merged[j] == rest[j - 1]);
                // The entry comes from the list `c`, whose first entry does
                // not come before the head, and it does not come before the
                // first entry of its list.
                let q = if c == b { p + 1 } else { p };
                assert(cs[c][q] == merged[j]);
                assert(entries_sorted(d, cs[c]));
                if q > 0 {
                    assert(!key_before(d, cs[c][q].key, cs[c][0].key));
                } else {
                    crate::laws::key_order::lemma_full_keys_reverse(cs[c][0].key, cs[c][0].key);
                }
                assert(!key_before(d, cs[c][0].key, head.key));
                lemma_not_before_transitive(d, cs[c][q].key, cs[c][0].key, head.key);
            } else {
                assert(merged[i] == rest[i - 1]);
                assert(merged[j] == rest[j - 1]);
            }
        }
    }
}

/// The entries that each child walks.
pub open spec fn children_all<I: HummockIterator>(cs: Seq<I>) -> Seq<Seq<EntryView>> {
    Seq::new(cs.len(), |i: int| cs[i].all())
}

/// The entries that each child has left.
pub open spec fn children_remaining<I: HummockIterator>(cs: Seq<I>) -> Seq<Seq<EntryView>> {
    Seq::new(cs.len(), |i: int| cs[i].remaining())
}

/// None of the iterators can fail.
pub open spec fn all_never_fail<I: HummockIterator>(cs: Seq<I>) -> bool {
    forall|i: int| 0 <= i < cs.len() ==> (#[trigger] cs[i]).never_fails()
}

/// A move of one iterator that leaves it as reliable as it was leaves the
/// iterators together as reliable as they were.
pub proof fn lemma_step_keeps_reliability<I: HummockIterator>(before: Seq<I>, after: Seq<I>, c: int)
    requires
        after.len() == before.len(),
        0 <= c < before.len(),
        forall|k: int| 0 <= k < before.len() && k != c ==> after[k] == before[k],
        after[c].never_fails() == before[c].never_fails(),
    ensures
        all_never_fail(after) == all_never_fail(before),
        all_never_fail(before) ==> before[c].never_fails(),
{
    if all_never_fail(before) {
        assert forall|i: int| 0 <= i < after.len() implies (#[trigger] after[i]).never_fails() by {
            if i != c {
                assert(before[i].never_fails());
            } else {
                assert(before[c].never_fails());
            }
        }
    }
    if all_never_fail(after) {
        assert forall|i: int| 0 <= i < before.len() implies (#[trigger] before[i]).never_fails() by {
            if i != c {
                assert(after[i].never_fails());
            } else {
                assert(after[c].never_fails());
            }
        }
    }
}

/// A merge of iterators of one kind and one direction.
pub struct MergeIterator<I: HummockIterator> {
    pub children: Vec<I>,
}

impl<I: HummockIterator> MergeIterator<I> {
    /// A merge of the given iterators.
    pub fn new(children: Vec<I>) -> (r: Self)
        requires
            forall|i: int| 0 <= i < children.len() ==> (#[trigger] children[i]).wf(),
        ensures
            r.wf(),
            r.children == children,
    {
        MergeIterator { children }
    }

    /// The child whose entry the merge shows.
    fn best(&self) -> (r: Option<usize>)
        requires
            self.wf(),
        ensures
            match r {
                Some(b) => b == best_child(
                    I::Direction::spec_direction(),
                    children_remaining(self.children@),
                    self.children.len() as int,
                ) && b < self.children.len() && self.children[b as int].remaining().len() > 0,
                None => best_child(
                    I::Direction::spec_direction(),
                    children_remaining(self.children@),
                    self.children.len() as int,
                ) < 0,
            },
    {
        let d = I::Direction::direction();
        let ghost rem = children_remaining(self.children@);
        let mut best: Option<usize> = None;
        let mut best_key: Option<FullKey> = None;
        let mut c: usize = 0;
        while c < self.children.len()
            invariant
                c <= self.children.len(),
                self.wf(),
                d == I::Direction::spec_direction(),
                rem == children_remaining(self.children@),
                match best {
                    Some(b) => b == best_child(d, rem, c as int) && b < c && rem[b as int].len() > 0
                        && best_key is Some && best_key->0@ == rem[b as int][0].key,
                    None => best_child(d, rem, c as int) < 0 && best_key is None,
                },
            decreases self.children.len() - c,
        {
            assert(rem[c as int] == self.children[c as int].remaining());
            if self.children[c].is_valid() {
                let key = self.children[c].key();
                let better = match &best_key {
                    Some(k) => is_key_before(d, &key, k),
                    None => true,
                };
                if better {
                    best = Some(c);
                    best_key = Some(key);
                }
            }
            c += 1;
        }
        best
    }
}

impl<I: HummockIterator> HummockIterator for MergeIterator<I> {
    type Direction = I::Direction;

    open spec fn all(&self) -> Seq<EntryView> {
        merge_seq(I::Direction::spec_direction(), children_all(self.children@))
    }

    open spec fn remaining(&self) -> Seq<EntryView> {
        merge_seq(I::Direction::spec_direction(), children_remaining(self.children@))
    }

    open spec fn wf(&self) -> bool {
        forall|i: int| 0 <= i < self.children.len() ==> (#[trigger] self.children[i]).wf()
    }

    open spec fn never_fails(&self) -> bool {
        all_never_fail(self.children@)
    }

    proof fn lemma_sorted(&self) {
        let d = I::Direction::spec_direction();
        let cs = children_all(self.children@);
        assert forall|c: int| 0 <= c < cs.len() implies entries_sorted(d, #[trigger] cs[c]) by {
            assert(self.children[c].wf());
            self.children[c].lemma_sorted();
        }
        lemma_merge_sorted(d, cs);
    }

    fn is_valid(&self) -> (r: bool) {
        proof {
            lemma_best_child(
                I::Direction::spec_direction(),
                children_remaining(self.children@),
                self.children.len() as int,
            );
        }
        self.best().is_some()
    }

    fn key(&self) -> (r: FullKey) {
        proof {
            lemma_best_child(
                I::Direction::spec_direction(),
                children_remaining(self.children@),
                self.children.len() as int,
            );
        }
        match self.best() {
            Some(b) => self.children[b].key(),
            None => FullKey { user_key: UserKey { table_id: 0, table_key: Vec::new() }, epoch: 0 },
        }
    }

    fn value(&self) -> (r: HummockValue) {
        proof {
            lemma_best_child(
                I::Direction::spec_direction(),
                children_remaining(self.children@),
                self.children.len() as int,
            );
        }
        match self.best() {
            Some(b) => self.children[b].value(),
            None => HummockValue::Delete,
        }
    }

    fn next(&mut self) -> (r: Result<(), StorageError>) {
        let ghost d = I::Direction::spec_direction();
        let ghost rem = children_remaining(self.children@);
        let ghost alls = children_all(self.children@);
        proof {
            lemma_best_child(d, rem, self.children.len() as int);
        }
        match self.best() {
            Some(b) => {
                let ghost before = self.children@;
                let r = self.children[b].next();
                proof {
                    lemma_step_keeps_reliability(before, self.children@, b as int);
                    assert forall|i: int| 0 <= i < self.children.len() implies (
                    #[trigger] self.children[i]).wf() by {
                        if i != b {
                            assert(self.children[i] == before[i]);
                        }
                    }
                    assert(children_all(self.children@) =~= alls) by {
                        assert forall|i: int| 0 <= i < self.children.len() implies children_all(
                            self.children@,
                        )[i] == alls[i] by {
                            if i != b {
                                assert(self.children[i] == before[i]);
                            }
                        }
                    }
                    if r is Ok {
                        assert(children_remaining(self.children@) =~= advance(rem, b as int)) by {
                            assert forall|i: int| 0 <= i < self.children.len() implies children_remaining(
                                self.children@,
                            )[i] == advance(rem, b as int)[i] by {
                                if i != b {
                                    assert(self.children[i] == before[i]);
                                }
                            }
                        }
                        assert(merge_seq(d, rem).drop_first() =~= merge_seq(d, advance(rem, b as int)));
                    }
                }
                r
            },
            None => Ok(()),
        }
    }

    fn rewind(&mut self) -> (r: Result<(), StorageError>) {
        let ghost alls = children_all(self.children@);
        let mut i: usize = 0;
        while i < self.children.len()
            invariant
                i <= self.children.len(),
                self.wf(),
                self.children.len() == old(self).children.len(),
                children_all(self.children@) == alls,
                alls == children_all(old(self).children@),
                all_never_fail(self.children@) == all_never_fail(old(self).children@),
                forall|k: int|
                    0 <= k < i ==> (#[trigger] self.children[k]).remaining() == self.children[k].all(),
            decreases self.children.len() - i,
        {
            let ghost before = self.children@;
            let r = self.children[i].rewind();
            proof {
                lemma_step_keeps_reliability(before, self.children@, i as int);
                assert forall|k: int| 0 <= k < self.children.len() implies (
                #[trigger] self.children[k]).wf() by {
                    if k != i {
                        assert(self.children[k] == before[k]);
                    }
                }
                assert(children_all(self.children@) =~= alls) by {
                    assert forall|k: int| 0 <= k < self.children.len() implies children_all(
                        self.children@,
                    )[k] == alls[k] by {
                        assert(alls[k] == before[k].all());
                        if k != i {
                            assert(self.children[k] == before[k]);
                        }
                    }
                }
                assert forall|k: int| 0 <= k < i implies (#[trigger] self.children[k]).remaining()
                    == self.children[k].all() by {
                    assert(self.children[k] == before[k]);
                }
            }
            if r.is_err() {
                return r;
            }
            i += 1;
        }
        assert(children_remaining(self.children@) =~= children_all(self.children@));
        Ok(())
    }

    fn seek(&mut self, key: &FullKey) -> (r: Result<(), StorageError>) {
        let ghost d = I::Direction::spec_direction();
        let ghost alls = children_all(self.children@);
        let mut i: usize = 0;
        while i < self.children.len()
            invariant
                i <= self.children.len(),
                self.wf(),
                self.children.len() == old(self).children.len(),
                d == I::Direction::spec_direction(),
                children_all(self.children@) == alls,
                alls == children_all(old(self).children@),
                all_never_fail(self.children@) == all_never_fail(old(self).children@),
                forall|k: int|
                    0 <= k < i ==> (#[trigger] self.children[k]).remaining() == suffix_from(
                        d,
                        self.children[k].all(),
                        key@,
                    ),
            decreases self.children.len() - i,
        {
            let ghost before = self.children@;
            let r = self.children[i].seek(key);
            proof {
                lemma_step_keeps_reliability(before, self.children@, i as int);
                assert forall|k: int| 0 <= k < self.children.len() implies (
                #[trigger] self.children[k]).wf() by {
                    if k != i {
                        assert(self.children[k] == before[k]);
                    }
                }
                assert(children_all(self.children@) =~= alls) by {
                    assert forall|k: int| 0 <= k < self.children.len() implies children_all(
                        self.children@,
                    )[k] == alls[k] by {
                        assert(alls[k] == before[k].all());
                        if k != i {
                            assert(self.children[k] == before[k]);
                        }
                    }
                }
                assert forall|k: int| 0 <= k < i implies (#[trigger] self.children[k]).remaining()
                    == suffix_from(d, self.children[k].all(), key@) by {
                    assert(self.children[k] == before[k]);
                }
            }
            if r.is_err() {
                return r;
            }
            i += 1;
        }
        proof {
            assert(children_remaining(self.children@) =~= suffixes_from(d, alls, key@)) by {
                assert forall|k: int| 0 <= k < self.children.len() implies children_remaining(
                    self.children@,
                )[k] == suffixes_from(d, alls, key@)[k] by {
                    assert(alls[k] == self.children[k].all());
                }
            }
            lemma_merge_from_key(d, alls, key@);
        }
        Ok(())
    }
}

} // verus!
