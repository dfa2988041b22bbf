//! What a read sees of the versions of a key.

use vstd::prelude::*;
use crate::iterator::backward_user::{emitted, held_after, shown_back};
use crate::iterator::user::{presentable, shown_rest, ReadView};
use crate::iterator::{ compare_user_keys, entries_sorted, key_before, DirectionEnum, EntryView,
    UserKeyView};
use crate::key::KeyOrder;
use crate::laws::key_order::{
    lemma_user_keys_equal, lemma_user_keys_reverse, lemma_user_keys_transitive};

verus! {

/// The entry at `i` is the first of its user key that the read epoch
/// sees.
pub open spec fn first_seen(all: Seq<EntryView>, i: int, r: ReadView) -> bool {
    &&& all[i].key.epoch <= r.read_epoch
    &&& forall|j: int|
        0 <= j < i ==> !((#[trigger] all[j]).key.user_key == all[i].key.user_key
            && all[j].key.epoch <= r.read_epoch)
}

/// The entry at `i` is shown to the read: it is the first of its user key
/// that the read sees, a value and no deletion, under no tombstone, and of
/// the table that is read.
pub open spec fn shown_at(all: Seq<EntryView>, i: int, r: ReadView) -> bool {
    first_seen(all, i, r) && presentable(all[i], r)
}

/// The entries from `p` on that are shown to the read, in order.
pub open spec fn visible_from(all: Seq<EntryView>, p: int, r: ReadView) -> Seq<EntryView>
    decreases all.len() - p,
{
    if p < 0 || p >= all.len() {
        Seq::empty()
    } else if shown_at(all, p, r) {
        seq![all[p]] + visible_from(all, p + 1, r)
    } else {
        visible_from(all, p + 1, r)
    }
}

/// In a list in forward order the user keys do not descend.
pub proof fn lemma_sorted_user_keys(all: Seq<EntryView>, i: int, j: int)
    requires
        entries_sorted(DirectionEnum::Forward, all),
        0 <= i <= j < all.len(),
    ensures
        compare_user_keys(all[i].key.user_key, all[j].key.user_key) != KeyOrder::Greater,
{
    if i < j {
        assert(!key_before(DirectionEnum::Forward, all[j].key, all[i].key));
        lemma_user_keys_reverse(all[i].key.user_key, all[j].key.user_key);
    } else {
        lemma_user_keys_equal(all[i].key.user_key, all[j].key.user_key);
    }
}

proof fn lemma_shown_is_visible(all: Seq<EntryView>, p: int, done: Option<UserKeyView>, r: ReadView)
    requires
        entries_sorted(DirectionEnum::Forward, all),
        0 <= p <= all.len(),
        done is Some ==> exists|j: int|
            0 <= j < p && (#[trigger] all[j]).key.user_key == done->0 && all[j].key.epoch
                <= r.read_epoch,
        forall|j: int|
            0 <= j < p && (#[trigger] all[j]).key.epoch <= r.read_epoch ==> done is Some
                && compare_user_keys(all[j].key.user_key, done->0) != KeyOrder::Greater,
    ensures
        shown_rest(all.skip(p), done, r) == visible_from(all, p, r),
    decreases all.len() - p,
{
    let rem = all.skip(p);
    if p < all.len() {
        let e = all[p];
        assert(rem[0] == e);
        assert(rem.drop_first() =~= all.skip(p + 1));
        lemma_user_keys_equal(e.key.user_key, e.key.user_key);
        if done == Some(e.key.user_key) {
            let j = choose|j: int|
                0 <= j < p && (#[trigger] all[j]).key.user_key == done->0 && all[j].key.epoch
                    <= r.read_epoch;
            assert(!first_seen(all, p, r));
            lemma_shown_is_visible(all, p + 1, done, r);
        } else if e.key.epoch > r.read_epoch {
            lemma_shown_is_visible(all, p + 1, done, r);
        } else {
            assert forall|j: int| 0 <= j < p && (#[trigger] all[j]).key.epoch
                <= r.read_epoch implies compare_user_keys(all[j].key.user_key, e.key.user_key)
                == KeyOrder::Less by {
                let dk = done->0;
                let w = choose|w: int|
                    0 <= w < p && (#[trigger] all[w]).key.user_key == dk && all[w].key.epoch
                        <= r.read_epoch;
                lemma_sorted_user_keys(all, w, p);
                lemma_user_keys_equal(dk, e.key.user_key);
                lemma_user_keys_transitive(all[j].key.user_key, dk, e.key.user_key);
            }
            assert(first_seen(all, p, r)) by {
                assert forall|j: int| 0 <= j < p implies !((#[trigger] all[j]).key.user_key
                    == e.key.user_key && all[j].key.epoch <= r.read_epoch) by {
                    if all[j].key.epoch <= r.read_epoch {
                        lemma_user_keys_equal(all[j].key.user_key, e.key.user_key);
                    }
                }
            }
            let next = Some(e.key.user_key);
            assert(all[p].key.user_key == next->0 && all[p].key.epoch <= r.read_epoch);
            lemma_shown_is_visible(all, p + 1, next, r);
        }
    } else {
        assert(rem.len() == 0);
    }
}

/// Over entries in forward order, a read is shown exactly the entries
/// that are the first of their user key which the read epoch sees, and
/// that are values of the table read under no tombstone -- in their order.
pub proof fn law_read_shows_first_seen(all: Seq<EntryView>, r: ReadView)
    requires
        entries_sorted(DirectionEnum::Forward, all),
    ensures
        shown_rest(all, None, r) == visible_from(all, 0, r),
{
    assert(all.skip(0) =~= all);
    lemma_shown_is_visible(all, 0, None, r);
}

/// Over entries in forward order, the first entry of a user key that the
/// read epoch sees carries the highest epoch of all entries of the key
/// that the read epoch sees.
pub proof fn law_first_seen_is_newest(all: Seq<EntryView>, i: int, j: int, r: ReadView)
    requires
        entries_sorted(DirectionEnum::Forward, all),
        0 <= i < all.len(),
        0 <= j < all.len(),
        first_seen(all, i, r),
        all[j].key.user_key == all[i].key.user_key,
        all[j].key.epoch <= r.read_epoch,
    ensures
        all[j].key.epoch <= all[i].key.epoch,
{
    if j > i {
        assert(!key_before(DirectionEnum::Forward, all[j].key, all[i].key));
        lemma_user_keys_equal(all[j].key.user_key, all[i].key.user_key);
    } else if j < i {
        assert(all[j].key.user_key == all[i].key.user_key);
    }
}

/// A read is shown at most one entry of each user key.
pub proof fn law_one_entry_per_key(all: Seq<EntryView>, i: int, j: int, r: ReadView)
    requires
        0 <= i < all.len(),
        0 <= j < all.len(),
        shown_at(all, i, r),
        shown_at(all, j, r),
        all[i].key.user_key == all[j].key.user_key,
    ensures
        i == j,
{
    if i < j {
        assert(all[i].key.user_key == all[j].key.user_key && all[i].key.epoch <= r.read_epoch);
    } else if j < i {
        assert(all[j].key.user_key == all[i].key.user_key && all[j].key.epoch <= r.read_epoch);
    }
}

/// Every entry that a read is shown from `p` on stands in the list at a
/// place where it is shown, and every such place from `p` on yields an
/// entry.
pub proof fn law_visible_members(all: Seq<EntryView>, p: int, r: ReadView, e: EntryView)
    requires
        0 <= p <= all.len(),
    ensures
        visible_from(all, p, r).contains(e) <==> exists|i: int|
            p <= i < all.len() && #[trigger] shown_at(all, i, r) && all[i] == e,
    decreases all.len() - p,
{
    if p < all.len() {
        law_visible_members(all, p + 1, r, e);
        let rest = visible_from(all, p + 1, r);
        let out = visible_from(all, p, r);
        if shown_at(all, p, r) {
            assert(out == seq![all[p]] + rest);
            if out.contains(e) {
                let k = choose|k: int| 0 <= k < out.len() && out[k] == e;
                if k == 0 {
                    assert(shown_at(all, p, r) && all[p] == e);
                } else {
                    assert(rest[k - 1] == e);
                    assert(rest.contains(e));
                    let i = choose|i: int|
                        p + 1 <= i < all.len() && #[trigger] shown_at(all, i, r) && all[i] == e;
                    assert(p <= i < all.len() && shown_at(all, i, r) && all[i] == e);
                }
            }
            if exists|i: int| p <= i < all.len() && #[trigger] shown_at(all, i, r) && all[i] == e {
                let i = choose|i: int|
                    p <= i < all.len() && #[trigger] shown_at(all, i, r) && all[i] == e;
                if i == p {
                    assert(out[0] == e);
                } else {
                    assert(p + 1 <= i < all.len() && shown_at(all, i, r) && all[i] == e);
                    assert(rest.contains(e));
                    let k = choose|k: int| 0 <= k < rest.len() && rest[k] == e;
                    assert(out[k + 1] == e);
                }
            }
        } else {
            if out.contains(e) {
                let i = choose|i: int|
                    p + 1 <= i < all.len() && #[trigger] shown_at(all, i, r) && all[i] == e;
                assert(p <= i < all.len() && shown_at(all, i, r) && all[i] == e);
            }
            if exists|i: int| p <= i < all.len() && #[trigger] shown_at(all, i, r) && all[i] == e {
                let i = choose|i: int|
                    p <= i < all.len() && #[trigger] shown_at(all, i, r) && all[i] == e;
                assert(p + 1 <= i < all.len() && shown_at(all, i, r) && all[i] == e);
            }
        }
    } else {
        assert(visible_from(all, p, r).len() == 0);
    }
}

/// The entry at `i` is the last of its user key that the read epoch sees.
pub open spec fn last_seen(all: Seq<EntryView>, i: int, r: ReadView) -> bool {
    &&& all[i].key.epoch <= r.read_epoch
    &&& forall|j: int|
        i < j < all.len() ==> !((#[trigger] all[j]).key.user_key == all[i].key.user_key
            && all[j].key.epoch <= r.read_epoch)
}

/// The entry at `i` is shown to a backward read: it is the last of its
/// user key that the read sees, and it is presentable.
pub open spec fn shown_back_at(all: Seq<EntryView>, i: int, r: ReadView) -> bool {
    last_seen(all, i, r) && presentable(all[i], r)
}

/// The entries from `p` on that are shown to a backward read, in order.
pub open spec fn visible_back_from(all: Seq<EntryView>, p: int, r: ReadView) -> Seq<EntryView>
    decreases all.len() - p,
{
    if p < 0 || p >= all.len() {
        Seq::empty()
    } else if shown_back_at(all, p, r) {
        seq![all[p]] + visible_back_from(all, p + 1, r)
    } else {
        visible_back_from(all, p + 1, r)
    }
}

/// In a list in backward order the user keys do not ascend.
pub proof fn lemma_sorted_user_keys_backward(all: Seq<EntryView>, i: int, j: int)
    requires
        entries_sorted(DirectionEnum::Backward, all),
        0 <= i <= j < all.len(),
    ensures
        compare_user_keys(all[j].key.user_key, all[i].key.user_key) != KeyOrder::Greater,
{
    if i < j {
        assert(!key_before(DirectionEnum::Backward, all[j].key, all[i].key));
    } else {
        lemma_user_keys_equal(all[i].key.user_key, all[j].key.user_key);
    }
}

/// The entry held back, given its place in the list; `-1` stands for
/// none.
pub open spec fn held_at(all: Seq<EntryView>, j: int) -> Option<EntryView> {
    if 0 <= j < all.len() {
        Some(all[j])
    } else {
        None
    }
}

proof fn lemma_shown_back_is_visible(all: Seq<EntryView>, p: int, j: int, r: ReadView)
    requires
        entries_sorted(DirectionEnum::Backward, all),
        0 <= p <= all.len(),
        -1 <= j < p,
        j >= 0 ==> all[j].key.epoch <= r.read_epoch,
        forall|m: int|
            0 <= j < m < p ==> (#[trigger] all[m]).key.user_key == all[j].key.user_key
                && all[m].key.epoch > r.read_epoch,
    ensures
        shown_back(all.skip(p), held_at(all, j), r) == (if j >= 0 && shown_back_at(all, j, r) {
            seq![all[j]]
        } else {
            Seq::<EntryView>::empty()
        }) + visible_back_from(all, p, r),
    decreases all.len() - p,
{
    let rem = all.skip(p);
    let pend = held_at(all, j);
    let head = if j >= 0 && shown_back_at(all, j, r) {
        seq![all[j]]
    } else {
        Seq::<EntryView>::empty()
    };
    if p == all.len() {
        assert(rem.len() == 0);
        assert(shown_back(rem, pend, r) =~= head + visible_back_from(all, p, r));
    } else {
        let e = all[p];
        assert(rem[0] == e);
        assert(rem.drop_first() =~= all.skip(p + 1));
        let next = held_after(pend, e, r);
        if j >= 0 && all[j].key.user_key == e.key.user_key {
            if e.key.epoch <= r.read_epoch {
                assert(next == held_at(all, p));
                lemma_shown_back_is_visible(all, p + 1, p, r);
                assert(!last_seen(all, j, r));
            } else {
                assert(next == held_at(all, j));
                lemma_shown_back_is_visible(all, p + 1, j, r);
                assert(last_seen(all, j, r) <==> (forall|m: int|
                    p + 1 <= m < all.len() ==> !((#[trigger] all[m]).key.user_key
                        == all[j].key.user_key && all[m].key.epoch <= r.read_epoch)));
                assert(!last_seen(all, p, r));
            }
            assert(shown_back(rem, pend, r) =~= head + visible_back_from(all, p, r));
        } else {
            if j >= 0 {
                assert(last_seen(all, j, r)) by {
                    assert forall|m: int| j < m < all.len() implies !((#[trigger] all[m]).key.user_key
                        == all[j].key.user_key && all[m].key.epoch <= r.read_epoch) by {
                        if m >= p {
                            lemma_sorted_user_keys_backward(all, j, p);
                            lemma_sorted_user_keys_backward(all, p, m);
                            lemma_user_keys_equal(all[p].key.user_key, all[j].key.user_key);
                            lemma_user_keys_transitive(
                                all[m].key.user_key,
                                all[p].key.user_key,
                                all[j].key.user_key,
                            );
                            lemma_user_keys_equal(all[m].key.user_key, all[j].key.user_key);
                        }
                    }
                }
            }
            assert(emitted(pend, r) =~= head);
            if e.key.epoch <= r.read_epoch {
                assert(next == held_at(all, p));
                lemma_shown_back_is_visible(all, p + 1, p, r);
            } else {
                assert(next == held_at(all, -1));
                lemma_shown_back_is_visible(all, p + 1, -1, r);
                assert(!last_seen(all, p, r));
            }
            assert(shown_back(rem, pend, r) =~= head + visible_back_from(all, p, r));
        }
    }
}

/// Over entries in backward order, a read is shown exactly the entries
/// that are the last of their user key which the read epoch sees, and
/// that are presentable -- in their order.
pub proof fn law_backward_read_shows_last_seen(all: Seq<EntryView>, r: ReadView)
    requires
        entries_sorted(DirectionEnum::Backward, all),
    ensures
        shown_back(all, None, r) == visible_back_from(all, 0, r),
{
    assert(all.skip(0) =~= all);
    lemma_shown_back_is_visible(all, 0, -1, r);
    assert(Seq::<EntryView>::empty() + visible_back_from(all, 0, r) =~= visible_back_from(all, 0, r));
}

/// Over entries in backward order, the last entry of a user key that the
/// read epoch sees carries the highest epoch of all entries of the key
/// that the read epoch sees.
pub proof fn law_last_seen_is_newest(all: Seq<EntryView>, i: int, j: int, r: ReadView)
    requires
        entries_sorted(DirectionEnum::Backward, all),
        0 <= i < all.len(),
        0 <= j < all.len(),
        last_seen(all, i, r),
        all[j].key.user_key == all[i].key.user_key,
        all[j].key.epoch <= r.read_epoch,
    ensures
        all[j].key.epoch <= all[i].key.epoch,
{
    if j < i {
        assert(!key_before(DirectionEnum::Backward, all[i].key, all[j].key));
        lemma_user_keys_equal(all[i].key.user_key, all[j].key.user_key);
    } else if j > i {
        assert(all[j].key.user_key == all[i].key.user_key);
    }
}

} // verus!
