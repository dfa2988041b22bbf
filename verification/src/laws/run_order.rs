//! Laws on the order of key ranges and on runs that stand in that order.

use vstd::prelude::*;
use crate::key::{compare_bytes, compare_full_key, epoch_bytes_of, user_key_of, KeyOrder};
use crate::laws::key_order::{lemma_compare_reverse_from, lemma_order_transitive};
use crate::runs::{insert_run, lemma_sort_runs_permutes, run_not_after, sort_runs};
use crate::sstable::{
    runs_concatenable, runs_joinable, runs_sortable, KeyRangeView, SstView,
};

verus! {

/// The runs stand in the order of their key ranges: none comes after a run
/// that stands behind it.
pub open spec fn runs_in_order(s: Seq<SstView>) -> bool {
    forall|i: int, j: int| 0 <= i < j < s.len() ==> run_not_after(#[trigger] s[i], #[trigger] s[j])
}

/// Every run ends below the start of every run behind it, and the bounds
/// that say so can be decoded.
pub open spec fn runs_disjoint(s: Seq<SstView>) -> bool {
    &&& runs_joinable(s)
    &&& forall|i: int, j: int|
        0 <= i < j < s.len() ==> (#[trigger] s[i]).key_range->0.compare_right_with(
            (#[trigger] s[j]).key_range->0.left,
        ) == KeyOrder::Less
}

/// Exchanging two encoded full keys reverses the outcome of their
/// comparison.
pub proof fn lemma_full_key_reverse(a: Seq<u8>, b: Seq<u8>)
    ensures
        compare_full_key(b, a) == compare_full_key(a, b).spec_reverse(),
{
    lemma_compare_reverse_from(user_key_of(a), user_key_of(b), 0);
    lemma_compare_reverse_from(epoch_bytes_of(b), epoch_bytes_of(a), 0);
}

/// The order of encoded full keys is transitive.
pub proof fn lemma_full_key_transitive(a: Seq<u8>, b: Seq<u8>, c: Seq<u8>)
    requires
        compare_full_key(a, b) != KeyOrder::Greater,
        compare_full_key(b, c) != KeyOrder::Greater,
    ensures
        compare_full_key(a, c) != KeyOrder::Greater,
        compare_bytes(user_key_of(a), user_key_of(b)) != KeyOrder::Greater,
{
    lemma_order_transitive(user_key_of(a), user_key_of(b), user_key_of(c));
    if compare_bytes(user_key_of(a), user_key_of(b)) == KeyOrder::Equal && compare_bytes(
        user_key_of(b),
        user_key_of(c),
    ) == KeyOrder::Equal {
        lemma_order_transitive(epoch_bytes_of(c), epoch_bytes_of(b), epoch_bytes_of(a));
    }
}

/// Exchanging two key ranges reverses the outcome of their comparison.
pub proof fn lemma_range_reverse(a: KeyRangeView, b: KeyRangeView)
    ensures
        b.compare(a) == a.compare(b).spec_reverse(),
{
    lemma_full_key_reverse(a.left, b.left);
}

/// The order of key ranges is transitive.
pub proof fn lemma_range_transitive(a: KeyRangeView, b: KeyRangeView, c: KeyRangeView)
    requires
        a.compare(b) != KeyOrder::Greater,
        b.compare(c) != KeyOrder::Greater,
    ensures
        a.compare(c) != KeyOrder::Greater,
{
    if !a.is_inf() && !b.is_inf() && !c.is_inf() {
        lemma_full_key_transitive(a.left, b.left, c.left);
    }
}

/// A run put into a list in order leaves a list in order, of the same runs
/// and the new one.
pub proof fn lemma_insert_run_in_order(s: Seq<SstView>, x: SstView)
    requires
        runs_in_order(s),
    ensures
        runs_in_order(insert_run(s, x)),
        insert_run(s, x).len() == s.len() + 1,
        forall|k: int|
            0 <= k < insert_run(s, x).len() ==> (#[trigger] insert_run(s, x)[k]) == x || s.contains(
                insert_run(s, x)[k],
            ),
    decreases s.len(),
{
    let t = insert_run(s, x);
    if s.len() == 0 {
    } else if run_not_after(s.last(), x) {
        assert forall|i: int, j: int| 0 <= i < j < t.len() implies run_not_after(
            #[trigger] t[i],
            #[trigger] t[j],
        ) by {
            if j == s.len() {
                if i < s.len() - 1 {
                    assert(run_not_after(s[i], s[s.len() - 1]));
                    lemma_range_transitive(
                        s[i].key_range->0,
                        s.last().key_range->0,
                        x.key_range->0,
                    );
                }
            } else {
                assert(run_not_after(s[i], s[j]));
            }
        }
        assert forall|k: int| 0 <= k < t.len() implies (#[trigger] t[k]) == x || s.contains(t[k]) by {
            if k < s.len() {
                assert(s[k] == t[k]);
            }
        }
    } else {
        let head = s.drop_last();
        assert(runs_in_order(head)) by {
            assert forall|i: int, j: int| 0 <= i < j < head.len() implies run_not_after(
                #[trigger] head[i],
                #[trigger] head[j],
            ) by {
                assert(run_not_after(s[i], s[j]));
            }
        }
        lemma_insert_run_in_order(head, x);
        let u = insert_run(head, x);
        lemma_range_reverse(s.last().key_range->0, x.key_range->0);
        assert forall|i: int, j: int| 0 <= i < j < t.len() implies run_not_after(
            #[trigger] t[i],
            #[trigger] t[j],
        ) by {
            if j == t.len() - 1 {
                assert(t[i] == u[i]);
                if u[i] != x {
                    let w = choose|w: int| 0 <= w < head.len() && head[w] == u[i];
                    assert(run_not_after(s[w], s[s.len() - 1]));
                }
            } else {
                assert(run_not_after(u[i], u[j]));
            }
        }
        assert forall|k: int| 0 <= k < t.len() implies (#[trigger] t[k]) == x || s.contains(t[k]) by {
            if k < u.len() {
                assert(t[k] == u[k]);
                if u[k] != x {
                    let w = choose|w: int| 0 <= w < head.len() && head[w] == u[k];
                    assert(s[w] == u[k]);
                }
            } else {
                assert(t[k] == s[s.len() - 1]);
            }
        }
    }
}

/// Sorting puts the runs in order.
pub proof fn lemma_sort_runs_in_order(s: Seq<SstView>)
    ensures
        runs_in_order(sort_runs(s)),
    decreases s.len(),
{
    if s.len() > 0 {
        lemma_sort_runs_in_order(s.drop_last());
        lemma_insert_run_in_order(sort_runs(s.drop_last()), s.last());
    }
}

/// Sorting keeps the runs such that they can be put in order.
pub proof fn lemma_sort_runs_keeps_sortable(s: Seq<SstView>)
    requires
        runs_sortable(s),
    ensures
        runs_sortable(sort_runs(s)),
{
    broadcast use vstd::seq_lib::group_to_multiset_ensures;

    lemma_sort_runs_permutes(s);
    let t = sort_runs(s);
    if t.len() >= 2 {
        assert forall|i: int| 0 <= i < t.len() implies (#[trigger] t[i]).is_sortable() by {
            assert(t.to_multiset().count(t[i]) > 0);
            assert(s.to_multiset().count(t[i]) > 0);
            assert(s.contains(t[i]));
        }
    }
}

/// Of runs in order, each of which ends below the start of the next, each
/// ends below the start of every run behind it.
pub proof fn lemma_in_order_is_disjoint(s: Seq<SstView>)
    requires
        runs_joinable(s),
        runs_in_order(s),
        runs_concatenable(s),
    ensures
        runs_disjoint(s),
{
    assert forall|i: int, j: int| 0 <= i < j < s.len() implies (#[trigger] s[i]).key_range->0.compare_right_with(
        (#[trigger] s[j]).key_range->0.left,
    ) == KeyOrder::Less by {
        lemma_ends_below_reaches(s, i, j);
    }
}

/// What joinable runs say of the run at `k` and the one before it.
pub proof fn lemma_joinable_at(s: Seq<SstView>, k: int)
    requires
        runs_joinable(s),
        0 < k < s.len(),
    ensures
        s[k - 1].has_right(),
        s[k].has_left(),
{
    assert(s[k - 1].has_right() && s[k].has_left());
}

proof fn lemma_ends_below_reaches(s: Seq<SstView>, i: int, j: int)
    requires
        runs_joinable(s),
        runs_in_order(s),
        runs_concatenable(s),
        0 <= i < j < s.len(),
    ensures
        s[i].key_range->0.compare_right_with(s[j].key_range->0.left) == KeyOrder::Less,
    decreases j - i,
{
    assert(s[j - 1].key_range->0.compare_right_with(s[j].key_range->0.left) == KeyOrder::Less);
    if i < j - 1 {
        lemma_ends_below_reaches(s, i, j - 1);
        lemma_joinable_at(s, j);
        lemma_joinable_at(s, j - 1);
        let before = s[j - 1].key_range->0;
        let here = s[j].key_range->0;
        assert(run_not_after(s[j - 1], s[j]));
        assert(!before.is_inf() && !here.is_inf());
        assert(compare_bytes(user_key_of(before.left), user_key_of(here.left)) != KeyOrder::Greater);
        lemma_order_transitive(
            user_key_of(s[i].key_range->0.right),
            user_key_of(before.left),
            user_key_of(here.left),
        );
    }
}

} // verus!
