//! Laws on the member tables of two groups when tables move between them.

use vstd::prelude::*;
use crate::apply::regrouped;
use crate::delta::SummaryView;
use crate::laws::concat::{lemma_filter_keeps_order, lemma_filter_source};
use crate::level::LevelsView;
use crate::members::{is_listed, is_not_listed, law_sort_ids_sorted, sort_ids};

verus! {

/// The list is in ascending order and holds no table twice.
pub open spec fn members_in_order(s: Seq<u32>) -> bool {
    forall|i: int, j: int| 0 <= i < j < s.len() ==> s[i] < s[j]
}

/// What a filter lets pass of a list in order is in order.
pub proof fn lemma_filter_in_order(s: Seq<u32>, p: spec_fn(u32) -> bool)
    requires
        members_in_order(s),
    ensures
        members_in_order(s.filter(p)),
{
    let f = s.filter(p);
    assert forall|i: int, j: int| 0 <= i < j < f.len() implies f[i] < f[j] by {
        let (a, b) = lemma_filter_keeps_order(s, p, i, j);
    }
}

/// A sorted list that holds the tables of a list without repetitions is in
/// order.
pub proof fn lemma_sorted_is_in_order(s: Seq<u32>)
    requires
        s.no_duplicates(),
    ensures
        members_in_order(sort_ids(s)),
{
    let t = sort_ids(s);
    law_sort_ids_sorted(s);
    s.lemma_multiset_has_no_duplicates();
    t.lemma_multiset_has_no_duplicates_conv();
    assert forall|i: int, j: int| 0 <= i < j < t.len() implies t[i] < t[j] by {
        assert(t[i] <= t[j]);
        assert(t[i] != t[j]);
    }
}

/// A move of tables keeps the member lists of both groups in order.
///
/// Let the member lists of the target and of the source be in ascending
/// order without repetitions, and let no table be a member of both. After
/// the tables `ids` moved, the same holds: the source lists the tables it
/// had but for those that moved, the target lists the tables it had and
/// those that moved, each list is in ascending order without repetitions,
/// and no table is a member of both.
pub proof fn law_table_move_keeps_members_in_order(target: Seq<u32>, origin: Seq<u32>, ids: Seq<u32>)
    requires
        members_in_order(target),
        members_in_order(origin),
        target.disjoint(origin),
    ensures
        ({
            let left = origin.filter(is_not_listed(ids));
            let joined = sort_ids(target + origin.filter(is_listed(ids)));
            &&& members_in_order(left)
            &&& members_in_order(joined)
            &&& joined.disjoint(left)
            &&& forall|t: u32| left.contains(t) <==> origin.contains(t) && !ids.contains(t)
            &&& forall|t: u32|
                joined.contains(t) <==> target.contains(t) || (origin.contains(t) && ids.contains(t))
        }),
{
    broadcast use vstd::seq_lib::group_to_multiset_ensures;

    let moving = origin.filter(is_listed(ids));
    let left = origin.filter(is_not_listed(ids));
    let joined = sort_ids(target + moving);
    lemma_filter_in_order(origin, is_listed(ids));
    lemma_filter_in_order(origin, is_not_listed(ids));
    assert forall|t: u32| left.contains(t) <==> origin.contains(t) && !ids.contains(t) by {
        if left.contains(t) {
            let i = choose|i: int| 0 <= i < left.len() && left[i] == t;
            let k = lemma_filter_source(origin, is_not_listed(ids), i);
            origin.lemma_filter_pred(is_not_listed(ids), i);
        }
        if origin.contains(t) && !ids.contains(t) {
            let i = choose|i: int| 0 <= i < origin.len() && origin[i] == t;
            origin.lemma_filter_contains(is_not_listed(ids), i);
        }
    }
    assert forall|t: u32| moving.contains(t) <==> origin.contains(t) && ids.contains(t) by {
        if moving.contains(t) {
            let i = choose|i: int| 0 <= i < moving.len() && moving[i] == t;
            let k = lemma_filter_source(origin, is_listed(ids), i);
            origin.lemma_filter_pred(is_listed(ids), i);
        }
        if origin.contains(t) && ids.contains(t) {
            let i = choose|i: int| 0 <= i < origin.len() && origin[i] == t;
            origin.lemma_filter_contains(is_listed(ids), i);
        }
    }
    let both = target + moving;
    assert(both.no_duplicates()) by {
        assert forall|i: int, j: int|
            0 <= i < both.len() && 0 <= j < both.len() && i != j implies both[i] != both[j] by {
            if i < target.len() && j >= target.len() {
                assert(moving.contains(both[j]));
                assert(target.contains(both[i]));
            } else if j < target.len() && i >= target.len() {
                assert(moving.contains(both[i]));
                assert(target.contains(both[j]));
            }
        }
    }
    lemma_sorted_is_in_order(both);
    law_sort_ids_sorted(both);
    assert forall|t: u32|
        joined.contains(t) <==> target.contains(t) || (origin.contains(t) && ids.contains(t)) by {
        assert(joined.contains(t) <==> joined.to_multiset().count(t) > 0);
        assert(both.contains(t) <==> both.to_multiset().count(t) > 0);
        crate::laws::overlap::lemma_contains_concat(target, moving, t);
    }
    assert forall|i: int, j: int| 0 <= i < joined.len() && 0 <= j < left.len() implies joined[i]
        != left[j] by {
        assert(joined.contains(joined[i]));
        assert(left.contains(left[j]));
        if target.contains(left[j]) {
            assert(origin.contains(left[j]));
        }
    }
}

/// A move of tables between two groups of a version keeps the member lists
/// of both in order: see [`law_table_move_keeps_members_in_order`] for what
/// the lists hold afterwards.
pub proof fn law_table_move_keeps_groups_in_order(
    groups: Map<u64, LevelsView>,
    group_id: u64,
    s: SummaryView,
)
    requires
        s.group_construct is None,
        s.group_table_change is Some,
        s.group_table_change->0.target_group_id == group_id,
        s.group_table_change->0.origin_group_id != group_id,
        groups.contains_key(group_id),
        groups.contains_key(s.group_table_change->0.origin_group_id),
        members_in_order(groups[group_id].member_table_ids),
        members_in_order(groups[s.group_table_change->0.origin_group_id].member_table_ids),
        groups[group_id].member_table_ids.disjoint(
            groups[s.group_table_change->0.origin_group_id].member_table_ids,
        ),
        regrouped(groups, group_id, s) is Ok,
    ensures
        ({
            let change = s.group_table_change->0;
            let origin = groups[change.origin_group_id].member_table_ids;
            let target = groups[group_id].member_table_ids;
            let after = regrouped(groups, group_id, s)->Ok_0.0;
            &&& after.contains_key(group_id)
            &&& after.contains_key(change.origin_group_id)
            &&& after[change.origin_group_id].member_table_ids == origin.filter(
                is_not_listed(change.table_ids),
            )
            &&& after[group_id].member_table_ids == sort_ids(
                target + origin.filter(is_listed(change.table_ids)),
            )
            &&& members_in_order(after[group_id].member_table_ids)
            &&& members_in_order(after[change.origin_group_id].member_table_ids)
            &&& after[group_id].member_table_ids.disjoint(
                after[change.origin_group_id].member_table_ids,
            )
        }),
{
    let change = s.group_table_change->0;
    law_table_move_keeps_members_in_order(
        groups[group_id].member_table_ids,
        groups[change.origin_group_id].member_table_ids,
        change.table_ids,
    );
}

} // verus!
