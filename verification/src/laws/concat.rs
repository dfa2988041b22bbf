//! The levels below level zero stay in order and free of overlap.
//!
//! A level is sound where its runs stand in the order of their key ranges
//! and each ends below the start of every run behind it. Every edit that a
//! delta makes keeps a sound level sound: runs that leave take nothing from
//! the order of those that stay, and runs that join are put in their place
//! and refused where they overlap.

use vstd::prelude::*;
use crate::apply::{
    apply_groups, committed, group_step, regrouped, spec_apply_version_delta, GroupsAndSplits,
};
use crate::compact::{
    keeps_run, level_without, levels_after_delete, levels_after_insert, spec_apply_compact_ssts,
    spec_level_insert_ssts,
};
use crate::delta::{spec_summarize, CompatibilityVersion, DeltaView, GroupDeltaView, SummaryView};
use crate::key::KeyOrder;
use crate::laws::epochs::spec_apply_all;
use crate::laws::run_order::{
    lemma_in_order_is_disjoint, lemma_joinable_at, lemma_sort_runs_in_order,
    lemma_sort_runs_keeps_sortable, runs_disjoint, runs_in_order,
};
use crate::level::{LevelView, LevelsView};
use crate::members::with_meta_changes;
use crate::ordered::ascending_seq;
use crate::runs::{run_not_after, sort_runs};
use crate::split::{
    has_tables, level_purged, level_step, spec_init_with_parent_group, spec_split_group,
    split_levels, split_runs, split_sub_levels, L0Split, LevelSplit,
};
use crate::sstable::{runs_concatenable, runs_joinable, runs_sortable, SstView};
use crate::sub_level::{level_in_key_order, level_with_added};
use crate::validate::{run_violations, runs_violations, Violation};
use crate::version::{initial_levels, VersionView};

verus! {

/// The runs can be put in order, stand in the order of their key ranges,
/// and each ends below the start of every run behind it.
pub open spec fn runs_sound(s: Seq<SstView>) -> bool {
    runs_sortable(s) && runs_in_order(s) && runs_disjoint(s)
}

/// The runs of the level are sound.
pub open spec fn level_sound(lv: LevelView) -> bool {
    runs_sound(lv.table_infos)
}

/// Every level below level zero is sound.
pub open spec fn group_sound(g: LevelsView) -> bool {
    forall|k: int| 0 <= k < g.levels.len() ==> level_sound(#[trigger] g.levels[k])
}

/// Every group is sound.
pub open spec fn groups_sound(m: Map<u64, LevelsView>) -> bool {
    forall|g: u64| m.contains_key(g) ==> group_sound(#[trigger] m[g])
}

/// Every level of the list is sound.
pub open spec fn levels_sound(ls: Seq<LevelView>) -> bool {
    forall|k: int| 0 <= k < ls.len() ==> level_sound(#[trigger] ls[k])
}

/// Every level below level zero holds its runs so that each ends below
/// the start of the next.
pub open spec fn group_concatenable(g: LevelsView) -> bool {
    forall|k: int|
        0 <= k < g.levels.len() ==> runs_joinable((#[trigger] g.levels[k]).table_infos)
            && runs_concatenable(g.levels[k].table_infos)
}

/// Runs that are disjoint one from all others are so from one to the next.
pub proof fn law_sound_runs_are_concatenable(s: Seq<SstView>)
    requires
        runs_disjoint(s),
    ensures
        runs_joinable(s),
        runs_concatenable(s),
{
}

/// In a sound group every level below level zero holds its runs so that
/// each ends below the start of the next.
pub proof fn law_sound_group_is_concatenable(g: LevelsView)
    requires
        group_sound(g),
    ensures
        group_concatenable(g),
{
    assert forall|k: int| 0 <= k < g.levels.len() implies runs_joinable(
        (#[trigger] g.levels[k]).table_infos,
    ) && runs_concatenable(g.levels[k].table_infos) by {
        assert(level_sound(g.levels[k]));
        law_sound_runs_are_concatenable(g.levels[k].table_infos);
    }
}

/// A filter keeps the order of what it lets pass: of two runs that pass,
/// the one that stood before the other still stands before it.
pub proof fn lemma_filter_keeps_order<A>(s: Seq<A>, p: spec_fn(A) -> bool, i: int, j: int) -> (r: (
    int,
    int,
))
    requires
        0 <= i < j < s.filter(p).len(),
    ensures
        0 <= r.0 < r.1 < s.len(),
        s[r.0] == s.filter(p)[i],
        s[r.1] == s.filter(p)[j],
    decreases s.len(),
{
    reveal(Seq::filter);
    let rest = s.drop_last().filter(p);
    if p(s.last()) {
        if j == rest.len() {
            let k = lemma_filter_source(s.drop_last(), p, i);
            (k, s.len() - 1)
        } else {
            lemma_filter_keeps_order(s.drop_last(), p, i, j)
        }
    } else {
        lemma_filter_keeps_order(s.drop_last(), p, i, j)
    }
}

/// Every element that a filter lets pass stood in the list.
pub proof fn lemma_filter_source<A>(s: Seq<A>, p: spec_fn(A) -> bool, i: int) -> (k: int)
    requires
        0 <= i < s.filter(p).len(),
    ensures
        0 <= k < s.len(),
        s[k] == s.filter(p)[i],
    decreases s.len(),
{
    reveal(Seq::filter);
    let rest = s.drop_last().filter(p);
    if p(s.last()) && i == rest.len() {
        s.len() - 1
    } else {
        lemma_filter_source(s.drop_last(), p, i)
    }
}

/// Taking runs out of a sound list leaves a sound list.
pub proof fn lemma_filter_keeps_sound(s: Seq<SstView>, p: spec_fn(SstView) -> bool)
    requires
        runs_sound(s),
    ensures
        runs_sound(s.filter(p)),
{
    let f = s.filter(p);
    if f.len() >= 2 {
        let (a, b) = lemma_filter_keeps_order(s, p, 0, 1);
        assert forall|i: int| 0 <= i < f.len() implies (#[trigger] f[i]).is_sortable() by {
            let k = lemma_filter_source(s, p, i);
        }
    }
    assert forall|i: int| 0 < i < f.len() implies (#[trigger] f[i - 1]).has_right()
        && f[i].has_left() by {
        let (a, b) = lemma_filter_keeps_order(s, p, i - 1, i);
        lemma_joinable_at(s, a + 1);
        lemma_joinable_at(s, b);
    }
    assert forall|i: int, j: int| 0 <= i < j < f.len() implies run_not_after(
        #[trigger] f[i],
        #[trigger] f[j],
    ) && f[i].key_range->0.compare_right_with(f[j].key_range->0.left) == KeyOrder::Less by {
        let (a, b) = lemma_filter_keeps_order(s, p, i, j);
        assert(run_not_after(s[a], s[b]));
    }
}

/// A level that is put into key order and passes the test for overlap is
/// sound, whatever its runs were.
pub proof fn lemma_key_order_is_sound(lv: LevelView)
    requires
        level_in_key_order(lv) is Ok,
    ensures
        level_sound(level_in_key_order(lv)->Ok_0),
{
    lemma_sort_runs_keeps_sortable(lv.table_infos);
    lemma_sort_runs_in_order(lv.table_infos);
    lemma_in_order_is_disjoint(sort_runs(lv.table_infos));
}

/// A level that runs were inserted into is sound, whatever the runs were.
pub proof fn lemma_insert_is_sound(lv: LevelView, infos: Seq<SstView>)
    requires
        spec_level_insert_ssts(lv, infos) is Ok,
    ensures
        level_sound(spec_level_insert_ssts(lv, infos)->Ok_0),
{
    lemma_key_order_is_sound(level_with_added(lv, infos)->Ok_0);
}

/// Taking runs out of a sound level leaves a sound level.
pub proof fn lemma_delete_is_sound(lv: LevelView, ids: Set<u64>)
    requires
        level_sound(lv),
    ensures
        level_sound(level_without(lv, ids)),
{
    lemma_filter_keeps_sound(lv.table_infos, keeps_run(ids));
}

/// Dropping the runs without tables from a sound level leaves a sound
/// level, in which every run belongs to a table.
pub proof fn lemma_purge_is_sound(lv: LevelView)
    requires
        level_sound(lv),
        level_purged(lv) is Ok,
    ensures
        level_sound(level_purged(lv)->Ok_0),
        forall|i: int|
            0 <= i < level_purged(lv)->Ok_0.table_infos.len() ==> (#[trigger] level_purged(
                lv,
            )->Ok_0.table_infos[i]).table_ids.len() > 0,
{
    lemma_filter_keeps_sound(lv.table_infos, has_tables());
    crate::apply::lemma_filter_all(lv.table_infos, has_tables());
}

/// A split leaves the key range of every run as it is, on the side of the
/// source, and gives every branch the key range of a run of the source.
pub proof fn lemma_split_keeps_ranges(
    runs: Seq<SstView>,
    members: Set<u32>,
    allow_trivial_split: bool,
    start: int,
)
    ensures
        ({
            let out = split_runs(runs, members, allow_trivial_split, start);
            &&& out.parent.len() == runs.len()
            &&& forall|i: int|
                0 <= i < runs.len() ==> (#[trigger] out.parent[i]).key_range == runs[i].key_range
            &&& forall|c: int|
                0 <= c < out.child.len() ==> exists|i: int|
                    0 <= i < runs.len() && (#[trigger] out.child[c]).key_range
                        == (#[trigger] runs[i]).key_range
        }),
    decreases runs.len(),
{
    if runs.len() > 0 {
        let prev = split_runs(runs.drop_last(), members, allow_trivial_split, start);
        let out = split_runs(runs, members, allow_trivial_split, start);
        lemma_split_keeps_ranges(runs.drop_last(), members, allow_trivial_split, start);
        assert forall|i: int| 0 <= i < runs.len() implies (#[trigger] out.parent[i]).key_range
            == runs[i].key_range by {
            if i < runs.len() - 1 {
                assert(out.parent[i] == prev.parent[i]);
                assert(runs.drop_last()[i] == runs[i]);
            }
        }
        assert forall|c: int| 0 <= c < out.child.len() implies exists|i: int|
            0 <= i < runs.len() && (#[trigger] out.child[c]).key_range
                == (#[trigger] runs[i]).key_range by {
            if c < prev.child.len() {
                assert(out.child[c] == prev.child[c]);
                let i = choose|i: int|
                    0 <= i < runs.drop_last().len() && (#[trigger] prev.child[c]).key_range
                        == (#[trigger] runs.drop_last()[i]).key_range;
                assert(runs.drop_last()[i] == runs[i]);
            } else {
                assert(out.child[c].key_range == runs[runs.len() - 1].key_range);
            }
        }
    }
}

/// Two lists with the same key ranges are sound together.
pub proof fn lemma_same_ranges_same_soundness(a: Seq<SstView>, b: Seq<SstView>)
    requires
        a.len() == b.len(),
        forall|i: int| 0 <= i < a.len() ==> (#[trigger] a[i]).key_range == b[i].key_range,
        runs_sound(b),
    ensures
        runs_sound(a),
{
    if a.len() >= 2 {
        assert forall|i: int| 0 <= i < a.len() implies (#[trigger] a[i]).is_sortable() by {
            assert(b[i].is_sortable());
        }
    }
    assert forall|i: int| 0 < i < a.len() implies (#[trigger] a[i - 1]).has_right()
        && a[i].has_left() by {
        lemma_joinable_at(b, i);
    }
    assert forall|i: int, j: int| 0 <= i < j < a.len() implies run_not_after(
        #[trigger] a[i],
        #[trigger] a[j],
    ) && a[i].key_range->0.compare_right_with(a[j].key_range->0.left) == KeyOrder::Less by {
        assert(run_not_after(b[i], b[j]));
        assert(b[i].key_range->0.compare_right_with(b[j].key_range->0.left) == KeyOrder::Less);
    }
}

/// Applying a compaction result to a sound group leaves a sound group,
/// whatever runs the result inserts.
pub proof fn lemma_compact_keeps_sound(levels: LevelsView, s: SummaryView)
    requires
        group_sound(levels),
        spec_apply_compact_ssts(levels, s) is Ok,
    ensures
        group_sound(spec_apply_compact_ssts(levels, s)->Ok_0),
{
    let done = spec_apply_compact_ssts(levels, s)->Ok_0;
    if done != levels {
        let deleted = levels_after_delete(levels, s);
        assert forall|k: int| 0 <= k < deleted.levels.len() implies level_sound(
            #[trigger] deleted.levels[k],
        ) by {
            assert(level_sound(levels.levels[k]));
            lemma_delete_is_sound(levels.levels[k], s.delete_sst_ids_set);
        }
        let inserted = levels_after_insert(deleted, s)->Ok_0;
        if s.insert_table_infos.len() > 0 && s.insert_sst_level_id != 0 {
            let idx = s.insert_sst_level_id - 1;
            lemma_insert_is_sound(deleted.levels[idx], s.insert_table_infos);
        }
        assert forall|k: int| 0 <= k < inserted.levels.len() implies level_sound(
            #[trigger] inserted.levels[k],
        ) by {
            assert(level_sound(deleted.levels[k]));
        }
        assert(done.levels == inserted.levels);
    }
}

/// The split of one level leaves the levels of the source sound where they
/// were so, and those of the target where they were so.
pub proof fn lemma_level_step_keeps_sound(
    st: LevelSplit,
    idx: int,
    members: Set<u32>,
    allow_trivial_split: bool,
)
    requires
        0 <= idx < st.parent.len(),
        level_step(st, idx, members, allow_trivial_split) is Ok,
    ensures
        levels_sound(st.parent) ==> levels_sound(
            level_step(st, idx, members, allow_trivial_split)->Ok_0.parent,
        ),
        levels_sound(st.child) ==> levels_sound(
            level_step(st, idx, members, allow_trivial_split)->Ok_0.child,
        ),
        level_step(st, idx, members, allow_trivial_split)->Ok_0.parent.len() == st.parent.len(),
        level_step(st, idx, members, allow_trivial_split)->Ok_0.child.len() == st.child.len(),
{
    let level = st.parent[idx];
    let out = split_runs(level.table_infos, members, allow_trivial_split, st.next_id);
    let next = level_step(st, idx, members, allow_trivial_split)->Ok_0;
    lemma_split_keeps_ranges(level.table_infos, members, allow_trivial_split, st.next_id);
    if levels_sound(st.parent) {
        assert(level_sound(level));
        lemma_same_ranges_same_soundness(out.parent, level.table_infos);
        lemma_purge_is_sound(LevelView { table_infos: out.parent, ..level });
        assert forall|k: int| 0 <= k < next.parent.len() implies level_sound(
            #[trigger] next.parent[k],
        ) by {
            if k != idx {
                assert(level_sound(st.parent[k]));
            }
        }
    }
    if levels_sound(st.child) {
        lemma_key_order_is_sound(level_with_added(st.child[idx], out.child)->Ok_0);
        assert forall|k: int| 0 <= k < next.child.len() implies level_sound(
            #[trigger] next.child[k],
        ) by {
            if k != idx {
                assert(level_sound(st.child[k]));
            }
        }
    }
}

/// The split of the levels from `idx` on leaves the levels of the source
/// sound where they were so, and those of the target where they were so.
pub proof fn lemma_split_levels_keeps_sound(
    st: LevelSplit,
    idx: int,
    n: int,
    members: Set<u32>,
    allow_trivial_split: bool,
)
    requires
        0 <= idx,
        n == st.parent.len(),
        split_levels(st, idx, n, members, allow_trivial_split) is Ok,
    ensures
        levels_sound(st.parent) ==> levels_sound(
            split_levels(st, idx, n, members, allow_trivial_split)->Ok_0.parent,
        ),
        levels_sound(st.child) ==> levels_sound(
            split_levels(st, idx, n, members, allow_trivial_split)->Ok_0.child,
        ),
    decreases n - idx,
{
    if idx < n {
        lemma_level_step_keeps_sound(st, idx, members, allow_trivial_split);
        let next = level_step(st, idx, members, allow_trivial_split)->Ok_0;
        lemma_split_levels_keeps_sound(next, idx + 1, n, members, allow_trivial_split);
    }
}

/// A split leaves the source group sound if it was so, and the target
/// group sound if it was so.
pub proof fn lemma_split_group_keeps_sound(
    parent: LevelsView,
    child: LevelsView,
    members: Set<u32>,
    start: u64,
    allow_trivial_split: bool,
)
    requires
        spec_split_group(parent, child, members, start, allow_trivial_split) is Ok,
    ensures
        group_sound(parent) ==> group_sound(
            spec_split_group(parent, child, members, start, allow_trivial_split)->Ok_0.parent,
        ),
        group_sound(child) ==> group_sound(
            spec_split_group(parent, child, members, start, allow_trivial_split)->Ok_0.child,
        ),
{
    let first = L0Split {
        parent: parent.l0->0,
        child: child.l0,
        infos: Seq::empty(),
        next_id: start as int,
    };
    let zero = if parent.l0 is Some {
        split_sub_levels(first, 0, parent.l0->0.sub_levels.len() as int, members, allow_trivial_split)
    } else {
        Ok(first)
    };
    let l0 = zero->Ok_0;
    let below = LevelSplit {
        parent: parent.levels,
        child: child.levels,
        infos: l0.infos,
        next_id: l0.next_id,
    };
    if group_sound(parent) {
        assert forall|k: int| 0 <= k < below.parent.len() implies level_sound(
            #[trigger] below.parent[k],
        ) by {
            assert(level_sound(parent.levels[k]));
        }
    }
    if group_sound(child) {
        assert forall|k: int| 0 <= k < below.child.len() implies level_sound(
            #[trigger] below.child[k],
        ) by {
            assert(level_sound(child.levels[k]));
        }
    }
    lemma_split_levels_keeps_sound(
        below,
        0,
        parent.levels.len() as int,
        members,
        allow_trivial_split,
    );
}

/// A move of tables between two groups keeps the levels below level zero in
/// order and free of overlap.
///
/// Whichever group of the version one looks at, the source, the target or
/// another: if its levels below level zero were sound before the move, they
/// are so afterwards. Nothing is asked of the other groups, nor of the runs
/// that move.
pub proof fn law_split_keeps_group_sound(
    groups: Map<u64, LevelsView>,
    parent_group_id: u64,
    group_id: u64,
    members: Set<u32>,
    new_sst_start_id: u64,
    allow_trivial_split: bool,
    g: u64,
)
    requires
        groups.contains_key(g) ==> group_sound(groups[g]),
        spec_init_with_parent_group(
            groups,
            parent_group_id,
            group_id,
            members,
            new_sst_start_id,
            allow_trivial_split,
        ) is Ok,
    ensures
        ({
            let after = spec_init_with_parent_group(
                groups,
                parent_group_id,
                group_id,
                members,
                new_sst_start_id,
                allow_trivial_split,
            )->Ok_0.0;
            &&& after.contains_key(g) == groups.contains_key(g)
            &&& after.contains_key(g) ==> group_sound(after[g]) && group_concatenable(after[g])
        }),
{
    let after = spec_init_with_parent_group(
        groups,
        parent_group_id,
        group_id,
        members,
        new_sst_start_id,
        allow_trivial_split,
    )->Ok_0.0;
    if after != groups {
        lemma_split_group_keeps_sound(
            groups[parent_group_id],
            groups[group_id],
            members,
            new_sst_start_id,
            allow_trivial_split,
        );
    }
    if after.contains_key(g) {
        law_sound_group_is_concatenable(after[g]);
    }
}

/// The edits to one group leave every group sound that was so.
pub proof fn lemma_group_step_keeps_sound(
    groups: Map<u64, LevelsView>,
    current_epoch: u64,
    new_epoch: u64,
    group_id: u64,
    ds: Seq<GroupDeltaView>,
    g: u64,
)
    requires
        groups.contains_key(g) ==> group_sound(groups[g]),
        group_step(groups, current_epoch, new_epoch, group_id, ds) is Ok,
    ensures
        group_step(groups, current_epoch, new_epoch, group_id, ds)->Ok_0.0.contains_key(g)
            ==> group_sound(group_step(groups, current_epoch, new_epoch, group_id, ds)->Ok_0.0[g]),
{
    let s = spec_summarize(ds)->Ok_0;
    let moved = regrouped(groups, group_id, s)->Ok_0.0;
    assert(moved.contains_key(g) ==> group_sound(moved[g])) by {
        if s.group_construct is Some {
            let c = s.group_construct->0;
            let fresh = LevelsView {
                parent_group_id: c.parent_group_id,
                member_table_ids: c.table_ids,
                ..initial_levels(group_id, c.group_config->0.max_level)
            };
            assert(group_sound(fresh));
            law_split_keeps_group_sound(
                groups.insert(group_id, fresh),
                c.parent_group_id,
                group_id,
                c.table_ids.to_set(),
                c.new_sst_start_id,
                c.version == CompatibilityVersion::VersionUnspecified,
                g,
            );
        } else if s.group_table_change is Some {
            let ch = s.group_table_change->0;
            law_split_keeps_group_sound(
                groups,
                ch.origin_group_id,
                ch.target_group_id,
                ch.table_ids.to_set(),
                ch.new_sst_start_id,
                ch.version == CompatibilityVersion::VersionUnspecified,
                g,
            );
            let split = spec_init_with_parent_group(
                groups,
                ch.origin_group_id,
                ch.target_group_id,
                ch.table_ids.to_set(),
                ch.new_sst_start_id,
                ch.version == CompatibilityVersion::VersionUnspecified,
            )->Ok_0.0;
            if moved.contains_key(g) {
                assert(split.contains_key(g));
                assert(moved[g].levels == split[g].levels);
            }
        }
    }
    if g == group_id {
        let levels = LevelsView {
            member_table_ids: with_meta_changes(moved[group_id].member_table_ids, s.group_meta_changes),
            ..moved[group_id]
        };
        assert(group_sound(levels)) by {
            assert(levels.levels == moved[group_id].levels);
        }
        if current_epoch < new_epoch {
            let done = committed(levels, s)->Ok_0;
            assert(done.levels == levels.levels);
        } else {
            lemma_compact_keeps_sound(levels, s);
        }
    }
}

/// The edits to the groups `order[k..]` leave every group sound that was
/// so.
pub proof fn lemma_apply_groups_keeps_sound(
    acc: GroupsAndSplits,
    current_epoch: u64,
    new_epoch: u64,
    deltas: Map<u64, Seq<GroupDeltaView>>,
    order: Seq<u64>,
    k: int,
    g: u64,
)
    requires
        0 <= k,
        acc.0.contains_key(g) ==> group_sound(acc.0[g]),
        apply_groups(acc, current_epoch, new_epoch, deltas, order, k) is Ok,
    ensures
        apply_groups(acc, current_epoch, new_epoch, deltas, order, k)->Ok_0.0.contains_key(g)
            ==> group_sound(apply_groups(acc, current_epoch, new_epoch, deltas, order, k)->Ok_0.0[g]),
    decreases order.len() - k,
{
    if k < order.len() {
        lemma_group_step_keeps_sound(
            acc.0,
            current_epoch,
            new_epoch,
            order[k],
            deltas[order[k]],
            g,
        );
        let (groups, infos) = group_step(
            acc.0,
            current_epoch,
            new_epoch,
            order[k],
            deltas[order[k]],
        )->Ok_0;
        lemma_apply_groups_keeps_sound(
            (groups, acc.1 + infos),
            current_epoch,
            new_epoch,
            deltas,
            order,
            k + 1,
            g,
        );
    }
}

/// The ascending list of a finite set holds exactly the elements of the
/// set.
pub proof fn lemma_ascending_seq_covers(set: Set<u64>)
    requires
        set.finite(),
    ensures
        ascending_seq(set).to_set() == set,
        crate::ordered::is_ascending(ascending_seq(set)),
    decreases set.len(),
{
    if set.len() == 0 {
        assert(set =~= Set::<u64>::empty());
        crate::laws::epochs::lemma_ascending_seq_empty();
        assert(Seq::<u64>::empty().to_set() =~= Set::<u64>::empty());
    } else {
        let m = lemma_greatest(set);
        let rest = set.remove(m);
        lemma_ascending_seq_covers(rest);
        let s = ascending_seq(rest).push(m);
        assert(crate::ordered::is_ascending(s)) by {
            assert forall|i: int, j: int| 0 <= i < j < s.len() implies s[i] < s[j] by {
                if j == s.len() - 1 {
                    assert(ascending_seq(rest).to_set().contains(s[i]));
                }
            }
        }
        assert(s.to_set() =~= set) by {
            ascending_seq(rest).lemma_push_to_set_commute(m);
        }
        crate::ordered::lemma_ascending_seq_is(s, set);
    }
}

/// A finite set that is not empty has a greatest element.
pub proof fn lemma_greatest(set: Set<u64>) -> (m: u64)
    requires
        set.finite(),
        set.len() > 0,
    ensures
        set.contains(m),
        forall|x: u64| set.contains(x) ==> x <= m,
    decreases set.len(),
{
    let x = set.choose();
    let rest = set.remove(x);
    if rest.len() == 0 {
        assert forall|y: u64| set.contains(y) implies y <= x by {
            if y != x {
                assert(rest.contains(y));
            }
        }
        x
    } else {
        let m = lemma_greatest(rest);
        if x > m {
            assert forall|y: u64| set.contains(y) implies y <= x by {
                if y != x {
                    assert(rest.contains(y));
                }
            }
            x
        } else {
            assert forall|y: u64| set.contains(y) implies y <= m by {
                if y != x {
                    assert(rest.contains(y));
                }
            }
            m
        }
    }
}

/// A delta keeps the levels below level zero of a group in order and free
/// of overlap.
///
/// Whatever the delta holds, a compaction result, a commit, a construction,
/// a move of tables, for this group or for others: if the levels below
/// level zero of the group were sound before, and the delta is accepted and
/// leaves the group in the version, they are sound afterwards. In every
/// such level each run ends below the start of the next. A group that the
/// delta constructs is sound from the start.
pub proof fn law_delta_keeps_group_sound(v: VersionView, d: DeltaView, g: u64)
    requires
        v.levels.contains_key(g) ==> group_sound(v.levels[g]),
        spec_apply_version_delta(v, d) is Ok,
    ensures
        spec_apply_version_delta(v, d)->Ok_0.0.levels.contains_key(g) ==> group_sound(
            spec_apply_version_delta(v, d)->Ok_0.0.levels[g],
        ) && group_concatenable(spec_apply_version_delta(v, d)->Ok_0.0.levels[g]),
{
    lemma_apply_groups_keeps_sound(
        (v.levels, Seq::empty()),
        v.max_committed_epoch,
        d.max_committed_epoch,
        d.group_deltas,
        ascending_seq(d.group_deltas.dom()),
        0,
        g,
    );
    let after = spec_apply_version_delta(v, d)->Ok_0.0.levels;
    if after.contains_key(g) {
        law_sound_group_is_concatenable(after[g]);
    }
}

/// A group that holds no run yet is sound. So every group that deltas built
/// from such a group is sound, whatever the deltas were.
pub proof fn law_initial_group_is_sound(group_id: u64, max_level: u64)
    ensures
        group_sound(initial_levels(group_id, max_level)),
{
}

/// A delta leads from a version whose levels below level zero are sound to
/// a version of which the same holds.
pub proof fn law_delta_keeps_levels_sound(v: VersionView, d: DeltaView)
    requires
        groups_sound(v.levels),
        spec_apply_version_delta(v, d) is Ok,
    ensures
        groups_sound(spec_apply_version_delta(v, d)->Ok_0.0.levels),
{
    let after = spec_apply_version_delta(v, d)->Ok_0.0.levels;
    assert forall|g: u64| after.contains_key(g) implies group_sound(#[trigger] after[g]) by {
        if v.levels.contains_key(g) {
            assert(group_sound(v.levels[g]));
        }
        law_delta_keeps_group_sound(v, d, g);
    }
}

/// After every series of deltas the levels below level zero of the version
/// are sound, provided they were so before: in each of them the runs stand
/// in the order of their key ranges and no two overlap.
pub proof fn law_levels_stay_sound(v: VersionView, ds: Seq<DeltaView>)
    requires
        groups_sound(v.levels),
        spec_apply_all(v, ds) is Ok,
    ensures
        groups_sound(spec_apply_all(v, ds)->Ok_0.levels),
    decreases ds.len(),
{
    if ds.len() > 0 {
        law_levels_stay_sound(v, ds.drop_last());
        law_delta_keeps_levels_sound(spec_apply_all(v, ds.drop_last())->Ok_0, ds.last());
    }
}

/// No violation in the list is about the key range of a run.
pub open spec fn no_range_violation(s: Seq<Violation>) -> bool {
    forall|i: int|
        0 <= i < s.len() ==> !((#[trigger] s[i]) is KeyRangeOverlap) && !(s[i] is KeyRangeUndecodable)
}

/// The validation finds no fault with the key ranges of a level whose runs
/// can be decoded where they meet and end each below the start of the
/// next.
pub proof fn law_concatenable_level_passes_check(group_id: u64, level: LevelView, n: int)
    requires
        runs_joinable(level.table_infos),
        runs_concatenable(level.table_infos),
        0 <= n <= level.table_infos.len(),
    ensures
        no_range_violation(runs_violations(group_id, level, n)),
    decreases n,
{
    if n > 0 {
        law_concatenable_level_passes_check(group_id, level, n - 1);
        let i = n - 1;
        if i > 0 {
            lemma_joinable_at(level.table_infos, i);
            assert(level.table_infos[i - 1].key_range->0.compare_right_with(
                level.table_infos[i].key_range->0.left,
            ) == KeyOrder::Less);
        }
        assert(no_range_violation(run_violations(group_id, level, i)));
    }
}

/// The validation finds no fault with the key ranges of a sound level.
pub proof fn law_sound_level_passes_check(group_id: u64, level: LevelView, n: int)
    requires
        level_sound(level),
        0 <= n <= level.table_infos.len(),
    ensures
        no_range_violation(runs_violations(group_id, level, n)),
{
    law_sound_runs_are_concatenable(level.table_infos);
    law_concatenable_level_passes_check(group_id, level, n);
}

} // verus!
