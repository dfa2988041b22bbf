//! Laws on the runs of two groups after tables moved from one to the other.

use vstd::prelude::*;
use crate::laws::concat::lemma_filter_source;
use crate::laws::overlap::lemma_contains_concat;
use crate::laws::split::{
    branch_of, kept_of, l0_holds, law_split_conserves_runs, law_split_level_by_level,
    law_split_sub_level_by_sub_level, lemma_branch_source, lemma_kept_source,
    lemma_sort_runs_holds, lemma_sort_runs_source, lemma_split_levels_keeps,
    lemma_split_sub_levels_holds, lemma_split_sub_levels_keeps, lemma_split_sub_levels_source,
    lemma_sub_level_step_shape, level_split_as, sub_level_holds, sub_level_split_as,
};
use crate::level::LevelsView;
use crate::queries::touched_runs;
use crate::split::{
    has_tables, lemma_split_runs_shape, run_covered, run_touched, spec_init_with_parent_group,
    spec_split_group, split_runs, split_sub_levels, L0Split, LevelSplit, SstSplitInfo,
    NEW_COMPACTION_GROUP,
};
use crate::sstable::SstView;

verus! {

/// The group has a list of runs at the place: the sub-level at position `k`
/// of level zero, or the level at position `k` below level zero.
pub open spec fn is_place(g: LevelsView, zero: bool, k: int) -> bool {
    if zero {
        g.l0 is Some && 0 <= k < g.l0->0.sub_levels.len()
    } else {
        0 <= k < g.levels.len()
    }
}

/// The runs of the group at a place.
pub open spec fn runs_at(g: LevelsView, zero: bool, k: int) -> Seq<SstView> {
    if zero {
        g.l0->0.sub_levels[k].table_infos
    } else {
        g.levels[k].table_infos
    }
}

/// The target group holds the run where the place of the source group
/// corresponds to: in a sub-level with the same id, or in the level at the
/// same position.
pub open spec fn target_holds(
    target: LevelsView,
    source: LevelsView,
    zero: bool,
    k: int,
    run: SstView,
) -> bool {
    if zero {
        target.l0 is Some && sub_level_holds(
            target.l0->0,
            source.l0->0.sub_levels[k].sub_level_id,
            run,
        )
    } else {
        0 <= k < target.levels.len() && target.levels[k].table_infos.contains(run)
    }
}

/// The group holds a run of the object.
pub open spec fn holds_object(g: LevelsView, object_id: u64) -> bool {
    exists|zero: bool, k: int, i: int|
        is_place(g, zero, k) && 0 <= i < runs_at(g, zero, k).len() && (#[trigger] runs_at(
            g,
            zero,
            k,
        )[i]).object_id == object_id
}

/// No two runs of the group are of the same object.
pub open spec fn objects_distinct(g: LevelsView) -> bool {
    forall|za: bool, ka: int, ia: int, zb: bool, kb: int, ib: int|
        is_place(g, za, ka) && 0 <= ia < runs_at(g, za, ka).len() && is_place(g, zb, kb) && 0
            <= ib < runs_at(g, zb, kb).len() && (#[trigger] runs_at(g, za, ka)[ia]).object_id == (
        #[trigger] runs_at(g, zb, kb)[ib]).object_id ==> za == zb && ka == kb && ia == ib
}

/// What a split makes of the runs at one place of the source group, fresh
/// run ids being taken from `s`.
pub open spec fn place_split_as(
    source: LevelsView,
    source_after: LevelsView,
    target_after: LevelsView,
    infos: Seq<SstSplitInfo>,
    members: Set<u32>,
    allow_trivial_split: bool,
    zero: bool,
    k: int,
    s: int,
) -> bool {
    let out = split_runs(runs_at(source, zero, k), members, allow_trivial_split, s);
    &&& 0 <= s <= out.next_id <= u64::MAX
    &&& is_place(source_after, zero, k)
    &&& runs_at(source_after, zero, k) == out.parent.filter(has_tables())
    &&& forall|c: int|
        0 <= c < out.child.len() ==> target_holds(
            target_after,
            source,
            zero,
            k,
            #[trigger] out.child[c],
        )
    &&& forall|c: int| 0 <= c < out.infos.len() ==> infos.contains(#[trigger] out.infos[c])
}

/// A split leaves the source group its places.
pub proof fn lemma_split_keeps_places(
    parent: LevelsView,
    child: LevelsView,
    members: Set<u32>,
    start: u64,
    allow_trivial_split: bool,
)
    requires
        spec_split_group(parent, child, members, start, allow_trivial_split) is Ok,
    ensures
        forall|zero: bool, k: int|
            is_place(
                spec_split_group(parent, child, members, start, allow_trivial_split)->Ok_0.parent,
                zero,
                k,
            ) == is_place(parent, zero, k),
{
    let first = L0Split {
        parent: parent.l0->0,
        child: child.l0,
        infos: Seq::empty(),
        next_id: start as int,
    };
    let n = parent.l0->0.sub_levels.len() as int;
    if parent.l0 is Some {
        lemma_split_sub_levels_keeps(first, 0, n, members, allow_trivial_split);
    }
    let l0 = if parent.l0 is Some {
        split_sub_levels(first, 0, n, members, allow_trivial_split)->Ok_0
    } else {
        first
    };
    let below = LevelSplit {
        parent: parent.levels,
        child: child.levels,
        infos: l0.infos,
        next_id: l0.next_id,
    };
    lemma_split_levels_keeps(below, 0, parent.levels.len() as int, members, allow_trivial_split);
}

/// What a split makes of the runs at each place of the source group.
///
/// There are fresh run ids, not below `start`, with which the source keeps
/// of these runs what the split of the list leaves it, in the old order,
/// while the target holds every branch at the corresponding place, and the
/// provenance of each branch is part of the result.
pub proof fn law_split_place_by_place(
    parent: LevelsView,
    child: LevelsView,
    members: Set<u32>,
    start: u64,
    allow_trivial_split: bool,
    zero: bool,
    k: int,
) -> (s: int)
    requires
        is_place(parent, zero, k),
        spec_split_group(parent, child, members, start, allow_trivial_split) is Ok,
    ensures
        start <= s,
        place_split_as(
            parent,
            spec_split_group(parent, child, members, start, allow_trivial_split)->Ok_0.parent,
            spec_split_group(parent, child, members, start, allow_trivial_split)->Ok_0.child,
            spec_split_group(parent, child, members, start, allow_trivial_split)->Ok_0.infos,
            members,
            allow_trivial_split,
            zero,
            k,
            s,
        ),
{
    let after = spec_split_group(parent, child, members, start, allow_trivial_split)->Ok_0;
    lemma_split_runs_shape(runs_at(parent, zero, k), members, allow_trivial_split, start as int);
    if zero {
        let s = law_split_sub_level_by_sub_level(parent, child, members, start, allow_trivial_split, k);
        lemma_split_runs_shape(runs_at(parent, zero, k), members, allow_trivial_split, s);
        assert(sub_level_split_as(
            parent.l0->0.sub_levels[k],
            after.parent.l0->0.sub_levels[k],
            after.child.l0->0,
            after.infos,
            members,
            allow_trivial_split,
            s,
        ));
        s
    } else {
        let s = law_split_level_by_level(parent, child, members, start, allow_trivial_split, k);
        lemma_split_runs_shape(runs_at(parent, zero, k), members, allow_trivial_split, s);
        let out = split_runs(runs_at(parent, zero, k), members, allow_trivial_split, s);
        assert(level_split_as(
            parent.levels[k],
            child.levels[k],
            after.parent.levels[k],
            after.child.levels[k],
            after.infos,
            members,
            allow_trivial_split,
            s,
        ));
        assert forall|c: int| 0 <= c < out.child.len() implies target_holds(
            after.child,
            parent,
            zero,
            k,
            #[trigger] out.child[c],
        ) by {
            assert((child.levels[k].table_infos + out.child)[child.levels[k].table_infos.len() + c]
                == out.child[c]);
            lemma_sort_runs_holds(child.levels[k].table_infos + out.child, out.child[c]);
        }
        s
    }
}

/// Tables can move from the group `parent_group_id` to the group
/// `group_id`: both are groups of the version, they differ, and the move
/// is not refused.
pub open spec fn tables_move(
    groups: Map<u64, LevelsView>,
    parent_group_id: u64,
    group_id: u64,
    members: Set<u32>,
    new_sst_start_id: u64,
    allow_trivial_split: bool,
) -> bool {
    &&& parent_group_id != NEW_COMPACTION_GROUP
    &&& parent_group_id != group_id
    &&& groups.contains_key(parent_group_id)
    &&& groups.contains_key(group_id)
    &&& spec_init_with_parent_group(
        groups,
        parent_group_id,
        group_id,
        members,
        new_sst_start_id,
        allow_trivial_split,
    ) is Ok
}

/// A split leaves every run of the source the object it is of.
pub proof fn lemma_split_keeps_objects(
    runs: Seq<SstView>,
    members: Set<u32>,
    allow_trivial_split: bool,
    s: int,
    j: int,
)
    requires
        0 <= j < runs.len(),
        0 <= s,
        split_runs(runs, members, allow_trivial_split, s).next_id <= u64::MAX,
    ensures
        split_runs(runs, members, allow_trivial_split, s).parent.len() == runs.len(),
        split_runs(runs, members, allow_trivial_split, s).parent[j].object_id == runs[j].object_id,
        split_runs(runs, members, allow_trivial_split, s).parent[j].table_ids.len() > 0
            ==> split_runs(runs, members, allow_trivial_split, s).parent[j].table_ids
            == runs[j].table_ids,
{
    lemma_split_runs_shape(runs, members, allow_trivial_split, s);
    law_split_conserves_runs(runs, members, allow_trivial_split, s as u64, j);
}

/// A run that moves as a whole leaves the source group and is found in the
/// target group.
///
/// Let tables move between two groups, whole runs being allowed to move,
/// and let the run at position `i` of a place of the source hold data of
/// moving tables only, and of one at least. Then the target holds the same
/// run under a fresh id `c` at the corresponding place, the result records
/// the object with the branch `c` and with the old id on the side of the
/// source, and, no two runs of the source being of the same object, the
/// source holds no run of the object any more.
pub proof fn law_whole_run_moves(
    groups: Map<u64, LevelsView>,
    parent_group_id: u64,
    group_id: u64,
    members: Set<u32>,
    new_sst_start_id: u64,
    zero: bool,
    k: int,
    i: int,
) -> (c: u64)
    requires
        tables_move(groups, parent_group_id, group_id, members, new_sst_start_id, true),
        is_place(groups[parent_group_id], zero, k),
        0 <= i < runs_at(groups[parent_group_id], zero, k).len(),
        run_touched(runs_at(groups[parent_group_id], zero, k)[i], members),
        run_covered(runs_at(groups[parent_group_id], zero, k)[i], members),
        objects_distinct(groups[parent_group_id]),
    ensures
        c >= new_sst_start_id,
        ({
            let run = runs_at(groups[parent_group_id], zero, k)[i];
            let (after, infos) = spec_init_with_parent_group(
                groups,
                parent_group_id,
                group_id,
                members,
                new_sst_start_id,
                true,
            )->Ok_0;
            &&& target_holds(after[group_id], groups[parent_group_id], zero, k, run.with_sst_id(c))
            &&& infos.contains((run.object_id, c, run.sst_id, run.sst_id))
            &&& !holds_object(after[parent_group_id], run.object_id)
        }),
{
    let parent = groups[parent_group_id];
    let child = groups[group_id];
    let runs = runs_at(parent, zero, k);
    let run = runs[i];
    let split = spec_split_group(parent, child, members, new_sst_start_id, true)->Ok_0;
    let s = law_split_place_by_place(parent, child, members, new_sst_start_id, true, zero, k);
    let out = split_runs(runs, members, true, s);
    law_split_conserves_runs(runs, members, true, s as u64, i);
    let at = touched_runs(runs, members, i);
    let c = out.child[at].sst_id;
    assert(split.infos.contains(out.infos[at]));
    assert(target_holds(split.child, parent, zero, k, out.child[at]));
    if holds_object(split.parent, run.object_id) {
        let (zb, kb, ib) = choose|zb: bool, kb: int, ib: int|
            is_place(split.parent, zb, kb) && 0 <= ib < runs_at(split.parent, zb, kb).len() && (
            #[trigger] runs_at(split.parent, zb, kb)[ib]).object_id == run.object_id;
        lemma_split_keeps_places(parent, child, members, new_sst_start_id, true);
        assert(is_place(parent, zb, kb));
        let sb = law_split_place_by_place(parent, child, members, new_sst_start_id, true, zb, kb);
        let others = runs_at(parent, zb, kb);
        let made = split_runs(others, members, true, sb);
        lemma_split_runs_shape(others, members, true, sb);
        let j = lemma_filter_source(made.parent, has_tables(), ib);
        made.parent.lemma_filter_pred(has_tables(), ib);
        lemma_split_keeps_objects(others, members, true, sb, j);
        assert(others[j].object_id == runs[i].object_id);
        assert(zb == zero && kb == k && j == i);
        law_split_conserves_runs(runs, members, true, sb as u64, i);
        assert(false);
    }
    c
}

/// A run that both groups have a part in is kept by both, each under a
/// fresh id.
///
/// Let tables move between two groups, and let the run at position `i` of
/// a place of the source hold data of a moving table, while it holds data
/// of another table too or whole runs are not allowed to move. Then the
/// target holds the same run under a fresh id `c` at the corresponding
/// place, the source holds it at its place under the id `c + 1`, and the
/// result records the object with both ids and the old one. Neither id is
/// the old one where that lies below the first fresh id.
pub proof fn law_shared_run_is_branched(
    groups: Map<u64, LevelsView>,
    parent_group_id: u64,
    group_id: u64,
    members: Set<u32>,
    new_sst_start_id: u64,
    allow_trivial_split: bool,
    zero: bool,
    k: int,
    i: int,
) -> (c: u64)
    requires
        tables_move(
            groups,
            parent_group_id,
            group_id,
            members,
            new_sst_start_id,
            allow_trivial_split,
        ),
        is_place(groups[parent_group_id], zero, k),
        0 <= i < runs_at(groups[parent_group_id], zero, k).len(),
        run_touched(runs_at(groups[parent_group_id], zero, k)[i], members),
        !(allow_trivial_split && run_covered(runs_at(groups[parent_group_id], zero, k)[i], members)),
    ensures
        new_sst_start_id <= c < u64::MAX,
        ({
            let run = runs_at(groups[parent_group_id], zero, k)[i];
            let (after, infos) = spec_init_with_parent_group(
                groups,
                parent_group_id,
                group_id,
                members,
                new_sst_start_id,
                allow_trivial_split,
            )->Ok_0;
            let p = (c + 1) as u64;
            &&& is_place(after[parent_group_id], zero, k)
            &&& runs_at(after[parent_group_id], zero, k).contains(run.with_sst_id(p))
            &&& target_holds(after[group_id], groups[parent_group_id], zero, k, run.with_sst_id(c))
            &&& infos.contains((run.object_id, c, run.sst_id, p))
            &&& run.sst_id < new_sst_start_id ==> c != run.sst_id && p != run.sst_id
        }),
{
    let parent = groups[parent_group_id];
    let child = groups[group_id];
    let runs = runs_at(parent, zero, k);
    let run = runs[i];
    let split = spec_split_group(parent, child, members, new_sst_start_id, allow_trivial_split)->Ok_0;
    let s = law_split_place_by_place(
        parent,
        child,
        members,
        new_sst_start_id,
        allow_trivial_split,
        zero,
        k,
    );
    let out = split_runs(runs, members, allow_trivial_split, s);
    law_split_conserves_runs(runs, members, allow_trivial_split, s as u64, i);
    let at = touched_runs(runs, members, i);
    let c = out.child[at].sst_id;
    assert(split.infos.contains(out.infos[at]));
    assert(target_holds(split.child, parent, zero, k, out.child[at]));
    assert(has_tables()(out.parent[i])) by {
        let w = choose|w: int| 0 <= w < run.table_ids.len() && members.contains(#[trigger] run.table_ids[w]);
    }
    out.parent.lemma_filter_contains(has_tables(), i);
    c
}

/// A run that holds no data of a moving table stays in the source group as
/// it is, provided that it holds data of a table at all.
pub proof fn law_untouched_run_stays(
    groups: Map<u64, LevelsView>,
    parent_group_id: u64,
    group_id: u64,
    members: Set<u32>,
    new_sst_start_id: u64,
    allow_trivial_split: bool,
    zero: bool,
    k: int,
    i: int,
)
    requires
        tables_move(
            groups,
            parent_group_id,
            group_id,
            members,
            new_sst_start_id,
            allow_trivial_split,
        ),
        is_place(groups[parent_group_id], zero, k),
        0 <= i < runs_at(groups[parent_group_id], zero, k).len(),
        !run_touched(runs_at(groups[parent_group_id], zero, k)[i], members),
        runs_at(groups[parent_group_id], zero, k)[i].table_ids.len() > 0,
    ensures
        ({
            let run = runs_at(groups[parent_group_id], zero, k)[i];
            let after = spec_init_with_parent_group(
                groups,
                parent_group_id,
                group_id,
                members,
                new_sst_start_id,
                allow_trivial_split,
            )->Ok_0.0;
            &&& is_place(after[parent_group_id], zero, k)
            &&& runs_at(after[parent_group_id], zero, k).contains(run)
        }),
{
    let parent = groups[parent_group_id];
    let child = groups[group_id];
    let runs = runs_at(parent, zero, k);
    let s = law_split_place_by_place(
        parent,
        child,
        members,
        new_sst_start_id,
        allow_trivial_split,
        zero,
        k,
    );
    let out = split_runs(runs, members, allow_trivial_split, s);
    law_split_conserves_runs(runs, members, allow_trivial_split, s as u64, i);
    out.parent.lemma_filter_contains(has_tables(), i);
}

/// No table of a run is lost when tables move between two groups.
///
/// For every run of the source and every table that it holds data of, one
/// of the two groups holds a run of the same object with the same tables
/// afterwards: the source at the place of the run, or the target at the
/// corresponding place.
pub proof fn law_split_loses_no_table(
    groups: Map<u64, LevelsView>,
    parent_group_id: u64,
    group_id: u64,
    members: Set<u32>,
    new_sst_start_id: u64,
    allow_trivial_split: bool,
    zero: bool,
    k: int,
    i: int,
    table_id: u32,
) -> (kept: SstView)
    requires
        tables_move(
            groups,
            parent_group_id,
            group_id,
            members,
            new_sst_start_id,
            allow_trivial_split,
        ),
        is_place(groups[parent_group_id], zero, k),
        0 <= i < runs_at(groups[parent_group_id], zero, k).len(),
        runs_at(groups[parent_group_id], zero, k)[i].table_ids.contains(table_id),
    ensures
        ({
            let run = runs_at(groups[parent_group_id], zero, k)[i];
            let after = spec_init_with_parent_group(
                groups,
                parent_group_id,
                group_id,
                members,
                new_sst_start_id,
                allow_trivial_split,
            )->Ok_0.0;
            &&& kept.object_id == run.object_id
            &&& kept.table_ids == run.table_ids
            &&& kept.table_ids.contains(table_id)
            &&& runs_at(after[parent_group_id], zero, k).contains(kept) || target_holds(
                after[group_id],
                groups[parent_group_id],
                zero,
                k,
                kept,
            )
            &&& run_touched(run, members) ==> target_holds(
                after[group_id],
                groups[parent_group_id],
                zero,
                k,
                kept,
            )
        }),
{
    let run = runs_at(groups[parent_group_id], zero, k)[i];
    let w = choose|w: int| 0 <= w < run.table_ids.len() && run.table_ids[w] == table_id;
    if !run_touched(run, members) {
        law_untouched_run_stays(
            groups,
            parent_group_id,
            group_id,
            members,
            new_sst_start_id,
            allow_trivial_split,
            zero,
            k,
            i,
        );
        run
    } else {
        let parent = groups[parent_group_id];
        let child = groups[group_id];
        let runs = runs_at(parent, zero, k);
        let s = law_split_place_by_place(
            parent,
            child,
            members,
            new_sst_start_id,
            allow_trivial_split,
            zero,
            k,
        );
        let out = split_runs(runs, members, allow_trivial_split, s);
        law_split_conserves_runs(runs, members, allow_trivial_split, s as u64, i);
        let at = touched_runs(runs, members, i);
        assert(target_holds(
            spec_split_group(parent, child, members, new_sst_start_id, allow_trivial_split)->Ok_0.child,
            parent,
            zero,
            k,
            out.child[at],
        ));
        out.child[at]
    }
}

/// The target group keeps its own runs when tables move to it: a run of a
/// level below level zero stays in that level, a run of a sub-level of
/// level zero stays in a sub-level with the same id.
pub proof fn law_target_keeps_runs(
    groups: Map<u64, LevelsView>,
    parent_group_id: u64,
    group_id: u64,
    members: Set<u32>,
    new_sst_start_id: u64,
    allow_trivial_split: bool,
    run: SstView,
)
    requires
        tables_move(
            groups,
            parent_group_id,
            group_id,
            members,
            new_sst_start_id,
            allow_trivial_split,
        ),
    ensures
        ({
            let before = groups[group_id];
            let after = spec_init_with_parent_group(
                groups,
                parent_group_id,
                group_id,
                members,
                new_sst_start_id,
                allow_trivial_split,
            )->Ok_0.0[group_id];
            &&& after.levels.len() == before.levels.len()
            &&& forall|k: int|
                0 <= k < before.levels.len() && (#[trigger] before.levels[k]).table_infos.contains(run)
                    ==> after.levels[k].table_infos.contains(run)
            &&& forall|id: u64|
                before.l0 is Some && #[trigger] sub_level_holds(before.l0->0, id, run) ==> after.l0 is Some
                    && sub_level_holds(after.l0->0, id, run)
        }),
{
    let parent = groups[parent_group_id];
    let before = groups[group_id];
    let split = spec_split_group(parent, before, members, new_sst_start_id, allow_trivial_split)->Ok_0;
    let first = L0Split {
        parent: parent.l0->0,
        child: before.l0,
        infos: Seq::empty(),
        next_id: new_sst_start_id as int,
    };
    let n = parent.l0->0.sub_levels.len() as int;
    let l0 = if parent.l0 is Some {
        split_sub_levels(first, 0, n, members, allow_trivial_split)->Ok_0
    } else {
        first
    };
    let below = LevelSplit {
        parent: parent.levels,
        child: before.levels,
        infos: l0.infos,
        next_id: l0.next_id,
    };
    lemma_split_levels_keeps(below, 0, parent.levels.len() as int, members, allow_trivial_split);
    assert forall|k: int|
        0 <= k < before.levels.len() && (#[trigger] before.levels[k]).table_infos.contains(
            run,
        ) implies split.child.levels[k].table_infos.contains(run) by {
        if k < parent.levels.len() {
            let s = law_split_level_by_level(
                parent,
                before,
                members,
                new_sst_start_id,
                allow_trivial_split,
                k,
            );
            let out = split_runs(parent.levels[k].table_infos, members, allow_trivial_split, s);
            lemma_contains_concat(before.levels[k].table_infos, out.child, run);
            lemma_sort_runs_holds(before.levels[k].table_infos + out.child, run);
        }
    }
    assert forall|id: u64|
        before.l0 is Some && #[trigger] sub_level_holds(before.l0->0, id, run) implies split.child.l0 is Some
        && sub_level_holds(split.child.l0->0, id, run) by {
        if parent.l0 is Some {
            lemma_split_sub_levels_holds(first, 0, n, members, allow_trivial_split, id, run);
        }
    }
}

/// The source group gets no run by a move of tables: every run that it
/// holds afterwards is what it kept of a run that it held at the same
/// place.
pub proof fn law_source_invents_no_run(
    groups: Map<u64, LevelsView>,
    parent_group_id: u64,
    group_id: u64,
    members: Set<u32>,
    new_sst_start_id: u64,
    allow_trivial_split: bool,
    zero: bool,
    k: int,
    run: SstView,
)
    requires
        tables_move(
            groups,
            parent_group_id,
            group_id,
            members,
            new_sst_start_id,
            allow_trivial_split,
        ),
        is_place(
            spec_init_with_parent_group(
                groups,
                parent_group_id,
                group_id,
                members,
                new_sst_start_id,
                allow_trivial_split,
            )->Ok_0.0[parent_group_id],
            zero,
            k,
        ),
        runs_at(
            spec_init_with_parent_group(
                groups,
                parent_group_id,
                group_id,
                members,
                new_sst_start_id,
                allow_trivial_split,
            )->Ok_0.0[parent_group_id],
            zero,
            k,
        ).contains(run),
    ensures
        is_place(groups[parent_group_id], zero, k),
        kept_of(runs_at(groups[parent_group_id], zero, k), run),
{
    let parent = groups[parent_group_id];
    let child = groups[group_id];
    lemma_split_keeps_places(parent, child, members, new_sst_start_id, allow_trivial_split);
    assert(is_place(parent, zero, k));
    let s = law_split_place_by_place(
        parent,
        child,
        members,
        new_sst_start_id,
        allow_trivial_split,
        zero,
        k,
    );
    lemma_kept_source(runs_at(parent, zero, k), members, allow_trivial_split, s as u64, run);
}

/// The target group gets no run by a move of tables but the branches: every
/// run that it holds afterwards in a level below level zero was there
/// before or is a branch of a run in that level of the source, and every
/// run that it holds afterwards in level zero was there before or is a
/// branch of a run in level zero of the source.
pub proof fn law_target_invents_no_run(
    groups: Map<u64, LevelsView>,
    parent_group_id: u64,
    group_id: u64,
    members: Set<u32>,
    new_sst_start_id: u64,
    allow_trivial_split: bool,
    run: SstView,
)
    requires
        tables_move(
            groups,
            parent_group_id,
            group_id,
            members,
            new_sst_start_id,
            allow_trivial_split,
        ),
    ensures
        ({
            let source = groups[parent_group_id];
            let before = groups[group_id];
            let after = spec_init_with_parent_group(
                groups,
                parent_group_id,
                group_id,
                members,
                new_sst_start_id,
                allow_trivial_split,
            )->Ok_0.0[group_id];
            &&& after.levels.len() == before.levels.len()
            &&& forall|k: int|
                0 <= k < after.levels.len() && (#[trigger] after.levels[k]).table_infos.contains(run)
                    ==> before.levels[k].table_infos.contains(run) || (k < source.levels.len()
                    && branch_of(source.levels[k].table_infos, members, run))
            &&& after.l0 is Some && l0_holds(after.l0->0, run) ==> (before.l0 is Some && l0_holds(
                before.l0->0,
                run,
            )) || (source.l0 is Some && exists|j: int|
                0 <= j < source.l0->0.sub_levels.len() && branch_of(
                    (#[trigger] source.l0->0.sub_levels[j]).table_infos,
                    members,
                    run,
                ))
        }),
{
    let parent = groups[parent_group_id];
    let before = groups[group_id];
    let split = spec_split_group(parent, before, members, new_sst_start_id, allow_trivial_split)->Ok_0;
    let first = L0Split {
        parent: parent.l0->0,
        child: before.l0,
        infos: Seq::empty(),
        next_id: new_sst_start_id as int,
    };
    let n = parent.l0->0.sub_levels.len() as int;
    let l0 = if parent.l0 is Some {
        split_sub_levels(first, 0, n, members, allow_trivial_split)->Ok_0
    } else {
        first
    };
    let below = LevelSplit {
        parent: parent.levels,
        child: before.levels,
        infos: l0.infos,
        next_id: l0.next_id,
    };
    lemma_split_levels_keeps(below, 0, parent.levels.len() as int, members, allow_trivial_split);
    assert forall|k: int|
        0 <= k < split.child.levels.len() && (#[trigger] split.child.levels[k]).table_infos.contains(
            run,
        ) implies before.levels[k].table_infos.contains(run) || (k < parent.levels.len()
        && branch_of(parent.levels[k].table_infos, members, run)) by {
        if k < parent.levels.len() {
            let s = law_split_level_by_level(
                parent,
                before,
                members,
                new_sst_start_id,
                allow_trivial_split,
                k,
            );
            let out = split_runs(parent.levels[k].table_infos, members, allow_trivial_split, s);
            lemma_sort_runs_source(before.levels[k].table_infos + out.child, run);
            lemma_contains_concat(before.levels[k].table_infos, out.child, run);
            if out.child.contains(run) {
                let c = choose|c: int| 0 <= c < out.child.len() && out.child[c] == run;
                lemma_branch_source(parent.levels[k].table_infos, members, allow_trivial_split, s, c);
            }
        }
    }
    if split.child.l0 is Some && l0_holds(split.child.l0->0, run) && parent.l0 is Some {
        lemma_split_sub_levels_source(first, 0, n, members, allow_trivial_split, run);
        if n > 0 {
            lemma_split_sub_levels_keeps(first, 0, n, members, allow_trivial_split);
            lemma_sub_level_step_shape(first, 0, members, allow_trivial_split);
        }
    }
}

/// The group holds a run of the object with data of the table.
pub open spec fn holds_table(g: LevelsView, object_id: u64, table_id: u32) -> bool {
    exists|zero: bool, k: int, i: int|
        is_place(g, zero, k) && 0 <= i < runs_at(g, zero, k).len() && (#[trigger] runs_at(
            g,
            zero,
            k,
        )[i]).object_id == object_id && runs_at(g, zero, k)[i].table_ids.contains(table_id)
}

/// A run that a group holds at one of its places makes the group hold the
/// tables of the run.
pub proof fn lemma_run_holds_table(g: LevelsView, zero: bool, k: int, run: SstView, table_id: u32)
    requires
        is_place(g, zero, k),
        runs_at(g, zero, k).contains(run),
        run.table_ids.contains(table_id),
    ensures
        holds_table(g, run.object_id, table_id),
{
    let i = choose|i: int| 0 <= i < runs_at(g, zero, k).len() && runs_at(g, zero, k)[i] == run;
    assert(runs_at(g, zero, k)[i].object_id == run.object_id);
}

/// A run that level zero of a group holds makes the group hold the tables
/// of the run.
pub proof fn lemma_l0_holds_table(g: LevelsView, run: SstView, table_id: u32)
    requires
        g.l0 is Some,
        l0_holds(g.l0->0, run),
        run.table_ids.contains(table_id),
    ensures
        holds_table(g, run.object_id, table_id),
{
    let j = choose|j: int|
        0 <= j < g.l0->0.sub_levels.len() && (#[trigger] g.l0->0.sub_levels[j]).table_infos.contains(
            run,
        );
    assert(is_place(g, true, j));
    lemma_run_holds_table(g, true, j, run, table_id);
}

/// The tables of every object are conserved when tables move between two
/// groups.
///
/// For every object and every table: one of the two groups holds a run of
/// the object with data of the table after the move if and only if one of
/// them did before. No table of a run is lost, and none is made up.
pub proof fn law_split_conserves_tables(
    groups: Map<u64, LevelsView>,
    parent_group_id: u64,
    group_id: u64,
    members: Set<u32>,
    new_sst_start_id: u64,
    allow_trivial_split: bool,
    object_id: u64,
    table_id: u32,
)
    requires
        tables_move(
            groups,
            parent_group_id,
            group_id,
            members,
            new_sst_start_id,
            allow_trivial_split,
        ),
    ensures
        ({
            let after = spec_init_with_parent_group(
                groups,
                parent_group_id,
                group_id,
                members,
                new_sst_start_id,
                allow_trivial_split,
            )->Ok_0.0;
            holds_table(after[parent_group_id], object_id, table_id) || holds_table(
                after[group_id],
                object_id,
                table_id,
            ) <==> holds_table(groups[parent_group_id], object_id, table_id) || holds_table(
                groups[group_id],
                object_id,
                table_id,
            )
        }),
{
    let source = groups[parent_group_id];
    let target = groups[group_id];
    let after = spec_init_with_parent_group(
        groups,
        parent_group_id,
        group_id,
        members,
        new_sst_start_id,
        allow_trivial_split,
    )->Ok_0.0;
    let source_after = after[parent_group_id];
    let target_after = after[group_id];
    if holds_table(source_after, object_id, table_id) {
        let (zero, k, i) = choose|zero: bool, k: int, i: int|
            is_place(source_after, zero, k) && 0 <= i < runs_at(source_after, zero, k).len() && (
            #[trigger] runs_at(source_after, zero, k)[i]).object_id == object_id && runs_at(
                source_after,
                zero,
                k,
            )[i].table_ids.contains(table_id);
        let run = runs_at(source_after, zero, k)[i];
        law_source_invents_no_run(
            groups,
            parent_group_id,
            group_id,
            members,
            new_sst_start_id,
            allow_trivial_split,
            zero,
            k,
            run,
        );
        let w = choose|w: int|
            0 <= w < runs_at(source, zero, k).len() && (run == #[trigger] runs_at(source, zero, k)[w]
                || run == runs_at(source, zero, k)[w].with_sst_id(run.sst_id));
        assert(runs_at(source, zero, k)[w].object_id == object_id);
        assert(runs_at(source, zero, k)[w].table_ids == run.table_ids);
        assert(holds_table(source, object_id, table_id));
    }
    if holds_table(target_after, object_id, table_id) {
        let (zero, k, i) = choose|zero: bool, k: int, i: int|
            is_place(target_after, zero, k) && 0 <= i < runs_at(target_after, zero, k).len() && (
            #[trigger] runs_at(target_after, zero, k)[i]).object_id == object_id && runs_at(
                target_after,
                zero,
                k,
            )[i].table_ids.contains(table_id);
        let run = runs_at(target_after, zero, k)[i];
        law_target_invents_no_run(
            groups,
            parent_group_id,
            group_id,
            members,
            new_sst_start_id,
            allow_trivial_split,
            run,
        );
        if zero {
            assert(target_after.l0->0.sub_levels[k].table_infos.contains(run));
            assert(l0_holds(target_after.l0->0, run));
            if target.l0 is Some && l0_holds(target.l0->0, run) {
                lemma_l0_holds_table(target, run, table_id);
            } else {
                let j = choose|j: int|
                    0 <= j < source.l0->0.sub_levels.len() && branch_of(
                        (#[trigger] source.l0->0.sub_levels[j]).table_infos,
                        members,
                        run,
                    );
                lemma_branch_holds_table(source, true, j, members, run, table_id);
            }
        } else {
            assert(target_after.levels[k].table_infos.contains(run));
            if target.levels[k].table_infos.contains(run) {
                lemma_run_holds_table(target, false, k, run, table_id);
            } else {
                lemma_branch_holds_table(source, false, k, members, run, table_id);
            }
        }
    }
    if holds_table(source, object_id, table_id) {
        let (zero, k, i) = choose|zero: bool, k: int, i: int|
            is_place(source, zero, k) && 0 <= i < runs_at(source, zero, k).len() && (
            #[trigger] runs_at(source, zero, k)[i]).object_id == object_id && runs_at(
                source,
                zero,
                k,
            )[i].table_ids.contains(table_id);
        let kept = law_split_loses_no_table(
            groups,
            parent_group_id,
            group_id,
            members,
            new_sst_start_id,
            allow_trivial_split,
            zero,
            k,
            i,
            table_id,
        );
        lemma_split_keeps_places(source, target, members, new_sst_start_id, allow_trivial_split);
        if runs_at(source_after, zero, k).contains(kept) {
            lemma_run_holds_table(source_after, zero, k, kept, table_id);
        } else if zero {
            let id = source.l0->0.sub_levels[k].sub_level_id;
            let j = choose|j: int|
                0 <= j < target_after.l0->0.sub_levels.len() && (
                #[trigger] target_after.l0->0.sub_levels[j]).sub_level_id == id
                    && target_after.l0->0.sub_levels[j].table_infos.contains(kept);
            assert(is_place(target_after, true, j));
            lemma_run_holds_table(target_after, true, j, kept, table_id);
        } else {
            lemma_run_holds_table(target_after, false, k, kept, table_id);
        }
    }
    if holds_table(target, object_id, table_id) {
        let (zero, k, i) = choose|zero: bool, k: int, i: int|
            is_place(target, zero, k) && 0 <= i < runs_at(target, zero, k).len() && (
            #[trigger] runs_at(target, zero, k)[i]).object_id == object_id && runs_at(
                target,
                zero,
                k,
            )[i].table_ids.contains(table_id);
        let run = runs_at(target, zero, k)[i];
        law_target_keeps_runs(
            groups,
            parent_group_id,
            group_id,
            members,
            new_sst_start_id,
            allow_trivial_split,
            run,
        );
        if zero {
            let id = target.l0->0.sub_levels[k].sub_level_id;
            assert(sub_level_holds(target.l0->0, id, run));
            let j = choose|j: int|
                0 <= j < target_after.l0->0.sub_levels.len() && (
                #[trigger] target_after.l0->0.sub_levels[j]).sub_level_id == id
                    && target_after.l0->0.sub_levels[j].table_infos.contains(run);
            assert(is_place(target_after, true, j));
            lemma_run_holds_table(target_after, true, j, run, table_id);
        } else {
            assert(target.levels[k].table_infos.contains(run));
            lemma_run_holds_table(target_after, false, k, run, table_id);
        }
    }
}

/// A branch of a run that a group holds at one of its places shows that the
/// group holds the tables of the branch.
pub proof fn lemma_branch_holds_table(
    g: LevelsView,
    zero: bool,
    k: int,
    members: Set<u32>,
    run: SstView,
    table_id: u32,
)
    requires
        is_place(g, zero, k),
        branch_of(runs_at(g, zero, k), members, run),
        run.table_ids.contains(table_id),
    ensures
        holds_table(g, run.object_id, table_id),
{
    let runs = runs_at(g, zero, k);
    let i = choose|i: int|
        0 <= i < runs.len() && run_touched(#[trigger] runs[i], members) && run == runs[i].with_sst_id(
            run.sst_id,
        );
    assert(runs_at(g, zero, k)[i].object_id == run.object_id);
    assert(runs_at(g, zero, k)[i].table_ids == run.table_ids);
}

} // verus!
