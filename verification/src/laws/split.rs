//! Laws on what a split does to the runs of a group.

use vstd::prelude::*;
use crate::laws::overlap::lemma_contains_concat;
use crate::compact::first_not_below;
use crate::level::{L0View, LevelType, LevelView, LevelsView};
use crate::queries::touched_runs;
use crate::runs::{lemma_sort_runs_permutes, sort_runs};
use crate::sub_level::{level_with_added, spec_add_ssts_to_sub_level, spec_insert_new_sub_level};
use crate::split::{
    has_tables, level_step, run_covered, run_touched, spec_split_group, split_levels, split_runs,
    split_sub_levels, sub_level_step, L0Split, LevelSplit, SstSplitInfo,
};
use crate::sstable::SstView;

verus! {

/// The split of a list of runs begins with the split of each of its
/// prefixes.
pub proof fn lemma_split_runs_grows(
    runs: Seq<SstView>,
    members: Set<u32>,
    allow_trivial_split: bool,
    start: int,
    k: int,
)
    requires
        0 <= k <= runs.len(),
    ensures
        ({
            let part = split_runs(runs.subrange(0, k), members, allow_trivial_split, start);
            let whole = split_runs(runs, members, allow_trivial_split, start);
            &&& part.parent.len() == k
            &&& part.parent.len() <= whole.parent.len()
            &&& part.child.len() <= whole.child.len()
            &&& part.infos.len() == part.child.len()
            &&& whole.infos.len() == whole.child.len()
            &&& part.child.len() == touched_runs(runs, members, k)
            &&& part.next_id >= start
            &&& forall|i: int| 0 <= i < part.parent.len() ==> part.parent[i] == whole.parent[i]
            &&& forall|i: int| 0 <= i < part.child.len() ==> part.child[i] == whole.child[i]
            &&& forall|i: int| 0 <= i < part.infos.len() ==> part.infos[i] == whole.infos[i]
        }),
    decreases runs.len() - k,
{
    crate::split::lemma_split_runs_shape(runs.subrange(0, k), members, allow_trivial_split, start);
    crate::split::lemma_split_runs_shape(runs, members, allow_trivial_split, start);
    lemma_child_count(runs, members, allow_trivial_split, start, k);
    if k == runs.len() {
        assert(runs.subrange(0, k) =~= runs);
    } else {
        assert(runs.subrange(0, k + 1).drop_last() =~= runs.subrange(0, k));
        assert(runs.subrange(0, k + 1).last() == runs[k]);
        crate::split::lemma_split_runs_shape(
            runs.subrange(0, k + 1),
            members,
            allow_trivial_split,
            start,
        );
        lemma_split_runs_grows(runs, members, allow_trivial_split, start, k + 1);
    }
}

/// A split makes one branch for each run that holds data of a moving
/// table.
pub proof fn lemma_child_count(
    runs: Seq<SstView>,
    members: Set<u32>,
    allow_trivial_split: bool,
    start: int,
    k: int,
)
    requires
        0 <= k <= runs.len(),
    ensures
        split_runs(runs.subrange(0, k), members, allow_trivial_split, start).child.len()
            == touched_runs(runs, members, k),
    decreases k,
{
    if k > 0 {
        lemma_child_count(runs, members, allow_trivial_split, start, k - 1);
        assert(runs.subrange(0, k).drop_last() =~= runs.subrange(0, k - 1));
        assert(runs.subrange(0, k).last() == runs[k - 1]);
    } else {
        assert(runs.subrange(0, 0) =~= Seq::<SstView>::empty());
    }
}

/// What a split makes of each run.
///
/// A run that holds no data of a moving table stays in the source as it is
/// and gets no branch. Every other run gets exactly one branch in the
/// target: the same object with the same tables and the same key range
/// under a fresh run id. Where the whole run moves and that is allowed, the
/// source keeps only a husk without tables, which the split then drops;
/// otherwise the source keeps the run with all its tables under a fresh id
/// of its own, which differs from that of the branch. In every case the
/// tables of the run are found in the source or in the target afterwards,
/// and no table is found that the run did not hold.
pub proof fn law_split_conserves_runs(
    runs: Seq<SstView>,
    members: Set<u32>,
    allow_trivial_split: bool,
    start: u64,
    i: int,
)
    requires
        0 <= i < runs.len(),
        split_runs(runs, members, allow_trivial_split, start as int).next_id <= u64::MAX,
    ensures
        ({
            let out = split_runs(runs, members, allow_trivial_split, start as int);
            let run = runs[i];
            let c = touched_runs(runs, members, i);
            &&& out.parent.len() == runs.len()
            &&& out.child.len() == touched_runs(runs, members, runs.len() as int)
            &&& out.infos.len() == out.child.len()
            &&& !run_touched(run, members) ==> out.parent[i] == run
            &&& run_touched(run, members) ==> {
                &&& 0 <= c < out.child.len()
                &&& out.child[c] == run.with_sst_id(out.child[c].sst_id)
                &&& out.child[c].sst_id >= start
                &&& out.infos[c] == (
                    run.object_id,
                    out.child[c].sst_id,
                    run.sst_id,
                    out.parent[i].sst_id,
                )
                &&& if allow_trivial_split && run_covered(run, members) {
                    out.parent[i] == run.with_table_ids(Seq::empty())
                } else {
                    &&& out.parent[i] == run.with_sst_id(out.parent[i].sst_id)
                    &&& out.parent[i].sst_id == out.child[c].sst_id + 1
                }
            }
        }),
{
    let s = start as int;
    lemma_split_runs_grows(runs, members, allow_trivial_split, s, i);
    lemma_split_runs_grows(runs, members, allow_trivial_split, s, i + 1);
    lemma_split_runs_grows(runs, members, allow_trivial_split, s, runs.len() as int);
    crate::split::lemma_split_runs_prefix(runs, members, allow_trivial_split, s, i + 1);
    assert(runs.subrange(0, runs.len() as int) =~= runs);
    assert(runs.subrange(0, i + 1).drop_last() =~= runs.subrange(0, i));
    assert(runs.subrange(0, i + 1).last() == runs[i]);
    let before = split_runs(runs.subrange(0, i), members, allow_trivial_split, s);
    let after = split_runs(runs.subrange(0, i + 1), members, allow_trivial_split, s);
    let out = split_runs(runs, members, allow_trivial_split, s);
    assert(after.parent[i] == out.parent[i]);
    if run_touched(runs[i], members) {
        let c = touched_runs(runs, members, i);
        assert(after.child[c] == out.child[c]);
        assert(after.infos[c] == out.infos[c]);
    }
}

/// What a split makes of one level below level zero, fresh run ids being
/// taken from `s`: the source keeps the runs it did not give up, in their
/// old order; the target has its own runs and the branches, in key order;
/// and the provenance of every branch is on record.
pub open spec fn level_split_as(
    source: LevelView,
    target: LevelView,
    source_after: LevelView,
    target_after: LevelView,
    infos: Seq<SstSplitInfo>,
    members: Set<u32>,
    allow_trivial_split: bool,
    s: int,
) -> bool {
    let out = split_runs(source.table_infos, members, allow_trivial_split, s);
    &&& out.next_id <= u64::MAX
    &&& source_after.table_infos == out.parent.filter(has_tables())
    &&& target_after.table_infos == sort_runs(target.table_infos + out.child)
    &&& forall|c: int| 0 <= c < out.infos.len() ==> infos.contains(#[trigger] out.infos[c])
}

/// The split of the levels from `idx` on leaves the levels before `idx` and
/// the provenance recorded so far as they are, and hands out ids upwards.
pub proof fn lemma_split_levels_keeps(
    st: LevelSplit,
    idx: int,
    n: int,
    members: Set<u32>,
    allow_trivial_split: bool,
)
    requires
        0 <= idx,
        n == st.parent.len(),
        split_levels(st, idx, n, members, allow_trivial_split) is Ok,
    ensures
        ({
            let res = split_levels(st, idx, n, members, allow_trivial_split)->Ok_0;
            &&& res.parent.len() == n
            &&& res.child.len() == st.child.len()
            &&& res.next_id >= st.next_id
            &&& forall|j: int| 0 <= j < idx && j < n ==> res.parent[j] == st.parent[j]
            &&& forall|j: int| 0 <= j < idx && j < st.child.len() ==> res.child[j] == st.child[j]
            &&& forall|j: int| n <= j < st.child.len() && idx <= j ==> res.child[j] == st.child[j]
            &&& forall|x: SstSplitInfo| st.infos.contains(x) ==> res.infos.contains(x)
        }),
    decreases n - idx,
{
    if idx < n {
        let next = level_step(st, idx, members, allow_trivial_split)->Ok_0;
        let out = split_runs(st.parent[idx].table_infos, members, allow_trivial_split, st.next_id);
        crate::split::lemma_split_runs_shape(
            st.parent[idx].table_infos,
            members,
            allow_trivial_split,
            st.next_id,
        );
        lemma_split_levels_keeps(next, idx + 1, n, members, allow_trivial_split);
        let res = split_levels(st, idx, n, members, allow_trivial_split)->Ok_0;
        assert forall|x: SstSplitInfo| st.infos.contains(x) implies res.infos.contains(x) by {
            lemma_contains_concat(st.infos, out.infos, x);
        }
    }
}

/// The split of the levels from `idx` on makes of each level `k` among them
/// what the split of its runs says.
pub proof fn lemma_split_levels_at(
    st: LevelSplit,
    idx: int,
    n: int,
    members: Set<u32>,
    allow_trivial_split: bool,
    k: int,
) -> (s: int)
    requires
        0 <= idx <= k < n,
        n == st.parent.len(),
        split_levels(st, idx, n, members, allow_trivial_split) is Ok,
    ensures
        s >= st.next_id,
        k < st.child.len(),
        ({
            let res = split_levels(st, idx, n, members, allow_trivial_split)->Ok_0;
            &&& res.parent.len() == n
            &&& res.child.len() == st.child.len()
            &&& level_split_as(
                st.parent[k],
                st.child[k],
                res.parent[k],
                res.child[k],
                res.infos,
                members,
                allow_trivial_split,
                s,
            )
        }),
    decreases n - idx,
{
    let next = level_step(st, idx, members, allow_trivial_split)->Ok_0;
    let res = split_levels(st, idx, n, members, allow_trivial_split)->Ok_0;
    lemma_split_levels_keeps(next, idx + 1, n, members, allow_trivial_split);
    crate::split::lemma_split_runs_shape(
        st.parent[idx].table_infos,
        members,
        allow_trivial_split,
        st.next_id,
    );
    if idx == k {
        let out = split_runs(st.parent[k].table_infos, members, allow_trivial_split, st.next_id);
        assert forall|c: int| 0 <= c < out.infos.len() implies res.infos.contains(
            #[trigger] out.infos[c],
        ) by {
            assert((st.infos + out.infos)[st.infos.len() + c] == out.infos[c]);
            assert(next.infos.contains(out.infos[c]));
        }
        st.next_id
    } else {
        lemma_split_levels_at(next, idx + 1, n, members, allow_trivial_split, k)
    }
}

/// What a split makes of each level below level zero of the two groups.
///
/// For the level at position `k` there are fresh run ids, not below
/// `start`, with which the source keeps of its runs what the split of that
/// list leaves it, in the old order, while the target holds its own runs
/// and all the branches, in key order, and the provenance of each branch is
/// part of the result.
pub proof fn law_split_level_by_level(
    parent: LevelsView,
    child: LevelsView,
    members: Set<u32>,
    start: u64,
    allow_trivial_split: bool,
    k: int,
) -> (s: int)
    requires
        0 <= k < parent.levels.len(),
        spec_split_group(parent, child, members, start, allow_trivial_split) is Ok,
    ensures
        start <= s,
        k < child.levels.len(),
        ({
            let after = spec_split_group(parent, child, members, start, allow_trivial_split)->Ok_0;
            &&& after.parent.levels.len() == parent.levels.len()
            &&& after.child.levels.len() == child.levels.len()
            &&& level_split_as(
                parent.levels[k],
                child.levels[k],
                after.parent.levels[k],
                after.child.levels[k],
                after.infos,
                members,
                allow_trivial_split,
                s,
            )
        }),
{
    let first = L0Split {
        parent: parent.l0->0,
        child: child.l0,
        infos: Seq::empty(),
        next_id: start as int,
    };
    let zero = if parent.l0 is Some {
        split_sub_levels(first, 0, parent.l0->0.sub_levels.len() as int, members, allow_trivial_split)
    } else {
        Ok(first)
    };
    let l0 = zero->Ok_0;
    if parent.l0 is Some {
        lemma_split_sub_levels_keeps(
            first,
            0,
            parent.l0->0.sub_levels.len() as int,
            members,
            allow_trivial_split,
        );
    }
    let below = LevelSplit {
        parent: parent.levels,
        child: child.levels,
        infos: l0.infos,
        next_id: l0.next_id,
    };
    lemma_split_levels_at(below, 0, parent.levels.len() as int, members, allow_trivial_split, k)
}

/// The split of the sub-levels from `k` on hands out ids upwards and leaves
/// the provenance recorded so far as it is.
pub proof fn lemma_split_sub_levels_keeps(
    st: L0Split,
    k: int,
    n: int,
    members: Set<u32>,
    allow_trivial_split: bool,
)
    requires
        0 <= k,
        n == st.parent.sub_levels.len(),
        split_sub_levels(st, k, n, members, allow_trivial_split) is Ok,
    ensures
        ({
            let res = split_sub_levels(st, k, n, members, allow_trivial_split)->Ok_0;
            &&& res.parent.sub_levels.len() == n
            &&& res.next_id >= st.next_id
            &&& k < n || st.child is Some ==> res.child is Some
            &&& forall|j: int| 0 <= j < k && j < n ==> res.parent.sub_levels[j] == st.parent.sub_levels[j]
            &&& forall|x: SstSplitInfo| st.infos.contains(x) ==> res.infos.contains(x)
        }),
    decreases n - k,
{
    if k < n {
        let next = sub_level_step(st, k, members, allow_trivial_split)->Ok_0;
        let out = split_runs(
            st.parent.sub_levels[k].table_infos,
            members,
            allow_trivial_split,
            st.next_id,
        );
        crate::split::lemma_split_runs_shape(
            st.parent.sub_levels[k].table_infos,
            members,
            allow_trivial_split,
            st.next_id,
        );
        lemma_split_sub_levels_keeps(next, k + 1, n, members, allow_trivial_split);
        let res = split_sub_levels(st, k, n, members, allow_trivial_split)->Ok_0;
        assert forall|x: SstSplitInfo| st.infos.contains(x) implies res.infos.contains(x) by {
            lemma_contains_concat(st.infos, out.infos, x);
        }
    }
}

/// Level zero holds the run in a sub-level that carries the id.
pub open spec fn sub_level_holds(l0: L0View, id: u64, run: SstView) -> bool {
    exists|j: int|
        0 <= j < l0.sub_levels.len() && (#[trigger] l0.sub_levels[j]).sub_level_id == id
            && l0.sub_levels[j].table_infos.contains(run)
}

/// What a split makes of one sub-level of level zero, fresh run ids being
/// taken from `s`: the source keeps the runs it did not give up, in their
/// old order; the target holds every branch in a sub-level with the same
/// id; and the provenance of every branch is on record.
pub open spec fn sub_level_split_as(
    source: LevelView,
    source_after: LevelView,
    target_after: L0View,
    infos: Seq<SstSplitInfo>,
    members: Set<u32>,
    allow_trivial_split: bool,
    s: int,
) -> bool {
    let out = split_runs(source.table_infos, members, allow_trivial_split, s);
    &&& out.next_id <= u64::MAX
    &&& source_after.table_infos == out.parent.filter(has_tables())
    &&& source_after.sub_level_id == source.sub_level_id
    &&& forall|c: int|
        0 <= c < out.child.len() ==> sub_level_holds(
            target_after,
            source.sub_level_id,
            #[trigger] out.child[c],
        )
    &&& forall|c: int| 0 <= c < out.infos.len() ==> infos.contains(#[trigger] out.infos[c])
}

/// Sorting loses no run.
pub proof fn lemma_sort_runs_holds(s: Seq<SstView>, x: SstView)
    requires
        s.contains(x),
    ensures
        sort_runs(s).contains(x),
{
    broadcast use vstd::seq_lib::group_to_multiset_ensures;

    lemma_sort_runs_permutes(s);
    assert(s.to_multiset().count(x) > 0);
    assert(sort_runs(s).to_multiset().count(x) > 0);
}

/// Level zero after runs joined one of its sub-levels holds all that it
/// held before, and the runs that joined.
pub proof fn lemma_added_runs_held(l0: L0View, idx: int, infos: Seq<SstView>, id: u64, run: SstView)
    requires
        spec_add_ssts_to_sub_level(l0, idx, infos) is Ok,
    ensures
        sub_level_holds(l0, id, run) ==> sub_level_holds(
            spec_add_ssts_to_sub_level(l0, idx, infos)->Ok_0,
            id,
            run,
        ),
        infos.contains(run) && l0.sub_levels[idx].sub_level_id == id ==> sub_level_holds(
            spec_add_ssts_to_sub_level(l0, idx, infos)->Ok_0,
            id,
            run,
        ),
{
    let after = spec_add_ssts_to_sub_level(l0, idx, infos)->Ok_0;
    let grown = level_with_added(l0.sub_levels[idx], infos)->Ok_0;
    assert(after.sub_levels[idx].sub_level_id == l0.sub_levels[idx].sub_level_id);
    if infos.contains(run) && l0.sub_levels[idx].sub_level_id == id {
        lemma_contains_concat(l0.sub_levels[idx].table_infos, infos, run);
        assert(grown.table_infos.contains(run));
        if grown.level_type == LevelType::Nonoverlapping {
            lemma_sort_runs_holds(grown.table_infos, run);
        }
        assert(after.sub_levels[idx].table_infos.contains(run));
    }
    if sub_level_holds(l0, id, run) {
        let j = choose|j: int|
            0 <= j < l0.sub_levels.len() && (#[trigger] l0.sub_levels[j]).sub_level_id == id
                && l0.sub_levels[j].table_infos.contains(run);
        if j == idx {
            lemma_contains_concat(l0.sub_levels[idx].table_infos, infos, run);
            assert(grown.table_infos.contains(run));
            if grown.level_type == LevelType::Nonoverlapping {
                lemma_sort_runs_holds(grown.table_infos, run);
            }
            assert(after.sub_levels[idx].table_infos.contains(run));
        } else {
            assert(after.sub_levels[j] == l0.sub_levels[j]);
        }
    }
}

/// Level zero after a new sub-level was put in holds all that it held
/// before, and the runs of the new sub-level.
pub proof fn lemma_new_sub_level_held(
    l0: L0View,
    new_id: u64,
    level_type: LevelType,
    infos: Seq<SstView>,
    pos: int,
    id: u64,
    run: SstView,
)
    requires
        spec_insert_new_sub_level(l0, new_id, level_type, infos, Some(pos)) is Ok,
    ensures
        sub_level_holds(l0, id, run) ==> sub_level_holds(
            spec_insert_new_sub_level(l0, new_id, level_type, infos, Some(pos))->Ok_0,
            id,
            run,
        ),
        infos.contains(run) && new_id == id ==> sub_level_holds(
            spec_insert_new_sub_level(l0, new_id, level_type, infos, Some(pos))->Ok_0,
            id,
            run,
        ),
{
    let after = spec_insert_new_sub_level(l0, new_id, level_type, infos, Some(pos))->Ok_0;
    if infos.contains(run) {
        let c = choose|c: int| 0 <= c < infos.len() && infos[c] == run;
        if new_id == id {
            assert(after.sub_levels[pos].sub_level_id == id);
            assert(after.sub_levels[pos].table_infos.contains(run));
        }
    }
    if sub_level_holds(l0, id, run) && after != l0 {
        let j = choose|j: int|
            0 <= j < l0.sub_levels.len() && (#[trigger] l0.sub_levels[j]).sub_level_id == id
                && l0.sub_levels[j].table_infos.contains(run);
        if j < pos {
            assert(after.sub_levels[j] == l0.sub_levels[j]);
        } else {
            assert(after.sub_levels[j + 1] == l0.sub_levels[j]);
        }
    }
}

/// The split of one sub-level: what the source keeps of it, and what is
/// recorded.
pub proof fn lemma_sub_level_step_shape(
    st: L0Split,
    k: int,
    members: Set<u32>,
    allow_trivial_split: bool,
)
    requires
        0 <= k < st.parent.sub_levels.len(),
        sub_level_step(st, k, members, allow_trivial_split) is Ok,
    ensures
        ({
            let next = sub_level_step(st, k, members, allow_trivial_split)->Ok_0;
            let sub = st.parent.sub_levels[k];
            let out = split_runs(sub.table_infos, members, allow_trivial_split, st.next_id);
            &&& st.child is Some
            &&& next.child is Some
            &&& next.parent.sub_levels == st.parent.sub_levels.update(k, next.parent.sub_levels[k])
            &&& next.parent.sub_levels[k].table_infos == out.parent.filter(has_tables())
            &&& next.parent.sub_levels[k].sub_level_id == sub.sub_level_id
            &&& next.infos == st.infos + out.infos
            &&& next.next_id == out.next_id
            &&& out.next_id <= u64::MAX
        }),
{
}

/// The split of one sub-level: level zero of the target loses no run, and
/// holds the branches in a sub-level with the id of the one that was
/// split.
pub proof fn lemma_sub_level_step_at(
    st: L0Split,
    k: int,
    members: Set<u32>,
    allow_trivial_split: bool,
    id: u64,
    run: SstView,
)
    requires
        0 <= k < st.parent.sub_levels.len(),
        sub_level_step(st, k, members, allow_trivial_split) is Ok,
    ensures
        ({
            let next = sub_level_step(st, k, members, allow_trivial_split)->Ok_0;
            let sub = st.parent.sub_levels[k];
            let out = split_runs(sub.table_infos, members, allow_trivial_split, st.next_id);
            &&& st.child is Some
            &&& next.child is Some
            &&& sub_level_holds(st.child->0, id, run) ==> sub_level_holds(next.child->0, id, run)
            &&& out.child.contains(run) && sub.sub_level_id == id ==> sub_level_holds(
                next.child->0,
                id,
                run,
            )
        }),
{
    let target = st.child->0;
    let sub = st.parent.sub_levels[k];
    let pos = first_not_below(target.sub_levels, sub.sub_level_id, 0);
    let out = split_runs(sub.table_infos, members, allow_trivial_split, st.next_id);
    if out.child.len() == 0 {
        if out.child.contains(run) {
            let c = choose|c: int| 0 <= c < out.child.len() && out.child[c] == run;
        }
    } else if pos < target.sub_levels.len() && target.sub_levels[pos].sub_level_id
        == sub.sub_level_id {
        lemma_added_runs_held(target, pos, out.child, id, run);
    } else {
        lemma_new_sub_level_held(target, sub.sub_level_id, sub.level_type, out.child, pos, id, run);
    }
}

/// The split of the sub-levels from `k` on loses no run of the target.
pub proof fn lemma_split_sub_levels_holds(
    st: L0Split,
    k: int,
    n: int,
    members: Set<u32>,
    allow_trivial_split: bool,
    id: u64,
    run: SstView,
)
    requires
        0 <= k,
        n == st.parent.sub_levels.len(),
        st.child is Some,
        sub_level_holds(st.child->0, id, run),
        split_sub_levels(st, k, n, members, allow_trivial_split) is Ok,
    ensures
        split_sub_levels(st, k, n, members, allow_trivial_split)->Ok_0.child is Some,
        sub_level_holds(
            split_sub_levels(st, k, n, members, allow_trivial_split)->Ok_0.child->0,
            id,
            run,
        ),
    decreases n - k,
{
    if k < n {
        lemma_sub_level_step_at(st, k, members, allow_trivial_split, id, run);
        let next = sub_level_step(st, k, members, allow_trivial_split)->Ok_0;
        lemma_split_sub_levels_holds(next, k + 1, n, members, allow_trivial_split, id, run);
    }
}

/// The split of the sub-levels from `idx` on makes of each sub-level `k`
/// among them what the split of its runs says.
pub proof fn lemma_split_sub_levels_at(
    st: L0Split,
    idx: int,
    n: int,
    members: Set<u32>,
    allow_trivial_split: bool,
    k: int,
) -> (s: int)
    requires
        0 <= idx <= k < n,
        n == st.parent.sub_levels.len(),
        split_sub_levels(st, idx, n, members, allow_trivial_split) is Ok,
    ensures
        s >= st.next_id,
        ({
            let res = split_sub_levels(st, idx, n, members, allow_trivial_split)->Ok_0;
            &&& res.parent.sub_levels.len() == n
            &&& res.child is Some
            &&& sub_level_split_as(
                st.parent.sub_levels[k],
                res.parent.sub_levels[k],
                res.child->0,
                res.infos,
                members,
                allow_trivial_split,
                s,
            )
        }),
    decreases n - idx,
{
    let sub = st.parent.sub_levels[k];
    let next = sub_level_step(st, idx, members, allow_trivial_split)->Ok_0;
    let res = split_sub_levels(st, idx, n, members, allow_trivial_split)->Ok_0;
    lemma_sub_level_step_shape(st, idx, members, allow_trivial_split);
    lemma_split_sub_levels_keeps(next, idx + 1, n, members, allow_trivial_split);
    crate::split::lemma_split_runs_shape(
        st.parent.sub_levels[idx].table_infos,
        members,
        allow_trivial_split,
        st.next_id,
    );
    if idx == k {
        let out = split_runs(sub.table_infos, members, allow_trivial_split, st.next_id);
        assert forall|c: int| 0 <= c < out.infos.len() implies res.infos.contains(
            #[trigger] out.infos[c],
        ) by {
            assert((st.infos + out.infos)[st.infos.len() + c] == out.infos[c]);
            assert(next.infos.contains(out.infos[c]));
        }
        assert forall|c: int| 0 <= c < out.child.len() implies sub_level_holds(
            res.child->0,
            sub.sub_level_id,
            #[trigger] out.child[c],
        ) by {
            lemma_sub_level_step_at(st, idx, members, allow_trivial_split, sub.sub_level_id, out.child[c]);
            lemma_split_sub_levels_holds(
                next,
                idx + 1,
                n,
                members,
                allow_trivial_split,
                sub.sub_level_id,
                out.child[c],
            );
        }
        st.next_id
    } else {
        lemma_split_sub_levels_at(next, idx + 1, n, members, allow_trivial_split, k)
    }
}

/// What a split makes of each sub-level of level zero of the source.
///
/// For the sub-level at position `k` there are fresh run ids, not below
/// `start`, with which the source keeps of its runs what the split of that
/// list leaves it, in the old order, while level zero of the target holds
/// every branch in a sub-level of the same id, and the provenance of each
/// branch is part of the result.
pub proof fn law_split_sub_level_by_sub_level(
    parent: LevelsView,
    child: LevelsView,
    members: Set<u32>,
    start: u64,
    allow_trivial_split: bool,
    k: int,
) -> (s: int)
    requires
        parent.l0 is Some,
        0 <= k < parent.l0->0.sub_levels.len(),
        spec_split_group(parent, child, members, start, allow_trivial_split) is Ok,
    ensures
        start <= s,
        ({
            let after = spec_split_group(parent, child, members, start, allow_trivial_split)->Ok_0;
            &&& after.parent.l0 is Some
            &&& after.child.l0 is Some
            &&& after.parent.l0->0.sub_levels.len() == parent.l0->0.sub_levels.len()
            &&& sub_level_split_as(
                parent.l0->0.sub_levels[k],
                after.parent.l0->0.sub_levels[k],
                after.child.l0->0,
                after.infos,
                members,
                allow_trivial_split,
                s,
            )
        }),
{
    let first = L0Split {
        parent: parent.l0->0,
        child: child.l0,
        infos: Seq::empty(),
        next_id: start as int,
    };
    let n = parent.l0->0.sub_levels.len() as int;
    let l0 = split_sub_levels(first, 0, n, members, allow_trivial_split)->Ok_0;
    let s = lemma_split_sub_levels_at(first, 0, n, members, allow_trivial_split, k);
    let below = LevelSplit {
        parent: parent.levels,
        child: child.levels,
        infos: l0.infos,
        next_id: l0.next_id,
    };
    lemma_split_levels_keeps(below, 0, parent.levels.len() as int, members, allow_trivial_split);
    s
}

/// Level zero holds the run in one of its sub-levels.
pub open spec fn l0_holds(l0: L0View, run: SstView) -> bool {
    exists|j: int|
        0 <= j < l0.sub_levels.len() && (#[trigger] l0.sub_levels[j]).table_infos.contains(run)
}

/// The run is a branch of one of the runs of the list: the same run but for
/// its id, and that run holds data of a moving table.
pub open spec fn branch_of(runs: Seq<SstView>, members: Set<u32>, run: SstView) -> bool {
    exists|i: int|
        0 <= i < runs.len() && run_touched(#[trigger] runs[i], members) && run == runs[i].with_sst_id(
            run.sst_id,
        )
}

/// The run is what the source kept of one of the runs of the list: that
/// run itself, or the same run but for its id.
pub open spec fn kept_of(runs: Seq<SstView>, run: SstView) -> bool {
    exists|i: int|
        0 <= i < runs.len() && (run == #[trigger] runs[i] || run == runs[i].with_sst_id(run.sst_id))
}

/// Every branch that a split makes is a branch of a run of the list.
pub proof fn lemma_branch_source(
    runs: Seq<SstView>,
    members: Set<u32>,
    allow_trivial_split: bool,
    s: int,
    c: int,
)
    requires
        0 <= c < split_runs(runs, members, allow_trivial_split, s).child.len(),
    ensures
        branch_of(runs, members, split_runs(runs, members, allow_trivial_split, s).child[c]),
    decreases runs.len(),
{
    if runs.len() > 0 {
        let prev = split_runs(runs.drop_last(), members, allow_trivial_split, s);
        let out = split_runs(runs, members, allow_trivial_split, s);
        if c < prev.child.len() {
            lemma_branch_source(runs.drop_last(), members, allow_trivial_split, s, c);
            let i = choose|i: int|
                0 <= i < runs.drop_last().len() && run_touched(
                    #[trigger] runs.drop_last()[i],
                    members,
                ) && prev.child[c] == runs.drop_last()[i].with_sst_id(prev.child[c].sst_id);
            assert(runs[i] == runs.drop_last()[i]);
            assert(out.child[c] == prev.child[c]);
        } else {
            assert(out.child[c] == runs[runs.len() - 1].with_sst_id(out.child[c].sst_id));
            assert(run_touched(runs[runs.len() - 1], members));
        }
    }
}

/// Every run that the source has after a split, and that holds data of a
/// table, is what it kept of a run of the list.
pub proof fn lemma_kept_source(
    runs: Seq<SstView>,
    members: Set<u32>,
    allow_trivial_split: bool,
    s: u64,
    run: SstView,
)
    requires
        split_runs(runs, members, allow_trivial_split, s as int).next_id <= u64::MAX,
        split_runs(runs, members, allow_trivial_split, s as int).parent.filter(has_tables()).contains(
            run,
        ),
    ensures
        kept_of(runs, run),
{
    let out = split_runs(runs, members, allow_trivial_split, s as int);
    out.parent.lemma_filter_contains_rev(has_tables(), run);
    let i = choose|i: int| 0 <= i < out.parent.len() && out.parent[i] == run;
    let f = out.parent.filter(has_tables());
    let w = choose|w: int| 0 <= w < f.len() && f[w] == run;
    out.parent.lemma_filter_pred(has_tables(), w);
    crate::split::lemma_split_runs_shape(runs, members, allow_trivial_split, s as int);
    law_split_conserves_runs(runs, members, allow_trivial_split, s, i);
    assert(run == runs[i] || run == runs[i].with_sst_id(run.sst_id));
}

/// Sorting invents no run.
pub proof fn lemma_sort_runs_source(s: Seq<SstView>, x: SstView)
    requires
        sort_runs(s).contains(x),
    ensures
        s.contains(x),
{
    broadcast use vstd::seq_lib::group_to_multiset_ensures;

    lemma_sort_runs_permutes(s);
    assert(sort_runs(s).to_multiset().count(x) > 0);
    assert(s.to_multiset().count(x) > 0);
}

/// Every run that level zero of the target holds after the split of one
/// sub-level was held before or is a branch of a run of that sub-level.
pub proof fn lemma_sub_level_step_source(
    st: L0Split,
    k: int,
    members: Set<u32>,
    allow_trivial_split: bool,
    run: SstView,
)
    requires
        0 <= k < st.parent.sub_levels.len(),
        sub_level_step(st, k, members, allow_trivial_split) is Ok,
        l0_holds(sub_level_step(st, k, members, allow_trivial_split)->Ok_0.child->0, run),
    ensures
        l0_holds(st.child->0, run) || branch_of(
            st.parent.sub_levels[k].table_infos,
            members,
            run,
        ),
{
    let target = st.child->0;
    let sub = st.parent.sub_levels[k];
    let pos = first_not_below(target.sub_levels, sub.sub_level_id, 0);
    let out = split_runs(sub.table_infos, members, allow_trivial_split, st.next_id);
    let after = sub_level_step(st, k, members, allow_trivial_split)->Ok_0.child->0;
    let j = choose|j: int|
        0 <= j < after.sub_levels.len() && (#[trigger] after.sub_levels[j]).table_infos.contains(run);
    if out.child.len() == 0 {
    } else if pos < target.sub_levels.len() && target.sub_levels[pos].sub_level_id
        == sub.sub_level_id {
        if j == pos {
            let grown = level_with_added(target.sub_levels[pos], out.child)->Ok_0;
            if grown.level_type == LevelType::Nonoverlapping {
                lemma_sort_runs_source(grown.table_infos, run);
            }
            lemma_contains_concat(target.sub_levels[pos].table_infos, out.child, run);
            if out.child.contains(run) {
                let c = choose|c: int| 0 <= c < out.child.len() && out.child[c] == run;
                lemma_branch_source(sub.table_infos, members, allow_trivial_split, st.next_id, c);
            } else {
                assert(target.sub_levels[pos].table_infos.contains(run));
            }
        } else {
            assert(after.sub_levels[j] == target.sub_levels[j]);
        }
    } else {
        if j < pos {
            assert(after.sub_levels[j] == target.sub_levels[j]);
        } else if j == pos {
            let c = choose|c: int| 0 <= c < out.child.len() && out.child[c] == run;
            lemma_branch_source(sub.table_infos, members, allow_trivial_split, st.next_id, c);
        } else {
            assert(after.sub_levels[j] == target.sub_levels[j - 1]);
        }
    }
}

/// Every run that level zero of the target holds after the split of the
/// sub-levels from `k` on was held before or is a branch of a run of one of
/// these sub-levels.
pub proof fn lemma_split_sub_levels_source(
    st: L0Split,
    k: int,
    n: int,
    members: Set<u32>,
    allow_trivial_split: bool,
    run: SstView,
)
    requires
        0 <= k,
        n == st.parent.sub_levels.len(),
        split_sub_levels(st, k, n, members, allow_trivial_split) is Ok,
        l0_holds(split_sub_levels(st, k, n, members, allow_trivial_split)->Ok_0.child->0, run),
    ensures
        l0_holds(st.child->0, run) || exists|j: int|
            k <= j < n && branch_of((#[trigger] st.parent.sub_levels[j]).table_infos, members, run),
    decreases n - k,
{
    if k < n {
        let next = sub_level_step(st, k, members, allow_trivial_split)->Ok_0;
        lemma_sub_level_step_shape(st, k, members, allow_trivial_split);
        lemma_split_sub_levels_source(next, k + 1, n, members, allow_trivial_split, run);
        if l0_holds(next.child->0, run) {
            lemma_sub_level_step_source(st, k, members, allow_trivial_split, run);
            if !l0_holds(st.child->0, run) {
                assert(branch_of(st.parent.sub_levels[k].table_infos, members, run));
            }
        } else {
            let j = choose|j: int|
                k + 1 <= j < n && branch_of(
                    (#[trigger] next.parent.sub_levels[j]).table_infos,
                    members,
                    run,
                );
            assert(next.parent.sub_levels[j] == st.parent.sub_levels[j]);
        }
    }
}

} // verus!
