//! A commit inserts its runs at level zero only, and keeps them.

use vstd::prelude::*;
use crate::apply::{committed, group_step, regrouped, GroupsAndSplits};
use crate::delta::{spec_summarize, GroupDeltaView, SummaryView};
use crate::error::VersionError;
use crate::level::{LevelType, LevelView, LevelsView};
use crate::sstable::SstView;
use crate::validate::{
    expected_level_idx, group_violations, level_violations, lower_levels_violations,
    members_violations, run_violations, runs_violations, strictly_ascending,
    sub_level_violations, sub_levels_violations, Violation,
};
use crate::version::{empty_level, initial_levels};

verus! {

/// The edit inserts runs into a level below level zero.
pub open spec fn inserts_below(d: GroupDeltaView) -> bool {
    d is IntraLevel && d->IntraLevel_0.inserted_table_infos.len() > 0 && d->IntraLevel_0.level_idx
        != 0
}

/// The summary of a list of edits marks an insertion below level zero
/// exactly where one of the edits makes one.
pub proof fn lemma_summary_marks_inserts(ds: Seq<GroupDeltaView>)
    requires
        spec_summarize(ds) is Ok,
    ensures
        spec_summarize(ds)->Ok_0.inserts_below_level0 <==> exists|j: int|
            0 <= j < ds.len() && inserts_below(#[trigger] ds[j]),
    decreases ds.len(),
{
    if ds.len() > 0 {
        lemma_summary_marks_inserts(ds.drop_last());
        let before = spec_summarize(ds.drop_last())->Ok_0;
        if exists|j: int| 0 <= j < ds.len() && inserts_below(#[trigger] ds[j]) {
            let j = choose|j: int| 0 <= j < ds.len() && inserts_below(#[trigger] ds[j]);
            if j < ds.len() - 1 {
                assert(inserts_below(ds.drop_last()[j]));
            }
        }
        if before.inserts_below_level0 {
            let j = choose|j: int| 0 <= j < ds.drop_last().len() && inserts_below(#[trigger] ds.drop_last()[j]);
            assert(inserts_below(ds[j]));
        }
        if inserts_below(ds.last()) {
            assert(inserts_below(ds[ds.len() - 1]));
        }
    }
}

/// A commit inserts at level zero only: the edits of a delta that raises
/// the committed epoch are refused for a group if one of them inserts runs
/// below level zero, whichever edit it is and whatever the others do.
pub proof fn law_commit_inserts_at_level_zero(
    groups: Map<u64, LevelsView>,
    current_epoch: u64,
    new_epoch: u64,
    group_id: u64,
    ds: Seq<GroupDeltaView>,
    j: int,
)
    requires
        current_epoch < new_epoch,
        0 <= j < ds.len(),
        inserts_below(ds[j]),
    ensures
        group_step(groups, current_epoch, new_epoch, group_id, ds) is Err,
        spec_summarize(ds) is Ok && regrouped(groups, group_id, spec_summarize(ds)->Ok_0) is Ok
            && regrouped(groups, group_id, spec_summarize(ds)->Ok_0)->Ok_0.0.contains_key(group_id)
            ==> group_step(groups, current_epoch, new_epoch, group_id, ds) == Err::<
            GroupsAndSplits,
            VersionError,
        >(VersionError::CommitBelowLevel0),
{
    if spec_summarize(ds) is Ok {
        lemma_summary_marks_inserts(ds);
    }
}

/// A commit keeps its runs: where a commit with runs to insert is accepted,
/// level zero of the group ends with a new sub-level that carries the id
/// the commit names and holds exactly the runs of the commit, in their
/// order, whatever that id is.
pub proof fn law_commit_keeps_its_runs(levels: LevelsView, s: SummaryView)
    requires
        s.insert_table_infos.len() > 0,
        committed(levels, s) is Ok,
    ensures
        committed(levels, s)->Ok_0.l0 is Some,
        levels.l0 is Some,
        committed(levels, s)->Ok_0.l0->0.sub_levels.len() == levels.l0->0.sub_levels.len() + 1,
        committed(levels, s)->Ok_0.l0->0.sub_levels.last().sub_level_id == s.insert_sub_level_id,
        committed(levels, s)->Ok_0.l0->0.sub_levels.last().table_infos == s.insert_table_infos,
        forall|k: int|
            0 <= k < levels.l0->0.sub_levels.len() ==> committed(levels, s)->Ok_0.l0->0.sub_levels[k]
                == levels.l0->0.sub_levels[k],
{
}

/// The tables of every run of the list are in strictly ascending order.
pub open spec fn runs_list_tables_in_order(runs: Seq<SstView>) -> bool {
    forall|i: int| 0 <= i < runs.len() ==> strictly_ascending((#[trigger] runs[i]).table_ids)
}

/// The validation finds no fault with the first `n` runs of a level that
/// may overlap, where the tables of each are in order.
pub proof fn lemma_new_runs_pass_check(group_id: u64, level: LevelView, n: int)
    requires
        level.level_type == LevelType::Overlapping,
        runs_list_tables_in_order(level.table_infos),
        0 <= n <= level.table_infos.len(),
    ensures
        runs_violations(group_id, level, n) == Seq::<Violation>::empty(),
    decreases n,
{
    if n > 0 {
        lemma_new_runs_pass_check(group_id, level, n - 1);
        assert(strictly_ascending(level.table_infos[n - 1].table_ids));
        assert(run_violations(group_id, level, n - 1) =~= Seq::<Violation>::empty());
    }
}

/// What is found wrong with the first `n` sub-levels depends on these
/// sub-levels only.
pub proof fn lemma_sub_levels_check_is_local(
    group_id: u64,
    a: Seq<LevelView>,
    b: Seq<LevelView>,
    n: int,
)
    requires
        0 <= n <= a.len(),
        n <= b.len(),
        forall|k: int| 0 <= k < n ==> a[k] == b[k],
    ensures
        sub_levels_violations(group_id, a, n) == sub_levels_violations(group_id, b, n),
    decreases n,
{
    if n > 0 {
        lemma_sub_levels_check_is_local(group_id, a, b, n - 1);
        assert(sub_level_violations(group_id, a, n - 1) == sub_level_violations(group_id, b, n - 1));
    }
}

/// A commit keeps a group valid.
///
/// Let the validation find no fault with a group, and let a commit insert
/// runs whose tables are in strictly ascending order. If the commit is
/// accepted, the validation finds no fault with the group afterwards: the
/// new sub-level is not empty, stands at level zero, and is newer than
/// every other.
pub proof fn law_commit_keeps_group_valid(
    group_id: u64,
    levels: LevelsView,
    s: SummaryView,
    seen: Map<u32, u64>,
)
    requires
        group_violations(group_id, levels, seen).0.len() == 0,
        runs_list_tables_in_order(s.insert_table_infos),
        committed(levels, s) is Ok,
    ensures
        group_violations(group_id, committed(levels, s)->Ok_0, seen).0.len() == 0,
        group_violations(group_id, committed(levels, s)->Ok_0, seen).1 == group_violations(
            group_id,
            levels,
            seen,
        ).1,
{
    let after = committed(levels, s)->Ok_0;
    if s.insert_table_infos.len() > 0 {
        law_commit_keeps_its_runs(levels, s);
        let subs = levels.l0->0.sub_levels;
        let grown = after.l0->0.sub_levels;
        let n = subs.len() as int;
        let fresh = grown[n];
        assert(grown.last() == fresh);
        assert(fresh.level_idx == 0 && fresh.level_type == LevelType::Overlapping);
        lemma_sub_levels_check_is_local(group_id, grown, subs, n);
        lemma_new_runs_pass_check(group_id, fresh, fresh.table_infos.len() as int);
        assert(level_violations(group_id, 0, fresh) =~= Seq::<Violation>::empty());
        assert(sub_levels_violations(group_id, subs, n).len() == 0);
        assert(sub_level_violations(group_id, grown, n) =~= Seq::<Violation>::empty());
        assert(sub_levels_violations(group_id, grown, n + 1) =~= Seq::<Violation>::empty());
    }
}

/// The validation finds no fault with the first `n` levels below level
/// zero of a group that holds no run yet.
pub proof fn lemma_initial_levels_pass_check(group_id: u64, max_level: u64, n: int)
    requires
        max_level <= u32::MAX,
        0 <= n <= max_level,
    ensures
        lower_levels_violations(group_id, initial_levels(group_id, max_level).levels, n)
            == Seq::<Violation>::empty(),
    decreases n,
{
    if n > 0 {
        lemma_initial_levels_pass_check(group_id, max_level, n - 1);
        let level = initial_levels(group_id, max_level).levels[n - 1];
        assert(level == empty_level(n as u32));
        assert(runs_violations(group_id, level, 0) =~= Seq::<Violation>::empty());
        assert(level_violations(group_id, expected_level_idx(n - 1), level) =~= Seq::<
            Violation,
        >::empty());
    }
}

/// The validation finds no fault with a group that holds no run yet. With
/// [`law_commit_keeps_group_valid`]: none with a group that was built by
/// commits of runs whose tables are in order.
pub proof fn law_initial_group_is_valid(group_id: u64, max_level: u64, seen: Map<u32, u64>)
    requires
        max_level <= u32::MAX,
    ensures
        group_violations(group_id, initial_levels(group_id, max_level), seen).0.len() == 0,
        group_violations(group_id, initial_levels(group_id, max_level), seen).1 == seen,
{
    let levels = initial_levels(group_id, max_level);
    lemma_initial_levels_pass_check(group_id, max_level, max_level as int);
    assert(sub_levels_violations(group_id, levels.l0->0.sub_levels, 0) =~= Seq::<Violation>::empty());
    assert(members_violations(group_id, levels.member_table_ids, seen, 0) == (
        Seq::<Violation>::empty(),
        seen,
    ));
}

} // verus!
