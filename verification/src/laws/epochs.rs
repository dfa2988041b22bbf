//! Laws on the id and the epochs of a version under deltas.

use vstd::prelude::*;
use crate::apply::{merged_watermarks, spec_apply_version_delta};
use crate::delta::DeltaView;
use crate::error::VersionError;
use crate::ordered::{ascending_seq, is_ascending, lemma_ascending_seq_is};
use crate::queries::delta_after;
use crate::split::SstSplitInfo;
use crate::validate::{
    group_violations, groups_violations, level_violations, lower_levels_violations,
    members_violations, runs_violations,
    sub_levels_violations, version_violations, Violation};
use crate::level::{LevelView, LevelsView};
use crate::version::VersionView;

verus! {

/// The empty set has the empty list as its ascending list.
pub proof fn lemma_ascending_seq_empty()
    ensures
        ascending_seq(Set::<u64>::empty()) == Seq::<u64>::empty(),
{
    let s = Seq::<u64>::empty();
    assert(is_ascending(s));
    assert(s.to_set() =~= Set::<u64>::empty());
    lemma_ascending_seq_is(s, Set::<u64>::empty());
}

/// Applying the empty delta that follows a version changes the id of the
/// version, to the next one, and nothing else; no run is branched.
pub proof fn law_empty_delta_changes_only_id(v: VersionView)
    requires
        v.id < u64::MAX,
    ensures
        spec_apply_version_delta(v, delta_after(v)) == Ok::<
            (VersionView, Seq<SstSplitInfo>),
            VersionError,
        >((VersionView { id: (v.id + 1) as u64, ..v }, Seq::empty())),
{
    let d = delta_after(v);
    lemma_ascending_seq_empty();
    assert(d.group_deltas.dom() =~= Set::<u64>::empty());
    assert(merged_watermarks(v.table_watermarks, d.new_table_watermarks) =~= v.table_watermarks);
    let want = VersionView { id: (v.id + 1) as u64, ..v };
    let got = spec_apply_version_delta(v, d);
    assert(got is Ok);
    assert(got->Ok_0.0 =~~= want);
}

/// The version after a series of deltas, each applied to what the one
/// before it left.
pub open spec fn spec_apply_all(v: VersionView, ds: Seq<DeltaView>) -> Result<
    VersionView,
    VersionError,
>
    decreases ds.len(),
{
    if ds.len() == 0 {
        Ok(v)
    } else {
        match spec_apply_all(v, ds.drop_last()) {
            Err(e) => Err(e),
            Ok(prev) => match spec_apply_version_delta(prev, ds.last()) {
                Err(e) => Err(e),
                Ok((next, _)) => Ok(next),
            },
        }
    }
}

/// A delta whose safe epoch is not above its committed epoch leads to a
/// version of which the same holds.
pub proof fn law_delta_keeps_epochs_ordered(v: VersionView, d: DeltaView)
    requires
        d.safe_epoch <= d.max_committed_epoch,
        spec_apply_version_delta(v, d) is Ok,
    ensures
        spec_apply_version_delta(v, d)->Ok_0.0.safe_epoch <= spec_apply_version_delta(
            v,
            d,
        )->Ok_0.0.max_committed_epoch,
{
}

/// After every series of deltas whose safe epochs are not above their
/// committed epochs, the safe epoch of the version is not above its
/// committed epoch.
pub proof fn law_epochs_stay_ordered(v: VersionView, ds: Seq<DeltaView>)
    requires
        v.safe_epoch <= v.max_committed_epoch,
        forall|i: int| 0 <= i < ds.len() ==> (#[trigger] ds[i]).safe_epoch <= ds[i].max_committed_epoch,
        spec_apply_all(v, ds) is Ok,
    ensures
        spec_apply_all(v, ds)->Ok_0.safe_epoch <= spec_apply_all(v, ds)->Ok_0.max_committed_epoch,
    decreases ds.len(),
{
    if ds.len() > 0 {
        let prev = spec_apply_all(v, ds.drop_last());
        assert forall|i: int| 0 <= i < ds.drop_last().len() implies (#[trigger] ds.drop_last()[i]).safe_epoch
            <= ds.drop_last()[i].max_committed_epoch by {
            assert(ds.drop_last()[i] == ds[i]);
        }
        law_epochs_stay_ordered(v, ds.drop_last());
        law_delta_keeps_epochs_ordered(prev->Ok_0, ds.last());
    }
}

/// No violation in the list is about the epochs.
pub open spec fn no_epoch_violation(s: Seq<Violation>) -> bool {
    forall|i: int| 0 <= i < s.len() ==> !((#[trigger] s[i]) is SafeEpochAboveCommitted)
}

proof fn lemma_runs_no_epoch_violation(group_id: u64, level: LevelView, n: int)
    ensures
        no_epoch_violation(runs_violations(group_id, level, n)),
    decreases n,
{
    if n > 0 {
        lemma_runs_no_epoch_violation(group_id, level, n - 1);
    }
}

proof fn lemma_level_no_epoch_violation(group_id: u64, expected: u32, level: LevelView)
    ensures
        no_epoch_violation(level_violations(group_id, expected, level)),
{
    lemma_runs_no_epoch_violation(group_id, level, level.table_infos.len() as int);
}

proof fn lemma_sub_levels_no_epoch_violation(group_id: u64, subs: Seq<LevelView>, n: int)
    ensures
        no_epoch_violation(sub_levels_violations(group_id, subs, n)),
    decreases n,
{
    if n > 0 {
        lemma_sub_levels_no_epoch_violation(group_id, subs, n - 1);
        lemma_level_no_epoch_violation(group_id, 0, subs[n - 1]);
    }
}

proof fn lemma_lower_levels_no_epoch_violation(group_id: u64, levels: Seq<LevelView>, n: int)
    ensures
        no_epoch_violation(lower_levels_violations(group_id, levels, n)),
    decreases n,
{
    if n > 0 {
        lemma_lower_levels_no_epoch_violation(group_id, levels, n - 1);
        lemma_level_no_epoch_violation(
            group_id,
            crate::validate::expected_level_idx(n - 1),
            levels[n - 1],
        );
    }
}

proof fn lemma_members_no_epoch_violation(
    group_id: u64,
    members: Seq<u32>,
    seen: Map<u32, u64>,
    n: int,
)
    ensures
        no_epoch_violation(members_violations(group_id, members, seen, n).0),
    decreases n,
{
    if n > 0 {
        lemma_members_no_epoch_violation(group_id, members, seen, n - 1);
    }
}

proof fn lemma_group_no_epoch_violation(group_id: u64, levels: LevelsView, seen: Map<u32, u64>)
    ensures
        no_epoch_violation(group_violations(group_id, levels, seen).0),
{
    lemma_members_no_epoch_violation(
        group_id,
        levels.member_table_ids,
        seen,
        levels.member_table_ids.len() as int,
    );
    if levels.l0 is Some {
        lemma_sub_levels_no_epoch_violation(
            group_id,
            levels.l0->0.sub_levels,
            levels.l0->0.sub_levels.len() as int,
        );
    }
    lemma_lower_levels_no_epoch_violation(group_id, levels.levels, levels.levels.len() as int);
}

proof fn lemma_groups_no_epoch_violation(groups: Map<u64, LevelsView>, order: Seq<u64>, n: int)
    ensures
        no_epoch_violation(groups_violations(groups, order, n).0),
    decreases n,
{
    if n > 0 {
        lemma_groups_no_epoch_violation(groups, order, n - 1);
        lemma_group_no_epoch_violation(
            order[n - 1],
            groups[order[n - 1]],
            groups_violations(groups, order, n - 1).1,
        );
    }
}

/// The validation reports a violation about the epochs exactly for a version
/// whose safe epoch lies above its committed epoch.
pub proof fn law_epoch_violation_reported(v: VersionView)
    ensures
        v.safe_epoch <= v.max_committed_epoch <==> no_epoch_violation(version_violations(v)),
{
    let order = ascending_seq(v.levels.dom());
    lemma_groups_no_epoch_violation(v.levels, order, order.len() as int);
    if v.safe_epoch > v.max_committed_epoch {
        assert(version_violations(v)[0] is SafeEpochAboveCommitted);
    }
}

/// The committed epoch never goes back. A delta that would lower it is
/// refused, whatever else it holds and even if it edits no group; a delta
/// that is accepted leaves the committed epoch at or above what it was.
pub proof fn law_committed_epoch_never_goes_back(v: VersionView, d: DeltaView)
    ensures
        d.max_committed_epoch < v.max_committed_epoch ==> spec_apply_version_delta(v, d) == Err::<
            (VersionView, Seq<SstSplitInfo>),
            VersionError,
        >(VersionError::EpochRegression),
        spec_apply_version_delta(v, d) is Ok ==> spec_apply_version_delta(
            v,
            d,
        )->Ok_0.0.max_committed_epoch >= v.max_committed_epoch,
{
}

/// After every series of deltas the committed epoch of the version is at
/// or above what it was at the start.
pub proof fn law_committed_epoch_is_monotone(v: VersionView, ds: Seq<DeltaView>)
    requires
        spec_apply_all(v, ds) is Ok,
    ensures
        spec_apply_all(v, ds)->Ok_0.max_committed_epoch >= v.max_committed_epoch,
    decreases ds.len(),
{
    if ds.len() > 0 {
        law_committed_epoch_is_monotone(v, ds.drop_last());
        law_committed_epoch_never_goes_back(spec_apply_all(v, ds.drop_last())->Ok_0, ds.last());
    }
}

} // verus!
