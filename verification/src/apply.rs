//! Applying a version delta: the one transition that moves a version
//! forward.

use vstd::prelude::*;
use std::collections::HashMap;
use vstd::std_specs::iter::IteratorSpec;
use crate::compact::spec_apply_compact_ssts;
use crate::delta::{
    summarize_group_deltas, spec_summarize, CompatibilityVersion, DeltaView, GroupDeltaView,
    GroupDeltas, GroupDeltasSummary, HummockVersionDelta, SummaryView};
use crate::error::VersionError;
use crate::level::{LevelType, Levels, LevelsView};
use crate::members::{
    apply_meta_changes, is_listed, is_not_listed, partition_tables, sort_ids, sort_table_ids,
    with_meta_changes,
};
use crate::ordered::{ascending_seq};
use crate::split::{spec_init_with_parent_group, table_id_set, SstSplitInfo};
use crate::sstable::copy_table_ids;
use crate::sub_level::{insert_new_sub_level, spec_insert_new_sub_level};
use crate::version::{
    build_initial_compaction_group_levels, groups_view, initial_levels, sorted_keys,
    watermarks_view, HummockVersion, VersionView};
use crate::watermark::{TableWatermarks, WatermarksView};

verus! {

broadcast use vstd::std_specs::hash::group_hash_axioms;

/// The groups of a version, and the provenance of the runs branched so far.
pub type GroupsAndSplits = (Map<u64, LevelsView>, Seq<SstSplitInfo>);

/// The groups after the construction or the table move that a summary
/// carries. A new group starts with empty levels and takes over the runs of
/// its tables from its parent; a table move takes the runs from the origin
/// group and then moves the table ids themselves to the group `group_id`,
/// whose member list is put back into ascending order.
pub open spec fn regrouped(groups: Map<u64, LevelsView>, group_id: u64, s: SummaryView) -> Result<
    GroupsAndSplits,
    VersionError,
> {
    if s.group_construct is Some {
        let c = s.group_construct->0;
        if c.group_config is None {
            Err(VersionError::MissingGroupConfig)
        } else if c.group_config->0.max_level > u32::MAX {
            Err(VersionError::LevelOutOfRange)
        } else {
            let fresh = LevelsView {
                parent_group_id: c.parent_group_id,
                member_table_ids: c.table_ids,
                ..initial_levels(group_id, c.group_config->0.max_level)
            };
            spec_init_with_parent_group(
                groups.insert(group_id, fresh),
                c.parent_group_id,
                group_id,
                c.table_ids.to_set(),
                c.new_sst_start_id,
                c.version == CompatibilityVersion::VersionUnspecified,
            )
        }
    } else if s.group_table_change is Some {
        let ch = s.group_table_change->0;
        match spec_init_with_parent_group(
            groups,
            ch.origin_group_id,
            ch.target_group_id,
            ch.table_ids.to_set(),
            ch.new_sst_start_id,
            ch.version == CompatibilityVersion::VersionUnspecified,
        ) {
            Err(e) => Err(e),
            Ok((split, infos)) => {
                if !split.contains_key(ch.origin_group_id) {
                    Err(VersionError::GroupNotFound)
                } else {
                    let origin = split[ch.origin_group_id];
                    let moving = origin.member_table_ids.filter(is_listed(ch.table_ids));
                    let left = split.insert(
                        ch.origin_group_id,
                        LevelsView {
                            member_table_ids: origin.member_table_ids.filter(
                                is_not_listed(ch.table_ids),
                            ),
                            ..origin
                        },
                    );
                    if !left.contains_key(group_id) {
                        Err(VersionError::GroupNotFound)
                    } else {
                        let target = left[group_id];
                        Ok(
                            (
                                left.insert(
                                    group_id,
                                    LevelsView {
                                        member_table_ids: sort_ids(
                                            target.member_table_ids + moving,
                                        ),
                                        ..target
                                    },
                                ),
                                infos,
                            ),
                        )
                    }
                }
            },
        }
    } else {
        Ok((groups, Seq::empty()))
    }
}

/// The levels of a group after a commit: the new runs form one new
/// sub-level of level zero, the newest. A commit is refused where one of
/// its edits inserts below level zero, and where it removes a run, unless
/// the group is destroyed in the same step.
pub open spec fn committed(levels: LevelsView, s: SummaryView) -> Result<LevelsView, VersionError> {
    if s.inserts_below_level0 {
        Err(VersionError::CommitBelowLevel0)
    } else if !s.group_destroy && !(s.delete_sst_levels =~= Set::<u32>::empty()
        && s.delete_sst_ids_set =~= Set::<u64>::empty()) {
        Err(VersionError::CommitRemovesRuns)
    } else if s.insert_table_infos.len() == 0 {
        Ok(levels)
    } else if levels.l0 is None {
        Err(VersionError::MissingLevel0)
    } else {
        match spec_insert_new_sub_level(
            levels.l0->0,
            s.insert_sub_level_id,
            LevelType::Overlapping,
            s.insert_table_infos,
            None,
        ) {
            Err(e) => Err(e),
            Ok(l0) => Ok(LevelsView { l0: Some(l0), ..levels }),
        }
    }
}

/// The groups after the edits `ds` to the group `group_id`.
///
/// The edits are summed up; a construction or a table move comes first,
/// then the changes to the member tables. A delta that raises the committed
/// epoch is a commit, one that leaves it is a compaction result. A
/// destroyed group leaves the version last.
pub open spec fn group_step(
    groups: Map<u64, LevelsView>,
    current_epoch: u64,
    new_epoch: u64,
    group_id: u64,
    ds: Seq<GroupDeltaView>,
) -> Result<GroupsAndSplits, VersionError> {
    match spec_summarize(ds) {
        Err(e) => Err(e),
        Ok(s) => match regrouped(groups, group_id, s) {
            Err(e) => Err(e),
            Ok((moved, infos)) => {
                if !moved.contains_key(group_id) {
                    Err(VersionError::GroupNotFound)
                } else {
                    let levels = LevelsView {
                        member_table_ids: with_meta_changes(
                            moved[group_id].member_table_ids,
                            s.group_meta_changes,
                        ),
                        ..moved[group_id]
                    };
                    let edited = if current_epoch < new_epoch {
                        committed(levels, s)
                    } else {
                        spec_apply_compact_ssts(levels, s)
                    };
                    match edited {
                        Err(e) => Err(e),
                        Ok(done) => Ok(
                            (
                                if s.group_destroy {
                                    moved.remove(group_id)
                                } else {
                                    moved.insert(group_id, done)
                                },
                                infos,
                            ),
                        ),
                    }
                }
            },
        },
    }
}

/// The groups after the edits to the groups `order[k..]`, one group after
/// the other.
pub open spec fn apply_groups(
    acc: GroupsAndSplits,
    current_epoch: u64,
    new_epoch: u64,
    deltas: Map<u64, Seq<GroupDeltaView>>,
    order: Seq<u64>,
    k: int,
) -> Result<GroupsAndSplits, VersionError>
    decreases order.len() - k,
{
    if k < 0 || k >= order.len() {
        Ok(acc)
    } else {
        match group_step(acc.0, current_epoch, new_epoch, order[k], deltas[order[k]]) {
            Err(e) => Err(e),
            Ok((groups, infos)) => apply_groups(
                (groups, acc.1 + infos),
                current_epoch,
                new_epoch,
                deltas,
                order,
                k + 1,
            ),
        }
    }
}

/// The watermark histories after the new watermarks of a delta joined them:
/// a table that has a history gets the new watermarks behind it.
pub open spec fn merged_watermarks(
    current: Map<u32, WatermarksView>,
    added: Map<u32, WatermarksView>,
) -> Map<u32, WatermarksView> {
    Map::new(
        |t: u32| current.contains_key(t) || added.contains_key(t),
        |t: u32|
            if !added.contains_key(t) {
                current[t]
            } else if current.contains_key(t) {
                current[t].appended(added[t])
            } else {
                added[t]
            },
    )
}

/// The watermark histories without the watermarks of epochs below
/// `safe_epoch`.
pub open spec fn fresh_watermarks(m: Map<u32, WatermarksView>, safe_epoch: u64) -> Map<
    u32,
    WatermarksView,
> {
    m.map_values(|w: WatermarksView| w.without_stale(safe_epoch))
}

/// The version that a delta leads to, with the provenance of every run that
/// a split branched.
///
/// A delta that would lower the committed epoch is refused before any
/// group is touched. The groups that the delta names are edited in
/// ascending order of their ids. Then the version takes the id and the
/// committed epoch of the delta, the new watermarks join the histories, and
/// a safe epoch that moved forward drops the watermarks of the epochs below
/// it.
pub open spec fn spec_apply_version_delta(v: VersionView, d: DeltaView) -> Result<
    (VersionView, Seq<SstSplitInfo>),
    VersionError,
> {
    if d.max_committed_epoch < v.max_committed_epoch {
        Err(VersionError::EpochRegression)
    } else {
        spec_apply_groups_of(v, d)
    }
}

/// The version that a delta leads to whose committed epoch is not below
/// that of the version.
pub open spec fn spec_apply_groups_of(v: VersionView, d: DeltaView) -> Result<
    (VersionView, Seq<SstSplitInfo>),
    VersionError,
> {
    match apply_groups(
        (v.levels, Seq::empty()),
        v.max_committed_epoch,
        d.max_committed_epoch,
        d.group_deltas,
        ascending_seq(d.group_deltas.dom()),
        0,
    ) {
        Err(e) => Err(e),
        Ok((groups, infos)) => {
            if d.safe_epoch < v.safe_epoch {
                Err(VersionError::SafeEpochRegression)
            } else {
                let merged = merged_watermarks(v.table_watermarks, d.new_table_watermarks);
                Ok(
                    (
                        VersionView {
                            id: d.id,
                            levels: groups,
                            max_committed_epoch: d.max_committed_epoch,
                            safe_epoch: d.safe_epoch,
                            table_watermarks: if d.safe_epoch != v.safe_epoch {
                                fresh_watermarks(merged, d.safe_epoch)
                            } else {
                                merged
                            },
                        },
                        infos,
                    ),
                )
            }
        },
    }
}

/// Performs the construction or the table move of a summary.
fn regroup(
    version: &mut HummockVersion,
    group_id: u64,
    summary: &GroupDeltasSummary,
    sst_split_info: &mut Vec<SstSplitInfo>,
) -> (r: Result<(), VersionError>)
    ensures
        final(version).id == old(version).id,
        final(version).max_committed_epoch == old(version).max_committed_epoch,
        final(version).safe_epoch == old(version).safe_epoch,
        final(version).table_watermarks == old(version).table_watermarks,
        match r {
            Ok(()) => exists|infos: Seq<SstSplitInfo>|
                regrouped(old(version)@.levels, group_id, summary@) == Ok::<
                    GroupsAndSplits,
                    VersionError,
                >((final(version)@.levels, infos)) && final(sst_split_info)@ == old(
                    sst_split_info,
                )@ + infos,
            Err(e) => regrouped(old(version)@.levels, group_id, summary@) == Err::<
                GroupsAndSplits,
                VersionError,
            >(e),
        },
{
    let ghost groups0 = version@.levels;
    let ghost map0 = version.levels@;
    if let Some(group_construct) = &summary.group_construct {
        let config = match group_construct.group_config {
            Some(config) => config,
            None => {
                return Err(VersionError::MissingGroupConfig);
            },
        };
        if config.max_level > u32::MAX as u64 {
            return Err(VersionError::LevelOutOfRange);
        }
        let mut new_levels = build_initial_compaction_group_levels(group_id, &config);
        new_levels.parent_group_id = group_construct.parent_group_id;
        new_levels.member_table_ids = copy_table_ids(&group_construct.table_ids);
        let ghost fresh = new_levels@;
        version.levels.insert(group_id, new_levels);
        assert(version@.levels =~= groups0.insert(group_id, fresh));
        let mut infos = version.init_with_parent_group(
            group_construct.parent_group_id,
            group_id,
            table_id_set(&group_construct.table_ids),
            group_construct.new_sst_start_id,
            group_construct.version == CompatibilityVersion::VersionUnspecified,
        )?;
        let ghost added = infos@;
        sst_split_info.append(&mut infos);
        assert(regrouped(groups0, group_id, summary@) == Ok::<GroupsAndSplits, VersionError>(
            (version@.levels, added),
        ));
        Ok(())
    } else if let Some(group_change) = &summary.group_table_change {
        let mut infos = version.init_with_parent_group(
            group_change.origin_group_id,
            group_change.target_group_id,
            table_id_set(&group_change.table_ids),
            group_change.new_sst_start_id,
            group_change.version == CompatibilityVersion::VersionUnspecified,
        )?;
        let ghost split = version@.levels;
        let ghost split_map = version.levels@;
        let ghost added = infos@;
        let mut origin = match version.levels.remove(&group_change.origin_group_id) {
            Some(levels) => levels,
            None => {
                return Err(VersionError::GroupNotFound);
            },
        };
        assert(split.contains_key(group_change.origin_group_id));
        let ghost origin_view = origin@;
        let (mut moving, staying) = partition_tables(
            &origin.member_table_ids,
            &group_change.table_ids,
        );
        origin.member_table_ids = staying;
        let ghost origin_after = origin@;
        version.levels.insert(group_change.origin_group_id, origin);
        let ghost left = version@.levels;
        assert(left =~= split.insert(group_change.origin_group_id, origin_after));
        let mut target = match version.levels.remove(&group_id) {
            Some(levels) => levels,
            None => {
                return Err(VersionError::GroupNotFound);
            },
        };
        let ghost target_view = target@;
        let ghost moving_view = moving@;
        target.member_table_ids.append(&mut moving);
        target.member_table_ids = sort_table_ids(&target.member_table_ids);
        let ghost target_after = target@;
        version.levels.insert(group_id, target);
        assert(version@.levels =~= left.insert(group_id, target_after));
        sst_split_info.append(&mut infos);
        assert(regrouped(groups0, group_id, summary@) == Ok::<GroupsAndSplits, VersionError>(
            (version@.levels, added),
        ));
        Ok(())
    } else {
        assert(old(sst_split_info)@ + Seq::<SstSplitInfo>::empty() =~= old(sst_split_info)@);
        Ok(())
    }
}

/// Applies a commit to the levels of a group.
fn apply_commit(levels: &mut Levels, summary: GroupDeltasSummary) -> (r: Result<(), VersionError>)
    ensures
        match r {
            Ok(()) => committed(old(levels)@, summary@) == Ok::<LevelsView, VersionError>(
                final(levels)@,
            ),
            Err(e) => committed(old(levels)@, summary@) == Err::<LevelsView, VersionError>(e),
        },
{
    let has_destroy = summary.group_destroy.is_some();
    let GroupDeltasSummary {
        delete_sst_levels,
        delete_sst_ids_set,
        insert_sst_level_id,
        insert_sub_level_id,
        insert_table_infos,
        inserts_below_level0,
        group_construct: _,
        group_destroy: _,
        group_meta_changes: _,
        group_table_change: _,
    } = summary;
    if inserts_below_level0 {
        return Err(VersionError::CommitBelowLevel0);
    }
    proof {
        if delete_sst_levels.len() > 0 {
            assert(delete_sst_levels@.to_set().contains(delete_sst_levels[0]));
        }
    }
    if !has_destroy && !(delete_sst_levels.len() == 0 && delete_sst_ids_set.is_empty()) {
        return Err(VersionError::CommitRemovesRuns);
    }
    if insert_table_infos.len() == 0 {
        return Ok(());
    }
    match &mut levels.l0 {
        Some(l0) => insert_new_sub_level(
            l0,
            insert_sub_level_id,
            LevelType::Overlapping,
            insert_table_infos,
            None,
        ),
        None => Err(VersionError::MissingLevel0),
    }
}

/// Applies the edits to one group.
fn apply_group_deltas(
    version: &mut HummockVersion,
    new_epoch: u64,
    group_id: u64,
    group_deltas: &GroupDeltas,
    sst_split_info: &mut Vec<SstSplitInfo>,
) -> (r: Result<(), VersionError>)
    ensures
        final(version).id == old(version).id,
        final(version).max_committed_epoch == old(version).max_committed_epoch,
        final(version).safe_epoch == old(version).safe_epoch,
        final(version).table_watermarks == old(version).table_watermarks,
        match r {
            Ok(()) => exists|infos: Seq<SstSplitInfo>|
                group_step(
                    old(version)@.levels,
                    old(version).max_committed_epoch,
                    new_epoch,
                    group_id,
                    group_deltas@,
                ) == Ok::<GroupsAndSplits, VersionError>((final(version)@.levels, infos))
                    && final(sst_split_info)@ == old(sst_split_info)@ + infos,
            Err(e) => group_step(
                old(version)@.levels,
                old(version).max_committed_epoch,
                new_epoch,
                group_id,
                group_deltas@,
            ) == Err::<GroupsAndSplits, VersionError>(e),
        },
{
    let ghost groups0 = version@.levels;
    let ghost infos0 = sst_split_info@;
    let summary = summarize_group_deltas(group_deltas)?;
    regroup(version, group_id, &summary, sst_split_info)?;
    let ghost moved = version@.levels;
    let ghost infos = choose|infos: Seq<SstSplitInfo>|
        regrouped(groups0, group_id, summary@) == Ok::<GroupsAndSplits, VersionError>((moved, infos))
            && sst_split_info@ == infos0 + infos;
    let has_destroy = summary.group_destroy.is_some();
    let mut levels = match version.levels.remove(&group_id) {
        Some(levels) => levels,
        None => {
            return Err(VersionError::GroupNotFound);
        },
    };
    assert(moved.contains_key(group_id));
    apply_meta_changes(&mut levels.member_table_ids, &summary.group_meta_changes);
    if version.max_committed_epoch < new_epoch {
        apply_commit(&mut levels, summary)?;
    } else {
        levels.compact_in_place(summary)?;
    }
    if has_destroy {
        assert(version@.levels =~= moved.remove(group_id));
    } else {
        let ghost done = levels@;
        version.levels.insert(group_id, levels);
        assert(version@.levels =~= moved.insert(group_id, done));
    }
    Ok(())
}

/// The table ids that a map of watermark histories holds, in no particular
/// order.
fn watermark_tables(m: &HashMap<u32, TableWatermarks>) -> (r: Vec<u32>)
    ensures
        r@.to_set() == m@.dom(),
        r@.no_duplicates(),
{
    let mut out: Vec<u32> = Vec::new();
    let ghost all: Seq<u32> = vstd::std_specs::hash::spec_keys_iter(m).remaining().unref();
    for k in it: m.keys()
        invariant
            it.seq().unref() == all,
            out@ == all.subrange(0, it.index()),
    {
        out.push(*k);
        assert(out@ =~= all.subrange(0, it.index() + 1));
    }
    assert(out@ =~= all);
    out
}

/// Lets the new watermarks of a delta join the histories.
fn merge_watermarks(
    current: &mut HashMap<u32, TableWatermarks>,
    added: &HashMap<u32, TableWatermarks>,
)
    ensures
        watermarks_view(final(current)@) == merged_watermarks(
            watermarks_view(old(current)@),
            watermarks_view(added@),
        ),
{
    let ghost before = watermarks_view(current@);
    let ghost news = watermarks_view(added@);
    let tables = watermark_tables(added);
    let mut i: usize = 0;
    assert(watermarks_view(current@) =~= merged_watermarks(
        before,
        news.restrict(tables@.subrange(0, 0).to_set()),
    ));
    while i < tables.len()
        invariant
            i <= tables.len(),
            tables@.to_set() == added@.dom(),
            tables@.no_duplicates(),
            before == watermarks_view(old(current)@),
            news == watermarks_view(added@),
            watermarks_view(current@) == merged_watermarks(
                before,
                news.restrict(tables@.subrange(0, i as int).to_set()),
            ),
        decreases tables.len() - i,
    {
        let table_id: u32 = tables[i];
        let ghost cur_map = current@;
        let ghost done = tables@.subrange(0, i as int).to_set();
        assert(tables@.to_set().contains(table_id)) by {
            assert(tables@[i as int] == table_id);
        }
        let table_watermarks = match added.get(&table_id) {
            Some(w) => w,
            None => {
                assert(false);
                i += 1;
                continue ;
            },
        };
        let ghost merged_view;
        let ghost partial = merged_watermarks(before, news.restrict(done));
        assert(!done.contains(table_id)) by {
            if done.contains(table_id) {
                let j = choose|j: int| 0 <= j < i && tables@.subrange(0, i as int)[j] == table_id;
                assert(tables@[j] == tables@[i as int]);
            }
        }
        assert(partial.contains_key(table_id) == before.contains_key(table_id));
        assert(partial.contains_key(table_id) ==> partial[table_id] == before[table_id]);
        assert(watermarks_view(cur_map).contains_key(table_id) == cur_map.contains_key(table_id));
        match current.remove(&table_id) {
            Some(mut history) => {
                assert(history@ == watermarks_view(cur_map)[table_id]);
                history.apply_new_table_watermarks(table_watermarks);
                proof {
                    merged_view = history@;
                }
                current.insert(table_id, history);
            },
            None => {
                let copy = table_watermarks.clone();
                proof {
                    merged_view = copy@;
                }
                current.insert(table_id, copy);
            },
        }
        proof {
            let next = tables@.subrange(0, i + 1).to_set();
            assert(tables@.subrange(0, i + 1) =~= tables@.subrange(0, i as int).push(table_id));
            tables@.subrange(0, i as int).lemma_push_to_set_commute(table_id);
            assert(next =~= done.insert(table_id));
            assert(!done.contains(table_id)) by {
                if done.contains(table_id) {
                    let j = choose|j: int|
                        0 <= j < i && tables@.subrange(0, i as int)[j] == table_id;
                    assert(tables@[j] == tables@[i as int]);
                }
            }
            assert(news[table_id] == table_watermarks@);
            assert(watermarks_view(current@) =~= watermarks_view(cur_map).insert(
                table_id,
                merged_view,
            ));
            let want = merged_watermarks(before, news.restrict(next));
            assert(want[table_id] == merged_view);
            assert forall|t: u32| t != table_id implies (want.contains_key(t)
                == partial.contains_key(t) && (want.contains_key(t) ==> want[t] == partial[t])) by {}
            assert(watermarks_view(current@) =~= merged_watermarks(before, news.restrict(next)));
        }
        i += 1;
    }
    proof {
        assert(tables@.subrange(0, i as int) =~= tables@);
        assert(news.restrict(tables@.to_set()) =~= news);
    }
}

/// The histories of which those of the tables `done` have lost their stale
/// watermarks.
pub open spec fn partly_fresh(m: Map<u32, WatermarksView>, safe_epoch: u64, done: Set<u32>) -> Map<
    u32,
    WatermarksView,
> {
    Map::new(
        |t: u32| m.contains_key(t),
        |t: u32|
            if done.contains(t) {
                m[t].without_stale(safe_epoch)
            } else {
                m[t]
            },
    )
}

/// Drops the watermarks of epochs below `safe_epoch` from every history.
fn drop_stale_watermarks(current: &mut HashMap<u32, TableWatermarks>, safe_epoch: u64)
    ensures
        watermarks_view(final(current)@) == fresh_watermarks(
            watermarks_view(old(current)@),
            safe_epoch,
        ),
{
    let ghost before = watermarks_view(current@);
    let tables = watermark_tables(current);
    let mut i: usize = 0;
    assert(watermarks_view(current@) =~= partly_fresh(
        before,
        safe_epoch,
        tables@.subrange(0, 0).to_set(),
    ));
    while i < tables.len()
        invariant
            i <= tables.len(),
            tables@.to_set() == before.dom(),
            before == watermarks_view(old(current)@),
            watermarks_view(current@) == partly_fresh(
                before,
                safe_epoch,
                tables@.subrange(0, i as int).to_set(),
            ),
        decreases tables.len() - i,
    {
        let table_id: u32 = tables[i];
        let ghost cur_map = current@;
        let ghost done = tables@.subrange(0, i as int).to_set();
        assert(tables@.to_set().contains(table_id)) by {
            assert(tables@[i as int] == table_id);
        }
        assert(watermarks_view(cur_map).contains_key(table_id));
        match current.remove(&table_id) {
            Some(mut history) => {
                let ghost was = history@;
                history.clear_stale_epoch_watermark(safe_epoch);
                let ghost now = history@;
                current.insert(table_id, history);
                proof {
                    let next = tables@.subrange(0, i + 1).to_set();
                    assert(tables@.subrange(0, i + 1) =~= tables@.subrange(0, i as int).push(
                        table_id,
                    ));
                    tables@.subrange(0, i as int).lemma_push_to_set_commute(table_id);
                    assert(next =~= done.insert(table_id));
                    assert(watermarks_view(current@) =~= watermarks_view(cur_map).insert(
                        table_id,
                        now,
                    ));
                    assert(was == partly_fresh(before, safe_epoch, done)[table_id]);
                    assert(was.without_stale(safe_epoch).without_stale(safe_epoch)
                        == was.without_stale(safe_epoch)) by {
                        lemma_without_stale_twice(was, safe_epoch);
                    }
                    if done.contains(table_id) {
                        assert(was == before[table_id].without_stale(safe_epoch));
                        lemma_without_stale_twice(before[table_id], safe_epoch);
                    }
                    assert(watermarks_view(current@) =~= partly_fresh(before, safe_epoch, next));
                }
            },
            None => {
                assert(false);
            },
        }
        i += 1;
    }
    proof {
        assert(tables@.subrange(0, i as int) =~= tables@);
        assert(partly_fresh(before, safe_epoch, tables@.to_set()) =~= fresh_watermarks(
            before,
            safe_epoch,
        ));
    }
}

/// Dropping stale watermarks a second time changes nothing.
pub proof fn lemma_without_stale_twice(w: WatermarksView, safe_epoch: u64)
    ensures
        w.without_stale(safe_epoch).without_stale(safe_epoch) == w.without_stale(safe_epoch),
{
    let p = crate::watermark::is_fresh(safe_epoch);
    let s = w.watermarks.filter(p);
    lemma_filter_all(w.watermarks, p);
    lemma_filter_same(s, p);
}

/// Every element of a filtered list passes the filter.
pub proof fn lemma_filter_all<A>(s: Seq<A>, p: spec_fn(A) -> bool)
    ensures
        forall|i: int| 0 <= i < s.filter(p).len() ==> p(#[trigger] s.filter(p)[i]),
    decreases s.len(),
{
    reveal(Seq::filter);
    if s.len() > 0 {
        lemma_filter_all(s.drop_last(), p);
    }
}

/// A filter keeps a list whose elements all pass it.
pub proof fn lemma_filter_same<A>(s: Seq<A>, p: spec_fn(A) -> bool)
    requires
        forall|i: int| 0 <= i < s.len() ==> p(#[trigger] s[i]),
    ensures
        s.filter(p) == s,
    decreases s.len(),
{
    reveal(Seq::filter);
    if s.len() > 0 {
        lemma_filter_same(s.drop_last(), p);
        assert(s =~= s.drop_last().push(s.last()));
    }
}

/// Copies the groups of a version.
fn copy_groups(m: &HashMap<u64, Levels>) -> (r: HashMap<u64, Levels>)
    ensures
        groups_view(r@) == groups_view(m@),
{
    let mut out: HashMap<u64, Levels> = HashMap::new();
    let keys = sorted_keys(m);
    let mut i: usize = 0;
    assert(groups_view(out@) =~= groups_view(m@).restrict(keys@.subrange(0, 0).to_set()));
    while i < keys.len()
        invariant
            i <= keys.len(),
            keys@.to_set() == m@.dom(),
            groups_view(out@) == groups_view(m@).restrict(keys@.subrange(0, i as int).to_set()),
        decreases keys.len() - i,
    {
        let k: u64 = keys[i];
        assert(keys@.to_set().contains(k)) by {
            assert(keys@[i as int] == k);
        }
        let ghost out_map = out@;
        match m.get(&k) {
            Some(levels) => {
                let copy = levels.clone();
                let ghost cv = copy@;
                out.insert(k, copy);
                proof {
                    assert(keys@.subrange(0, i + 1) =~= keys@.subrange(0, i as int).push(k));
                    keys@.subrange(0, i as int).lemma_push_to_set_commute(k);
                    assert(groups_view(out@) =~= groups_view(out_map).insert(k, cv));
                    assert(groups_view(out@) =~= groups_view(m@).restrict(
                        keys@.subrange(0, i + 1).to_set(),
                    ));
                }
            },
            None => {
                assert(false);
            },
        }
        i += 1;
    }
    proof {
        assert(keys@.subrange(0, i as int) =~= keys@);
        assert(groups_view(m@).restrict(keys@.to_set()) =~= groups_view(m@));
    }
    out
}

/// Copies the watermark histories of a version.
fn copy_watermarks(m: &HashMap<u32, TableWatermarks>) -> (r: HashMap<u32, TableWatermarks>)
    ensures
        watermarks_view(r@) == watermarks_view(m@),
{
    let mut out: HashMap<u32, TableWatermarks> = HashMap::new();
    let keys = watermark_tables(m);
    let mut i: usize = 0;
    assert(watermarks_view(out@) =~= watermarks_view(m@).restrict(keys@.subrange(0, 0).to_set()));
    while i < keys.len()
        invariant
            i <= keys.len(),
            keys@.to_set() == m@.dom(),
            watermarks_view(out@) == watermarks_view(m@).restrict(
                keys@.subrange(0, i as int).to_set(),
            ),
        decreases keys.len() - i,
    {
        let k: u32 = keys[i];
        assert(keys@.to_set().contains(k)) by {
            assert(keys@[i as int] == k);
        }
        let ghost out_map = out@;
        match m.get(&k) {
            Some(w) => {
                let copy = w.clone();
                let ghost cv = copy@;
                out.insert(k, copy);
                proof {
                    assert(keys@.subrange(0, i + 1) =~= keys@.subrange(0, i as int).push(k));
                    keys@.subrange(0, i as int).lemma_push_to_set_commute(k);
                    assert(watermarks_view(out@) =~= watermarks_view(out_map).insert(k, cv));
                    assert(watermarks_view(out@) =~= watermarks_view(m@).restrict(
                        keys@.subrange(0, i + 1).to_set(),
                    ));
                }
            },
            None => {
                assert(false);
            },
        }
        i += 1;
    }
    proof {
        assert(keys@.subrange(0, i as int) =~= keys@);
        assert(watermarks_view(m@).restrict(keys@.to_set()) =~= watermarks_view(m@));
    }
    out
}

impl Clone for HummockVersion {
    fn clone(&self) -> (r: Self)
        ensures
            r@ == self@,
    {
        HummockVersion {
            id: self.id,
            levels: copy_groups(&self.levels),
            max_committed_epoch: self.max_committed_epoch,
            safe_epoch: self.safe_epoch,
            table_watermarks: copy_watermarks(&self.table_watermarks),
        }
    }
}

impl HummockVersion {
    /// Moves the version forward by one delta and returns the provenance of
    /// the runs that a split branched. A delta that is refused leaves the
    /// version as it was.
    pub fn apply_version_delta(&mut self, version_delta: &HummockVersionDelta) -> (r: Result<
        Vec<SstSplitInfo>,
        VersionError,
    >)
        ensures
            match r {
                Ok(infos) => spec_apply_version_delta(old(self)@, version_delta@) == Ok::<
                    (VersionView, Seq<SstSplitInfo>),
                    VersionError,
                >((final(self)@, infos@)),
                Err(e) => spec_apply_version_delta(old(self)@, version_delta@) == Err::<
                    (VersionView, Seq<SstSplitInfo>),
                    VersionError,
                >(e) && *final(self) == *old(self),
            },
    {
        let mut next = self.clone();
        let infos = next.apply_version_delta_in_place(version_delta)?;
        *self = next;
        Ok(infos)
    }

    /// Moves the version forward by one delta. After a refusal the version
    /// is in no specified state.
    fn apply_version_delta_in_place(&mut self, version_delta: &HummockVersionDelta) -> (r: Result<
        Vec<SstSplitInfo>,
        VersionError,
    >)
        ensures
            match r {
                Ok(infos) => spec_apply_version_delta(old(self)@, version_delta@) == Ok::<
                    (VersionView, Seq<SstSplitInfo>),
                    VersionError,
                >((final(self)@, infos@)),
                Err(e) => spec_apply_version_delta(old(self)@, version_delta@) == Err::<
                    (VersionView, Seq<SstSplitInfo>),
                    VersionError,
                >(e),
            },
    {
        let ghost v0 = self@;
        let ghost d = version_delta@;
        if version_delta.max_committed_epoch < self.max_committed_epoch {
            return Err(VersionError::EpochRegression);
        }
        let mut sst_split_info: Vec<SstSplitInfo> = Vec::new();
        let order = sorted_keys(&version_delta.group_deltas);
        assert(d.group_deltas.dom() =~= version_delta.group_deltas@.dom());
        let mut k: usize = 0;
        while k < order.len()
            invariant
                k <= order.len(),
                order@ == ascending_seq(d.group_deltas.dom()),
                order@.to_set() == version_delta.group_deltas@.dom(),
                d == version_delta@,
                v0 == old(self)@,
                d.max_committed_epoch >= v0.max_committed_epoch,
                self.id == old(self).id,
                self.max_committed_epoch == old(self).max_committed_epoch,
                self.safe_epoch == old(self).safe_epoch,
                self.table_watermarks == old(self).table_watermarks,
                apply_groups(
                    (v0.levels, Seq::empty()),
                    v0.max_committed_epoch,
                    d.max_committed_epoch,
                    d.group_deltas,
                    order@,
                    0,
                ) == apply_groups(
                    (self@.levels, sst_split_info@),
                    v0.max_committed_epoch,
                    d.max_committed_epoch,
                    d.group_deltas,
                    order@,
                    k as int,
                ),
            decreases order.len() - k,
        {
            let group_id: u64 = order[k];
            assert(order@.to_set().contains(group_id)) by {
                assert(order@[k as int] == group_id);
            }
            match version_delta.group_deltas.get(&group_id) {
                Some(group_deltas) => {
                    assert(d.group_deltas[group_id] == group_deltas@);
                    apply_group_deltas(
                        self,
                        version_delta.max_committed_epoch,
                        group_id,
                        group_deltas,
                        &mut sst_split_info,
                    )?;
                },
                None => {
                    assert(false);
                },
            }
            k += 1;
        }
        if version_delta.safe_epoch < self.safe_epoch {
            return Err(VersionError::SafeEpochRegression);
        }
        self.id = version_delta.id;
        self.max_committed_epoch = version_delta.max_committed_epoch;
        merge_watermarks(&mut self.table_watermarks, &version_delta.new_table_watermarks);
        if version_delta.safe_epoch != self.safe_epoch {
            drop_stale_watermarks(&mut self.table_watermarks, version_delta.safe_epoch);
            self.safe_epoch = version_delta.safe_epoch;
        }
        Ok(sst_split_info)
    }
}

} // verus!
