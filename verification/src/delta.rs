//! Version deltas: the edits that lead from one version to the next.

use vstd::prelude::*;
use std::collections::HashMap;
use std::collections::HashSet;
use crate::error::VersionError;
use crate::level::copy_runs;
use crate::ordered::{insert_ascending_u32, is_ascending_u32};
use crate::sstable::{ copy_table_ids, runs_view, SstView, SstableInfo};
use crate::watermark::{TableWatermarks, WatermarksView};

verus! {

broadcast use vstd::std_specs::hash::group_hash_axioms;

/// Settings of a compaction group that shape its levels.
#[derive(Clone, Copy, Debug, Default, PartialEq, Eq, Structural)]
pub struct CompactionConfig {
    /// Number of levels below level zero.
    pub max_level: u64,
}

/// Which generation of the split protocol produced a delta.
#[derive(Clone, Copy, Debug, Default, PartialEq, Eq, Structural)]
pub enum CompatibilityVersion {
    /// The first generation: a run that moves as a whole leaves its group.
    #[default]
    VersionUnspecified,
    /// Every run that a split touches is kept on both sides.
    NoTrivialSplit,
}

/// Runs that leave and runs that enter one level.
#[derive(Debug, Default, PartialEq, Eq)]
pub struct IntraLevelDelta {
    pub level_idx: u32,
    pub l0_sub_level_id: u64,
    pub removed_table_ids: Vec<u64>,
    pub inserted_table_infos: Vec<SstableInfo>,
}

/// Mathematical value of an [`IntraLevelDelta`].
#[verifier::ext_equal]
pub struct IntraLevelView {
    pub level_idx: u32,
    pub l0_sub_level_id: u64,
    pub removed_table_ids: Seq<u64>,
    pub inserted_table_infos: Seq<SstView>,
}

impl View for IntraLevelDelta {
    type V = IntraLevelView;

    open spec fn view(&self) -> IntraLevelView {
        IntraLevelView {
            level_idx: self.level_idx,
            l0_sub_level_id: self.l0_sub_level_id,
            removed_table_ids: self.removed_table_ids@,
            inserted_table_infos: runs_view(self.inserted_table_infos@),
        }
    }
}

/// Creation of a compaction group, with the tables it takes from its parent.
#[derive(Debug, Default, PartialEq, Eq)]
pub struct GroupConstruct {
    pub group_config: Option<CompactionConfig>,
    pub parent_group_id: u64,
    pub table_ids: Vec<u32>,
    pub group_id: u64,
    pub new_sst_start_id: u64,
    pub version: CompatibilityVersion,
}

/// Mathematical value of a [`GroupConstruct`].
#[verifier::ext_equal]
pub struct GroupConstructView {
    pub group_config: Option<CompactionConfig>,
    pub parent_group_id: u64,
    pub table_ids: Seq<u32>,
    pub group_id: u64,
    pub new_sst_start_id: u64,
    pub version: CompatibilityVersion,
}

impl View for GroupConstruct {
    type V = GroupConstructView;

    open spec fn view(&self) -> GroupConstructView {
        GroupConstructView {
            group_config: self.group_config,
            parent_group_id: self.parent_group_id,
            table_ids: self.table_ids@,
            group_id: self.group_id,
            new_sst_start_id: self.new_sst_start_id,
            version: self.version,
        }
    }
}

impl Clone for GroupConstruct {
    fn clone(&self) -> (r: Self)
        ensures
            r@ == self@,
    {
        GroupConstruct {
            group_config: self.group_config,
            parent_group_id: self.parent_group_id,
            table_ids: copy_table_ids(&self.table_ids),
            group_id: self.group_id,
            new_sst_start_id: self.new_sst_start_id,
            version: self.version,
        }
    }
}

/// Removal of a compaction group.
#[derive(Clone, Copy, Debug, Default, PartialEq, Eq, Structural)]
pub struct GroupDestroy {}

/// Tables that join and tables that leave a compaction group.
#[derive(Debug, Default, PartialEq, Eq)]
pub struct GroupMetaChange {
    pub table_ids_add: Vec<u32>,
    pub table_ids_remove: Vec<u32>,
}

/// Mathematical value of a [`GroupMetaChange`].
#[verifier::ext_equal]
pub struct GroupMetaChangeView {
    pub table_ids_add: Seq<u32>,
    pub table_ids_remove: Seq<u32>,
}

impl View for GroupMetaChange {
    type V = GroupMetaChangeView;

    open spec fn view(&self) -> GroupMetaChangeView {
        GroupMetaChangeView {
            table_ids_add: self.table_ids_add@,
            table_ids_remove: self.table_ids_remove@,
        }
    }
}

impl Clone for GroupMetaChange {
    fn clone(&self) -> (r: Self)
        ensures
            r@ == self@,
    {
        GroupMetaChange {
            table_ids_add: copy_table_ids(&self.table_ids_add),
            table_ids_remove: copy_table_ids(&self.table_ids_remove),
        }
    }
}

/// Move of tables from one existing compaction group to another.
#[derive(Debug, Default, PartialEq, Eq)]
pub struct GroupTableChange {
    pub table_ids: Vec<u32>,
    pub target_group_id: u64,
    pub origin_group_id: u64,
    pub new_sst_start_id: u64,
    pub version: CompatibilityVersion,
}

/// Mathematical value of a [`GroupTableChange`].
#[verifier::ext_equal]
pub struct GroupTableChangeView {
    pub table_ids: Seq<u32>,
    pub target_group_id: u64,
    pub origin_group_id: u64,
    pub new_sst_start_id: u64,
    pub version: CompatibilityVersion,
}

impl View for GroupTableChange {
    type V = GroupTableChangeView;

    open spec fn view(&self) -> GroupTableChangeView {
        GroupTableChangeView {
            table_ids: self.table_ids@,
            target_group_id: self.target_group_id,
            origin_group_id: self.origin_group_id,
            new_sst_start_id: self.new_sst_start_id,
            version: self.version,
        }
    }
}

impl Clone for GroupTableChange {
    fn clone(&self) -> (r: Self)
        ensures
            r@ == self@,
    {
        GroupTableChange {
            table_ids: copy_table_ids(&self.table_ids),
            target_group_id: self.target_group_id,
            origin_group_id: self.origin_group_id,
            new_sst_start_id: self.new_sst_start_id,
            version: self.version,
        }
    }
}

/// One edit to one compaction group.
#[derive(Debug, PartialEq, Eq)]
pub enum GroupDelta {
    IntraLevel(IntraLevelDelta),
    GroupConstruct(GroupConstruct),
    GroupDestroy(GroupDestroy),
    GroupMetaChange(GroupMetaChange),
    GroupTableChange(GroupTableChange),
}

/// Mathematical value of a [`GroupDelta`].
#[verifier::ext_equal]
pub enum GroupDeltaView {
    IntraLevel(IntraLevelView),
    GroupConstruct(GroupConstructView),
    GroupDestroy,
    GroupMetaChange(GroupMetaChangeView),
    GroupTableChange(GroupTableChangeView),
}

impl View for GroupDelta {
    type V = GroupDeltaView;

    open spec fn view(&self) -> GroupDeltaView {
        match self {
            GroupDelta::IntraLevel(d) => GroupDeltaView::IntraLevel(d@),
            GroupDelta::GroupConstruct(d) => GroupDeltaView::GroupConstruct(d@),
            GroupDelta::GroupDestroy(_) => GroupDeltaView::GroupDestroy,
            GroupDelta::GroupMetaChange(d) => GroupDeltaView::GroupMetaChange(d@),
            GroupDelta::GroupTableChange(d) => GroupDeltaView::GroupTableChange(d@),
        }
    }
}

/// The edits that one delta makes to one compaction group, in order.
#[derive(Debug, Default, PartialEq, Eq)]
pub struct GroupDeltas {
    pub group_deltas: Vec<GroupDelta>,
}

impl View for GroupDeltas {
    type V = Seq<GroupDeltaView>;

    open spec fn view(&self) -> Seq<GroupDeltaView> {
        self.group_deltas@.map_values(|d: GroupDelta| d@)
    }
}

/// One step from a version to its successor.
#[derive(Debug, Default, PartialEq, Eq)]
pub struct HummockVersionDelta {
    pub id: u64,
    pub prev_id: u64,
    pub group_deltas: HashMap<u64, GroupDeltas>,
    pub max_committed_epoch: u64,
    pub safe_epoch: u64,
    pub trivial_move: bool,
    pub gc_object_ids: Vec<u64>,
    pub new_table_watermarks: HashMap<u32, TableWatermarks>,
}

/// Mathematical value of a [`HummockVersionDelta`].
#[verifier::ext_equal]
pub struct DeltaView {
    pub id: u64,
    pub prev_id: u64,
    pub group_deltas: Map<u64, Seq<GroupDeltaView>>,
    pub max_committed_epoch: u64,
    pub safe_epoch: u64,
    pub trivial_move: bool,
    pub gc_object_ids: Seq<u64>,
    pub new_table_watermarks: Map<u32, WatermarksView>,
}

impl View for HummockVersionDelta {
    type V = DeltaView;

    open spec fn view(&self) -> DeltaView {
        DeltaView {
            id: self.id,
            prev_id: self.prev_id,
            group_deltas: self.group_deltas@.map_values(|g: GroupDeltas| g@),
            max_committed_epoch: self.max_committed_epoch,
            safe_epoch: self.safe_epoch,
            trivial_move: self.trivial_move,
            gc_object_ids: self.gc_object_ids@,
            new_table_watermarks: self.new_table_watermarks@.map_values(|w: TableWatermarks| w@),
        }
    }
}

/// What the edits to one compaction group add up to.
pub struct GroupDeltasSummary {
    /// Levels that lose runs, ascending and without repetition.
    pub delete_sst_levels: Vec<u32>,
    pub delete_sst_ids_set: HashSet<u64>,
    pub insert_sst_level_id: u32,
    pub insert_sub_level_id: u64,
    pub insert_table_infos: Vec<SstableInfo>,
    /// Whether an edit inserts runs into a level below level zero.
    pub inserts_below_level0: bool,
    pub group_construct: Option<GroupConstruct>,
    pub group_destroy: Option<GroupDestroy>,
    pub group_meta_changes: Vec<GroupMetaChange>,
    pub group_table_change: Option<GroupTableChange>,
}

/// Mathematical value of a [`GroupDeltasSummary`].
#[verifier::ext_equal]
pub struct SummaryView {
    pub delete_sst_levels: Set<u32>,
    pub delete_sst_ids_set: Set<u64>,
    pub insert_sst_level_id: u32,
    pub insert_sub_level_id: u64,
    pub insert_table_infos: Seq<SstView>,
    pub inserts_below_level0: bool,
    pub group_construct: Option<GroupConstructView>,
    pub group_destroy: bool,
    pub group_meta_changes: Seq<GroupMetaChangeView>,
    pub group_table_change: Option<GroupTableChangeView>,
}

impl View for GroupDeltasSummary {
    type V = SummaryView;

    open spec fn view(&self) -> SummaryView {
        SummaryView {
            delete_sst_levels: self.delete_sst_levels@.to_set(),
            delete_sst_ids_set: self.delete_sst_ids_set@,
            insert_sst_level_id: self.insert_sst_level_id,
            insert_sub_level_id: self.insert_sub_level_id,
            insert_table_infos: runs_view(self.insert_table_infos@),
            inserts_below_level0: self.inserts_below_level0,
            group_construct: match self.group_construct {
                Some(c) => Some(c@),
                None => None,
            },
            group_destroy: self.group_destroy is Some,
            group_meta_changes: self.group_meta_changes@.map_values(|m: GroupMetaChange| m@),
            group_table_change: match self.group_table_change {
                Some(c) => Some(c@),
                None => None,
            },
        }
    }
}

/// The summary of no edits at all.
pub open spec fn empty_summary() -> SummaryView {
    SummaryView {
        delete_sst_levels: Set::empty(),
        delete_sst_ids_set: Set::empty(),
        insert_sst_level_id: u32::MAX,
        insert_sub_level_id: u64::MAX,
        insert_table_infos: Seq::empty(),
        inserts_below_level0: false,
        group_construct: None,
        group_destroy: false,
        group_meta_changes: Seq::empty(),
        group_table_change: None,
    }
}

/// The summary `s` after one more edit.
pub open spec fn summary_step(s: SummaryView, d: GroupDeltaView) -> Result<
    SummaryView,
    VersionError,
> {
    match d {
        GroupDeltaView::IntraLevel(il) => {
            let removes = il.removed_table_ids.len() > 0;
            let inserts = il.inserted_table_infos.len() > 0;
            Ok(
                SummaryView {
                    delete_sst_levels: if removes {
                        s.delete_sst_levels.insert(il.level_idx)
                    } else {
                        s.delete_sst_levels
                    },
                    delete_sst_ids_set: s.delete_sst_ids_set.union(il.removed_table_ids.to_set()),
                    insert_sst_level_id: if inserts {
                        il.level_idx
                    } else {
                        s.insert_sst_level_id
                    },
                    insert_sub_level_id: if inserts {
                        il.l0_sub_level_id
                    } else {
                        s.insert_sub_level_id
                    },
                    insert_table_infos: s.insert_table_infos + il.inserted_table_infos,
                    inserts_below_level0: s.inserts_below_level0 || (inserts && il.level_idx != 0),
                    ..s
                },
            )
        },
        GroupDeltaView::GroupConstruct(c) => {
            if s.group_construct is Some {
                Err(VersionError::DuplicateGroupChange)
            } else {
                Ok(SummaryView { group_construct: Some(c), ..s })
            }
        },
        GroupDeltaView::GroupDestroy => {
            if s.group_destroy {
                Err(VersionError::DuplicateGroupChange)
            } else {
                Ok(SummaryView { group_destroy: true, ..s })
            }
        },
        GroupDeltaView::GroupMetaChange(m) => Ok(
            SummaryView { group_meta_changes: s.group_meta_changes.push(m), ..s },
        ),
        GroupDeltaView::GroupTableChange(t) => Ok(SummaryView { group_table_change: Some(t), ..s }),
    }
}

/// The summary of a list of edits: every level that loses runs, every run id
/// that leaves, the level and the runs of the insertions, whether an edit
/// inserts below level zero, and the changes to the group itself. Two
/// constructions or two destructions are refused.
pub open spec fn spec_summarize(ds: Seq<GroupDeltaView>) -> Result<SummaryView, VersionError>
    decreases ds.len(),
{
    if ds.len() == 0 {
        Ok(empty_summary())
    } else {
        match spec_summarize(ds.drop_last()) {
            Err(e) => Err(e),
            Ok(s) => summary_step(s, ds.last()),
        }
    }
}

/// A refusal within the first `k` edits is the refusal of the whole list.
pub proof fn lemma_summarize_refusal(ds: Seq<GroupDeltaView>, k: int)
    requires
        0 <= k <= ds.len(),
        spec_summarize(ds.subrange(0, k)) is Err,
    ensures
        spec_summarize(ds) == spec_summarize(ds.subrange(0, k)),
    decreases ds.len() - k,
{
    if k == ds.len() {
        assert(ds.subrange(0, k) =~= ds);
    } else {
        assert(ds.subrange(0, k + 1).drop_last() =~= ds.subrange(0, k));
        lemma_summarize_refusal(ds, k + 1);
    }
}

/// Adds the run ids to the set.
pub(crate) fn insert_all(set: &mut HashSet<u64>, ids: &Vec<u64>)
    ensures
        final(set)@ == old(set)@.union(ids@.to_set()),
{
    let mut i: usize = 0;
    while i < ids.len()
        invariant
            i <= ids.len(),
            set@ == old(set)@.union(ids@.subrange(0, i as int).to_set()),
        decreases ids.len() - i,
    {
        set.insert(ids[i]);
        proof {
            let a = ids@.subrange(0, i as int);
            let b = ids@.subrange(0, i + 1);
            assert(b =~= a.push(ids[i as int]));
            assert forall|x: u64| b.to_set().contains(x) <==> a.to_set().insert(
                ids[i as int],
            ).contains(x) by {
                if b.to_set().contains(x) {
                    let k = choose|k: int| 0 <= k < b.len() && b[k] == x;
                    if k < i {
                        assert(a[k] == x);
                    }
                }
                if a.to_set().contains(x) {
                    let k = choose|k: int| 0 <= k < a.len() && a[k] == x;
                    assert(b[k] == x);
                }
                if x == ids[i as int] {
                    assert(b[i as int] == x);
                }
            }
            assert(set@ =~= old(set)@.union(b.to_set()));
        }
        i += 1;
    }
    assert(ids@.subrange(0, i as int) =~= ids@);
}

/// Collects the edits to one compaction group into one summary.
pub fn summarize_group_deltas(group_deltas: &GroupDeltas) -> (r: Result<
    GroupDeltasSummary,
    VersionError,
>)
    ensures
        match r {
            Ok(s) => spec_summarize(group_deltas@) == Ok::<SummaryView, VersionError>(s@)
                && is_ascending_u32(s.delete_sst_levels@),
            Err(e) => spec_summarize(group_deltas@) == Err::<SummaryView, VersionError>(e),
        },
{
    let ghost ds = group_deltas@;
    let mut summary = GroupDeltasSummary {
        delete_sst_levels: Vec::new(),
        delete_sst_ids_set: HashSet::new(),
        insert_sst_level_id: u32::MAX,
        insert_sub_level_id: u64::MAX,
        insert_table_infos: Vec::new(),
        inserts_below_level0: false,
        group_construct: None,
        group_destroy: None,
        group_meta_changes: Vec::new(),
        group_table_change: None,
    };
    assert(summary@ =~~= empty_summary());
    let mut i: usize = 0;
    while i < group_deltas.group_deltas.len()
        invariant
            i <= group_deltas.group_deltas.len(),
            ds == group_deltas@,
            is_ascending_u32(summary.delete_sst_levels@),
            spec_summarize(ds.subrange(0, i as int)) == Ok::<SummaryView, VersionError>(summary@),
        decreases group_deltas.group_deltas.len() - i,
    {
        let ghost before = summary@;
        proof {
            let next = ds.subrange(0, i + 1);
            assert(next.drop_last() =~= ds.subrange(0, i as int));
            assert(next.last() == group_deltas.group_deltas[i as int]@);
        }
        match &group_deltas.group_deltas[i] {
            GroupDelta::IntraLevel(intra_level) => {
                if intra_level.removed_table_ids.len() > 0 {
                    insert_ascending_u32(&mut summary.delete_sst_levels, intra_level.level_idx);
                }
                insert_all(&mut summary.delete_sst_ids_set, &intra_level.removed_table_ids);
                if intra_level.inserted_table_infos.len() > 0 {
                    summary.insert_sst_level_id = intra_level.level_idx;
                    summary.insert_sub_level_id = intra_level.l0_sub_level_id;
                    if intra_level.level_idx != 0 {
                        summary.inserts_below_level0 = true;
                    }
                }
                let mut inserted = copy_runs(&intra_level.inserted_table_infos);
                let ghost old_infos = runs_view(summary.insert_table_infos@);
                summary.insert_table_infos.append(&mut inserted);
                assert(runs_view(summary.insert_table_infos@) =~= old_infos + intra_level@.inserted_table_infos);
                assert(summary@ =~~= summary_step(before, GroupDeltaView::IntraLevel(intra_level@))->Ok_0);
            },
            GroupDelta::GroupConstruct(construct_delta) => {
                if summary.group_construct.is_some() {
                    proof {
                        lemma_summarize_refusal(ds, i + 1);
                    }
                    return Err(VersionError::DuplicateGroupChange);
                }
                summary.group_construct = Some(construct_delta.clone());
            },
            GroupDelta::GroupDestroy(destroy_delta) => {
                if summary.group_destroy.is_some() {
                    proof {
                        lemma_summarize_refusal(ds, i + 1);
                    }
                    return Err(VersionError::DuplicateGroupChange);
                }
                summary.group_destroy = Some(*destroy_delta);
            },
            GroupDelta::GroupMetaChange(meta_delta) => {
                let ghost old_changes = summary@.group_meta_changes;
                summary.group_meta_changes.push(meta_delta.clone());
                assert(summary@.group_meta_changes =~= old_changes.push(meta_delta@));
            },
            GroupDelta::GroupTableChange(meta_delta) => {
                summary.group_table_change = Some(meta_delta.clone());
            },
        }
        i += 1;
    }
    assert(ds.subrange(0, i as int) =~= ds);
    Ok(summary)
}

} // verus!
