//! What a compaction adds to and takes from the stored objects, group by
//! group.

use vstd::prelude::*;
use std::collections::HashSet;
use crate::delta::{GroupDelta, GroupDeltaView, GroupDeltas, HummockVersionDelta, DeltaView};
use crate::error::VersionError;
use crate::level::{copy_runs, levels_view, Level, LevelView, LevelsView};
use crate::ordered::ascending_seq;
use crate::sstable::{runs_view, SstView, SstableInfo};
use crate::version::{sorted_keys, HummockVersion, VersionView};

verus! {

broadcast use vstd::std_specs::hash::group_hash_axioms;

/// The runs that a compaction put into one group and the objects whose runs
/// it took out.
#[derive(Debug, Default, PartialEq, Eq)]
pub struct SstDeltaInfo {
    pub insert_sst_level: u32,
    pub insert_sst_infos: Vec<SstableInfo>,
    pub delete_sst_object_ids: Vec<u64>,
}

/// Mathematical value of an [`SstDeltaInfo`].
#[verifier::ext_equal]
pub struct SstDeltaInfoView {
    pub insert_sst_level: u32,
    pub insert_sst_infos: Seq<SstView>,
    pub delete_sst_object_ids: Seq<u64>,
}

impl View for SstDeltaInfo {
    type V = SstDeltaInfoView;

    open spec fn view(&self) -> SstDeltaInfoView {
        SstDeltaInfoView {
            insert_sst_level: self.insert_sst_level,
            insert_sst_infos: runs_view(self.insert_sst_infos@),
            delete_sst_object_ids: self.delete_sst_object_ids@,
        }
    }
}

/// The values of a list of summaries.
pub open spec fn infos_view(s: Seq<SstDeltaInfo>) -> Seq<SstDeltaInfoView> {
    s.map_values(|x: SstDeltaInfo| x@)
}

/// Every edit moves runs within levels; none touches the group itself.
pub open spec fn all_intra_level(ds: Seq<GroupDeltaView>) -> bool {
    forall|j: int| 0 <= j < ds.len() ==> (#[trigger] ds[j]) is IntraLevel
}

/// The level of the last of the first `n` edits that inserts runs; zero
/// where none does.
pub open spec fn inserted_level(ds: Seq<GroupDeltaView>, n: int) -> u32
    decreases n,
{
    if n <= 0 {
        0
    } else {
        match ds[n - 1] {
            GroupDeltaView::IntraLevel(d) => if d.inserted_table_infos.len() > 0 {
                d.level_idx
            } else {
                inserted_level(ds, n - 1)
            },
            _ => inserted_level(ds, n - 1),
        }
    }
}

/// The runs that the first `n` edits insert, in order.
pub open spec fn inserted_runs(ds: Seq<GroupDeltaView>, n: int) -> Seq<SstView>
    decreases n,
{
    if n <= 0 {
        Seq::empty()
    } else {
        match ds[n - 1] {
            GroupDeltaView::IntraLevel(d) => inserted_runs(ds, n - 1) + d.inserted_table_infos,
            _ => inserted_runs(ds, n - 1),
        }
    }
}

/// The ids of the runs that the first `n` edits remove from the level
/// `level_idx`.
pub open spec fn removed_at(ds: Seq<GroupDeltaView>, level_idx: u32, n: int) -> Set<u64>
    decreases n,
{
    if n <= 0 {
        Set::empty()
    } else {
        match ds[n - 1] {
            GroupDeltaView::IntraLevel(d) => if d.level_idx == level_idx {
                removed_at(ds, level_idx, n - 1).union(d.removed_table_ids.to_set())
            } else {
                removed_at(ds, level_idx, n - 1)
            },
            _ => removed_at(ds, level_idx, n - 1),
        }
    }
}

/// The object ids of those among the first `n` runs whose run id is still
/// pending, each pending id being taken by the first run that carries it;
/// and the ids that stay pending.
pub open spec fn picked(runs: Seq<SstView>, pending: Set<u64>, n: int) -> (Seq<u64>, Set<u64>)
    decreases n,
{
    if n <= 0 {
        (Seq::empty(), pending)
    } else {
        let (out, rest) = picked(runs, pending, n - 1);
        if rest.contains(runs[n - 1].sst_id) {
            (out.push(runs[n - 1].object_id), rest.remove(runs[n - 1].sst_id))
        } else {
            (out, rest)
        }
    }
}

/// [`picked`] over the runs of the first `n` levels, one pending set
/// serving all of them.
pub open spec fn picked_in_levels(ls: Seq<LevelView>, pending: Set<u64>, n: int) -> (
    Seq<u64>,
    Set<u64>,
)
    decreases n,
{
    if n <= 0 {
        (Seq::empty(), pending)
    } else {
        let (out, rest) = picked_in_levels(ls, pending, n - 1);
        let (more, left) = picked(ls[n - 1].table_infos, rest, ls[n - 1].table_infos.len() as int);
        (out + more, left)
    }
}

/// The object ids picked from the first `n` levels below level zero. Each
/// level serves the removals that name its index; of two levels with one
/// index only the first does.
pub open spec fn picked_below(ls: Seq<LevelView>, ds: Seq<GroupDeltaView>, n: int) -> (
    Seq<u64>,
    Set<u32>,
)
    decreases n,
{
    if n <= 0 {
        (Seq::empty(), Set::empty())
    } else {
        let (out, served) = picked_below(ls, ds, n - 1);
        let level = ls[n - 1];
        if level.level_idx == 0 || served.contains(level.level_idx) {
            (out, served)
        } else {
            (
                out + picked(
                    level.table_infos,
                    removed_at(ds, level.level_idx, ds.len() as int),
                    level.table_infos.len() as int,
                ).0,
                served.insert(level.level_idx),
            )
        }
    }
}

/// The summary of the edits `ds` to a group with the levels `levels`: the
/// inserted runs with their level, and the objects of the removed runs,
/// those of level zero first.
pub open spec fn group_delta_info(levels: LevelsView, ds: Seq<GroupDeltaView>) -> SstDeltaInfoView {
    let n = ds.len() as int;
    let subs = levels.l0->0.sub_levels;
    SstDeltaInfoView {
        insert_sst_level: inserted_level(ds, n),
        insert_sst_infos: inserted_runs(ds, n),
        delete_sst_object_ids: picked_in_levels(subs, removed_at(ds, 0, n), subs.len() as int).0
            + picked_below(levels.levels, ds, levels.levels.len() as int).0,
    }
}

/// The summaries of the groups `order[k..]` behind those in `acc`. A group
/// with an edit that is no move of runs is passed over; every other group
/// must be in the version and have a level zero.
pub open spec fn delta_infos_from(
    acc: Seq<SstDeltaInfoView>,
    groups: Map<u64, LevelsView>,
    deltas: Map<u64, Seq<GroupDeltaView>>,
    order: Seq<u64>,
    k: int,
) -> Result<Seq<SstDeltaInfoView>, VersionError>
    decreases order.len() - k,
{
    if k < 0 || k >= order.len() {
        Ok(acc)
    } else {
        let group_id = order[k];
        let ds = deltas[group_id];
        if !all_intra_level(ds) {
            delta_infos_from(acc, groups, deltas, order, k + 1)
        } else if !groups.contains_key(group_id) {
            Err(VersionError::GroupNotFound)
        } else if groups[group_id].l0 is None {
            Err(VersionError::MissingLevel0)
        } else {
            delta_infos_from(
                acc.push(group_delta_info(groups[group_id], ds)),
                groups,
                deltas,
                order,
                k + 1,
            )
        }
    }
}

/// The summaries that a delta yields against a version, one for each group
/// whose edits are all moves of runs, in ascending order of the group ids.
pub open spec fn spec_build_sst_delta_infos(v: VersionView, d: DeltaView) -> Result<
    Seq<SstDeltaInfoView>,
    VersionError,
> {
    delta_infos_from(Seq::empty(), v.levels, d.group_deltas, ascending_seq(d.group_deltas.dom()), 0)
}

/// Decides [`all_intra_level`].
fn check_all_intra_level(group_deltas: &GroupDeltas) -> (r: bool)
    ensures
        r == all_intra_level(group_deltas@),
{
    let ghost ds = group_deltas@;
    let mut j: usize = 0;
    while j < group_deltas.group_deltas.len()
        invariant
            j <= group_deltas.group_deltas.len(),
            ds == group_deltas@,
            forall|k: int| 0 <= k < j ==> (#[trigger] ds[k]) is IntraLevel,
        decreases group_deltas.group_deltas.len() - j,
    {
        assert(ds[j as int] == group_deltas.group_deltas[j as int]@);
        match &group_deltas.group_deltas[j] {
            GroupDelta::IntraLevel(_) => {},
            _ => {
                return false;
            },
        }
        j += 1;
    }
    true
}

/// The ids of the runs that the edits remove from the level `level_idx`.
fn removed_ids_at(group_deltas: &GroupDeltas, level_idx: u32) -> (r: HashSet<u64>)
    ensures
        r@ == removed_at(group_deltas@, level_idx, group_deltas@.len() as int),
{
    let ghost ds = group_deltas@;
    let mut out: HashSet<u64> = HashSet::new();
    let mut j: usize = 0;
    while j < group_deltas.group_deltas.len()
        invariant
            j <= group_deltas.group_deltas.len(),
            ds == group_deltas@,
            out@ == removed_at(ds, level_idx, j as int),
        decreases group_deltas.group_deltas.len() - j,
    {
        assert(ds[j as int] == group_deltas.group_deltas[j as int]@);
        match &group_deltas.group_deltas[j] {
            GroupDelta::IntraLevel(d) => {
                if d.level_idx == level_idx {
                    crate::delta::insert_all(&mut out, &d.removed_table_ids);
                }
            },
            _ => {},
        }
        j += 1;
    }
    out
}

/// Appends the object ids of the runs whose run id is pending.
fn pick_removed(runs: &Vec<SstableInfo>, pending: &mut HashSet<u64>, out: &mut Vec<u64>)
    ensures
        ({
            let (more, rest) = picked(runs_view(runs@), old(pending)@, runs.len() as int);
            final(out)@ == old(out)@ + more && final(pending)@ == rest
        }),
{
    let ghost rs = runs_view(runs@);
    let ghost start = out@;
    let ghost p0 = pending@;
    let mut i: usize = 0;
    assert(out@ =~= start + picked(rs, p0, 0).0);
    while i < runs.len()
        invariant
            i <= runs.len(),
            rs == runs_view(runs@),
            p0 == old(pending)@,
            out@ == start + picked(rs, p0, i as int).0,
            pending@ == picked(rs, p0, i as int).1,
        decreases runs.len() - i,
    {
        assert(rs[i as int] == runs[i as int]@);
        let ghost before = picked(rs, p0, i as int);
        if pending.remove(&runs[i].sst_id) {
            out.push(runs[i].object_id);
            assert(out@ =~= start + before.0.push(runs[i as int].object_id));
        }
        i += 1;
    }
}

/// Appends the object ids picked from all sub-levels of level zero.
fn pick_removed_in_levels(levels: &Vec<Level>, pending: &mut HashSet<u64>, out: &mut Vec<u64>)
    ensures
        ({
            let (more, rest) = picked_in_levels(
                levels_view(levels@),
                old(pending)@,
                levels.len() as int,
            );
            final(out)@ == old(out)@ + more && final(pending)@ == rest
        }),
{
    let ghost ls = levels_view(levels@);
    let ghost start = out@;
    let ghost p0 = pending@;
    let mut k: usize = 0;
    assert(out@ =~= start + picked_in_levels(ls, p0, 0).0);
    while k < levels.len()
        invariant
            k <= levels.len(),
            ls == levels_view(levels@),
            p0 == old(pending)@,
            out@ == start + picked_in_levels(ls, p0, k as int).0,
            pending@ == picked_in_levels(ls, p0, k as int).1,
        decreases levels.len() - k,
    {
        assert(ls[k as int] == levels[k as int]@);
        pick_removed(&levels[k].table_infos, pending, out);
        assert(out@ =~= start + picked_in_levels(ls, p0, k + 1).0);
        k += 1;
    }
}

/// Appends the object ids picked from the levels below level zero.
fn pick_removed_below(levels: &Vec<Level>, group_deltas: &GroupDeltas, out: &mut Vec<u64>)
    ensures
        final(out)@ == old(out)@ + picked_below(
            levels_view(levels@),
            group_deltas@,
            levels.len() as int,
        ).0,
{
    let ghost ls = levels_view(levels@);
    let ghost ds = group_deltas@;
    let ghost start = out@;
    let mut served: HashSet<u32> = HashSet::new();
    let mut k: usize = 0;
    assert(out@ =~= start + picked_below(ls, ds, 0).0);
    while k < levels.len()
        invariant
            k <= levels.len(),
            ls == levels_view(levels@),
            ds == group_deltas@,
            out@ == start + picked_below(ls, ds, k as int).0,
            served@ == picked_below(ls, ds, k as int).1,
        decreases levels.len() - k,
    {
        assert(ls[k as int] == levels[k as int]@);
        let level_idx = levels[k].level_idx;
        if level_idx != 0 && !served.contains(&level_idx) {
            let mut pending = removed_ids_at(group_deltas, level_idx);
            pick_removed(&levels[k].table_infos, &mut pending, out);
            served.insert(level_idx);
            assert(out@ =~= start + picked_below(ls, ds, k + 1).0);
        }
        k += 1;
    }
}

/// The level and the runs of the insertions among the edits.
fn collect_inserted(group_deltas: &GroupDeltas) -> (r: (u32, Vec<SstableInfo>))
    ensures
        r.0 == inserted_level(group_deltas@, group_deltas@.len() as int),
        runs_view(r.1@) == inserted_runs(group_deltas@, group_deltas@.len() as int),
{
    let ghost ds = group_deltas@;
    let mut level: u32 = 0;
    let mut runs: Vec<SstableInfo> = Vec::new();
    let mut j: usize = 0;
    assert(runs_view(runs@) =~= inserted_runs(ds, 0));
    while j < group_deltas.group_deltas.len()
        invariant
            j <= group_deltas.group_deltas.len(),
            ds == group_deltas@,
            level == inserted_level(ds, j as int),
            runs_view(runs@) == inserted_runs(ds, j as int),
        decreases group_deltas.group_deltas.len() - j,
    {
        assert(ds[j as int] == group_deltas.group_deltas[j as int]@);
        match &group_deltas.group_deltas[j] {
            GroupDelta::IntraLevel(d) => {
                if d.inserted_table_infos.len() > 0 {
                    level = d.level_idx;
                }
                let ghost before = runs_view(runs@);
                let mut copy = copy_runs(&d.inserted_table_infos);
                runs.append(&mut copy);
                assert(runs_view(runs@) =~= before + d@.inserted_table_infos);
            },
            _ => {},
        }
        j += 1;
    }
    (level, runs)
}

impl HummockVersion {
    /// Summarises, for each group that a delta only compacts, the runs that
    /// come in and the objects that go out. The runs that go out are looked
    /// up in this version, so the delta must not have been applied yet.
    pub fn build_sst_delta_infos(&self, version_delta: &HummockVersionDelta) -> (r: Result<
        Vec<SstDeltaInfo>,
        VersionError,
    >)
        ensures
            match r {
                Ok(infos) => spec_build_sst_delta_infos(self@, version_delta@) == Ok::<
                    Seq<SstDeltaInfoView>,
                    VersionError,
                >(infos_view(infos@)),
                Err(e) => spec_build_sst_delta_infos(self@, version_delta@) == Err::<
                    Seq<SstDeltaInfoView>,
                    VersionError,
                >(e),
            },
    {
        let ghost groups = self@.levels;
        let ghost d = version_delta@;
        let mut infos: Vec<SstDeltaInfo> = Vec::new();
        let order = sorted_keys(&version_delta.group_deltas);
        assert(d.group_deltas.dom() =~= version_delta.group_deltas@.dom());
        let mut k: usize = 0;
        assert(infos_view(infos@) =~= Seq::<SstDeltaInfoView>::empty());
        while k < order.len()
            invariant
                k <= order.len(),
                groups == self@.levels,
                d == version_delta@,
                order@ == ascending_seq(d.group_deltas.dom()),
                order@.to_set() == version_delta.group_deltas@.dom(),
                delta_infos_from(Seq::empty(), groups, d.group_deltas, order@, 0)
                    == delta_infos_from(infos_view(infos@), groups, d.group_deltas, order@, k as int),
            decreases order.len() - k,
        {
            let group_id: u64 = order[k];
            assert(order@.to_set().contains(group_id)) by {
                assert(order@[k as int] == group_id);
            }
            let group_deltas = match version_delta.group_deltas.get(&group_id) {
                Some(gd) => gd,
                None => {
                    assert(false);
                    return Err(VersionError::GroupNotFound);
                },
            };
            assert(d.group_deltas[group_id] == group_deltas@);
            if check_all_intra_level(group_deltas) {
                let group = match self.levels.get(&group_id) {
                    Some(group) => group,
                    None => {
                        assert(!groups.contains_key(group_id));
                        return Err(VersionError::GroupNotFound);
                    },
                };
                assert(groups.contains_key(group_id) && groups[group_id] == group@);
                let l0 = match &group.l0 {
                    Some(l0) => l0,
                    None => {
                        return Err(VersionError::MissingLevel0);
                    },
                };
                let (insert_sst_level, insert_sst_infos) = collect_inserted(group_deltas);
                let mut delete_sst_object_ids: Vec<u64> = Vec::new();
                let mut pending = removed_ids_at(group_deltas, 0);
                pick_removed_in_levels(&l0.sub_levels, &mut pending, &mut delete_sst_object_ids);
                pick_removed_below(&group.levels, group_deltas, &mut delete_sst_object_ids);
                let info = SstDeltaInfo { insert_sst_level, insert_sst_infos, delete_sst_object_ids };
                assert(info@ =~~= group_delta_info(group@, group_deltas@));
                let ghost before = infos_view(infos@);
                let ghost iv = info@;
                infos.push(info);
                assert(infos_view(infos@) =~= before.push(iv));
            }
            k += 1;
        }
        Ok(infos)
    }
}

} // verus!
