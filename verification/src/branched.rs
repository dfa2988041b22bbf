//! The objects that several runs share.
//!
//! A run whose id differs from the id of its object is a branch: a split
//! gave it a run id of its own. For every object with branches the index
//! tells the run id under which each group holds it.

use vstd::prelude::*;
use std::collections::BTreeMap;
use std::collections::HashMap;
use crate::error::VersionError;
use crate::level::{Level, LevelView, LevelsView};
use crate::ordered::ascending_seq;
use crate::queries::{group_levels_oldest_first, level_refs_view, levels_oldest_first};
use crate::sstable::SstView;
use crate::version::{sorted_keys, HummockVersion, VersionView};

verus! {

broadcast use {
    vstd::std_specs::hash::group_hash_axioms,
    vstd::std_specs::btree::group_btree_axioms,
    vstd::laws_cmp::group_laws_cmp,
};

/// For one object, the run id under which each group holds it.
pub type BranchedSstInfo = HashMap<u64, u64>;

/// For each object, the run id under which each group holds it.
pub type BranchIndex = Map<u64, Map<u64, u64>>;

/// The values of an index of branches.
pub open spec fn branches_view(m: Map<u64, BranchedSstInfo>) -> BranchIndex {
    m.map_values(|h: BranchedSstInfo| h@)
}

/// The index after the runs from `k` on of one group were entered. A
/// group must not hold two branches of one object.
pub open spec fn branch_runs(acc: BranchIndex, group_id: u64, runs: Seq<SstView>, k: int) -> Result<
    BranchIndex,
    VersionError,
>
    decreases runs.len() - k,
{
    if k < 0 || k >= runs.len() {
        Ok(acc)
    } else {
        let run = runs[k];
        if run.sst_id == run.object_id {
            branch_runs(acc, group_id, runs, k + 1)
        } else {
            let entry = if acc.contains_key(run.object_id) {
                acc[run.object_id]
            } else {
                Map::empty()
            };
            if entry.contains_key(group_id) {
                Err(VersionError::DuplicateBranch)
            } else {
                branch_runs(
                    acc.insert(run.object_id, entry.insert(group_id, run.sst_id)),
                    group_id,
                    runs,
                    k + 1,
                )
            }
        }
    }
}

/// The index after the runs of the levels from `k` on of one group were
/// entered.
pub open spec fn branch_levels(acc: BranchIndex, group_id: u64, ls: Seq<LevelView>, k: int) -> Result<
    BranchIndex,
    VersionError,
>
    decreases ls.len() - k,
{
    if k < 0 || k >= ls.len() {
        Ok(acc)
    } else {
        match branch_runs(acc, group_id, ls[k].table_infos, 0) {
            Err(e) => Err(e),
            Ok(next) => branch_levels(next, group_id, ls, k + 1),
        }
    }
}

/// The index after the runs of the groups `order[n..]` were entered.
pub open spec fn branch_groups(
    acc: BranchIndex,
    groups: Map<u64, LevelsView>,
    order: Seq<u64>,
    n: int,
) -> Result<BranchIndex, VersionError>
    decreases order.len() - n,
{
    if n < 0 || n >= order.len() {
        Ok(acc)
    } else {
        match branch_levels(acc, order[n], levels_oldest_first(groups[order[n]]), 0) {
            Err(e) => Err(e),
            Ok(next) => branch_groups(next, groups, order, n + 1),
        }
    }
}

/// The index of the branches of a version.
pub open spec fn spec_build_branched_sst_info(v: VersionView) -> Result<BranchIndex, VersionError> {
    branch_groups(Map::empty(), v.levels, ascending_seq(v.levels.dom()), 0)
}

/// Enters the branches among the runs of one level.
fn enter_level(ret: &mut BTreeMap<u64, BranchedSstInfo>, group_id: u64, level: &Level) -> (r: Result<
    (),
    VersionError,
>)
    ensures
        match r {
            Ok(()) => branch_runs(branches_view(old(ret)@), group_id, level@.table_infos, 0) == Ok::<
                BranchIndex,
                VersionError,
            >(branches_view(final(ret)@)),
            Err(e) => branch_runs(branches_view(old(ret)@), group_id, level@.table_infos, 0)
                == Err::<BranchIndex, VersionError>(e),
        },
{
    let ghost runs = level@.table_infos;
    let ghost start = branches_view(ret@);
    let mut k: usize = 0;
    while k < level.table_infos.len()
        invariant
            k <= level.table_infos.len(),
            runs == level@.table_infos,
            start == branches_view(old(ret)@),
            branch_runs(start, group_id, runs, 0) == branch_runs(
                branches_view(ret@),
                group_id,
                runs,
                k as int,
            ),
        decreases level.table_infos.len() - k,
    {
        let table_info = &level.table_infos[k];
        assert(runs[k as int] == table_info@);
        if table_info.sst_id != table_info.object_id {
            let object_id = table_info.object_id;
            let ghost before = ret@;
            let mut entry: BranchedSstInfo = match ret.remove(&object_id) {
                Some(e) => e,
                None => HashMap::new(),
            };
            assert(entry@ =~= if branches_view(before).contains_key(object_id) {
                branches_view(before)[object_id]
            } else {
                Map::<u64, u64>::empty()
            });
            if entry.contains_key(&group_id) {
                return Err(VersionError::DuplicateBranch);
            }
            entry.insert(group_id, table_info.sst_id);
            let ghost entered = entry@;
            ret.insert(object_id, entry);
            assert(branches_view(ret@) =~= branches_view(before).insert(object_id, entered));
        }
        k += 1;
    }
    Ok(())
}

/// Enters the branches among the runs of the levels of one group.
fn enter_levels(ret: &mut BTreeMap<u64, BranchedSstInfo>, group_id: u64, levels: &Vec<&Level>) -> (r:
    Result<(), VersionError>)
    ensures
        match r {
            Ok(()) => branch_levels(branches_view(old(ret)@), group_id, level_refs_view(levels@), 0)
                == Ok::<BranchIndex, VersionError>(branches_view(final(ret)@)),
            Err(e) => branch_levels(branches_view(old(ret)@), group_id, level_refs_view(levels@), 0)
                == Err::<BranchIndex, VersionError>(e),
        },
{
    let ghost ls = level_refs_view(levels@);
    let ghost start = branches_view(ret@);
    let mut k: usize = 0;
    while k < levels.len()
        invariant
            k <= levels.len(),
            ls == level_refs_view(levels@),
            start == branches_view(old(ret)@),
            branch_levels(start, group_id, ls, 0) == branch_levels(
                branches_view(ret@),
                group_id,
                ls,
                k as int,
            ),
        decreases levels.len() - k,
    {
        let level: &Level = levels[k];
        assert(ls[k as int] == level@);
        enter_level(ret, group_id, level)?;
        k += 1;
    }
    Ok(())
}

impl HummockVersion {
    /// Builds the index of the branches of the version.
    pub fn build_branched_sst_info(&self) -> (r: Result<
        BTreeMap<u64, BranchedSstInfo>,
        VersionError,
    >)
        ensures
            match r {
                Ok(index) => spec_build_branched_sst_info(self@) == Ok::<BranchIndex, VersionError>(
                    branches_view(index@),
                ),
                Err(e) => spec_build_branched_sst_info(self@) == Err::<BranchIndex, VersionError>(e),
            },
    {
        let ghost groups = self@.levels;
        let mut ret: BTreeMap<u64, BranchedSstInfo> = BTreeMap::new();
        let order = sorted_keys(&self.levels);
        assert(groups.dom() =~= self.levels@.dom());
        assert(branches_view(ret@) =~= Map::<u64, Map<u64, u64>>::empty());
        let mut n: usize = 0;
        while n < order.len()
            invariant
                n <= order.len(),
                groups == self@.levels,
                order@ == ascending_seq(groups.dom()),
                order@.to_set() == self.levels@.dom(),
                branch_groups(Map::empty(), groups, order@, 0) == branch_groups(
                    branches_view(ret@),
                    groups,
                    order@,
                    n as int,
                ),
            decreases order.len() - n,
        {
            let group_id: u64 = order[n];
            assert(order@.to_set().contains(group_id)) by {
                assert(order@[n as int] == group_id);
            }
            match self.levels.get(&group_id) {
                Some(group) => {
                    assert(groups[group_id] == group@);
                    let levels = group_levels_oldest_first(group);
                    enter_levels(&mut ret, group_id, &levels)?;
                },
                None => {
                    assert(false);
                },
            }
            n += 1;
        }
        Ok(ret)
    }
}

} // verus!
