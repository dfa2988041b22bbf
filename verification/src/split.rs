//! Splitting the runs of a compaction group when tables move to another
//! group.
//!
//! A run that holds data of a moving table is branched: the target group
//! gets a new run id for the same object. Where the whole run moves and the
//! delta allows it, the source group gives the run up; otherwise it keeps
//! the run under a fresh id of its own.

use vstd::prelude::*;
use std::collections::HashSet;
use crate::compact::first_not_below;
use crate::error::VersionError;
use crate::level::{levels_view, L0View, Level, LevelView, Levels, LevelsView, OverlappingLevel};
use crate::ordered::{lemma_filter_empty, lemma_filter_push};
use crate::runs::{
    lemma_totals_nonnegative, sum_sizes, total_file_size, total_uncompressed_size};
use crate::sstable::{runs_view, SstView, SstableInfo};
use crate::version::{groups_view, HummockVersion};
use crate::sub_level::{
    add_ssts_in_place, insert_new_sub_level, level_add_runs, level_in_key_order,
    level_sort_runs, level_with_added, spec_add_ssts_to_sub_level, spec_insert_new_sub_level};

verus! {

broadcast use vstd::std_specs::hash::group_hash_axioms;

/// Provenance of one branched run: the object id, the run id in the target
/// group, the run id that the source group had, and the run id that the
/// source group has now.
pub type SstSplitInfo = (u64, u64, u64, u64);

/// The id that stands for "no parent group".
pub const NEW_COMPACTION_GROUP: u64 = 0;

/// The run holds data of at least one of the tables.
pub open spec fn run_touched(sst: SstView, members: Set<u32>) -> bool {
    exists|i: int| 0 <= i < sst.table_ids.len() && members.contains(#[trigger] sst.table_ids[i])
}

/// The run holds data of none but the given tables.
pub open spec fn run_covered(sst: SstView, members: Set<u32>) -> bool {
    forall|i: int| 0 <= i < sst.table_ids.len() ==> members.contains(#[trigger] sst.table_ids[i])
}

/// What a split makes of a list of runs.
#[verifier::ext_equal]
pub struct SplitOutcome {
    /// The runs as the source group keeps them, in their old order. A run
    /// that the source gave up is still listed, with no tables.
    pub parent: Seq<SstView>,
    /// The branches for the target group.
    pub child: Seq<SstView>,
    /// One entry for each branch.
    pub infos: Seq<SstSplitInfo>,
    /// The next fresh run id.
    pub next_id: int,
}

/// The split of `runs` for the tables `members`, fresh run ids being taken
/// from `start` upwards in the order of the runs.
///
/// A run that holds none of the tables stays as it is. A run that holds
/// nothing else moves as a whole where `allow_trivial_split` is set: the
/// target gets it under one fresh id and the source keeps a husk without
/// tables. Every other touched run is kept by both groups, each under a
/// fresh id, the target's being the lower one.
pub open spec fn split_runs(
    runs: Seq<SstView>,
    members: Set<u32>,
    allow_trivial_split: bool,
    start: int,
) -> SplitOutcome
    decreases runs.len(),
{
    if runs.len() == 0 {
        SplitOutcome { parent: Seq::empty(), child: Seq::empty(), infos: Seq::empty(), next_id: start }
    } else {
        let prev = split_runs(runs.drop_last(), members, allow_trivial_split, start);
        let sst = runs.last();
        let child_id = prev.next_id as u64;
        if !run_touched(sst, members) {
            SplitOutcome { parent: prev.parent.push(sst), ..prev }
        } else if allow_trivial_split && run_covered(sst, members) {
            SplitOutcome {
                parent: prev.parent.push(sst.with_table_ids(Seq::empty())),
                child: prev.child.push(sst.with_sst_id(child_id)),
                infos: prev.infos.push((sst.object_id, child_id, sst.sst_id, sst.sst_id)),
                next_id: prev.next_id + 1,
            }
        } else {
            let parent_id = (prev.next_id + 1) as u64;
            SplitOutcome {
                parent: prev.parent.push(sst.with_sst_id(parent_id)),
                child: prev.child.push(sst.with_sst_id(child_id)),
                infos: prev.infos.push((sst.object_id, child_id, sst.sst_id, parent_id)),
                next_id: prev.next_id + 2,
            }
        }
    }
}

/// A split hands out ids upwards and keeps one entry per run on the source
/// side.
pub proof fn lemma_split_runs_shape(
    runs: Seq<SstView>,
    members: Set<u32>,
    allow_trivial_split: bool,
    start: int,
)
    ensures
        split_runs(runs, members, allow_trivial_split, start).next_id >= start,
        split_runs(runs, members, allow_trivial_split, start).parent.len() == runs.len(),
        split_runs(runs, members, allow_trivial_split, start).child.len() == split_runs(
            runs,
            members,
            allow_trivial_split,
            start,
        ).infos.len(),
    decreases runs.len(),
{
    if runs.len() > 0 {
        lemma_split_runs_shape(runs.drop_last(), members, allow_trivial_split, start);
    }
}

/// The ids handed out for a prefix stay below those handed out for the
/// whole list.
pub proof fn lemma_split_runs_prefix(
    runs: Seq<SstView>,
    members: Set<u32>,
    allow_trivial_split: bool,
    start: int,
    k: int,
)
    requires
        0 <= k <= runs.len(),
    ensures
        split_runs(runs.subrange(0, k), members, allow_trivial_split, start).next_id <= split_runs(
            runs,
            members,
            allow_trivial_split,
            start,
        ).next_id,
    decreases runs.len() - k,
{
    if k == runs.len() {
        assert(runs.subrange(0, k) =~= runs);
    } else {
        assert(runs.subrange(0, k + 1).drop_last() =~= runs.subrange(0, k));
        lemma_split_runs_prefix(runs, members, allow_trivial_split, start, k + 1);
    }
}

/// Whether the run holds data of a listed table, and whether it holds
/// nothing else.
fn classify_run(sst: &SstableInfo, member_table_ids: &HashSet<u32>) -> (r: (bool, bool))
    ensures
        r.0 == run_touched(sst@, member_table_ids@),
        r.1 == run_covered(sst@, member_table_ids@),
{
    let ghost ids = sst@.table_ids;
    let mut touched = false;
    let mut covered = true;
    let mut i: usize = 0;
    while i < sst.table_ids.len()
        invariant
            i <= sst.table_ids.len(),
            ids == sst@.table_ids,
            touched == exists|k: int| 0 <= k < i && member_table_ids@.contains(#[trigger] ids[k]),
            covered == forall|k: int| 0 <= k < i ==> member_table_ids@.contains(#[trigger] ids[k]),
        decreases sst.table_ids.len() - i,
    {
        assert(ids[i as int] == sst.table_ids[i as int]);
        if member_table_ids.contains(&sst.table_ids[i]) {
            touched = true;
        } else {
            covered = false;
        }
        i += 1;
    }
    (touched, covered)
}

/// Branches the runs of a level for the tables that move. Returns the
/// branches for the target group; the runs of the level are rewritten as
/// the source group keeps them. A refusal leaves the level, the record and
/// the next id untouched.
pub fn split_sst_info_for_level(
    member_table_ids: &HashSet<u32>,
    allow_trivial_split: bool,
    level: &mut Level,
    split_id_vers: &mut Vec<SstSplitInfo>,
    new_sst_id: &mut u64,
) -> (r: Result<Vec<SstableInfo>, VersionError>)
    ensures
        ({
            let out = split_runs(
                old(level)@.table_infos,
                member_table_ids@,
                allow_trivial_split,
                *old(new_sst_id) as int,
            );
            match r {
                Ok(branches) => {
                    &&& out.next_id <= u64::MAX
                    &&& runs_view(branches@) == out.child
                    &&& final(level)@ == (LevelView { table_infos: out.parent, ..old(level)@ })
                    &&& final(split_id_vers)@ == old(split_id_vers)@ + out.infos
                    &&& *final(new_sst_id) == out.next_id
                },
                Err(e) => {
                    &&& e == VersionError::RunIdOverflow
                    &&& out.next_id > u64::MAX
                    &&& *final(level) == *old(level)
                    &&& *final(split_id_vers) == *old(split_id_vers)
                    &&& *final(new_sst_id) == *old(new_sst_id)
                },
            }
        }),
{
    let mut next = level.clone();
    let mut infos: Vec<SstSplitInfo> = Vec::new();
    let mut next_id: u64 = *new_sst_id;
    let branches = split_runs_in_place(
        member_table_ids,
        allow_trivial_split,
        &mut next,
        &mut infos,
        &mut next_id,
    )?;
    *level = next;
    split_id_vers.append(&mut infos);
    *new_sst_id = next_id;
    Ok(branches)
}

/// Branches the runs of a level for the tables that move. After a refusal
/// the level, the record and the next id are in no specified state.
fn split_runs_in_place(
    member_table_ids: &HashSet<u32>,
    allow_trivial_split: bool,
    level: &mut Level,
    split_id_vers: &mut Vec<SstSplitInfo>,
    new_sst_id: &mut u64,
) -> (r: Result<Vec<SstableInfo>, VersionError>)
    ensures
        ({
            let out = split_runs(
                old(level)@.table_infos,
                member_table_ids@,
                allow_trivial_split,
                *old(new_sst_id) as int,
            );
            match r {
                Ok(branches) => {
                    &&& out.next_id <= u64::MAX
                    &&& runs_view(branches@) == out.child
                    &&& final(level)@ == (LevelView { table_infos: out.parent, ..old(level)@ })
                    &&& final(split_id_vers)@ == old(split_id_vers)@ + out.infos
                    &&& *final(new_sst_id) == out.next_id
                },
                Err(e) => e == VersionError::RunIdOverflow && out.next_id > u64::MAX,
            }
        }),
{
    let ghost orig = level@.table_infos;
    let ghost members = member_table_ids@;
    let ghost start = *new_sst_id as int;
    let ghost infos0 = split_id_vers@;
    let mut insert_table_infos: Vec<SstableInfo> = Vec::new();
    let mut i: usize = 0;
    assert(orig.subrange(0, 0) =~= Seq::<SstView>::empty());
    while i < level.table_infos.len()
        invariant
            i <= level.table_infos.len(),
            level.table_infos.len() == orig.len(),
            orig == old(level)@.table_infos,
            members == member_table_ids@,
            start == *old(new_sst_id) as int,
            infos0 == old(split_id_vers)@,
            level.level_idx == old(level).level_idx,
            level.level_type == old(level).level_type,
            level.total_file_size == old(level).total_file_size,
            level.sub_level_id == old(level).sub_level_id,
            level.uncompressed_file_size == old(level).uncompressed_file_size,
            forall|k: int| i <= k < orig.len() ==> (#[trigger] level.table_infos[k])@ == orig[k],
            ({
                let out = split_runs(orig.subrange(0, i as int), members, allow_trivial_split, start);
                &&& runs_view(level.table_infos@).subrange(0, i as int) == out.parent
                &&& runs_view(insert_table_infos@) == out.child
                &&& split_id_vers@ == infos0 + out.infos
                &&& *new_sst_id == out.next_id
            }),
        decreases level.table_infos.len() - i,
    {
        let ghost prev = split_runs(orig.subrange(0, i as int), members, allow_trivial_split, start);
        let ghost sst_view = orig[i as int];
        proof {
            assert(orig.subrange(0, i + 1).drop_last() =~= orig.subrange(0, i as int));
            assert(orig.subrange(0, i + 1).last() == sst_view);
            lemma_split_runs_prefix(orig, members, allow_trivial_split, start, i + 1);
        }
        let (touched, covered) = classify_run(&level.table_infos[i], member_table_ids);
        let ghost parent_before = runs_view(level.table_infos@);
        if touched {
            let is_trivial = allow_trivial_split && covered;
            let child_id: u64 = *new_sst_id;
            let mut branch_table_info = level.table_infos[i].clone();
            branch_table_info.sst_id = child_id;
            let parent_old_sst_id = level.table_infos[i].sst_id;
            let step: u64 = if is_trivial {
                1
            } else {
                2
            };
            let next: u64 = match child_id.checked_add(step) {
                Some(x) => x,
                None => {
                    return Err(VersionError::RunIdOverflow);
                },
            };
            if is_trivial {
                level.table_infos[i].table_ids = Vec::new();
            } else {
                level.table_infos[i].sst_id = child_id + 1;
            }
            *new_sst_id = next;
            let parent_new_sst_id = level.table_infos[i].sst_id;
            let ghost infos_before = split_id_vers@;
            split_id_vers.push(
                (branch_table_info.object_id, branch_table_info.sst_id, parent_old_sst_id, parent_new_sst_id),
            );
            let ghost child_before = runs_view(insert_table_infos@);
            let ghost branch_view = branch_table_info@;
            insert_table_infos.push(branch_table_info);
            proof {
                let out = split_runs(orig.subrange(0, i + 1), members, allow_trivial_split, start);
                assert(runs_view(insert_table_infos@) =~= child_before.push(branch_view));
                assert(branch_view =~~= sst_view.with_sst_id(child_id));
                assert(split_id_vers@ =~= infos0 + out.infos);
                assert(level.table_infos[i as int]@ =~~= out.parent.last());
                assert(runs_view(level.table_infos@).subrange(0, i + 1) =~= parent_before.subrange(
                    0,
                    i as int,
                ).push(level.table_infos[i as int]@));
            }
        } else {
            proof {
                assert(runs_view(level.table_infos@).subrange(0, i + 1) =~= parent_before.subrange(
                    0,
                    i as int,
                ).push(sst_view));
            }
        }
        i += 1;
    }
    proof {
        assert(orig.subrange(0, i as int) =~= orig);
        assert(runs_view(level.table_infos@).subrange(0, i as int) =~= runs_view(level.table_infos@));
    }
    Ok(insert_table_infos)
}

/// The test that a run passes while it still belongs to a table.
pub open spec fn has_tables() -> spec_fn(SstView) -> bool {
    |s: SstView| s.table_ids.len() > 0
}

/// The test that a run passes once it belongs to no table.
pub open spec fn has_no_tables() -> spec_fn(SstView) -> bool {
    |s: SstView| s.table_ids.len() == 0
}

/// `lv` without the runs that belong to no table, their sizes taken off its
/// counters.
pub open spec fn level_purged(lv: LevelView) -> Result<LevelView, VersionError> {
    let gone = lv.table_infos.filter(has_no_tables());
    if lv.total_file_size < total_file_size(gone) || lv.uncompressed_file_size
        < total_uncompressed_size(gone) {
        Err(VersionError::SizeOverflow)
    } else {
        Ok(
            LevelView {
                table_infos: lv.table_infos.filter(has_tables()),
                total_file_size: (lv.total_file_size - total_file_size(gone)) as u64,
                uncompressed_file_size: (lv.uncompressed_file_size - total_uncompressed_size(
                    gone,
                )) as u64,
                ..lv
            },
        )
    }
}

/// Drops the runs that belong to no table and takes their sizes off the
/// counters of the level. Returns the sizes taken off.
fn purge_moved_runs(level: &mut Level) -> (r: Result<(u64, u64), VersionError>)
    ensures
        match r {
            Ok((file, uncompressed)) => level_purged(old(level)@) == Ok::<LevelView, VersionError>(
                final(level)@,
            ) && file == total_file_size(old(level)@.table_infos.filter(has_no_tables()))
                && uncompressed == total_uncompressed_size(
                old(level)@.table_infos.filter(has_no_tables()),
            ),
            Err(e) => level_purged(old(level)@) == Err::<LevelView, VersionError>(e),
        },
{
    let ghost orig = level@.table_infos;
    let mut runs: Vec<SstableInfo> = Vec::new();
    core::mem::swap(&mut level.table_infos, &mut runs);
    let ghost vs = runs@;
    let mut kept: Vec<SstableInfo> = Vec::new();
    let mut gone: Vec<SstableInfo> = Vec::new();
    proof {
        lemma_filter_empty::<SstView>(has_tables());
        lemma_filter_empty::<SstView>(has_no_tables());
        assert(orig.subrange(0, 0) =~= Seq::<SstView>::empty());
    }
    for x in it: runs
        invariant
            it.seq() == vs,
            orig == runs_view(vs),
            runs_view(kept@) == orig.subrange(0, it.index() as int).filter(has_tables()),
            runs_view(gone@) == orig.subrange(0, it.index() as int).filter(has_no_tables()),
    {
        proof {
            let i = it.index();
            assert(orig[i] == x@);
            assert(orig.subrange(0, i + 1) =~= orig.subrange(0, i).push(x@));
            lemma_filter_push(orig.subrange(0, i), x@, has_tables());
            lemma_filter_push(orig.subrange(0, i), x@, has_no_tables());
        }
        let ghost xv = x@;
        if x.table_ids.len() == 0 {
            let ghost before = runs_view(gone@);
            gone.push(x);
            assert(runs_view(gone@) =~= before.push(xv));
        } else {
            let ghost before = runs_view(kept@);
            kept.push(x);
            assert(runs_view(kept@) =~= before.push(xv));
        }
    }
    assert(orig.subrange(0, orig.len() as int) =~= orig);
    level.table_infos = kept;
    proof {
        lemma_totals_nonnegative(runs_view(gone@));
    }
    let (file, uncompressed) = match sum_sizes(&gone) {
        Some(sizes) => sizes,
        None => {
            return Err(VersionError::SizeOverflow);
        },
    };
    if level.total_file_size < file || level.uncompressed_file_size < uncompressed {
        return Err(VersionError::SizeOverflow);
    }
    level.total_file_size = level.total_file_size - file;
    level.uncompressed_file_size = level.uncompressed_file_size - uncompressed;
    Ok((file, uncompressed))
}

/// Level zero of the source and of the target group in the course of a
/// split.
#[verifier::ext_equal]
pub struct L0Split {
    pub parent: L0View,
    pub child: Option<L0View>,
    pub infos: Seq<SstSplitInfo>,
    pub next_id: int,
}

/// The split of the sub-level at `k` of the source. Its branches join the
/// sub-level of the target that carries the same id; where the target has
/// none, a new sub-level is put where the order of ids wants it. The source
/// drops the runs it gave up.
pub open spec fn sub_level_step(st: L0Split, k: int, members: Set<u32>, allow_trivial_split: bool) -> Result<
    L0Split,
    VersionError,
> {
    if st.child is None {
        Err(VersionError::MissingLevel0)
    } else {
        let target = st.child->0;
        let sub = st.parent.sub_levels[k];
        let pos = first_not_below(target.sub_levels, sub.sub_level_id, 0);
        let out = split_runs(sub.table_infos, members, allow_trivial_split, st.next_id);
        let gone = out.parent.filter(has_no_tables());
        if out.next_id > u64::MAX {
            Err(VersionError::RunIdOverflow)
        } else {
            match level_purged(LevelView { table_infos: out.parent, ..sub }) {
                Err(e) => Err(e),
                Ok(purged) => {
                    if st.parent.total_file_size < total_file_size(gone)
                        || st.parent.uncompressed_file_size < total_uncompressed_size(gone) {
                        Err(VersionError::SizeOverflow)
                    } else {
                        let parent = L0View {
                            sub_levels: st.parent.sub_levels.update(k, purged),
                            total_file_size: (st.parent.total_file_size - total_file_size(
                                gone,
                            )) as u64,
                            uncompressed_file_size: (st.parent.uncompressed_file_size
                                - total_uncompressed_size(gone)) as u64,
                        };
                        let grown = if out.child.len() == 0 {
                            Ok(target)
                        } else if pos < target.sub_levels.len() && target.sub_levels[pos].sub_level_id
                            == sub.sub_level_id {
                            spec_add_ssts_to_sub_level(target, pos, out.child)
                        } else {
                            spec_insert_new_sub_level(
                                target,
                                sub.sub_level_id,
                                sub.level_type,
                                out.child,
                                Some(pos),
                            )
                        };
                        match grown {
                            Err(e) => Err(e),
                            Ok(child) => Ok(
                                L0Split {
                                    parent,
                                    child: Some(child),
                                    infos: st.infos + out.infos,
                                    next_id: out.next_id,
                                },
                            ),
                        }
                    }
                },
            }
        }
    }
}

/// The split of the sub-levels from `k` up to `n`.
pub open spec fn split_sub_levels(
    st: L0Split,
    k: int,
    n: int,
    members: Set<u32>,
    allow_trivial_split: bool,
) -> Result<L0Split, VersionError>
    decreases n - k,
{
    if k >= n {
        Ok(st)
    } else {
        match sub_level_step(st, k, members, allow_trivial_split) {
            Err(e) => Err(e),
            Ok(next) => split_sub_levels(next, k + 1, n, members, allow_trivial_split),
        }
    }
}

/// The levels below level zero of the source and of the target group in the
/// course of a split.
#[verifier::ext_equal]
pub struct LevelSplit {
    pub parent: Seq<LevelView>,
    pub child: Seq<LevelView>,
    pub infos: Seq<SstSplitInfo>,
    pub next_id: int,
}

/// The split of the level at position `idx` of the source. Its branches
/// join the level at the same position of the target, whose runs are put
/// into key order and must not overlap. The source drops the runs it gave
/// up.
pub open spec fn level_step(st: LevelSplit, idx: int, members: Set<u32>, allow_trivial_split: bool) -> Result<
    LevelSplit,
    VersionError,
> {
    let level = st.parent[idx];
    let out = split_runs(level.table_infos, members, allow_trivial_split, st.next_id);
    if out.next_id > u64::MAX {
        Err(VersionError::RunIdOverflow)
    } else if idx >= st.child.len() {
        Err(VersionError::LevelOutOfRange)
    } else {
        match level_with_added(st.child[idx], out.child) {
            Err(e) => Err(e),
            Ok(grown) => match level_in_key_order(grown) {
                Err(e) => Err(e),
                Ok(ordered) => match level_purged(LevelView { table_infos: out.parent, ..level }) {
                    Err(e) => Err(e),
                    Ok(purged) => Ok(
                        LevelSplit {
                            parent: st.parent.update(idx, purged),
                            child: st.child.update(idx, ordered),
                            infos: st.infos + out.infos,
                            next_id: out.next_id,
                        },
                    ),
                },
            },
        }
    }
}

/// The split of the levels from position `idx` up to `n`.
pub open spec fn split_levels(
    st: LevelSplit,
    idx: int,
    n: int,
    members: Set<u32>,
    allow_trivial_split: bool,
) -> Result<LevelSplit, VersionError>
    decreases n - idx,
{
    if idx >= n {
        Ok(st)
    } else {
        match level_step(st, idx, members, allow_trivial_split) {
            Err(e) => Err(e),
            Ok(next) => split_levels(next, idx + 1, n, members, allow_trivial_split),
        }
    }
}

/// A source group and a target group after a split, with the provenance of
/// every branch.
#[verifier::ext_equal]
pub struct GroupSplit {
    pub parent: LevelsView,
    pub child: LevelsView,
    pub infos: Seq<SstSplitInfo>,
}

/// The split of the group `parent` for the tables `members`, which move to
/// the group `child`: level zero first, sub-level by sub-level, then the
/// levels below it, fresh run ids being taken from `start` upwards.
pub open spec fn spec_split_group(
    parent: LevelsView,
    child: LevelsView,
    members: Set<u32>,
    start: u64,
    allow_trivial_split: bool,
) -> Result<GroupSplit, VersionError> {
    let first = L0Split { parent: parent.l0->0, child: child.l0, infos: Seq::empty(), next_id: start as int };
    let zero = if parent.l0 is Some {
        split_sub_levels(first, 0, parent.l0->0.sub_levels.len() as int, members, allow_trivial_split)
    } else {
        Ok(first)
    };
    match zero {
        Err(e) => Err(e),
        Ok(l0) => {
            let below = LevelSplit {
                parent: parent.levels,
                child: child.levels,
                infos: l0.infos,
                next_id: l0.next_id,
            };
            match split_levels(below, 0, parent.levels.len() as int, members, allow_trivial_split) {
                Err(e) => Err(e),
                Ok(levels) => Ok(
                    GroupSplit {
                        parent: LevelsView {
                            levels: levels.parent,
                            l0: if parent.l0 is Some {
                                Some(l0.parent)
                            } else {
                                None
                            },
                            ..parent
                        },
                        child: LevelsView { levels: levels.child, l0: l0.child, ..child },
                        infos: levels.infos,
                    },
                ),
            }
        },
    }
}

/// Level zero as a value, where there is one.
pub open spec fn l0_view(l0: Option<OverlappingLevel>) -> Option<L0View> {
    match l0 {
        Some(x) => Some(x@),
        None => None,
    }
}

/// Splits the sub-level at `k` of the source.
fn split_sub_level(
    parent_l0: &mut OverlappingLevel,
    k: usize,
    target: &mut Option<OverlappingLevel>,
    member_table_ids: &HashSet<u32>,
    allow_trivial_split: bool,
    split_id_vers: &mut Vec<SstSplitInfo>,
    new_sst_id: &mut u64,
) -> (r: Result<(), VersionError>)
    requires
        k < old(parent_l0).sub_levels.len(),
    ensures
        r is Ok ==> final(parent_l0).sub_levels.len() == old(parent_l0).sub_levels.len(),
        ({
            let before = L0Split {
                parent: old(parent_l0)@,
                child: l0_view(*old(target)),
                infos: old(split_id_vers)@,
                next_id: *old(new_sst_id) as int,
            };
            let step = sub_level_step(before, k as int, member_table_ids@, allow_trivial_split);
            match r {
                Ok(()) => step == Ok::<L0Split, VersionError>(
                    L0Split {
                        parent: final(parent_l0)@,
                        child: l0_view(*final(target)),
                        infos: final(split_id_vers)@,
                        next_id: *final(new_sst_id) as int,
                    },
                ),
                Err(e) => step == Err::<L0Split, VersionError>(e),
            }
        }),
{
    let ghost before = L0Split {
        parent: parent_l0@,
        child: l0_view(*target),
        infos: split_id_vers@,
        next_id: *new_sst_id as int,
    };
    let ghost subs = parent_l0.sub_levels@;
    match target {
        None => Err(VersionError::MissingLevel0),
        Some(target_l0) => {
            let sub_level_id = parent_l0.sub_levels[k].sub_level_id;
            let level_type = parent_l0.sub_levels[k].level_type;
            let pos = crate::compact::find_first_not_below(&target_l0.sub_levels, sub_level_id);
            let found = pos < target_l0.sub_levels.len() && target_l0.sub_levels[pos].sub_level_id
                == sub_level_id;
            let insert_table_infos = split_sst_info_for_level(
                member_table_ids,
                allow_trivial_split,
                &mut parent_l0.sub_levels[k],
                split_id_vers,
                new_sst_id,
            )?;
            let (file, uncompressed) = purge_moved_runs(&mut parent_l0.sub_levels[k])?;
            if parent_l0.total_file_size < file || parent_l0.uncompressed_file_size < uncompressed {
                return Err(VersionError::SizeOverflow);
            }
            parent_l0.total_file_size = parent_l0.total_file_size - file;
            parent_l0.uncompressed_file_size = parent_l0.uncompressed_file_size - uncompressed;
            assert(levels_view(parent_l0.sub_levels@) =~= levels_view(subs).update(
                k as int,
                parent_l0.sub_levels[k as int]@,
            ));
            if insert_table_infos.len() > 0 {
                if found {
                    add_ssts_in_place(target_l0, pos, insert_table_infos)?;
                } else {
                    insert_new_sub_level(
                        target_l0,
                        sub_level_id,
                        level_type,
                        insert_table_infos,
                        Some(pos),
                    )?;
                }
            }
            Ok(())
        },
    }
}

/// Splits the level at position `idx` of the source.
fn split_level(
    parent_levels: &mut Vec<Level>,
    idx: usize,
    target_levels: &mut Vec<Level>,
    member_table_ids: &HashSet<u32>,
    allow_trivial_split: bool,
    split_id_vers: &mut Vec<SstSplitInfo>,
    new_sst_id: &mut u64,
) -> (r: Result<(), VersionError>)
    requires
        idx < old(parent_levels).len(),
    ensures
        r is Ok ==> final(parent_levels).len() == old(parent_levels).len(),
        ({
            let before = LevelSplit {
                parent: levels_view(old(parent_levels)@),
                child: levels_view(old(target_levels)@),
                infos: old(split_id_vers)@,
                next_id: *old(new_sst_id) as int,
            };
            let step = level_step(before, idx as int, member_table_ids@, allow_trivial_split);
            match r {
                Ok(()) => step == Ok::<LevelSplit, VersionError>(
                    LevelSplit {
                        parent: levels_view(final(parent_levels)@),
                        child: levels_view(final(target_levels)@),
                        infos: final(split_id_vers)@,
                        next_id: *final(new_sst_id) as int,
                    },
                ),
                Err(e) => step == Err::<LevelSplit, VersionError>(e),
            }
        }),
{
    let ghost parents = parent_levels@;
    let ghost targets = target_levels@;
    let insert_table_infos = split_runs_in_place(
        member_table_ids,
        allow_trivial_split,
        &mut parent_levels[idx],
        split_id_vers,
        new_sst_id,
    )?;
    if idx >= target_levels.len() {
        return Err(VersionError::LevelOutOfRange);
    }
    level_add_runs(&mut target_levels[idx], insert_table_infos)?;
    level_sort_runs(&mut target_levels[idx])?;
    purge_moved_runs(&mut parent_levels[idx])?;
    assert(levels_view(parent_levels@) =~= levels_view(parents).update(
        idx as int,
        parent_levels[idx as int]@,
    ));
    assert(levels_view(target_levels@) =~= levels_view(targets).update(
        idx as int,
        target_levels[idx as int]@,
    ));
    Ok(())
}

/// Splits the source group `parent` for the tables that move to the group
/// `cur`. Returns the provenance of every branch. A refusal leaves both
/// groups untouched.
pub fn split_group(
    parent: &mut Levels,
    cur: &mut Levels,
    member_table_ids: &HashSet<u32>,
    new_sst_start_id: u64,
    allow_trivial_split: bool,
) -> (r: Result<Vec<SstSplitInfo>, VersionError>)
    ensures
        match r {
            Ok(infos) => spec_split_group(
                old(parent)@,
                old(cur)@,
                member_table_ids@,
                new_sst_start_id,
                allow_trivial_split,
            ) == Ok::<GroupSplit, VersionError>(
                GroupSplit { parent: final(parent)@, child: final(cur)@, infos: infos@ },
            ),
            Err(e) => spec_split_group(
                old(parent)@,
                old(cur)@,
                member_table_ids@,
                new_sst_start_id,
                allow_trivial_split,
            ) == Err::<GroupSplit, VersionError>(e) && *final(parent) == *old(parent) && *final(cur)
                == *old(cur),
        },
{
    let mut next_parent = parent.clone();
    let mut next_cur = cur.clone();
    let infos = split_group_in_place(
        &mut next_parent,
        &mut next_cur,
        member_table_ids,
        new_sst_start_id,
        allow_trivial_split,
    )?;
    *parent = next_parent;
    *cur = next_cur;
    Ok(infos)
}

/// Splits the source group `parent` for the tables that move to the group
/// `cur`. After a refusal both groups are in no specified state.
fn split_group_in_place(
    parent: &mut Levels,
    cur: &mut Levels,
    member_table_ids: &HashSet<u32>,
    new_sst_start_id: u64,
    allow_trivial_split: bool,
) -> (r: Result<Vec<SstSplitInfo>, VersionError>)
    ensures
        match r {
            Ok(infos) => spec_split_group(
                old(parent)@,
                old(cur)@,
                member_table_ids@,
                new_sst_start_id,
                allow_trivial_split,
            ) == Ok::<GroupSplit, VersionError>(
                GroupSplit { parent: final(parent)@, child: final(cur)@, infos: infos@ },
            ),
            Err(e) => spec_split_group(
                old(parent)@,
                old(cur)@,
                member_table_ids@,
                new_sst_start_id,
                allow_trivial_split,
            ) == Err::<GroupSplit, VersionError>(e),
        },
{
    let ghost members = member_table_ids@;
    let ghost parent0 = parent@;
    let ghost cur0 = cur@;
    let mut new_sst_id: u64 = new_sst_start_id;
    let mut split_id_vers: Vec<SstSplitInfo> = Vec::new();
    let ghost first = L0Split {
        parent: parent0.l0->0,
        child: cur0.l0,
        infos: Seq::empty(),
        next_id: new_sst_start_id as int,
    };
    match &mut parent.l0 {
        Some(l0) => {
            let n = l0.sub_levels.len();
            let mut k: usize = 0;
            while k < n
                invariant
                    k <= n,
                    n == l0.sub_levels.len(),
                    n == parent0.l0->0.sub_levels.len(),
                    parent0 == old(parent)@,
                    cur0 == old(cur)@,
                    parent0.l0 is Some,
                    first == (L0Split {
                        parent: parent0.l0->0,
                        child: cur0.l0,
                        infos: Seq::empty(),
                        next_id: new_sst_start_id as int,
                    }),
                    members == member_table_ids@,
                    split_sub_levels(first, 0, n as int, members, allow_trivial_split)
                        == split_sub_levels(
                        L0Split {
                            parent: l0@,
                            child: l0_view(cur.l0),
                            infos: split_id_vers@,
                            next_id: new_sst_id as int,
                        },
                        k as int,
                        n as int,
                        members,
                        allow_trivial_split,
                    ),
                    cur@.levels == cur0.levels,
                    cur.group_id == cur0.group_id,
                    cur.parent_group_id == cur0.parent_group_id,
                    cur@.member_table_ids == cur0.member_table_ids,
                decreases n - k,
            {
                split_sub_level(
                    l0,
                    k,
                    &mut cur.l0,
                    member_table_ids,
                    allow_trivial_split,
                    &mut split_id_vers,
                    &mut new_sst_id,
                )?;
                k += 1;
            }
        },
        None => {},
    }
    let ghost l0_done = L0Split {
        parent: parent@.l0->0,
        child: cur@.l0,
        infos: split_id_vers@,
        next_id: new_sst_id as int,
    };
    let ghost below = LevelSplit {
        parent: parent0.levels,
        child: cur0.levels,
        infos: l0_done.infos,
        next_id: l0_done.next_id,
    };
    let n = parent.levels.len();
    let mut idx: usize = 0;
    while idx < n
        invariant
            idx <= n,
            n == parent.levels.len(),
            n == parent0.levels.len(),
            parent0 == old(parent)@,
            cur0 == old(cur)@,
            first == (L0Split {
                parent: parent0.l0->0,
                child: cur0.l0,
                infos: Seq::empty(),
                next_id: new_sst_start_id as int,
            }),
            (if parent0.l0 is Some {
                split_sub_levels(
                    first,
                    0,
                    parent0.l0->0.sub_levels.len() as int,
                    members,
                    allow_trivial_split,
                )
            } else {
                Ok(first)
            }) == Ok::<L0Split, VersionError>(l0_done),
            below == (LevelSplit {
                parent: parent0.levels,
                child: cur0.levels,
                infos: l0_done.infos,
                next_id: l0_done.next_id,
            }),
            members == member_table_ids@,
            split_levels(below, 0, n as int, members, allow_trivial_split) == split_levels(
                LevelSplit {
                    parent: parent@.levels,
                    child: cur@.levels,
                    infos: split_id_vers@,
                    next_id: new_sst_id as int,
                },
                idx as int,
                n as int,
                members,
                allow_trivial_split,
            ),
            parent@.l0 == if parent0.l0 is Some {
                Some(l0_done.parent)
            } else {
                None
            },
            cur@.l0 == l0_done.child,
            parent.group_id == parent0.group_id,
            parent.parent_group_id == parent0.parent_group_id,
            parent@.member_table_ids == parent0.member_table_ids,
            cur.group_id == cur0.group_id,
            cur.parent_group_id == cur0.parent_group_id,
            cur@.member_table_ids == cur0.member_table_ids,
        decreases n - idx,
    {
        split_level(
            &mut parent.levels,
            idx,
            &mut cur.levels,
            member_table_ids,
            allow_trivial_split,
            &mut split_id_vers,
            &mut new_sst_id,
        )?;
        idx += 1;
    }
    Ok(split_id_vers)
}

/// The groups of a version after the tables `members` moved from the group
/// `parent_group_id` to the group `group_id`, with the provenance of every
/// branch. Nothing happens where there is no parent to take runs from.
pub open spec fn spec_init_with_parent_group(
    groups: Map<u64, LevelsView>,
    parent_group_id: u64,
    group_id: u64,
    members: Set<u32>,
    new_sst_start_id: u64,
    allow_trivial_split: bool,
) -> Result<(Map<u64, LevelsView>, Seq<SstSplitInfo>), VersionError> {
    if parent_group_id == NEW_COMPACTION_GROUP || !groups.contains_key(parent_group_id) {
        Ok((groups, Seq::empty()))
    } else if !groups.contains_key(group_id) {
        Err(VersionError::GroupNotFound)
    } else if parent_group_id == group_id {
        Err(VersionError::SplitIntoSameGroup)
    } else {
        match spec_split_group(
            groups[parent_group_id],
            groups[group_id],
            members,
            new_sst_start_id,
            allow_trivial_split,
        ) {
            Err(e) => Err(e),
            Ok(split) => Ok(
                (
                    groups.insert(parent_group_id, split.parent).insert(group_id, split.child),
                    split.infos,
                ),
            ),
        }
    }
}

/// The table ids of a list as a set.
pub fn table_id_set(ids: &Vec<u32>) -> (r: HashSet<u32>)
    ensures
        r@ == ids@.to_set(),
{
    let mut out: HashSet<u32> = HashSet::new();
    let mut i: usize = 0;
    assert(ids@.subrange(0, 0).to_set() =~= Set::<u32>::empty());
    while i < ids.len()
        invariant
            i <= ids.len(),
            out@ == ids@.subrange(0, i as int).to_set(),
        decreases ids.len() - i,
    {
        out.insert(ids[i]);
        proof {
            let a = ids@.subrange(0, i as int);
            assert(ids@.subrange(0, i + 1) =~= a.push(ids[i as int]));
            a.lemma_push_to_set_commute(ids[i as int]);
        }
        i += 1;
    }
    assert(ids@.subrange(0, i as int) =~= ids@);
    out
}

impl HummockVersion {
    /// Moves the runs of the tables `member_table_ids` from the group
    /// `parent_group_id` to the group `group_id`. A refusal leaves the
    /// version untouched.
    pub fn init_with_parent_group(
        &mut self,
        parent_group_id: u64,
        group_id: u64,
        member_table_ids: HashSet<u32>,
        new_sst_start_id: u64,
        allow_trivial_split: bool,
    ) -> (r: Result<Vec<SstSplitInfo>, VersionError>)
        ensures
            final(self).id == old(self).id,
            final(self).max_committed_epoch == old(self).max_committed_epoch,
            final(self).safe_epoch == old(self).safe_epoch,
            final(self).table_watermarks == old(self).table_watermarks,
            match r {
                Ok(infos) => spec_init_with_parent_group(
                    old(self)@.levels,
                    parent_group_id,
                    group_id,
                    member_table_ids@,
                    new_sst_start_id,
                    allow_trivial_split,
                ) == Ok::<(Map<u64, LevelsView>, Seq<SstSplitInfo>), VersionError>(
                    (final(self)@.levels, infos@),
                ),
                Err(e) => spec_init_with_parent_group(
                    old(self)@.levels,
                    parent_group_id,
                    group_id,
                    member_table_ids@,
                    new_sst_start_id,
                    allow_trivial_split,
                ) == Err::<(Map<u64, LevelsView>, Seq<SstSplitInfo>), VersionError>(e)
                    && *final(self) == *old(self),
            },
    {
        let ghost groups = self.levels@;
        if parent_group_id == NEW_COMPACTION_GROUP || !self.levels.contains_key(&parent_group_id) {
            return Ok(Vec::new());
        }
        if !self.levels.contains_key(&group_id) {
            return Err(VersionError::GroupNotFound);
        }
        if parent_group_id == group_id {
            return Err(VersionError::SplitIntoSameGroup);
        }
        let mut parent_levels = match self.levels.get(&parent_group_id) {
            Some(levels) => levels.clone(),
            None => {
                return Err(VersionError::GroupNotFound);
            },
        };
        let mut cur_levels = match self.levels.get(&group_id) {
            Some(levels) => levels.clone(),
            None => {
                return Err(VersionError::GroupNotFound);
            },
        };
        let infos = split_group_in_place(
            &mut parent_levels,
            &mut cur_levels,
            &member_table_ids,
            new_sst_start_id,
            allow_trivial_split,
        )?;
        let ghost parent_view = parent_levels@;
        let ghost cur_view = cur_levels@;
        self.levels.insert(parent_group_id, parent_levels);
        self.levels.insert(group_id, cur_levels);
        assert(groups_view(self.levels@) =~= groups_view(groups).insert(
            parent_group_id,
            parent_view,
        ).insert(group_id, cur_view));
        Ok(infos)
    }
}

} // verus!
