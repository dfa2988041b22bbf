//! Growing levels: runs that join a level, and sub-levels that join level
//! zero.
//!
//! Every function here either performs its edit or refuses it. A refusal
//! leaves the level it worked on untouched.

use vstd::prelude::*;
use crate::error::VersionError;
use crate::level::{
    copy_runs, levels_view, L0View, Level, LevelType, LevelView, OverlappingLevel,
};
use crate::runs::{
    lemma_totals_nonnegative, sort_by_key_range, sort_runs, sum_sizes, total_file_size,
    total_uncompressed_size,
};
use crate::sstable::{
    can_concat, check_runs_joinable, check_runs_sortable, runs_concatenable, runs_joinable,
    runs_sortable, runs_view, SstView, SstableInfo,
};

verus! {

/// The level that holds `infos` as its runs, with the sizes they add up to.
pub open spec fn spec_new_sub_level(
    sub_level_id: u64,
    level_type: LevelType,
    infos: Seq<SstView>,
) -> Result<LevelView, VersionError> {
    if total_file_size(infos) > u64::MAX || total_uncompressed_size(infos) > u64::MAX {
        Err(VersionError::SizeOverflow)
    } else {
        Ok(
            LevelView {
                level_idx: 0,
                level_type,
                table_infos: infos,
                total_file_size: total_file_size(infos) as u64,
                sub_level_id,
                uncompressed_file_size: total_uncompressed_size(infos) as u64,
            },
        )
    }
}

/// `lv` with `infos` behind its runs and their sizes added to its counters.
pub open spec fn level_with_added(lv: LevelView, infos: Seq<SstView>) -> Result<
    LevelView,
    VersionError,
> {
    if lv.total_file_size + total_file_size(infos) > u64::MAX || lv.uncompressed_file_size
        + total_uncompressed_size(infos) > u64::MAX {
        Err(VersionError::SizeOverflow)
    } else {
        Ok(
            LevelView {
                table_infos: lv.table_infos + infos,
                total_file_size: (lv.total_file_size + total_file_size(infos)) as u64,
                uncompressed_file_size: (lv.uncompressed_file_size + total_uncompressed_size(
                    infos,
                )) as u64,
                ..lv
            },
        )
    }
}

/// `lv` with its runs in key order, provided that they can be put in
/// order, that the bounds which meet in the order can be decoded, and that
/// none overlaps the next.
pub open spec fn level_in_key_order(lv: LevelView) -> Result<LevelView, VersionError> {
    if !runs_sortable(lv.table_infos) || !runs_joinable(sort_runs(lv.table_infos)) {
        Err(VersionError::MalformedKeyRange)
    } else if !runs_concatenable(sort_runs(lv.table_infos)) {
        Err(VersionError::NotConcatenable)
    } else {
        Ok(LevelView { table_infos: sort_runs(lv.table_infos), ..lv })
    }
}

/// Level zero after `infos` joined its sub-level at `idx`. A sub-level that
/// does not overlap is put back into key order and must stay free of
/// overlap.
pub open spec fn spec_add_ssts_to_sub_level(l0: L0View, idx: int, infos: Seq<SstView>) -> Result<
    L0View,
    VersionError,
> {
    if idx < 0 || idx >= l0.sub_levels.len() {
        Err(VersionError::SubLevelOutOfRange)
    } else {
        match level_with_added(l0.sub_levels[idx], infos) {
            Err(e) => Err(e),
            Ok(grown) => {
                if l0.total_file_size + total_file_size(infos) > u64::MAX
                    || l0.uncompressed_file_size + total_uncompressed_size(infos) > u64::MAX {
                    Err(VersionError::SizeOverflow)
                } else {
                    let ordered = if grown.level_type == LevelType::Nonoverlapping {
                        level_in_key_order(grown)
                    } else {
                        Ok(grown)
                    };
                    match ordered {
                        Err(e) => Err(e),
                        Ok(level) => Ok(
                            L0View {
                                sub_levels: l0.sub_levels.update(idx, level),
                                total_file_size: (l0.total_file_size + total_file_size(
                                    infos,
                                )) as u64,
                                uncompressed_file_size: (l0.uncompressed_file_size
                                    + total_uncompressed_size(infos)) as u64,
                            },
                        ),
                    }
                }
            },
        }
    }
}

/// Level zero after a new sub-level with the runs `infos` was put at the
/// hinted position, or behind all others where there is no hint. Without a
/// hint the new sub-level must be newer than every other. The id `u64::MAX`
/// together with no runs stands for "nothing to insert" and leaves level
/// zero as it is; with runs it is an id like any other.
pub open spec fn spec_insert_new_sub_level(
    l0: L0View,
    insert_sub_level_id: u64,
    level_type: LevelType,
    infos: Seq<SstView>,
    hint: Option<int>,
) -> Result<L0View, VersionError> {
    if insert_sub_level_id == u64::MAX && infos.len() == 0 {
        Ok(l0)
    } else if hint is None && l0.sub_levels.len() > 0 && l0.sub_levels.last().sub_level_id
        >= insert_sub_level_id {
        Err(VersionError::SubLevelNotNewest)
    } else {
        let pos = match hint {
            Some(p) => p,
            None => l0.sub_levels.len() as int,
        };
        if pos < 0 || pos > l0.sub_levels.len() {
            Err(VersionError::SubLevelOutOfRange)
        } else {
            match spec_new_sub_level(insert_sub_level_id, level_type, infos) {
                Err(e) => Err(e),
                Ok(level) => {
                    if l0.total_file_size + level.total_file_size > u64::MAX
                        || l0.uncompressed_file_size + level.uncompressed_file_size > u64::MAX {
                        Err(VersionError::SizeOverflow)
                    } else {
                        Ok(
                            L0View {
                                sub_levels: l0.sub_levels.insert(pos, level),
                                total_file_size: (l0.total_file_size
                                    + level.total_file_size) as u64,
                                uncompressed_file_size: (l0.uncompressed_file_size
                                    + level.uncompressed_file_size) as u64,
                            },
                        )
                    }
                },
            }
        }
    }
}

/// Builds a sub-level from its runs.
pub fn new_sub_level(sub_level_id: u64, level_type: LevelType, table_infos: Vec<SstableInfo>) -> (r:
    Result<Level, VersionError>)
    ensures
        match r {
            Ok(level) => spec_new_sub_level(sub_level_id, level_type, runs_view(table_infos@))
                == Ok::<LevelView, VersionError>(level@),
            Err(e) => spec_new_sub_level(sub_level_id, level_type, runs_view(table_infos@))
                == Err::<LevelView, VersionError>(e),
        },
{
    match sum_sizes(&table_infos) {
        Some((total_file_size, uncompressed_file_size)) => Ok(
            Level {
                level_idx: 0,
                level_type,
                table_infos,
                total_file_size,
                sub_level_id,
                uncompressed_file_size,
            },
        ),
        None => Err(VersionError::SizeOverflow),
    }
}

/// Appends runs to a level and adds their sizes to its counters. A refusal
/// leaves the level untouched.
pub fn level_add_runs(operand: &mut Level, insert_table_infos: Vec<SstableInfo>) -> (r: Result<
    (),
    VersionError,
>)
    ensures
        match r {
            Ok(()) => level_with_added(old(operand)@, runs_view(insert_table_infos@)) == Ok::<
                LevelView,
                VersionError,
            >(final(operand)@),
            Err(e) => level_with_added(old(operand)@, runs_view(insert_table_infos@)) == Err::<
                LevelView,
                VersionError,
            >(e) && *final(operand) == *old(operand),
        },
{
    let ghost infos = runs_view(insert_table_infos@);
    let ghost before = runs_view(operand.table_infos@);
    proof {
        lemma_totals_nonnegative(infos);
    }
    let (file, uncompressed) = match sum_sizes(&insert_table_infos) {
        Some(sizes) => sizes,
        None => {
            return Err(VersionError::SizeOverflow);
        },
    };
    let total_file_size = match operand.total_file_size.checked_add(file) {
        Some(x) => x,
        None => {
            return Err(VersionError::SizeOverflow);
        },
    };
    let uncompressed_file_size = match operand.uncompressed_file_size.checked_add(uncompressed) {
        Some(x) => x,
        None => {
            return Err(VersionError::SizeOverflow);
        },
    };
    operand.total_file_size = total_file_size;
    operand.uncompressed_file_size = uncompressed_file_size;
    let mut incoming = insert_table_infos;
    operand.table_infos.append(&mut incoming);
    assert(runs_view(operand.table_infos@) =~= before + infos);
    Ok(())
}

/// Puts the runs of a level into key order and checks that none overlaps
/// the next. A refusal leaves the level untouched.
pub fn level_sort_runs(operand: &mut Level) -> (r: Result<(), VersionError>)
    ensures
        match r {
            Ok(()) => level_in_key_order(old(operand)@) == Ok::<LevelView, VersionError>(
                final(operand)@,
            ),
            Err(e) => level_in_key_order(old(operand)@) == Err::<LevelView, VersionError>(e)
                && *final(operand) == *old(operand),
        },
{
    if !check_runs_sortable(&operand.table_infos) {
        return Err(VersionError::MalformedKeyRange);
    }
    let sorted = sort_by_key_range(copy_runs(&operand.table_infos));
    if !check_runs_joinable(&sorted) {
        return Err(VersionError::MalformedKeyRange);
    }
    if !can_concat(&sorted) {
        return Err(VersionError::NotConcatenable);
    }
    operand.table_infos = sorted;
    Ok(())
}

/// Adds runs to the sub-level at `sub_level_idx` of level zero. A refusal
/// leaves level zero untouched.
pub fn add_ssts_to_sub_level(
    l0: &mut OverlappingLevel,
    sub_level_idx: usize,
    insert_table_infos: Vec<SstableInfo>,
) -> (r: Result<(), VersionError>)
    ensures
        match r {
            Ok(()) => spec_add_ssts_to_sub_level(
                old(l0)@,
                sub_level_idx as int,
                runs_view(insert_table_infos@),
            ) == Ok::<L0View, VersionError>(final(l0)@),
            Err(e) => spec_add_ssts_to_sub_level(
                old(l0)@,
                sub_level_idx as int,
                runs_view(insert_table_infos@),
            ) == Err::<L0View, VersionError>(e) && *final(l0) == *old(l0),
        },
{
    let mut next = l0.clone();
    add_ssts_in_place(&mut next, sub_level_idx, insert_table_infos)?;
    *l0 = next;
    Ok(())
}

/// Adds runs to the sub-level at `sub_level_idx` of level zero. After a
/// refusal level zero is in no specified state.
pub(crate) fn add_ssts_in_place(
    l0: &mut OverlappingLevel,
    sub_level_idx: usize,
    insert_table_infos: Vec<SstableInfo>,
) -> (r: Result<(), VersionError>)
    ensures
        match r {
            Ok(()) => spec_add_ssts_to_sub_level(
                old(l0)@,
                sub_level_idx as int,
                runs_view(insert_table_infos@),
            ) == Ok::<L0View, VersionError>(final(l0)@),
            Err(e) => spec_add_ssts_to_sub_level(
                old(l0)@,
                sub_level_idx as int,
                runs_view(insert_table_infos@),
            ) == Err::<L0View, VersionError>(e),
        },
{
    let ghost infos = runs_view(insert_table_infos@);
    let ghost before = l0@;
    if sub_level_idx >= l0.sub_levels.len() {
        return Err(VersionError::SubLevelOutOfRange);
    }
    proof {
        lemma_totals_nonnegative(infos);
    }
    let (file, uncompressed) = match sum_sizes(&insert_table_infos) {
        Some(sizes) => sizes,
        None => {
            return Err(VersionError::SizeOverflow);
        },
    };
    let ghost levels_before = l0.sub_levels@;
    level_add_runs(&mut l0.sub_levels[sub_level_idx], insert_table_infos)?;
    let total_file_size = match l0.total_file_size.checked_add(file) {
        Some(x) => x,
        None => {
            return Err(VersionError::SizeOverflow);
        },
    };
    let uncompressed_file_size = match l0.uncompressed_file_size.checked_add(uncompressed) {
        Some(x) => x,
        None => {
            return Err(VersionError::SizeOverflow);
        },
    };
    l0.total_file_size = total_file_size;
    l0.uncompressed_file_size = uncompressed_file_size;
    if l0.sub_levels[sub_level_idx].level_type == LevelType::Nonoverlapping {
        level_sort_runs(&mut l0.sub_levels[sub_level_idx])?;
    }
    proof {
        let want = spec_add_ssts_to_sub_level(before, sub_level_idx as int, infos)->Ok_0;
        assert(l0@.sub_levels =~= want.sub_levels);
    }
    Ok(())
}

/// Puts a new sub-level into level zero. `None` as the hint appends it.
pub fn insert_new_sub_level(
    l0: &mut OverlappingLevel,
    insert_sub_level_id: u64,
    level_type: LevelType,
    insert_table_infos: Vec<SstableInfo>,
    sub_level_insert_hint: Option<usize>,
) -> (r: Result<(), VersionError>)
    ensures
        match r {
            Ok(()) => spec_insert_new_sub_level(
                old(l0)@,
                insert_sub_level_id,
                level_type,
                runs_view(insert_table_infos@),
                hint_view(sub_level_insert_hint),
            ) == Ok::<L0View, VersionError>(final(l0)@),
            Err(e) => spec_insert_new_sub_level(
                old(l0)@,
                insert_sub_level_id,
                level_type,
                runs_view(insert_table_infos@),
                hint_view(sub_level_insert_hint),
            ) == Err::<L0View, VersionError>(e) && *final(l0) == *old(l0),
        },
{
    if insert_sub_level_id == u64::MAX && insert_table_infos.len() == 0 {
        return Ok(());
    }
    let insert_pos: usize = match sub_level_insert_hint {
        Some(pos) => pos,
        None => {
            let n = l0.sub_levels.len();
            if n > 0 && l0.sub_levels[n - 1].sub_level_id >= insert_sub_level_id {
                return Err(VersionError::SubLevelNotNewest);
            }
            n
        },
    };
    if insert_pos > l0.sub_levels.len() {
        return Err(VersionError::SubLevelOutOfRange);
    }
    let level = new_sub_level(insert_sub_level_id, level_type, insert_table_infos)?;
    let total_file_size = match l0.total_file_size.checked_add(level.total_file_size) {
        Some(x) => x,
        None => {
            return Err(VersionError::SizeOverflow);
        },
    };
    let uncompressed_file_size = match l0.uncompressed_file_size.checked_add(
        level.uncompressed_file_size,
    ) {
        Some(x) => x,
        None => {
            return Err(VersionError::SizeOverflow);
        },
    };
    l0.total_file_size = total_file_size;
    l0.uncompressed_file_size = uncompressed_file_size;
    let ghost before = levels_view(l0.sub_levels@);
    let ghost level_view = level@;
    l0.sub_levels.insert(insert_pos, level);
    assert(levels_view(l0.sub_levels@) =~= before.insert(insert_pos as int, level_view));
    Ok(())
}

/// The position that a hint names.
pub open spec fn hint_view(hint: Option<usize>) -> Option<int> {
    match hint {
        Some(p) => Some(p as int),
        None => None,
    }
}

} // verus!
