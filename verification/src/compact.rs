//! Applying the result of a compaction to the levels of one group.

use vstd::prelude::*;
use std::collections::HashSet;
use vstd::std_specs::iter::IteratorSpec;
use crate::delta::{GroupDeltasSummary, SummaryView};
use crate::error::VersionError;
use crate::level::{
    copy_runs, levels_view, L0View, Level, LevelType, LevelView, Levels, LevelsView,
    OverlappingLevel,
};
use crate::ordered::{lemma_filter_empty, lemma_filter_push};
use crate::runs::{sum_sizes, total_file_size, total_uncompressed_size};
use crate::sstable::{runs_view, SstView, SstableInfo};
use crate::sub_level::{level_add_runs, level_in_key_order, level_sort_runs, level_with_added};

verus! {

broadcast use vstd::std_specs::hash::group_hash_axioms;

/// The test that a run passes when its id is not among `ids`.
pub open spec fn keeps_run(ids: Set<u64>) -> spec_fn(SstView) -> bool {
    |s: SstView| !ids.contains(s.sst_id)
}

/// The runs of `lv` whose id is not among `ids`.
pub open spec fn runs_without(lv: LevelView, ids: Set<u64>) -> Seq<SstView> {
    lv.table_infos.filter(keeps_run(ids))
}

/// The sizes of the runs that stay when `ids` leave `lv` fit their counters.
pub open spec fn level_without_fits(lv: LevelView, ids: Set<u64>) -> bool {
    total_file_size(runs_without(lv, ids)) <= u64::MAX && total_uncompressed_size(
        runs_without(lv, ids),
    ) <= u64::MAX
}

/// `lv` without the runs whose id is among `ids`, its counters set to the
/// sizes of the runs that stay.
pub open spec fn level_without(lv: LevelView, ids: Set<u64>) -> LevelView {
    LevelView {
        table_infos: runs_without(lv, ids),
        total_file_size: total_file_size(runs_without(lv, ids)) as u64,
        uncompressed_file_size: total_uncompressed_size(runs_without(lv, ids)) as u64,
        ..lv
    }
}

/// `lv` after the runs `infos` joined it: they are appended, all runs are
/// put into key order, and a level that used to overlap no longer does.
pub open spec fn spec_level_insert_ssts(lv: LevelView, infos: Seq<SstView>) -> Result<
    LevelView,
    VersionError,
> {
    match level_with_added(lv, infos) {
        Err(e) => Err(e),
        Ok(grown) => match level_in_key_order(grown) {
            Err(e) => Err(e),
            Ok(ordered) => Ok(
                LevelView {
                    level_type: if ordered.level_type == LevelType::Overlapping {
                        LevelType::Nonoverlapping
                    } else {
                        ordered.level_type
                    },
                    ..ordered
                },
            ),
        },
    }
}

/// The ids of the runs in a list.
pub open spec fn run_ids(s: Seq<SstView>) -> Set<u64> {
    Set::new(|id: u64| exists|i: int| 0 <= i < s.len() && (#[trigger] s[i]).sst_id == id)
}

/// The ids of the runs in a list of levels.
pub open spec fn levels_run_ids(ls: Seq<LevelView>) -> Set<u64> {
    Set::new(
        |id: u64| exists|k: int| 0 <= k < ls.len() && run_ids((#[trigger] ls[k]).table_infos).contains(id),
    )
}

/// The ids of the runs at level `idx` of a group, all sub-levels taken
/// together for level zero.
pub open spec fn run_ids_at(levels: LevelsView, idx: u32) -> Set<u64> {
    if idx == 0 {
        levels_run_ids(levels.l0->0.sub_levels)
    } else {
        run_ids(levels.levels[idx - 1].table_infos)
    }
}

/// The ids of the runs at the listed levels of a group.
pub open spec fn run_ids_at_levels(levels: LevelsView, idxs: Set<u32>) -> Set<u64> {
    Set::new(
        |id: u64| exists|idx: u32| idxs.contains(idx) && (#[trigger] run_ids_at(levels, idx)).contains(id),
    )
}

/// The level `idx` exists in the group.
pub open spec fn level_exists(levels: LevelsView, idx: u32) -> bool {
    if idx == 0 {
        levels.l0 is Some
    } else {
        idx <= levels.levels.len()
    }
}

/// Every listed level exists in the group.
pub open spec fn levels_exist(levels: LevelsView, idxs: Set<u32>) -> bool {
    forall|idx: u32| idxs.contains(idx) ==> #[trigger] level_exists(levels, idx)
}

/// The sub-levels that still hold runs.
pub open spec fn is_occupied() -> spec_fn(LevelView) -> bool {
    |lv: LevelView| lv.table_infos.len() > 0
}

/// Sum of the stored sizes that the levels record.
pub open spec fn levels_file_size(ls: Seq<LevelView>) -> int
    decreases ls.len(),
{
    if ls.len() == 0 {
        0
    } else {
        levels_file_size(ls.drop_last()) + ls.last().total_file_size
    }
}

/// Sum of the uncompressed sizes that the levels record.
pub open spec fn levels_uncompressed_size(ls: Seq<LevelView>) -> int
    decreases ls.len(),
{
    if ls.len() == 0 {
        0
    } else {
        levels_uncompressed_size(ls.drop_last()) + ls.last().uncompressed_file_size
    }
}

/// The first position from `from` on whose sub-level id is not below `id`,
/// or the number of sub-levels where there is none.
pub open spec fn first_not_below(ls: Seq<LevelView>, id: u64, from: int) -> int
    decreases ls.len() - from,
{
    if from < 0 || from >= ls.len() {
        ls.len() as int
    } else if ls[from].sub_level_id >= id {
        from
    } else {
        first_not_below(ls, id, from + 1)
    }
}

/// Whether the level at position `i` of a list is one that loses runs:
/// every level where nothing is listed, else the listed ones, which are
/// counted from one.
pub open spec fn level_listed(listed: Option<Set<u32>>, i: int) -> bool {
    match listed {
        None => true,
        Some(idxs) => 0 <= i < u32::MAX && idxs.contains((i + 1) as u32),
    }
}

/// The levels after every level that loses runs lost those named by `ids`.
pub open spec fn seq_without(ls: Seq<LevelView>, listed: Option<Set<u32>>, ids: Set<u64>) -> Seq<
    LevelView,
> {
    Seq::new(
        ls.len(),
        |i: int|
            if level_listed(listed, i) {
                level_without(ls[i], ids)
            } else {
                ls[i]
            },
    )
}

/// The counters of every level that loses runs can hold what stays.
pub open spec fn seq_without_fits(ls: Seq<LevelView>, listed: Option<Set<u32>>, ids: Set<u64>) -> bool {
    forall|i: int|
        0 <= i < ls.len() && level_listed(listed, i) ==> level_without_fits(#[trigger] ls[i], ids)
}

/// The levels of a group after the deletions of a compaction: every listed
/// level, and every sub-level if level zero is listed, loses the runs whose
/// id the summary names.
pub open spec fn levels_after_delete(levels: LevelsView, s: SummaryView) -> LevelsView {
    LevelsView {
        levels: seq_without(levels.levels, Some(s.delete_sst_levels), s.delete_sst_ids_set),
        l0: if s.delete_sst_levels.contains(0) {
            Some(
                L0View {
                    sub_levels: seq_without(levels.l0->0.sub_levels, None, s.delete_sst_ids_set),
                    ..levels.l0->0
                },
            )
        } else {
            levels.l0
        },
        ..levels
    }
}

/// The counters of every level of the group that loses runs can hold what
/// stays.
pub open spec fn delete_fits(levels: LevelsView, s: SummaryView) -> bool {
    &&& seq_without_fits(levels.levels, Some(s.delete_sst_levels), s.delete_sst_ids_set)
    &&& s.delete_sst_levels.contains(0) ==> seq_without_fits(
        levels.l0->0.sub_levels,
        None,
        s.delete_sst_ids_set,
    )
}

/// The levels of a group after the insertion of a compaction: the new runs
/// join the level that the summary names; at level zero they join the
/// sub-level that carries the named id, which must exist.
pub open spec fn levels_after_insert(levels: LevelsView, s: SummaryView) -> Result<
    LevelsView,
    VersionError,
> {
    if s.insert_table_infos.len() == 0 {
        Ok(levels)
    } else if s.insert_sst_level_id == 0 {
        if levels.l0 is None {
            Err(VersionError::MissingLevel0)
        } else {
            let l0 = levels.l0->0;
            let index = first_not_below(l0.sub_levels, s.insert_sub_level_id, 0);
            if index >= l0.sub_levels.len() || l0.sub_levels[index].sub_level_id
                != s.insert_sub_level_id {
                Err(VersionError::SubLevelNotFound)
            } else {
                match spec_level_insert_ssts(l0.sub_levels[index], s.insert_table_infos) {
                    Err(e) => Err(e),
                    Ok(level) => Ok(
                        LevelsView {
                            l0: Some(L0View { sub_levels: l0.sub_levels.update(index, level), ..l0 }),
                            ..levels
                        },
                    ),
                }
            }
        }
    } else if s.insert_sst_level_id > levels.levels.len() {
        Err(VersionError::LevelOutOfRange)
    } else {
        let idx = s.insert_sst_level_id - 1;
        match spec_level_insert_ssts(levels.levels[idx], s.insert_table_infos) {
            Err(e) => Err(e),
            Ok(level) => Ok(LevelsView { levels: levels.levels.update(idx, level), ..levels }),
        }
    }
}

/// Level zero without its empty sub-levels, its counters set to the sums of
/// the counters of the sub-levels that stay.
pub open spec fn l0_purged(l0: L0View) -> Result<L0View, VersionError> {
    let kept = l0.sub_levels.filter(is_occupied());
    if levels_file_size(kept) > u64::MAX || levels_uncompressed_size(kept) > u64::MAX {
        Err(VersionError::SizeOverflow)
    } else {
        Ok(
            L0View {
                sub_levels: kept,
                total_file_size: levels_file_size(kept) as u64,
                uncompressed_file_size: levels_uncompressed_size(kept) as u64,
            },
        )
    }
}

/// The levels of a group after a compaction result was applied.
///
/// The result is refused where a listed level does not exist. It is dropped,
/// and the levels stay as they are, where one of the runs it removes is not
/// at a listed level: such a result is stale. Otherwise the listed levels
/// lose the removed runs, the new runs join their level, and level zero, if
/// it lost runs, drops the sub-levels that became empty.
pub open spec fn spec_apply_compact_ssts(levels: LevelsView, s: SummaryView) -> Result<
    LevelsView,
    VersionError,
> {
    if s.delete_sst_levels.contains(0) && levels.l0 is None {
        Err(VersionError::MissingLevel0)
    } else if !levels_exist(levels, s.delete_sst_levels) {
        Err(VersionError::LevelOutOfRange)
    } else if !s.delete_sst_ids_set.subset_of(run_ids_at_levels(levels, s.delete_sst_levels)) {
        Ok(levels)
    } else if !delete_fits(levels, s) {
        Err(VersionError::SizeOverflow)
    } else {
        match levels_after_insert(levels_after_delete(levels, s), s) {
            Err(e) => Err(e),
            Ok(inserted) => if s.delete_sst_levels.contains(0) {
                match l0_purged(inserted.l0->0) {
                    Err(e) => Err(e),
                    Ok(l0) => Ok(LevelsView { l0: Some(l0), ..inserted }),
                }
            } else {
                Ok(inserted)
            },
        }
    }
}

/// Removes from a level the runs whose id is in the set and sets its
/// counters to the sizes of the runs that stay. Returns whether a run left.
/// A refusal leaves the level untouched.
pub fn level_delete_ssts(operand: &mut Level, delete_sst_ids_superset: &HashSet<u64>) -> (r: Result<
    bool,
    VersionError,
>)
    ensures
        match r {
            Ok(changed) => level_without_fits(old(operand)@, delete_sst_ids_superset@)
                && final(operand)@ == level_without(old(operand)@, delete_sst_ids_superset@)
                && changed == (final(operand)@.table_infos.len() != old(
                operand,
            )@.table_infos.len()),
            Err(e) => e == VersionError::SizeOverflow && !level_without_fits(
                old(operand)@,
                delete_sst_ids_superset@,
            ) && *final(operand) == *old(operand),
        },
{
    let ghost ids = delete_sst_ids_superset@;
    let ghost orig = runs_view(operand.table_infos@);
    let len_before = operand.table_infos.len();
    let runs = copy_runs(&operand.table_infos);
    let ghost vs = runs@;
    let mut kept: Vec<SstableInfo> = Vec::new();
    proof {
        lemma_filter_empty::<SstView>(keeps_run(ids));
        assert(orig.subrange(0, 0) =~= Seq::<SstView>::empty());
    }
    for x in it: runs
        invariant
            it.seq() == vs,
            orig == runs_view(vs),
            ids == delete_sst_ids_superset@,
            runs_view(kept@) == orig.subrange(0, it.index() as int).filter(keeps_run(ids)),
    {
        proof {
            let i = it.index();
            assert(orig[i] == x@);
            assert(orig.subrange(0, i + 1) =~= orig.subrange(0, i).push(x@));
            lemma_filter_push(orig.subrange(0, i), x@, keeps_run(ids));
        }
        if !delete_sst_ids_superset.contains(&x.sst_id) {
            let ghost before = runs_view(kept@);
            let ghost xv = x@;
            kept.push(x);
            assert(runs_view(kept@) =~= before.push(xv));
        }
    }
    assert(orig.subrange(0, orig.len() as int) =~= orig);
    let changed = len_before != kept.len();
    match sum_sizes(&kept) {
        Some((file, uncompressed)) => {
            operand.table_infos = kept;
            operand.total_file_size = file;
            operand.uncompressed_file_size = uncompressed;
            Ok(changed)
        },
        None => Err(VersionError::SizeOverflow),
    }
}

/// Adds runs to a level, puts all its runs into key order and checks that
/// none overlaps the next. A refusal leaves the level untouched.
pub fn level_insert_ssts(operand: &mut Level, insert_table_infos: Vec<SstableInfo>) -> (r: Result<
    (),
    VersionError,
>)
    ensures
        match r {
            Ok(()) => spec_level_insert_ssts(old(operand)@, runs_view(insert_table_infos@)) == Ok::<
                LevelView,
                VersionError,
            >(final(operand)@),
            Err(e) => spec_level_insert_ssts(old(operand)@, runs_view(insert_table_infos@))
                == Err::<LevelView, VersionError>(e) && *final(operand) == *old(operand),
        },
{
    let mut next = operand.clone();
    level_add_runs(&mut next, insert_table_infos)?;
    level_sort_runs(&mut next)?;
    if next.level_type == LevelType::Overlapping {
        next.level_type = LevelType::Nonoverlapping;
    }
    *operand = next;
    Ok(())
}

/// Takes the ids of the given runs out of the set.
fn remove_run_ids(set: &mut HashSet<u64>, runs: &Vec<SstableInfo>)
    ensures
        final(set)@ == old(set)@.difference(run_ids(runs_view(runs@))),
{
    let ghost s = runs_view(runs@);
    let mut i: usize = 0;
    while i < runs.len()
        invariant
            i <= runs.len(),
            s == runs_view(runs@),
            set@ == old(set)@.difference(run_ids(s.subrange(0, i as int))),
        decreases runs.len() - i,
    {
        set.remove(&runs[i].sst_id);
        proof {
            let a = s.subrange(0, i as int);
            let b = s.subrange(0, i + 1);
            assert(b[i as int] == s[i as int]);
            assert forall|id: u64| run_ids(b).contains(id) <==> (run_ids(a).contains(id) || id
                == s[i as int].sst_id) by {
                if run_ids(b).contains(id) {
                    let k = choose|k: int| 0 <= k < b.len() && (#[trigger] b[k]).sst_id == id;
                    if k < i {
                        assert(a[k].sst_id == id);
                    }
                }
                if run_ids(a).contains(id) {
                    let k = choose|k: int| 0 <= k < a.len() && (#[trigger] a[k]).sst_id == id;
                    assert(b[k].sst_id == id);
                }
            }
            assert(set@ =~= old(set)@.difference(run_ids(b)));
        }
        i += 1;
    }
    assert(s.subrange(0, i as int) =~= s);
}

/// Takes the ids of all runs of the given levels out of the set.
fn remove_levels_run_ids(set: &mut HashSet<u64>, levels: &Vec<Level>)
    ensures
        final(set)@ == old(set)@.difference(levels_run_ids(levels_view(levels@))),
{
    let ghost ls = levels_view(levels@);
    let mut i: usize = 0;
    while i < levels.len()
        invariant
            i <= levels.len(),
            ls == levels_view(levels@),
            set@ == old(set)@.difference(levels_run_ids(ls.subrange(0, i as int))),
        decreases levels.len() - i,
    {
        remove_run_ids(set, &levels[i].table_infos);
        proof {
            let a = ls.subrange(0, i as int);
            let b = ls.subrange(0, i + 1);
            assert(b[i as int] == ls[i as int]);
            assert forall|id: u64| levels_run_ids(b).contains(id) <==> (levels_run_ids(a).contains(
                id,
            ) || run_ids(ls[i as int].table_infos).contains(id)) by {
                if levels_run_ids(b).contains(id) {
                    let k = choose|k: int|
                        0 <= k < b.len() && run_ids((#[trigger] b[k]).table_infos).contains(id);
                    if k < i {
                        assert(run_ids(a[k].table_infos).contains(id));
                    }
                }
                if levels_run_ids(a).contains(id) {
                    let k = choose|k: int|
                        0 <= k < a.len() && run_ids((#[trigger] a[k]).table_infos).contains(id);
                    assert(run_ids(b[k].table_infos).contains(id));
                }
            }
            assert(set@ =~= old(set)@.difference(levels_run_ids(b)));
        }
        i += 1;
    }
    assert(ls.subrange(0, i as int) =~= ls);
}

/// Whether `x` is in the list.
pub fn contains_level(v: &Vec<u32>, x: u32) -> (r: bool)
    ensures
        r == v@.to_set().contains(x),
{
    let mut i: usize = 0;
    while i < v.len()
        invariant
            i <= v.len(),
            forall|k: int| 0 <= k < i ==> v[k] != x,
        decreases v.len() - i,
    {
        if v[i] == x {
            assert(v@.contains(x));
            return true;
        }
        i += 1;
    }
    assert(!v@.contains(x));
    false
}

/// The listed levels as a set; `None` lists every level.
pub open spec fn listed_view(listed: Option<&Vec<u32>>) -> Option<Set<u32>> {
    match listed {
        Some(v) => Some(v@.to_set()),
        None => None,
    }
}

/// Removes the runs named by `ids` from every level that loses runs.
fn delete_from_levels(levels: &mut Vec<Level>, listed: Option<&Vec<u32>>, ids: &HashSet<u64>) -> (r:
    Result<(), VersionError>)
    ensures
        match r {
            Ok(()) => seq_without_fits(levels_view(old(levels)@), listed_view(listed), ids@)
                && levels_view(final(levels)@) == seq_without(
                levels_view(old(levels)@),
                listed_view(listed),
                ids@,
            ),
            Err(e) => e == VersionError::SizeOverflow && !seq_without_fits(
                levels_view(old(levels)@),
                listed_view(listed),
                ids@,
            ),
        },
{
    let ghost orig = levels_view(levels@);
    let ghost sel = listed_view(listed);
    let mut i: usize = 0;
    while i < levels.len()
        invariant
            i <= levels.len(),
            levels.len() == orig.len(),
            orig == levels_view(old(levels)@),
            sel == listed_view(listed),
            forall|k: int|
                0 <= k < i ==> (#[trigger] levels[k])@ == if level_listed(sel, k) {
                    level_without(orig[k], ids@)
                } else {
                    orig[k]
                },
            forall|k: int| 0 <= k < i && level_listed(sel, k) ==> level_without_fits(#[trigger] orig[k], ids@),
            forall|k: int| i <= k < levels.len() ==> (#[trigger] levels[k])@ == orig[k],
        decreases levels.len() - i,
    {
        let hit = match listed {
            None => true,
            Some(v) => i < u32::MAX as usize && contains_level(v, (i + 1) as u32),
        };
        assert(hit == level_listed(sel, i as int));
        if hit {
            let ghost snapshot = levels@;
            match level_delete_ssts(&mut levels[i], ids) {
                Ok(_) => {},
                Err(e) => {
                    assert(!level_without_fits(orig[i as int], ids@));
                    return Err(e);
                },
            }
            assert(forall|k: int| 0 <= k < levels.len() && k != i ==> levels[k] == snapshot[k]);
        }
        i += 1;
    }
    assert(levels_view(levels@) =~= seq_without(orig, sel, ids@));
    Ok(())
}

/// Adds up the sizes that the levels record; `None` once a sum leaves `u64`.
fn sum_level_sizes(levels: &Vec<Level>) -> (r: Option<(u64, u64)>)
    ensures
        match r {
            Some((file, uncompressed)) => file == levels_file_size(levels_view(levels@))
                && uncompressed == levels_uncompressed_size(levels_view(levels@)),
            None => levels_file_size(levels_view(levels@)) > u64::MAX || levels_uncompressed_size(
                levels_view(levels@),
            ) > u64::MAX,
        },
{
    let ghost ls = levels_view(levels@);
    let mut file: u64 = 0;
    let mut uncompressed: u64 = 0;
    let mut i: usize = 0;
    while i < levels.len()
        invariant
            i <= levels.len(),
            ls == levels_view(levels@),
            file == levels_file_size(ls.subrange(0, i as int)),
            uncompressed == levels_uncompressed_size(ls.subrange(0, i as int)),
        decreases levels.len() - i,
    {
        proof {
            let next = ls.subrange(0, i + 1);
            assert(next.drop_last() =~= ls.subrange(0, i as int));
            assert(next.last() == levels[i as int]@);
            lemma_level_sizes_prefix(ls, i + 1);
        }
        file = match file.checked_add(levels[i].total_file_size) {
            Some(x) => x,
            None => {
                return None;
            },
        };
        uncompressed = match uncompressed.checked_add(levels[i].uncompressed_file_size) {
            Some(x) => x,
            None => {
                return None;
            },
        };
        i += 1;
    }
    assert(ls.subrange(0, i as int) =~= ls);
    Some((file, uncompressed))
}

/// The recorded sizes of a prefix do not exceed those of the whole list.
pub proof fn lemma_level_sizes_prefix(ls: Seq<LevelView>, k: int)
    requires
        0 <= k <= ls.len(),
    ensures
        levels_file_size(ls.subrange(0, k)) <= levels_file_size(ls),
        levels_uncompressed_size(ls.subrange(0, k)) <= levels_uncompressed_size(ls),
    decreases ls.len() - k,
{
    if k == ls.len() {
        assert(ls.subrange(0, k) =~= ls);
    } else {
        assert(ls.subrange(0, k + 1).drop_last() =~= ls.subrange(0, k));
        lemma_level_sizes_prefix(ls, k + 1);
    }
}

/// Drops the empty sub-levels of level zero and sets its counters to the
/// sums over the sub-levels that stay.
fn purge_empty_sub_levels(l0: &mut OverlappingLevel) -> (r: Result<(), VersionError>)
    ensures
        match r {
            Ok(()) => l0_purged(old(l0)@) == Ok::<L0View, VersionError>(final(l0)@),
            Err(e) => l0_purged(old(l0)@) == Err::<L0View, VersionError>(e),
        },
{
    let ghost orig = levels_view(l0.sub_levels@);
    let mut subs: Vec<Level> = Vec::new();
    core::mem::swap(&mut l0.sub_levels, &mut subs);
    let ghost vs = subs@;
    let mut kept: Vec<Level> = Vec::new();
    proof {
        lemma_filter_empty::<LevelView>(is_occupied());
        assert(orig.subrange(0, 0) =~= Seq::<LevelView>::empty());
    }
    for x in it: subs
        invariant
            it.seq() == vs,
            orig == levels_view(vs),
            levels_view(kept@) == orig.subrange(0, it.index() as int).filter(is_occupied()),
    {
        proof {
            let i = it.index();
            assert(orig[i] == x@);
            assert(orig.subrange(0, i + 1) =~= orig.subrange(0, i).push(x@));
            lemma_filter_push(orig.subrange(0, i), x@, is_occupied());
        }
        if x.table_infos.len() > 0 {
            let ghost before = levels_view(kept@);
            let ghost xv = x@;
            kept.push(x);
            assert(levels_view(kept@) =~= before.push(xv));
        }
    }
    assert(orig.subrange(0, orig.len() as int) =~= orig);
    let sizes = sum_level_sizes(&kept);
    l0.sub_levels = kept;
    match sizes {
        Some((file, uncompressed)) => {
            l0.total_file_size = file;
            l0.uncompressed_file_size = uncompressed;
            Ok(())
        },
        None => Err(VersionError::SizeOverflow),
    }
}

/// The first position whose sub-level id is not below `id`.
pub(crate) fn find_first_not_below(sub_levels: &Vec<Level>, id: u64) -> (r: usize)
    ensures
        r == first_not_below(levels_view(sub_levels@), id, 0),
        r <= sub_levels.len(),
{
    let ghost ls = levels_view(sub_levels@);
    let mut i: usize = 0;
    while i < sub_levels.len() && sub_levels[i].sub_level_id < id
        invariant
            i <= sub_levels.len(),
            ls == levels_view(sub_levels@),
            first_not_below(ls, id, 0) == first_not_below(ls, id, i as int),
        decreases sub_levels.len() - i,
    {
        assert(ls[i as int].sub_level_id < id);
        i += 1;
    }
    if i < sub_levels.len() {
        assert(ls[i as int].sub_level_id >= id);
    }
    i
}

/// Whether every listed level exists among `count` levels, level zero aside.
fn check_levels_in_range(listed: &Vec<u32>, count: usize) -> (r: bool)
    ensures
        r == forall|idx: u32| listed@.to_set().contains(idx) ==> idx <= count,
{
    let mut j: usize = 0;
    while j < listed.len()
        invariant
            j <= listed.len(),
            forall|k: int| 0 <= k < j ==> listed[k] <= count,
        decreases listed.len() - j,
    {
        if listed[j] as usize > count {
            assert(listed@.to_set().contains(listed[j as int])) by {
                assert(listed@.contains(listed[j as int]));
            }
            return false;
        }
        j += 1;
    }
    assert forall|idx: u32| listed@.to_set().contains(idx) implies idx <= count by {
        let k = choose|k: int| 0 <= k < listed.len() && listed[k] == idx;
    }
    true
}

/// Copies a set of run ids.
pub fn copy_id_set(ids: &HashSet<u64>) -> (r: HashSet<u64>)
    ensures
        r@ == ids@,
{
    let mut out: HashSet<u64> = HashSet::new();
    let ghost all: Seq<u64> = vstd::std_specs::hash::spec_hash_keys_iter(ids).remaining().unref();
    for k in it: ids.iter()
        invariant
            it.seq().unref() == all,
            out@ == all.subrange(0, it.index()).to_set(),
    {
        out.insert(*k);
        proof {
            let a = all.subrange(0, it.index());
            let b = all.subrange(0, it.index() + 1);
            assert(b =~= a.push(*k));
            vstd::seq_lib::seq_to_set_is_finite(a);
            a.lemma_push_to_set_commute(*k);
        }
    }
    assert(all.subrange(0, all.len() as int) =~= all);
    out
}

impl Levels {
    /// Level zero of the group.
    pub fn get_level0(&self) -> (r: &OverlappingLevel)
        requires
            self.l0 is Some,
        ensures
            *r == self.l0->0,
    {
        self.l0.as_ref().unwrap()
    }

    /// The level with index `level_idx`, counted from one.
    pub fn get_level(&self, level_idx: usize) -> (r: &Level)
        requires
            1 <= level_idx <= self.levels.len(),
        ensures
            *r == self.levels[level_idx - 1],
    {
        &self.levels[level_idx - 1]
    }

    /// The level with index `level_idx`, counted from one, for writing.
    pub fn get_level_mut(&mut self, level_idx: usize) -> (r: &mut Level)
        requires
            1 <= level_idx <= old(self).levels.len(),
        ensures
            *r == old(self).levels[level_idx - 1],
            final(self).levels@ == old(self).levels@.update(level_idx - 1, *final(r)),
            final(self).l0 == old(self).l0,
            final(self).group_id == old(self).group_id,
            final(self).parent_group_id == old(self).parent_group_id,
            final(self).member_table_ids == old(self).member_table_ids,
    {
        &mut self.levels[level_idx - 1]
    }

    /// Number of runs in the group, level zero included. A group without
    /// level zero counts the runs of its other levels. A count beyond
    /// `usize` is given as `usize::MAX`.
    pub fn count_ssts(&self) -> (r: usize)
        ensures
            r == if spec_count_ssts(self@) <= usize::MAX {
                spec_count_ssts(self@)
            } else {
                usize::MAX as int
            },
    {
        proof {
            lemma_runs_in_nonnegative(self@.levels);
            if self@.l0 is Some {
                lemma_runs_in_nonnegative(self@.l0->0.sub_levels);
            }
        }
        let in_l0 = match &self.l0 {
            Some(l0) => count_runs(&l0.sub_levels),
            None => Some(0),
        };
        match (in_l0, count_runs(&self.levels)) {
            (Some(a), Some(b)) => match a.checked_add(b) {
                Some(n) => n,
                None => usize::MAX,
            },
            _ => usize::MAX,
        }
    }

    /// Applies a compaction result to the group. A stale result, one that
    /// removes a run which is not at the levels it names, is dropped and
    /// leaves the group as it is. So does a result that is refused.
    pub fn apply_compact_ssts(&mut self, summary: GroupDeltasSummary) -> (r: Result<
        (),
        VersionError,
    >)
        ensures
            match r {
                Ok(()) => spec_apply_compact_ssts(old(self)@, summary@) == Ok::<
                    LevelsView,
                    VersionError,
                >(final(self)@),
                Err(e) => spec_apply_compact_ssts(old(self)@, summary@) == Err::<
                    LevelsView,
                    VersionError,
                >(e) && *final(self) == *old(self),
            },
    {
        let mut next = self.clone();
        next.compact_in_place(summary)?;
        *self = next;
        Ok(())
    }

    /// Applies a compaction result to the group. After a refusal the group
    /// is in no specified state.
    pub(crate) fn compact_in_place(&mut self, summary: GroupDeltasSummary) -> (r: Result<
        (),
        VersionError,
    >)
        ensures
            match r {
                Ok(()) => spec_apply_compact_ssts(old(self)@, summary@) == Ok::<
                    LevelsView,
                    VersionError,
                >(final(self)@),
                Err(e) => spec_apply_compact_ssts(old(self)@, summary@) == Err::<
                    LevelsView,
                    VersionError,
                >(e),
            },
    {
        let ghost orig = self@;
        let ghost s = summary@;
        let GroupDeltasSummary {
            delete_sst_levels,
            delete_sst_ids_set,
            insert_sst_level_id,
            insert_sub_level_id,
            insert_table_infos,
            inserts_below_level0: _,
            group_construct: _,
            group_destroy: _,
            group_meta_changes: _,
            group_table_change: _,
        } = summary;
        let deletes_l0 = contains_level(&delete_sst_levels, 0);
        if deletes_l0 && self.l0.is_none() {
            return Err(VersionError::MissingLevel0);
        }
        if !check_levels_in_range(&delete_sst_levels, self.levels.len()) {
            proof {
                let idx = choose|idx: u32|
                    delete_sst_levels@.to_set().contains(idx) && idx > self.levels.len();
                assert(!level_exists(orig, idx));
            }
            return Err(VersionError::LevelOutOfRange);
        }
        assert(levels_exist(orig, s.delete_sst_levels)) by {
            assert forall|idx: u32| s.delete_sst_levels.contains(idx) implies #[trigger] level_exists(
                orig,
                idx,
            ) by {}
        }
        if !self.check_deleted_sst_exist(
            delete_sst_levels.as_slice(),
            copy_id_set(&delete_sst_ids_set),
        ) {
            return Ok(());
        }
        delete_from_levels(&mut self.levels, Some(&delete_sst_levels), &delete_sst_ids_set)?;
        if deletes_l0 {
            match &mut self.l0 {
                Some(l0) => {
                    delete_from_levels(&mut l0.sub_levels, None, &delete_sst_ids_set)?;
                },
                None => {},
            }
        }
        assert(self@ =~~= levels_after_delete(orig, s));
        let ghost deleted = self@;
        if insert_table_infos.len() > 0 {
            if insert_sst_level_id == 0 {
                match &mut self.l0 {
                    Some(l0) => {
                        let index = find_first_not_below(&l0.sub_levels, insert_sub_level_id);
                        if index >= l0.sub_levels.len() || l0.sub_levels[index].sub_level_id
                            != insert_sub_level_id {
                            return Err(VersionError::SubLevelNotFound);
                        }
                        let ghost subs = l0.sub_levels@;
                        level_insert_ssts(&mut l0.sub_levels[index], insert_table_infos)?;
                        assert(levels_view(l0.sub_levels@) =~= levels_view(subs).update(
                            index as int,
                            l0.sub_levels[index as int]@,
                        ));
                    },
                    None => {
                        return Err(VersionError::MissingLevel0);
                    },
                }
            } else {
                if insert_sst_level_id as usize > self.levels.len() {
                    return Err(VersionError::LevelOutOfRange);
                }
                let idx: usize = insert_sst_level_id as usize - 1;
                let ghost lvs = self.levels@;
                level_insert_ssts(&mut self.levels[idx], insert_table_infos)?;
                assert(levels_view(self.levels@) =~= levels_view(lvs).update(
                    idx as int,
                    self.levels[idx as int]@,
                ));
            }
        }
        assert(levels_after_insert(deleted, s) == Ok::<LevelsView, VersionError>(self@));
        if deletes_l0 {
            match &mut self.l0 {
                Some(l0) => {
                    purge_empty_sub_levels(l0)?;
                },
                None => {},
            }
        }
        Ok(())
    }

    /// Whether every run that a compaction result removes is at one of the
    /// levels that the result names.
    pub fn check_deleted_sst_exist(
        &self,
        delete_sst_levels: &[u32],
        delete_sst_ids_set: HashSet<u64>,
    ) -> (r: bool)
        requires
            levels_exist(self@, delete_sst_levels@.to_set()),
        ensures
            r == delete_sst_ids_set@.subset_of(
                run_ids_at_levels(self@, delete_sst_levels@.to_set()),
            ),
    {
        let mut rest = delete_sst_ids_set;
        let ghost orig = rest@;
        let ghost dl = delete_sst_levels@;
        let mut j: usize = 0;
        assert(rest@ =~= orig.difference(run_ids_at_levels(self@, dl.subrange(0, 0).to_set())));
        while j < delete_sst_levels.len()
            invariant
                j <= delete_sst_levels.len(),
                dl == delete_sst_levels@,
                levels_exist(self@, dl.to_set()),
                rest@ == orig.difference(
                    run_ids_at_levels(self@, dl.subrange(0, j as int).to_set()),
                ),
            decreases delete_sst_levels.len() - j,
        {
            let level_idx: u32 = delete_sst_levels[j];
            assert(dl.to_set().contains(level_idx)) by {
                assert(dl[j as int] == level_idx);
            }
            assert(level_exists(self@, level_idx));
            let ghost before = rest@;
            if level_idx == 0 {
                match &self.l0 {
                    Some(l0) => {
                        remove_levels_run_ids(&mut rest, &l0.sub_levels);
                    },
                    None => {},
                }
            } else {
                let idx: usize = level_idx as usize - 1;
                assert(self@.levels[idx as int] == self.levels[idx as int]@);
                remove_run_ids(&mut rest, &self.levels[idx].table_infos);
            }
            assert(rest@ == before.difference(run_ids_at(self@, level_idx)));
            proof {
                let a = dl.subrange(0, j as int);
                let b = dl.subrange(0, j + 1);
                assert(b[j as int] == level_idx);
                assert forall|id: u64| run_ids_at_levels(self@, b.to_set()).contains(id) <==> (
                run_ids_at_levels(self@, a.to_set()).contains(id) || run_ids_at(
                    self@,
                    level_idx,
                ).contains(id)) by {
                    if run_ids_at_levels(self@, b.to_set()).contains(id) {
                        let x = choose|x: u32|
                            b.to_set().contains(x) && (#[trigger] run_ids_at(self@, x)).contains(id);
                        let k = choose|k: int| 0 <= k < b.len() && b[k] == x;
                        if k < j {
                            assert(a[k] == x);
                            assert(a.to_set().contains(x));
                        }
                    }
                    if run_ids_at_levels(self@, a.to_set()).contains(id) {
                        let x = choose|x: u32|
                            a.to_set().contains(x) && (#[trigger] run_ids_at(self@, x)).contains(id);
                        let k = choose|k: int| 0 <= k < a.len() && a[k] == x;
                        assert(b[k] == x);
                        assert(b.to_set().contains(x));
                    }
                    if run_ids_at(self@, level_idx).contains(id) {
                        assert(b.to_set().contains(level_idx));
                    }
                }
                assert(rest@ =~= orig.difference(run_ids_at_levels(self@, b.to_set())));
            }
            j += 1;
        }
        assert(dl.subrange(0, j as int) =~= dl);
        proof {
            let found = run_ids_at_levels(self@, dl.to_set());
            if orig.subset_of(found) {
                assert(rest@ =~= Set::<u64>::empty());
            } else {
                let id = choose|id: u64| orig.contains(id) && !found.contains(id);
                assert(rest@.contains(id));
            }
        }
        rest.is_empty()
    }
}

/// Number of runs in a list of levels.
pub open spec fn runs_in(ls: Seq<LevelView>) -> int
    decreases ls.len(),
{
    if ls.len() == 0 {
        0
    } else {
        runs_in(ls.drop_last()) + ls.last().table_infos.len()
    }
}

/// Number of runs in all levels of a group.
pub open spec fn spec_count_ssts(levels: LevelsView) -> int {
    runs_in(levels.levels) + match levels.l0 {
        Some(l0) => runs_in(l0.sub_levels),
        None => 0,
    }
}

/// A count of runs is not negative.
pub proof fn lemma_runs_in_nonnegative(ls: Seq<LevelView>)
    ensures
        runs_in(ls) >= 0,
    decreases ls.len(),
{
    if ls.len() > 0 {
        lemma_runs_in_nonnegative(ls.drop_last());
    }
}

/// The count of a prefix does not exceed the count of the whole.
pub proof fn lemma_runs_in_prefix(ls: Seq<LevelView>, k: int)
    requires
        0 <= k <= ls.len(),
    ensures
        runs_in(ls.subrange(0, k)) <= runs_in(ls),
    decreases ls.len() - k,
{
    if k == ls.len() {
        assert(ls.subrange(0, k) =~= ls);
    } else {
        assert(ls.subrange(0, k + 1).drop_last() =~= ls.subrange(0, k));
        lemma_runs_in_prefix(ls, k + 1);
    }
}

/// The number of runs in `levels`; `None` where it is beyond `usize`.
fn count_runs(levels: &Vec<Level>) -> (r: Option<usize>)
    ensures
        match r {
            Some(n) => n == runs_in(levels_view(levels@)),
            None => runs_in(levels_view(levels@)) > usize::MAX,
        },
{
    let ghost ls = levels_view(levels@);
    let mut n: usize = 0;
    let mut i: usize = 0;
    while i < levels.len()
        invariant
            i <= levels.len(),
            ls == levels_view(levels@),
            n == runs_in(ls.subrange(0, i as int)),
        decreases levels.len() - i,
    {
        proof {
            assert(ls.subrange(0, i + 1).drop_last() =~= ls.subrange(0, i as int));
            assert(ls.subrange(0, i + 1).last().table_infos.len() == levels[i as int].table_infos.len());
            lemma_runs_in_prefix(ls, i + 1);
        }
        n = match n.checked_add(levels[i].table_infos.len()) {
            Some(x) => x,
            None => {
                return None;
            },
        };
        i += 1;
    }
    assert(ls.subrange(0, i as int) =~= ls);
    Some(n)
}

} // verus!
