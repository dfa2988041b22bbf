//! The validation reports an overlap exactly where two neighbours overlap.

use vstd::prelude::*;
use crate::key::KeyOrder;
use crate::laws::concat::lemma_ascending_seq_covers;
use crate::level::{LevelType, LevelView, LevelsView};
use crate::ordered::ascending_seq;
use crate::sstable::runs_concatenable;
use crate::validate::{
    expected_level_idx, group_violations, groups_violations, level_violations,
    lower_levels_violations, members_violations, non_descending, run_violations, runs_violations,
    sub_level_violations, sub_levels_violations, version_violations, Violation,
};
use crate::version::VersionView;

verus! {

/// The run at `i` and the run before it can both be decoded, and the
/// earlier one does not end below the start of the later one.
pub open spec fn overlaps_at(level: LevelView, i: int) -> bool {
    &&& 0 < i < level.table_infos.len()
    &&& level.table_infos[i - 1].has_right()
    &&& level.table_infos[i].has_left()
    &&& level.table_infos[i - 1].key_range->0.compare_right_with(
        level.table_infos[i].key_range->0.left,
    ) != KeyOrder::Less
}

/// The report of an overlap in the level for the object `object_id`.
pub open spec fn overlap_report(group_id: u64, level: LevelView, object_id: u64) -> Violation {
    Violation::KeyRangeOverlap {
        group_id,
        level_idx: level.level_idx,
        sub_level_id: level.sub_level_id,
        object_id,
    }
}

/// An element of two lists put together is an element of one of them.
pub proof fn lemma_contains_concat<A>(a: Seq<A>, b: Seq<A>, x: A)
    ensures
        (a + b).contains(x) <==> a.contains(x) || b.contains(x),
{
    if a.contains(x) {
        let i = choose|i: int| 0 <= i < a.len() && a[i] == x;
        assert((a + b)[i] == x);
    }
    if b.contains(x) {
        let i = choose|i: int| 0 <= i < b.len() && b[i] == x;
        assert((a + b)[a.len() + i] == x);
    }
    if (a + b).contains(x) {
        let i = choose|i: int| 0 <= i < (a + b).len() && (a + b)[i] == x;
        if i < a.len() {
            assert(a[i] == x);
        } else {
            assert(b[i - a.len()] == x);
        }
    }
}

/// For a run of a level without overlap that can be decoded, as can the run
/// before it: the validation reports an overlap for the run if and only if
/// the run before it does not end below its start.
pub proof fn law_overlap_reported_for_run(group_id: u64, level: LevelView, i: int)
    requires
        level.level_type == LevelType::Nonoverlapping,
        0 < i < level.table_infos.len(),
        level.table_infos[i - 1].has_right(),
        level.table_infos[i].has_left(),
    ensures
        run_violations(group_id, level, i).contains(
            overlap_report(group_id, level, level.table_infos[i].object_id),
        ) <==> level.table_infos[i - 1].key_range->0.compare_right_with(
            level.table_infos[i].key_range->0.left,
        ) != KeyOrder::Less,
{
    lemma_run_reports(group_id, level, i, level.table_infos[i].object_id);
}

/// What is found wrong with the run at `i` holds the report of an overlap
/// for an object exactly where the run is of that object and overlaps
/// with the run before it.
pub proof fn lemma_run_reports(group_id: u64, level: LevelView, i: int, object_id: u64)
    requires
        level.level_type == LevelType::Nonoverlapping,
        0 <= i < level.table_infos.len(),
    ensures
        run_violations(group_id, level, i).contains(overlap_report(group_id, level, object_id))
            <==> overlaps_at(level, i) && level.table_infos[i].object_id == object_id,
{
    let report = overlap_report(group_id, level, object_id);
    let found = run_violations(group_id, level, i);
    if overlaps_at(level, i) && level.table_infos[i].object_id == object_id {
        assert(found.last() == report);
    }
    if found.contains(report) {
        let j = choose|j: int| 0 <= j < found.len() && found[j] == report;
        assert(found[j] is KeyRangeOverlap);
    }
}

/// What is found wrong with the first `n` runs holds the report of an
/// overlap for an object exactly where one of them is of that object and
/// overlaps with the run before it.
pub proof fn lemma_runs_report(group_id: u64, level: LevelView, n: int, object_id: u64)
    requires
        level.level_type == LevelType::Nonoverlapping,
        0 <= n <= level.table_infos.len(),
    ensures
        runs_violations(group_id, level, n).contains(overlap_report(group_id, level, object_id))
            <==> exists|i: int|
            i < n && #[trigger] overlaps_at(level, i) && level.table_infos[i].object_id == object_id,
    decreases n,
{
    let report = overlap_report(group_id, level, object_id);
    if n > 0 {
        lemma_runs_report(group_id, level, n - 1, object_id);
        lemma_run_reports(group_id, level, n - 1, object_id);
        lemma_contains_concat(
            runs_violations(group_id, level, n - 1),
            run_violations(group_id, level, n - 1),
            report,
        );
        if runs_violations(group_id, level, n).contains(report) {
            if runs_violations(group_id, level, n - 1).contains(report) {
                let i = choose|i: int|
                    i < n - 1 && #[trigger] overlaps_at(level, i) && level.table_infos[i].object_id
                        == object_id;
                assert(i < n && overlaps_at(level, i));
            } else {
                assert(overlaps_at(level, n - 1));
            }
        }
        if exists|i: int|
            i < n && #[trigger] overlaps_at(level, i) && level.table_infos[i].object_id == object_id {
            let i = choose|i: int|
                i < n && #[trigger] overlaps_at(level, i) && level.table_infos[i].object_id
                    == object_id;
            if i < n - 1 {
                assert(overlaps_at(level, i));
            }
        }
    } else {
        assert(runs_violations(group_id, level, n) =~= Seq::<Violation>::empty());
    }
}

/// The validation of a level without overlap reports an overlap for an
/// object if and only if a run of that object in the level overlaps with
/// the run before it, both being decodable.
pub proof fn law_level_reports_overlaps_exactly(
    group_id: u64,
    expected: u32,
    level: LevelView,
    object_id: u64,
)
    requires
        level.level_type == LevelType::Nonoverlapping,
    ensures
        level_violations(group_id, expected, level).contains(
            overlap_report(group_id, level, object_id),
        ) <==> exists|i: int|
            #[trigger] overlaps_at(level, i) && level.table_infos[i].object_id == object_id,
{
    let report = overlap_report(group_id, level, object_id);
    let n = level.table_infos.len() as int;
    let runs = runs_violations(group_id, level, n);
    let all = level_violations(group_id, expected, level);
    lemma_runs_report(group_id, level, n, object_id);
    let head = all.subrange(0, all.len() - runs.len());
    assert(all =~= head + runs);
    lemma_contains_concat(head, runs, report);
    if head.contains(report) {
        let j = choose|j: int| 0 <= j < head.len() && head[j] == report;
        assert(!(head[j] is KeyRangeOverlap));
    }
    if exists|i: int| #[trigger] overlaps_at(level, i) && level.table_infos[i].object_id == object_id {
        let i = choose|i: int|
            #[trigger] overlaps_at(level, i) && level.table_infos[i].object_id == object_id;
        assert(i < n && overlaps_at(level, i));
    }
}

/// What is found wrong with the level at `k` is found wrong with the first
/// `n` levels, for `k` below `n`.
pub proof fn lemma_lower_levels_hold(group_id: u64, levels: Seq<LevelView>, n: int, k: int, x: Violation)
    requires
        0 <= k < n,
        level_violations(group_id, expected_level_idx(k), levels[k]).contains(x),
    ensures
        lower_levels_violations(group_id, levels, n).contains(x),
    decreases n,
{
    lemma_contains_concat(
        lower_levels_violations(group_id, levels, n - 1),
        level_violations(group_id, expected_level_idx(n - 1), levels[n - 1]),
        x,
    );
    if k < n - 1 {
        lemma_lower_levels_hold(group_id, levels, n - 1, k, x);
    }
}

/// What is found wrong with the levels below level zero of the group at
/// `j` of the order is found wrong with the first `n` groups, for `j` below
/// `n`.
pub proof fn lemma_groups_hold(
    groups: Map<u64, LevelsView>,
    order: Seq<u64>,
    n: int,
    j: int,
    x: Violation,
)
    requires
        0 <= j < n,
        lower_levels_violations(
            order[j],
            groups[order[j]].levels,
            groups[order[j]].levels.len() as int,
        ).contains(x),
    ensures
        groups_violations(groups, order, n).0.contains(x),
    decreases n,
{
    let (found, seen) = groups_violations(groups, order, n - 1);
    let (more, record) = group_violations(order[n - 1], groups[order[n - 1]], seen);
    lemma_contains_concat(found, more, x);
    if j < n - 1 {
        lemma_groups_hold(groups, order, n - 1, j, x);
    } else {
        let levels = groups[order[j]];
        let below = lower_levels_violations(order[j], levels.levels, levels.levels.len() as int);
        let head = more.subrange(0, more.len() - below.len());
        assert(more =~= head + below);
        lemma_contains_concat(head, below, x);
    }
}

/// What is found wrong with the sub-level at `k` is found wrong with the
/// first `n` sub-levels, for `k` below `n`.
pub proof fn lemma_sub_levels_hold(group_id: u64, subs: Seq<LevelView>, n: int, k: int, x: Violation)
    requires
        0 <= k < n,
        level_violations(group_id, 0, subs[k]).contains(x),
    ensures
        sub_levels_violations(group_id, subs, n).contains(x),
    decreases n,
{
    let before = sub_levels_violations(group_id, subs, n - 1);
    let last = sub_level_violations(group_id, subs, n - 1);
    lemma_contains_concat(before, last, x);
    if k < n - 1 {
        lemma_sub_levels_hold(group_id, subs, n - 1, k, x);
    } else {
        let of_level = level_violations(group_id, 0, subs[k]);
        let head = last.subrange(0, last.len() - of_level.len());
        assert(last =~= head + of_level);
        lemma_contains_concat(head, of_level, x);
    }
}

/// What is found wrong with level zero of the group at `j` of the order is
/// found wrong with the first `n` groups, for `j` below `n`.
pub proof fn lemma_groups_hold_zero(
    groups: Map<u64, LevelsView>,
    order: Seq<u64>,
    n: int,
    j: int,
    x: Violation,
)
    requires
        0 <= j < n,
        groups[order[j]].l0 is Some,
        sub_levels_violations(
            order[j],
            groups[order[j]].l0->0.sub_levels,
            groups[order[j]].l0->0.sub_levels.len() as int,
        ).contains(x),
    ensures
        groups_violations(groups, order, n).0.contains(x),
    decreases n,
{
    let (found, seen) = groups_violations(groups, order, n - 1);
    let (more, record) = group_violations(order[n - 1], groups[order[n - 1]], seen);
    lemma_contains_concat(found, more, x);
    if j < n - 1 {
        lemma_groups_hold_zero(groups, order, n - 1, j, x);
    } else {
        let levels = groups[order[j]];
        let zero = sub_levels_violations(
            order[j],
            levels.l0->0.sub_levels,
            levels.l0->0.sub_levels.len() as int,
        );
        let below = lower_levels_violations(order[j], levels.levels, levels.levels.len() as int);
        let head = more.subrange(0, more.len() - below.len() - zero.len());
        assert(more =~= head + zero + below);
        lemma_contains_concat(head + zero, below, x);
        lemma_contains_concat(head, zero, x);
    }
}

/// Where a run of a sub-level of level zero that is marked as free of
/// overlap overlaps with the run before it, the validation of the version
/// reports the overlap for that run.
pub proof fn law_version_reports_sub_level_overlap(v: VersionView, group_id: u64, k: int, i: int)
    requires
        v.levels.dom().finite(),
        v.levels.contains_key(group_id),
        v.levels[group_id].l0 is Some,
        0 <= k < v.levels[group_id].l0->0.sub_levels.len(),
        v.levels[group_id].l0->0.sub_levels[k].level_type == LevelType::Nonoverlapping,
        overlaps_at(v.levels[group_id].l0->0.sub_levels[k], i),
    ensures
        version_violations(v).contains(
            overlap_report(
                group_id,
                v.levels[group_id].l0->0.sub_levels[k],
                v.levels[group_id].l0->0.sub_levels[k].table_infos[i].object_id,
            ),
        ),
{
    let subs = v.levels[group_id].l0->0.sub_levels;
    let level = subs[k];
    let report = overlap_report(group_id, level, level.table_infos[i].object_id);
    law_level_reports_overlaps_exactly(group_id, 0, level, level.table_infos[i].object_id);
    lemma_sub_levels_hold(group_id, subs, subs.len() as int, k, report);
    let order = ascending_seq(v.levels.dom());
    lemma_ascending_seq_covers(v.levels.dom());
    assert(order.to_set().contains(group_id));
    let j = choose|j: int| 0 <= j < order.len() && order[j] == group_id;
    lemma_groups_hold_zero(v.levels, order, order.len() as int, j, report);
    let all = version_violations(v);
    let found = groups_violations(v.levels, order, order.len() as int).0;
    let head = all.subrange(0, all.len() - found.len());
    assert(all =~= head + found);
    lemma_contains_concat(head, found, report);
}

/// Where a run of a level below level zero overlaps with the run before
/// it, the validation of the version reports the overlap for that run.
pub proof fn law_version_reports_overlap(v: VersionView, group_id: u64, k: int, i: int)
    requires
        v.levels.dom().finite(),
        v.levels.contains_key(group_id),
        0 <= k < v.levels[group_id].levels.len(),
        v.levels[group_id].levels[k].level_type == LevelType::Nonoverlapping,
        overlaps_at(v.levels[group_id].levels[k], i),
    ensures
        version_violations(v).contains(
            overlap_report(
                group_id,
                v.levels[group_id].levels[k],
                v.levels[group_id].levels[k].table_infos[i].object_id,
            ),
        ),
{
    let level = v.levels[group_id].levels[k];
    let report = overlap_report(group_id, level, level.table_infos[i].object_id);
    law_level_reports_overlaps_exactly(
        group_id,
        expected_level_idx(k),
        level,
        level.table_infos[i].object_id,
    );
    lemma_lower_levels_hold(
        group_id,
        v.levels[group_id].levels,
        v.levels[group_id].levels.len() as int,
        k,
        report,
    );
    let order = ascending_seq(v.levels.dom());
    lemma_ascending_seq_covers(v.levels.dom());
    assert(order.to_set().contains(group_id));
    let j = choose|j: int| 0 <= j < order.len() && order[j] == group_id;
    lemma_groups_hold(v.levels, order, order.len() as int, j, report);
    let all = version_violations(v);
    let found = groups_violations(v.levels, order, order.len() as int).0;
    let head = all.subrange(0, all.len() - found.len());
    assert(all =~= head + found);
    lemma_contains_concat(head, found, report);
}

/// The report is that of an overlap of two neighbours in the level.
pub open spec fn caused_by(group_id: u64, level: LevelView, x: Violation) -> bool {
    &&& level.level_type == LevelType::Nonoverlapping
    &&& exists|i: int|
        #[trigger] overlaps_at(level, i) && x == overlap_report(
            group_id,
            level,
            level.table_infos[i].object_id,
        )
}

/// The report is that of an overlap of two neighbours in a sub-level of
/// level zero or in a level below it.
pub open spec fn caused_in(group_id: u64, levels: LevelsView, x: Violation) -> bool {
    ||| levels.l0 is Some && exists|k: int|
        0 <= k < levels.l0->0.sub_levels.len() && caused_by(
            group_id,
            #[trigger] levels.l0->0.sub_levels[k],
            x,
        )
    ||| exists|k: int| 0 <= k < levels.levels.len() && caused_by(group_id, #[trigger] levels.levels[k], x)
}

/// A report of an overlap among those on the first `n` runs of a level is
/// that of an overlap of two neighbours in the level.
pub proof fn lemma_runs_report_cause(group_id: u64, level: LevelView, n: int, x: Violation)
    requires
        0 <= n <= level.table_infos.len(),
        x is KeyRangeOverlap,
        runs_violations(group_id, level, n).contains(x),
    ensures
        caused_by(group_id, level, x),
    decreases n,
{
    if n > 0 {
        let before = runs_violations(group_id, level, n - 1);
        let last = run_violations(group_id, level, n - 1);
        lemma_contains_concat(before, last, x);
        if before.contains(x) {
            lemma_runs_report_cause(group_id, level, n - 1, x);
        } else {
            let j = choose|j: int| 0 <= j < last.len() && last[j] == x;
            assert(overlaps_at(level, n - 1));
        }
    } else {
        let empty = runs_violations(group_id, level, n);
        let j = choose|j: int| 0 <= j < empty.len() && empty[j] == x;
    }
}

/// A report of an overlap among those on a level is that of an overlap of
/// two neighbours in the level.
pub proof fn lemma_level_report_cause(group_id: u64, expected: u32, level: LevelView, x: Violation)
    requires
        x is KeyRangeOverlap,
        level_violations(group_id, expected, level).contains(x),
    ensures
        caused_by(group_id, level, x),
{
    let n = level.table_infos.len() as int;
    let runs = runs_violations(group_id, level, n);
    let all = level_violations(group_id, expected, level);
    let head = all.subrange(0, all.len() - runs.len());
    assert(all =~= head + runs);
    lemma_contains_concat(head, runs, x);
    if head.contains(x) {
        let j = choose|j: int| 0 <= j < head.len() && head[j] == x;
        assert(!(head[j] is KeyRangeOverlap));
    }
    lemma_runs_report_cause(group_id, level, n, x);
}

/// A report of an overlap among those on the first `n` sub-levels is that
/// of an overlap of two neighbours in one of them.
pub proof fn lemma_sub_levels_report_cause(
    group_id: u64,
    subs: Seq<LevelView>,
    n: int,
    x: Violation,
) -> (k: int)
    requires
        0 <= n <= subs.len(),
        x is KeyRangeOverlap,
        sub_levels_violations(group_id, subs, n).contains(x),
    ensures
        0 <= k < n,
        caused_by(group_id, subs[k], x),
    decreases n,
{
    if n > 0 {
        let before = sub_levels_violations(group_id, subs, n - 1);
        let last = sub_level_violations(group_id, subs, n - 1);
        lemma_contains_concat(before, last, x);
        if before.contains(x) {
            lemma_sub_levels_report_cause(group_id, subs, n - 1, x)
        } else {
            let of_level = level_violations(group_id, 0, subs[n - 1]);
            let head = last.subrange(0, last.len() - of_level.len());
            assert(last =~= head + of_level);
            lemma_contains_concat(head, of_level, x);
            if head.contains(x) {
                let j = choose|j: int| 0 <= j < head.len() && head[j] == x;
                assert(!(head[j] is KeyRangeOverlap));
            }
            lemma_level_report_cause(group_id, 0, subs[n - 1], x);
            n - 1
        }
    } else {
        let empty = sub_levels_violations(group_id, subs, n);
        let j = choose|j: int| 0 <= j < empty.len() && empty[j] == x;
        0
    }
}

/// A report of an overlap among those on the first `n` levels below level
/// zero is that of an overlap of two neighbours in one of them.
pub proof fn lemma_lower_levels_report_cause(
    group_id: u64,
    levels: Seq<LevelView>,
    n: int,
    x: Violation,
) -> (k: int)
    requires
        0 <= n <= levels.len(),
        x is KeyRangeOverlap,
        lower_levels_violations(group_id, levels, n).contains(x),
    ensures
        0 <= k < n,
        caused_by(group_id, levels[k], x),
    decreases n,
{
    if n > 0 {
        let before = lower_levels_violations(group_id, levels, n - 1);
        let last = level_violations(group_id, expected_level_idx(n - 1), levels[n - 1]);
        lemma_contains_concat(before, last, x);
        if before.contains(x) {
            lemma_lower_levels_report_cause(group_id, levels, n - 1, x)
        } else {
            lemma_level_report_cause(group_id, expected_level_idx(n - 1), levels[n - 1], x);
            n - 1
        }
    } else {
        let empty = lower_levels_violations(group_id, levels, n);
        let j = choose|j: int| 0 <= j < empty.len() && empty[j] == x;
        0
    }
}

/// What is found wrong with the member tables of a group is a table listed
/// twice, and nothing else.
pub proof fn lemma_members_report_tables(
    group_id: u64,
    members: Seq<u32>,
    seen: Map<u32, u64>,
    n: int,
    x: Violation,
)
    requires
        members_violations(group_id, members, seen, n).0.contains(x),
    ensures
        x is DuplicatedTable,
    decreases n,
{
    let found = members_violations(group_id, members, seen, n).0;
    let j = choose|j: int| 0 <= j < found.len() && found[j] == x;
    if n > 0 {
        let before = members_violations(group_id, members, seen, n - 1).0;
        if j < before.len() {
            assert(before[j] == x);
            lemma_members_report_tables(group_id, members, seen, n - 1, x);
        }
    }
}

/// A report of an overlap among those on a group is that of an overlap of
/// two neighbours in one of its levels.
pub proof fn lemma_group_report_cause(
    group_id: u64,
    levels: LevelsView,
    seen: Map<u32, u64>,
    x: Violation,
)
    requires
        x is KeyRangeOverlap,
        group_violations(group_id, levels, seen).0.contains(x),
    ensures
        caused_in(group_id, levels, x),
{
    let id = if levels.group_id != group_id {
        seq![Violation::InconsistentGroupId { group_id, found: levels.group_id }]
    } else {
        Seq::empty()
    };
    let sorted = if !non_descending(levels.member_table_ids) {
        seq![Violation::MemberTablesNotSorted { group_id }]
    } else {
        Seq::empty()
    };
    let members = members_violations(
        group_id,
        levels.member_table_ids,
        seen,
        levels.member_table_ids.len() as int,
    ).0;
    let zero = match levels.l0 {
        Some(l0) => sub_levels_violations(group_id, l0.sub_levels, l0.sub_levels.len() as int),
        None => seq![Violation::MissingLevel0 { group_id }],
    };
    let below = lower_levels_violations(group_id, levels.levels, levels.levels.len() as int);
    assert(group_violations(group_id, levels, seen).0 == id + sorted + members + zero + below);
    lemma_contains_concat(id + sorted + members + zero, below, x);
    lemma_contains_concat(id + sorted + members, zero, x);
    lemma_contains_concat(id + sorted, members, x);
    lemma_contains_concat(id, sorted, x);
    if below.contains(x) {
        let k = lemma_lower_levels_report_cause(
            group_id,
            levels.levels,
            levels.levels.len() as int,
            x,
        );
    } else if zero.contains(x) {
        if levels.l0 is Some {
            let k = lemma_sub_levels_report_cause(
                group_id,
                levels.l0->0.sub_levels,
                levels.l0->0.sub_levels.len() as int,
                x,
            );
        } else {
            let j = choose|j: int| 0 <= j < zero.len() && zero[j] == x;
        }
    } else if members.contains(x) {
        lemma_members_report_tables(
            group_id,
            levels.member_table_ids,
            seen,
            levels.member_table_ids.len() as int,
            x,
        );
    } else if sorted.contains(x) {
        let j = choose|j: int| 0 <= j < sorted.len() && sorted[j] == x;
    } else {
        let j = choose|j: int| 0 <= j < id.len() && id[j] == x;
    }
}

/// A report of an overlap among those on the first `n` groups is that of an
/// overlap of two neighbours in a level of one of them.
pub proof fn lemma_groups_report_cause(
    groups: Map<u64, LevelsView>,
    order: Seq<u64>,
    n: int,
    x: Violation,
) -> (j: int)
    requires
        0 <= n <= order.len(),
        x is KeyRangeOverlap,
        groups_violations(groups, order, n).0.contains(x),
    ensures
        0 <= j < n,
        caused_in(order[j], groups[order[j]], x),
    decreases n,
{
    if n > 0 {
        let (found, seen) = groups_violations(groups, order, n - 1);
        let (more, record) = group_violations(order[n - 1], groups[order[n - 1]], seen);
        lemma_contains_concat(found, more, x);
        if found.contains(x) {
            lemma_groups_report_cause(groups, order, n - 1, x)
        } else {
            lemma_group_report_cause(order[n - 1], groups[order[n - 1]], seen, x);
            n - 1
        }
    } else {
        let empty = groups_violations(groups, order, n).0;
        let j = choose|j: int| 0 <= j < empty.len() && empty[j] == x;
        0
    }
}

/// Every overlap that the validation of a version reports is there: the
/// report names a group of the version, and in a sub-level of level zero or
/// in a level below it, marked as free of overlap, a run of the object that
/// the report names does not start above the end of the run before it.
pub proof fn law_reported_overlap_is_there(v: VersionView, x: Violation) -> (g: u64)
    requires
        v.levels.dom().finite(),
        x is KeyRangeOverlap,
        version_violations(v).contains(x),
    ensures
        v.levels.contains_key(g),
        x->KeyRangeOverlap_group_id == g,
        caused_in(g, v.levels[g], x),
{
    let order = ascending_seq(v.levels.dom());
    lemma_ascending_seq_covers(v.levels.dom());
    let all = version_violations(v);
    let found = groups_violations(v.levels, order, order.len() as int).0;
    let head = all.subrange(0, all.len() - found.len());
    assert(all =~= head + found);
    lemma_contains_concat(head, found, x);
    if head.contains(x) {
        let j = choose|j: int| 0 <= j < head.len() && head[j] == x;
        assert(!(head[j] is KeyRangeOverlap));
    }
    let j = lemma_groups_report_cause(v.levels, order, order.len() as int, x);
    assert(order.to_set().contains(order[j]));
    order[j]
}

/// The validation of a version reports no overlap for a group whose levels
/// below level zero hold their runs each ending below the start of the
/// next, unless it finds one in a sub-level of level zero.
pub proof fn law_concatenable_group_passes_check(v: VersionView, g: u64, x: Violation)
    requires
        v.levels.dom().finite(),
        v.levels.contains_key(g),
        forall|k: int|
            0 <= k < v.levels[g].levels.len() ==> runs_concatenable(
                (#[trigger] v.levels[g].levels[k]).table_infos,
            ),
        x is KeyRangeOverlap,
        x->KeyRangeOverlap_group_id == g,
        version_violations(v).contains(x),
    ensures
        v.levels[g].l0 is Some,
        exists|k: int|
            0 <= k < v.levels[g].l0->0.sub_levels.len() && caused_by(
                g,
                #[trigger] v.levels[g].l0->0.sub_levels[k],
                x,
            ),
{
    let h = law_reported_overlap_is_there(v, x);
    let levels = v.levels[g];
    if exists|k: int| 0 <= k < levels.levels.len() && caused_by(g, #[trigger] levels.levels[k], x) {
        let k = choose|k: int| 0 <= k < levels.levels.len() && caused_by(g, #[trigger] levels.levels[k], x);
        let level = levels.levels[k];
        let i = choose|i: int|
            #[trigger] overlaps_at(level, i) && x == overlap_report(
                g,
                level,
                level.table_infos[i].object_id,
            );
        assert(runs_concatenable(level.table_infos));
        assert(level.table_infos[i - 1].key_range->0.compare_right_with(
            level.table_infos[i].key_range->0.left,
        ) == KeyOrder::Less);
    }
}

} // verus!
