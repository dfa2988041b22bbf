//! Checking a version for everything that a well-formed version rules out.
//!
//! The validation changes nothing and reports every violation it finds, not
//! just the first. Groups are visited in ascending order of their ids.

use vstd::prelude::*;
use std::collections::HashMap;
use crate::key::{KeyOrder, EPOCH_LEN};
use crate::level::{levels_view, Level, LevelType, LevelView, Levels, LevelsView};
use crate::ordered::ascending_seq;

use crate::text::{decimal, push_decimal, push_text};
use crate::version::{sorted_keys, HummockVersion, VersionView};

verus! {

broadcast use vstd::std_specs::hash::group_hash_axioms;

/// One way in which a version is not well-formed.
#[derive(Clone, Copy, Debug, PartialEq, Eq, Structural)]
pub enum Violation {
    /// The safe epoch lies above the committed epoch.
    SafeEpochAboveCommitted { safe_epoch: u64, max_committed_epoch: u64 },
    /// A group records another id than the one it is filed under.
    InconsistentGroupId { group_id: u64, found: u64 },
    /// The member tables of a group are not in ascending order.
    MemberTablesNotSorted { group_id: u64 },
    /// A table is a member twice.
    DuplicatedTable { group_id: u64, table_id: u32, first_group: u64 },
    /// A group has no level zero.
    MissingLevel0 { group_id: u64 },
    /// A sub-level is not newer than the one before it.
    SubLevelOutOfOrder { group_id: u64, sub_level_id: u64, prev_sub_level_id: u64 },
    /// A sub-level holds no run.
    EmptySubLevel { group_id: u64, sub_level_id: u64 },
    /// A level below level zero is not marked as free of overlap.
    OverlappingLevel { group_id: u64, level_idx: u32 },
    /// A level records another index than its position.
    MismatchedLevelIdx { group_id: u64, level_idx: u32, sub_level_id: u64, expected: u32 },
    /// The tables of a run are not in strictly ascending order.
    TableIdsNotSorted { group_id: u64, level_idx: u32, sub_level_id: u64, object_id: u64 },
    /// A run in a level without overlap has no left bound that can be
    /// decoded, or the run before it no right bound.
    KeyRangeUndecodable { group_id: u64, level_idx: u32, sub_level_id: u64, object_id: u64 },
    /// A run in a level without overlap starts at or below the end of the
    /// run before it.
    KeyRangeOverlap { group_id: u64, level_idx: u32, sub_level_id: u64, object_id: u64 },
}

/// Every element is below the one that follows it.
pub open spec fn strictly_ascending(s: Seq<u32>) -> bool {
    forall|i: int| 0 < i < s.len() ==> s[i - 1] < #[trigger] s[i]
}

/// No element is above the one that follows it.
pub open spec fn non_descending(s: Seq<u32>) -> bool {
    forall|i: int| 0 < i < s.len() ==> s[i - 1] <= #[trigger] s[i]
}

/// What is wrong with the run at `i` of a level.
pub open spec fn run_violations(group_id: u64, level: LevelView, i: int) -> Seq<Violation> {
    let run = level.table_infos[i];
    let level_idx = level.level_idx;
    let sub_level_id = level.sub_level_id;
    let object_id = run.object_id;
    let tables = if !strictly_ascending(run.table_ids) {
        seq![Violation::TableIdsNotSorted { group_id, level_idx, sub_level_id, object_id }]
    } else {
        Seq::empty()
    };
    let range = if level.level_type == LevelType::Nonoverlapping && i > 0 {
        let prev = level.table_infos[i - 1];
        if !prev.has_right() || !run.has_left() {
            seq![Violation::KeyRangeUndecodable { group_id, level_idx, sub_level_id, object_id }]
        } else if prev.key_range->0.compare_right_with(run.key_range->0.left) != KeyOrder::Less {
            seq![Violation::KeyRangeOverlap { group_id, level_idx, sub_level_id, object_id }]
        } else {
            Seq::empty()
        }
    } else {
        Seq::empty()
    };
    tables + range
}

/// What is wrong with the first `n` runs of a level.
pub open spec fn runs_violations(group_id: u64, level: LevelView, n: int) -> Seq<Violation>
    decreases n,
{
    if n <= 0 {
        Seq::empty()
    } else {
        runs_violations(group_id, level, n - 1) + run_violations(group_id, level, n - 1)
    }
}

/// What is wrong with a level that stands where the index `expected`
/// belongs.
pub open spec fn level_violations(group_id: u64, expected: u32, level: LevelView) -> Seq<Violation> {
    let kind = if level.level_idx == 0 {
        if level.table_infos.len() == 0 {
            seq![Violation::EmptySubLevel { group_id, sub_level_id: level.sub_level_id }]
        } else {
            Seq::empty()
        }
    } else if level.level_type != LevelType::Nonoverlapping {
        seq![Violation::OverlappingLevel { group_id, level_idx: level.level_idx }]
    } else {
        Seq::empty()
    };
    let index = if level.level_idx != expected {
        seq![
            Violation::MismatchedLevelIdx {
                group_id,
                level_idx: level.level_idx,
                sub_level_id: level.sub_level_id,
                expected,
            },
        ]
    } else {
        Seq::empty()
    };
    kind + index + runs_violations(group_id, level, level.table_infos.len() as int)
}

/// What is wrong with the sub-level at `k` of level zero.
pub open spec fn sub_level_violations(group_id: u64, subs: Seq<LevelView>, k: int) -> Seq<Violation> {
    let order = if k > 0 && subs[k].sub_level_id <= subs[k - 1].sub_level_id {
        seq![
            Violation::SubLevelOutOfOrder {
                group_id,
                sub_level_id: subs[k].sub_level_id,
                prev_sub_level_id: subs[k - 1].sub_level_id,
            },
        ]
    } else {
        Seq::empty()
    };
    order + level_violations(group_id, 0, subs[k])
}

/// What is wrong with the first `n` sub-levels of level zero.
pub open spec fn sub_levels_violations(group_id: u64, subs: Seq<LevelView>, n: int) -> Seq<Violation>
    decreases n,
{
    if n <= 0 {
        Seq::empty()
    } else {
        sub_levels_violations(group_id, subs, n - 1) + sub_level_violations(group_id, subs, n - 1)
    }
}

/// The index that belongs to the level at position `k`, counted from one.
pub open spec fn expected_level_idx(k: int) -> u32 {
    if 0 <= k < u32::MAX {
        (k + 1) as u32
    } else {
        u32::MAX
    }
}

/// What is wrong with the first `n` levels below level zero.
pub open spec fn lower_levels_violations(group_id: u64, levels: Seq<LevelView>, n: int) -> Seq<
    Violation,
>
    decreases n,
{
    if n <= 0 {
        Seq::empty()
    } else {
        lower_levels_violations(group_id, levels, n - 1) + level_violations(
            group_id,
            expected_level_idx(n - 1),
            levels[n - 1],
        )
    }
}

/// What is wrong with the first `n` member tables of a group, given the
/// group that each table seen so far was first found in; and that record
/// with the new tables added.
pub open spec fn members_violations(
    group_id: u64,
    members: Seq<u32>,
    seen: Map<u32, u64>,
    n: int,
) -> (Seq<Violation>, Map<u32, u64>)
    decreases n,
{
    if n <= 0 {
        (Seq::empty(), seen)
    } else {
        let (found, record) = members_violations(group_id, members, seen, n - 1);
        let table_id = members[n - 1];
        if record.contains_key(table_id) {
            (
                found.push(
                    Violation::DuplicatedTable { group_id, table_id, first_group: record[table_id] },
                ),
                record,
            )
        } else {
            (found, record.insert(table_id, group_id))
        }
    }
}

/// What is wrong with one group.
pub open spec fn group_violations(group_id: u64, levels: LevelsView, seen: Map<u32, u64>) -> (
    Seq<Violation>,
    Map<u32, u64>,
) {
    let id = if levels.group_id != group_id {
        seq![Violation::InconsistentGroupId { group_id, found: levels.group_id }]
    } else {
        Seq::empty()
    };
    let sorted = if !non_descending(levels.member_table_ids) {
        seq![Violation::MemberTablesNotSorted { group_id }]
    } else {
        Seq::empty()
    };
    let (members, record) = members_violations(
        group_id,
        levels.member_table_ids,
        seen,
        levels.member_table_ids.len() as int,
    );
    let zero = match levels.l0 {
        Some(l0) => sub_levels_violations(group_id, l0.sub_levels, l0.sub_levels.len() as int),
        None => seq![Violation::MissingLevel0 { group_id }],
    };
    let below = lower_levels_violations(group_id, levels.levels, levels.levels.len() as int);
    (id + sorted + members + zero + below, record)
}

/// What is wrong with the first `n` groups of `order`.
pub open spec fn groups_violations(groups: Map<u64, LevelsView>, order: Seq<u64>, n: int) -> (
    Seq<Violation>,
    Map<u32, u64>,
)
    decreases n,
{
    if n <= 0 {
        (Seq::empty(), Map::empty())
    } else {
        let (found, seen) = groups_violations(groups, order, n - 1);
        let (more, record) = group_violations(order[n - 1], groups[order[n - 1]], seen);
        (found + more, record)
    }
}

/// Everything that is wrong with a version: the safe epoch above the
/// committed one, a group filed under a wrong id, member tables out of
/// order or listed twice, a missing level zero, sub-levels that are empty
/// or out of order, levels with a wrong index or a wrong kind, runs whose
/// tables are out of order, and runs that overlap where they must not.
pub open spec fn version_violations(v: VersionView) -> Seq<Violation> {
    let epochs = if v.safe_epoch > v.max_committed_epoch {
        seq![
            Violation::SafeEpochAboveCommitted {
                safe_epoch: v.safe_epoch,
                max_committed_epoch: v.max_committed_epoch,
            },
        ]
    } else {
        Seq::empty()
    };
    let order = ascending_seq(v.levels.dom());
    epochs + groups_violations(v.levels, order, order.len() as int).0
}

/// Decides [`strictly_ascending`].
fn check_strictly_ascending(ids: &Vec<u32>) -> (r: bool)
    ensures
        r == strictly_ascending(ids@),
{
    let mut i: usize = 1;
    while i < ids.len()
        invariant
            1 <= i,
            forall|k: int| 0 < k < i && k < ids.len() ==> ids[k - 1] < #[trigger] ids[k],
        decreases ids.len() - i,
    {
        if ids[i - 1] >= ids[i] {
            return false;
        }
        i += 1;
    }
    true
}

/// Decides [`non_descending`].
fn check_non_descending(ids: &Vec<u32>) -> (r: bool)
    ensures
        r == non_descending(ids@),
{
    let mut i: usize = 1;
    while i < ids.len()
        invariant
            1 <= i,
            forall|k: int| 0 < k < i && k < ids.len() ==> ids[k - 1] <= #[trigger] ids[k],
        decreases ids.len() - i,
    {
        if ids[i - 1] > ids[i] {
            return false;
        }
        i += 1;
    }
    true
}

/// Reports what is wrong with a level.
fn validate_level(group_id: u64, expected_level_idx: u32, level: &Level, res: &mut Vec<Violation>)
    ensures
        final(res)@ == old(res)@ + level_violations(group_id, expected_level_idx, level@),
{
    let ghost lv = level@;
    let ghost start = res@;
    let level_idx = level.level_idx;
    let sub_level_id = level.sub_level_id;
    if level.level_idx == 0 {
        if level.table_infos.len() == 0 {
            res.push(Violation::EmptySubLevel { group_id, sub_level_id });
        }
    } else if level.level_type != LevelType::Nonoverlapping {
        res.push(Violation::OverlappingLevel { group_id, level_idx });
    }
    if level.level_idx != expected_level_idx {
        res.push(
            Violation::MismatchedLevelIdx {
                group_id,
                level_idx,
                sub_level_id,
                expected: expected_level_idx,
            },
        );
    }
    let ghost head = res@;
    let mut i: usize = 0;
    assert(res@ =~= head + runs_violations(group_id, lv, 0));
    while i < level.table_infos.len()
        invariant
            i <= level.table_infos.len(),
            lv == level@,
            level_idx == level.level_idx,
            sub_level_id == level.sub_level_id,
            res@ == head + runs_violations(group_id, lv, i as int),
        decreases level.table_infos.len() - i,
    {
        let table_info = &level.table_infos[i];
        let object_id = table_info.object_id;
        let ghost before = res@;
        assert(lv.table_infos[i as int] == table_info@);
        if !check_strictly_ascending(&table_info.table_ids) {
            res.push(Violation::TableIdsNotSorted { group_id, level_idx, sub_level_id, object_id });
        }
        if level.level_type == LevelType::Nonoverlapping && i > 0 {
            let prev = &level.table_infos[i - 1];
            assert(lv.table_infos[i - 1] == prev@);
            match (&prev.key_range, &table_info.key_range) {
                (Some(p), Some(c)) => {
                    if p.right.len() < EPOCH_LEN || c.left.len() < EPOCH_LEN {
                        res.push(
                            Violation::KeyRangeUndecodable {
                                group_id,
                                level_idx,
                                sub_level_id,
                                object_id,
                            },
                        );
                    } else if p.compare_right_with(&c.left) != KeyOrder::Less {
                        res.push(
                            Violation::KeyRangeOverlap { group_id, level_idx, sub_level_id, object_id },
                        );
                    }
                },
                _ => {
                    res.push(
                        Violation::KeyRangeUndecodable { group_id, level_idx, sub_level_id, object_id },
                    );
                },
            }
        }
        assert(res@ =~= before + run_violations(group_id, lv, i as int));
        assert(res@ =~= head + runs_violations(group_id, lv, i + 1));
        i += 1;
    }
    assert(res@ =~= start + level_violations(group_id, expected_level_idx, lv));
}

/// Reports the member tables of a group that are members already.
fn validate_members(
    group_id: u64,
    members: &Vec<u32>,
    table_to_group: &mut HashMap<u32, u64>,
    res: &mut Vec<Violation>,
)
    ensures
        ({
            let (found, record) = members_violations(
                group_id,
                members@,
                old(table_to_group)@,
                members.len() as int,
            );
            final(res)@ == old(res)@ + found && final(table_to_group)@ == record
        }),
{
    let ghost start = res@;
    let ghost seen = table_to_group@;
    let mut i: usize = 0;
    assert(res@ =~= start + members_violations(group_id, members@, seen, 0).0);
    while i < members.len()
        invariant
            i <= members.len(),
            seen == old(table_to_group)@,
            res@ == start + members_violations(group_id, members@, seen, i as int).0,
            table_to_group@ == members_violations(group_id, members@, seen, i as int).1,
        decreases members.len() - i,
    {
        let table_id: u32 = members[i];
        let ghost before = members_violations(group_id, members@, seen, i as int);
        match table_to_group.get(&table_id) {
            Some(first) => {
                let first_group: u64 = *first;
                res.push(Violation::DuplicatedTable { group_id, table_id, first_group });
                assert(res@ =~= start + before.0.push(
                    Violation::DuplicatedTable { group_id, table_id, first_group },
                ));
            },
            None => {
                table_to_group.insert(table_id, group_id);
            },
        }
        i += 1;
    }
}

/// Reports what is wrong with the sub-levels of level zero.
fn validate_sub_levels(group_id: u64, sub_levels: &Vec<Level>, res: &mut Vec<Violation>)
    ensures
        final(res)@ == old(res)@ + sub_levels_violations(
            group_id,
            levels_view(sub_levels@),
            sub_levels.len() as int,
        ),
{
    let ghost head = res@;
    let ghost subs = levels_view(sub_levels@);
    let mut k: usize = 0;
    assert(res@ =~= head + sub_levels_violations(group_id, subs, 0));
    while k < sub_levels.len()
        invariant
            k <= sub_levels.len(),
            subs == levels_view(sub_levels@),
            res@ == head + sub_levels_violations(group_id, subs, k as int),
        decreases sub_levels.len() - k,
    {
        let sub_level = &sub_levels[k];
        let ghost before = res@;
        assert(subs[k as int] == sub_level@);
        if k > 0 && sub_level.sub_level_id <= sub_levels[k - 1].sub_level_id {
            assert(subs[k - 1] == sub_levels[k - 1]@);
            res.push(
                Violation::SubLevelOutOfOrder {
                    group_id,
                    sub_level_id: sub_level.sub_level_id,
                    prev_sub_level_id: sub_levels[k - 1].sub_level_id,
                },
            );
        }
        validate_level(group_id, 0, sub_level, res);
        assert(res@ =~= before + sub_level_violations(group_id, subs, k as int));
        assert(res@ =~= head + sub_levels_violations(group_id, subs, k + 1));
        k += 1;
    }
}

/// Reports what is wrong with the levels below level zero.
fn validate_lower_levels(group_id: u64, levels: &Vec<Level>, res: &mut Vec<Violation>)
    ensures
        final(res)@ == old(res)@ + lower_levels_violations(
            group_id,
            levels_view(levels@),
            levels.len() as int,
        ),
{
    let ghost mid = res@;
    let ghost lower = levels_view(levels@);
    let mut idx: usize = 0;
    assert(res@ =~= mid + lower_levels_violations(group_id, lower, 0));
    while idx < levels.len()
        invariant
            idx <= levels.len(),
            lower == levels_view(levels@),
            res@ == mid + lower_levels_violations(group_id, lower, idx as int),
        decreases levels.len() - idx,
    {
        let expected: u32 = if idx < u32::MAX as usize {
            (idx + 1) as u32
        } else {
            u32::MAX
        };
        assert(lower[idx as int] == levels[idx as int]@);
        validate_level(group_id, expected, &levels[idx], res);
        assert(res@ =~= mid + lower_levels_violations(group_id, lower, idx + 1));
        idx += 1;
    }
}

/// Reports what is wrong with one group.
fn validate_group(
    group_id: u64,
    levels: &Levels,
    table_to_group: &mut HashMap<u32, u64>,
    res: &mut Vec<Violation>,
)
    ensures
        ({
            let (found, record) = group_violations(group_id, levels@, old(table_to_group)@);
            final(res)@ == old(res)@ + found && final(table_to_group)@ == record
        }),
{
    let ghost start = res@;
    let ghost lv = levels@;
    let ghost want = group_violations(group_id, lv, table_to_group@);
    if levels.group_id != group_id {
        res.push(Violation::InconsistentGroupId { group_id, found: levels.group_id });
    }
    if !check_non_descending(&levels.member_table_ids) {
        res.push(Violation::MemberTablesNotSorted { group_id });
    }
    validate_members(group_id, &levels.member_table_ids, table_to_group, res);
    match &levels.l0 {
        Some(l0) => {
            validate_sub_levels(group_id, &l0.sub_levels, res);
        },
        None => {
            res.push(Violation::MissingLevel0 { group_id });
        },
    }
    validate_lower_levels(group_id, &levels.levels, res);
    assert(res@ =~= start + want.0);
}

/// Finds everything that is wrong with a version.
pub fn check_version(version: &HummockVersion) -> (r: Vec<Violation>)
    ensures
        r@ == version_violations(version@),
{
    let mut res: Vec<Violation> = Vec::new();
    if version.safe_epoch > version.max_committed_epoch {
        res.push(
            Violation::SafeEpochAboveCommitted {
                safe_epoch: version.safe_epoch,
                max_committed_epoch: version.max_committed_epoch,
            },
        );
    }
    let ghost head = res@;
    let ghost groups = version@.levels;
    let mut table_to_group: HashMap<u32, u64> = HashMap::new();
    let order = sorted_keys(&version.levels);
    assert(groups.dom() =~= version.levels@.dom());
    let mut k: usize = 0;
    assert(res@ =~= head + groups_violations(groups, order@, 0).0);
    assert(table_to_group@ =~= groups_violations(groups, order@, 0).1);
    while k < order.len()
        invariant
            k <= order.len(),
            groups == version@.levels,
            order@.to_set() == version.levels@.dom(),
            res@ == head + groups_violations(groups, order@, k as int).0,
            table_to_group@ == groups_violations(groups, order@, k as int).1,
        decreases order.len() - k,
    {
        let group_id: u64 = order[k];
        assert(order@.to_set().contains(group_id)) by {
            assert(order@[k as int] == group_id);
        }
        match version.levels.get(&group_id) {
            Some(levels) => {
                assert(groups[group_id] == levels@);
                validate_group(group_id, levels, &mut table_to_group, &mut res);
                assert(res@ =~= head + groups_violations(groups, order@, k + 1).0);
            },
            None => {
                assert(false);
            },
        }
        k += 1;
    }
    res
}

/// The words that name a level in a message.
pub open spec fn level_label(group_id: u64, level_idx: u32, sub_level_id: u64) -> Seq<char> {
    let head = "GROUP "@ + decimal(group_id as nat) + " LEVEL "@ + decimal(level_idx as nat);
    if level_idx == 0 {
        head + " SUBLEVEL "@ + decimal(sub_level_id as nat)
    } else {
        head
    }
}

/// Appends the words that name a level.
fn push_level_label(out: &mut String, group_id: u64, level_idx: u32, sub_level_id: u64)
    ensures
        final(out)@ == old(out)@ + level_label(group_id, level_idx, sub_level_id),
{
    push_text(out, "GROUP ");
    push_decimal(out, group_id);
    push_text(out, " LEVEL ");
    push_decimal(out, level_idx as u64);
    if level_idx == 0 {
        push_text(out, " SUBLEVEL ");
        push_decimal(out, sub_level_id);
    }
    assert(out@ =~= old(out)@ + level_label(group_id, level_idx, sub_level_id));
}

impl Violation {
    /// The message that describes the violation.
    pub open spec fn text(self) -> Seq<char> {
        match self {
            Violation::SafeEpochAboveCommitted { safe_epoch, max_committed_epoch } => {
                "VERSION: safe_epoch "@ + decimal(safe_epoch as nat) + " > max_committed_epoch "@
                    + decimal(max_committed_epoch as nat)
            },
            Violation::InconsistentGroupId { group_id, found } => {
                "GROUP "@ + decimal(group_id as nat) + ": inconsistent group id "@ + decimal(
                    found as nat,
                ) + " in Levels"@
            },
            Violation::MemberTablesNotSorted { group_id } => {
                "GROUP "@ + decimal(group_id as nat) + ": member_table_ids is not sorted"@
            },
            Violation::DuplicatedTable { group_id, table_id, first_group } => {
                "GROUP "@ + decimal(group_id as nat) + ": Duplicated table_id "@ + decimal(
                    table_id as nat,
                ) + ". First found in group "@ + decimal(first_group as nat)
            },
            Violation::MissingLevel0 { group_id } => {
                "GROUP "@ + decimal(group_id as nat) + ": level0 not exist"@
            },
            Violation::SubLevelOutOfOrder { group_id, sub_level_id, prev_sub_level_id } => {
                "GROUP "@ + decimal(group_id as nat) + " LEVEL 0: sub_level_id "@ + decimal(
                    sub_level_id as nat,
                ) + " <= prev_sub_level "@ + decimal(prev_sub_level_id as nat)
            },
            Violation::EmptySubLevel { group_id, sub_level_id } => {
                level_label(group_id, 0, sub_level_id) + ": empty level"@
            },
            Violation::OverlappingLevel { group_id, level_idx } => {
                level_label(group_id, level_idx, 0) + ": level type is not non-overlapping"@
            },
            Violation::MismatchedLevelIdx { group_id, level_idx, sub_level_id, expected } => {
                level_label(group_id, level_idx, sub_level_id) + ": mismatched level idx "@
                    + decimal(expected as nat)
            },
            Violation::TableIdsNotSorted { group_id, level_idx, sub_level_id, object_id } => {
                level_label(group_id, level_idx, sub_level_id) + " SST "@ + decimal(
                    object_id as nat,
                ) + ": table_ids not sorted"@
            },
            Violation::KeyRangeUndecodable { group_id, level_idx, sub_level_id, object_id } => {
                level_label(group_id, level_idx, sub_level_id) + " SST "@ + decimal(
                    object_id as nat,
                ) + ": key range cannot be decoded"@
            },
            Violation::KeyRangeOverlap { group_id, level_idx, sub_level_id, object_id } => {
                level_label(group_id, level_idx, sub_level_id) + " SST "@ + decimal(
                    object_id as nat,
                ) + ": key range should not overlap"@
            },
        }
    }

    /// Writes the message that describes the violation.
    pub fn message(&self) -> (r: String)
        ensures
            r@ == self.text(),
    {
        let mut out = String::new();
        match *self {
            Violation::SafeEpochAboveCommitted { safe_epoch, max_committed_epoch } => {
                push_text(&mut out, "VERSION: safe_epoch ");
                push_decimal(&mut out, safe_epoch);
                push_text(&mut out, " > max_committed_epoch ");
                push_decimal(&mut out, max_committed_epoch);
            },
            Violation::InconsistentGroupId { group_id, found } => {
                push_text(&mut out, "GROUP ");
                push_decimal(&mut out, group_id);
                push_text(&mut out, ": inconsistent group id ");
                push_decimal(&mut out, found);
                push_text(&mut out, " in Levels");
            },
            Violation::MemberTablesNotSorted { group_id } => {
                push_text(&mut out, "GROUP ");
                push_decimal(&mut out, group_id);
                push_text(&mut out, ": member_table_ids is not sorted");
            },
            Violation::DuplicatedTable { group_id, table_id, first_group } => {
                push_text(&mut out, "GROUP ");
                push_decimal(&mut out, group_id);
                push_text(&mut out, ": Duplicated table_id ");
                push_decimal(&mut out, table_id as u64);
                push_text(&mut out, ". First found in group ");
                push_decimal(&mut out, first_group);
            },
            Violation::MissingLevel0 { group_id } => {
                push_text(&mut out, "GROUP ");
                push_decimal(&mut out, group_id);
                push_text(&mut out, ": level0 not exist");
            },
            Violation::SubLevelOutOfOrder { group_id, sub_level_id, prev_sub_level_id } => {
                push_text(&mut out, "GROUP ");
                push_decimal(&mut out, group_id);
                push_text(&mut out, " LEVEL 0: sub_level_id ");
                push_decimal(&mut out, sub_level_id);
                push_text(&mut out, " <= prev_sub_level ");
                push_decimal(&mut out, prev_sub_level_id);
            },
            Violation::EmptySubLevel { group_id, sub_level_id } => {
                push_level_label(&mut out, group_id, 0, sub_level_id);
                push_text(&mut out, ": empty level");
            },
            Violation::OverlappingLevel { group_id, level_idx } => {
                push_level_label(&mut out, group_id, level_idx, 0);
                push_text(&mut out, ": level type is not non-overlapping");
            },
            Violation::MismatchedLevelIdx { group_id, level_idx, sub_level_id, expected } => {
                push_level_label(&mut out, group_id, level_idx, sub_level_id);
                push_text(&mut out, ": mismatched level idx ");
                push_decimal(&mut out, expected as u64);
            },
            Violation::TableIdsNotSorted { group_id, level_idx, sub_level_id, object_id } => {
                push_level_label(&mut out, group_id, level_idx, sub_level_id);
                push_text(&mut out, " SST ");
                push_decimal(&mut out, object_id);
                push_text(&mut out, ": table_ids not sorted");
            },
            Violation::KeyRangeUndecodable { group_id, level_idx, sub_level_id, object_id } => {
                push_level_label(&mut out, group_id, level_idx, sub_level_id);
                push_text(&mut out, " SST ");
                push_decimal(&mut out, object_id);
                push_text(&mut out, ": key range cannot be decoded");
            },
            Violation::KeyRangeOverlap { group_id, level_idx, sub_level_id, object_id } => {
                push_level_label(&mut out, group_id, level_idx, sub_level_id);
                push_text(&mut out, " SST ");
                push_decimal(&mut out, object_id);
                push_text(&mut out, ": key range should not overlap");
            },
        }
        assert(out@ =~= self.text());
        out
    }
}

/// Checks a version and describes every violation in words. The version is
/// well-formed exactly if the list comes back empty.
pub fn validate_version(version: &HummockVersion) -> (r: Vec<String>)
    ensures
        r.len() == version_violations(version@).len(),
        forall|i: int| 0 <= i < r.len() ==> (#[trigger] r[i])@ == version_violations(version@)[i].text(),
{
    let found = check_version(version);
    let mut res: Vec<String> = Vec::new();
    let mut i: usize = 0;
    while i < found.len()
        invariant
            i <= found.len(),
            res.len() == i,
            forall|k: int| 0 <= k < i ==> (#[trigger] res[k])@ == found[k].text(),
        decreases found.len() - i,
    {
        res.push(found[i].message());
        i += 1;
    }
    res
}

} // verus!
