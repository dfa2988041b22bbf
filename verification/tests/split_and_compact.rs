use std::collections::{HashMap, HashSet};

use hummock::delta::{CompactionConfig, GroupDeltasSummary};
use hummock::error::VersionError;
use hummock::level::{Level, LevelType, Levels, OverlappingLevel};
use hummock::split::{split_group, split_sst_info_for_level, SstSplitInfo};
use hummock::sstable::{can_concat, check_runs_joinable, check_runs_sortable, KeyRange, SstableInfo};
use hummock::sub_level::{add_ssts_to_sub_level, insert_new_sub_level, level_sort_runs, new_sub_level};
use hummock::compact::{level_delete_ssts, level_insert_ssts};
use hummock::runs::sort_by_key_range;
use hummock::version::{build_initial_compaction_group_levels, HummockVersion};

fn full_key(user_key: &[u8], epoch: u64) -> Vec<u8> {
    let mut k = user_key.to_vec();
    k.extend_from_slice(&epoch.to_be_bytes());
    k
}

fn run(id: u64, left: &[u8], right: &[u8], tables: Vec<u32>, size: u64) -> SstableInfo {
    SstableInfo {
        object_id: id,
        sst_id: id,
        key_range: Some(KeyRange::new(full_key(left, 1), full_key(right, 1))),
        file_size: size,
        table_ids: tables,
        uncompressed_file_size: size * 2,
        ..Default::default()
    }
}

fn level(idx: u32, runs: Vec<SstableInfo>) -> Level {
    let total: u64 = runs.iter().map(|r| r.file_size).sum();
    let uncompressed: u64 = runs.iter().map(|r| r.uncompressed_file_size).sum();
    Level {
        level_idx: idx,
        level_type: LevelType::Nonoverlapping,
        table_infos: runs,
        total_file_size: total,
        sub_level_id: 0,
        uncompressed_file_size: uncompressed,
    }
}

fn summary(
    delete_levels: Vec<u32>,
    delete_ids: &[u64],
    insert_level: u32,
    insert_sub_level: u64,
    inserts: Vec<SstableInfo>,
) -> GroupDeltasSummary {
    GroupDeltasSummary {
        delete_sst_levels: delete_levels,
        delete_sst_ids_set: delete_ids.iter().copied().collect(),
        insert_sst_level_id: insert_level,
        insert_sub_level_id: insert_sub_level,
        insert_table_infos: inserts,
        inserts_below_level0: insert_level != 0,
        group_construct: None,
        group_destroy: None,
        group_meta_changes: vec![],
        group_table_change: None,
    }
}

fn group_with_two_levels() -> Levels {
    let mut sub = level(0, vec![run(1, b"aaaa", b"cccc", vec![1], 10)]);
    sub.sub_level_id = 4;
    sub.level_type = LevelType::Overlapping;
    Levels {
        levels: vec![
            level(1, vec![run(2, b"aaaa", b"bbbb", vec![1], 5), run(3, b"cccc", b"dddd", vec![1], 7)]),
            level(2, vec![]),
        ],
        l0: Some(OverlappingLevel {
            sub_levels: vec![sub],
            total_file_size: 10,
            uncompressed_file_size: 20,
        }),
        group_id: 1,
        parent_group_id: 0,
        member_table_ids: vec![1],
    }
}

#[test]
fn split_branches_touched_runs() {
    let mut lv = level(
        1,
        vec![
            run(10, b"aaaa", b"bbbb", vec![1], 1),
            run(11, b"cccc", b"dddd", vec![1, 2], 2),
            run(12, b"eeee", b"ffff", vec![2], 3),
        ],
    );
    let members: HashSet<u32> = HashSet::from([2]);
    let mut infos: Vec<SstSplitInfo> = vec![];
    let mut next_id = 100u64;
    let branches = split_sst_info_for_level(&members, true, &mut lv, &mut infos, &mut next_id).unwrap();
    // Run 10 is untouched, run 11 is shared by both sides, run 12 moves as a whole.
    assert_eq!(next_id, 103);
    assert_eq!(infos, vec![(11, 100, 11, 101), (12, 102, 12, 12)]);
    assert_eq!(branches.len(), 2);
    assert_eq!((branches[0].object_id, branches[0].sst_id), (11, 100));
    assert_eq!(branches[0].table_ids, vec![1, 2]);
    assert_eq!((branches[1].object_id, branches[1].sst_id), (12, 102));
    assert_eq!(branches[1].table_ids, vec![2]);
    assert_eq!(lv.table_infos[0], run(10, b"aaaa", b"bbbb", vec![1], 1));
    assert_eq!((lv.table_infos[1].object_id, lv.table_infos[1].sst_id), (11, 101));
    assert_eq!(lv.table_infos[1].table_ids, vec![1, 2]);
    assert_eq!(lv.table_infos[2].sst_id, 12);
    assert!(lv.table_infos[2].table_ids.is_empty());
}

#[test]
fn split_without_trivial_moves_keeps_both_sides() {
    let mut lv = level(1, vec![run(12, b"eeee", b"ffff", vec![2], 3)]);
    let members: HashSet<u32> = HashSet::from([2]);
    let mut infos: Vec<SstSplitInfo> = vec![];
    let mut next_id = 7u64;
    let branches = split_sst_info_for_level(&members, false, &mut lv, &mut infos, &mut next_id).unwrap();
    assert_eq!(next_id, 9);
    assert_eq!(infos, vec![(12, 7, 12, 8)]);
    assert_eq!(branches[0].sst_id, 7);
    assert_eq!(lv.table_infos[0].sst_id, 8);
    assert_eq!(lv.table_infos[0].table_ids, vec![2]);
}

#[test]
fn split_runs_out_of_ids() {
    let mut lv = level(1, vec![run(12, b"eeee", b"ffff", vec![2], 3)]);
    let members: HashSet<u32> = HashSet::from([2]);
    let mut infos: Vec<SstSplitInfo> = vec![];
    let mut next_id = u64::MAX - 1;
    let r = split_sst_info_for_level(&members, false, &mut lv, &mut infos, &mut next_id);
    assert_eq!(r.err(), Some(VersionError::RunIdOverflow));
}

#[test]
fn init_with_parent_group_conserves_tables() {
    let mut version = HummockVersion {
        id: 0,
        levels: HashMap::from_iter([
            (1, group_with_two_levels()),
            (2, build_initial_compaction_group_levels(2, &CompactionConfig { max_level: 2 })),
        ]),
        max_committed_epoch: 0,
        safe_epoch: 0,
        table_watermarks: HashMap::new(),
    };
    version.levels.get_mut(&1).unwrap().levels[0].table_infos[1].table_ids = vec![1, 5];
    let members: HashSet<u32> = HashSet::from([5]);
    assert_eq!(version.count_new_ssts_in_group_split(1, members.clone()), 2);
    assert_eq!(version.count_new_ssts_in_group_split(77, members.clone()), 0);
    let infos = version.init_with_parent_group(1, 2, members, 500, true).unwrap();
    assert_eq!(infos, vec![(3, 500, 3, 501)]);
    let parent = &version.levels[&1];
    let child = &version.levels[&2];
    assert_eq!(parent.levels[0].table_infos.len(), 2);
    assert_eq!(parent.levels[0].table_infos[1].sst_id, 501);
    assert_eq!(parent.levels[0].table_infos[1].table_ids, vec![1, 5]);
    assert_eq!(parent.levels[0].total_file_size, 12);
    assert_eq!(child.levels[0].table_infos.len(), 1);
    assert_eq!(child.levels[0].table_infos[0].sst_id, 500);
    assert_eq!(child.levels[0].table_infos[0].object_id, 3);
    assert_eq!(child.levels[0].table_infos[0].table_ids, vec![1, 5]);
    assert_eq!(child.levels[0].total_file_size, 7);
    assert_eq!(child.levels[0].uncompressed_file_size, 14);
    assert!(child.l0.as_ref().unwrap().sub_levels.is_empty());
}

#[test]
fn init_with_parent_group_without_parent_does_nothing() {
    let mut version = HummockVersion {
        levels: HashMap::from_iter([(1, group_with_two_levels())]),
        ..Default::default()
    };
    let before = version.clone();
    assert_eq!(version.init_with_parent_group(0, 1, HashSet::from([1]), 5, true), Ok(vec![]));
    assert_eq!(version.init_with_parent_group(9, 1, HashSet::from([1]), 5, true), Ok(vec![]));
    assert_eq!(version, before);
}

#[test]
fn init_with_parent_group_refusals() {
    let mut version = HummockVersion {
        levels: HashMap::from_iter([(1, group_with_two_levels())]),
        ..Default::default()
    };
    assert_eq!(
        version.init_with_parent_group(1, 2, HashSet::from([1]), 5, true),
        Err(VersionError::GroupNotFound)
    );
    assert_eq!(
        version.init_with_parent_group(1, 1, HashSet::from([1]), 5, true),
        Err(VersionError::SplitIntoSameGroup)
    );
    // The target has fewer levels than the source.
    let mut version = HummockVersion {
        levels: HashMap::from_iter([
            (1, group_with_two_levels()),
            (2, build_initial_compaction_group_levels(2, &CompactionConfig { max_level: 1 })),
        ]),
        ..Default::default()
    };
    assert_eq!(
        version.init_with_parent_group(1, 2, HashSet::from([1]), 5, false),
        Err(VersionError::LevelOutOfRange)
    );
}

#[test]
fn compaction_result_is_applied() {
    let mut group = group_with_two_levels();
    let merged = run(9, b"aaaa", b"dddd", vec![1], 11);
    group.apply_compact_ssts(summary(vec![1], &[2, 3], 2, 0, vec![merged.clone()])).unwrap();
    assert!(group.levels[0].table_infos.is_empty());
    assert_eq!(group.levels[0].total_file_size, 0);
    assert_eq!(group.levels[1].table_infos, vec![merged]);
    assert_eq!(group.levels[1].total_file_size, 11);
    assert_eq!(group.levels[1].uncompressed_file_size, 22);
    assert_eq!(group.l0.as_ref().unwrap().sub_levels.len(), 1);
}

#[test]
fn stale_compaction_result_is_dropped() {
    let mut group = group_with_two_levels();
    let before = group.clone();
    assert!(!group.check_deleted_sst_exist(&[1], HashSet::from([2, 99])));
    assert!(group.check_deleted_sst_exist(&[1], HashSet::from([2, 3])));
    assert!(group.check_deleted_sst_exist(&[0, 1], HashSet::from([1, 3])));
    assert!(!group.check_deleted_sst_exist(&[1], HashSet::from([1])));
    assert!(group.check_deleted_sst_exist(&[], HashSet::new()));
    group
        .apply_compact_ssts(summary(vec![1], &[2, 99], 2, 0, vec![run(9, b"aaaa", b"dddd", vec![1], 11)]))
        .unwrap();
    assert_eq!(group, before);
}

#[test]
fn compaction_into_level_zero_needs_the_sub_level() {
    let mut group = group_with_two_levels();
    let r = group.apply_compact_ssts(summary(vec![], &[], 0, 5, vec![run(9, b"dddd", b"eeee", vec![1], 1)]));
    assert_eq!(r, Err(VersionError::SubLevelNotFound));
    let mut group = group_with_two_levels();
    group
        .apply_compact_ssts(summary(vec![0], &[1], 0, 4, vec![run(9, b"dddd", b"eeee", vec![1], 3)]))
        .unwrap();
    let l0 = group.l0.as_ref().unwrap();
    assert_eq!(l0.sub_levels.len(), 1);
    assert_eq!(l0.sub_levels[0].table_infos.len(), 1);
    assert_eq!(l0.sub_levels[0].table_infos[0].sst_id, 9);
    assert_eq!(l0.sub_levels[0].level_type, LevelType::Nonoverlapping);
    assert_eq!(l0.total_file_size, 3);
    assert_eq!(l0.uncompressed_file_size, 6);
}

#[test]
fn emptied_sub_levels_are_purged() {
    let mut group = group_with_two_levels();
    group.apply_compact_ssts(summary(vec![0], &[1], 1, 0, vec![])).unwrap();
    let l0 = group.l0.as_ref().unwrap();
    assert!(l0.sub_levels.is_empty());
    assert_eq!(l0.total_file_size, 0);
}

#[test]
fn compaction_refusals() {
    let mut group = group_with_two_levels();
    assert_eq!(
        group.apply_compact_ssts(summary(vec![3], &[1], 1, 0, vec![])),
        Err(VersionError::LevelOutOfRange)
    );
    let mut group = group_with_two_levels();
    assert_eq!(
        group.apply_compact_ssts(summary(vec![], &[], 3, 0, vec![run(9, b"x", b"y", vec![1], 1)])),
        Err(VersionError::LevelOutOfRange)
    );
    let mut group = group_with_two_levels();
    group.l0 = None;
    assert_eq!(
        group.apply_compact_ssts(summary(vec![0], &[1], 1, 0, vec![])),
        Err(VersionError::MissingLevel0)
    );
    // The new run overlaps a run that stays.
    let mut group = group_with_two_levels();
    assert_eq!(
        group.apply_compact_ssts(summary(vec![], &[], 1, 0, vec![run(9, b"bbbb", b"cccc", vec![1], 1)])),
        Err(VersionError::NotConcatenable)
    );
    // The new run has no key range, so it cannot be put in order.
    let mut group = group_with_two_levels();
    let mut blind = run(9, b"eeee", b"ffff", vec![1], 1);
    blind.key_range = None;
    assert_eq!(
        group.apply_compact_ssts(summary(vec![], &[], 1, 0, vec![blind])),
        Err(VersionError::MalformedKeyRange)
    );
}

#[test]
fn level_insert_orders_runs() {
    let mut lv = level(1, vec![run(2, b"cccc", b"dddd", vec![1], 5)]);
    lv.level_type = LevelType::Overlapping;
    level_insert_ssts(
        &mut lv,
        vec![run(4, b"eeee", b"ffff", vec![1], 1), run(3, b"aaaa", b"bbbb", vec![1], 2)],
    )
    .unwrap();
    assert_eq!(lv.table_infos.iter().map(|r| r.sst_id).collect::<Vec<_>>(), vec![3, 2, 4]);
    assert_eq!(lv.level_type, LevelType::Nonoverlapping);
    assert_eq!(lv.total_file_size, 8);
    assert_eq!(lv.uncompressed_file_size, 16);
    assert!(can_concat(&lv.table_infos));
}

#[test]
fn level_delete_recomputes_sizes() {
    let mut lv = level(
        1,
        vec![run(2, b"aaaa", b"bbbb", vec![1], 5), run(3, b"cccc", b"dddd", vec![1], 7)],
    );
    assert_eq!(level_delete_ssts(&mut lv, &HashSet::from([3, 8])), Ok(true));
    assert_eq!(lv.table_infos.len(), 1);
    assert_eq!(lv.total_file_size, 5);
    assert_eq!(lv.uncompressed_file_size, 10);
    assert_eq!(level_delete_ssts(&mut lv, &HashSet::from([3, 8])), Ok(false));
    let mut huge = level(1, vec![]);
    huge.table_infos =
        vec![run(1, b"aaaa", b"bbbb", vec![1], u64::MAX / 2), run(2, b"cccc", b"dddd", vec![1], 1)];
    assert_eq!(level_delete_ssts(&mut huge, &HashSet::new()), Err(VersionError::SizeOverflow));
}

#[test]
fn sort_is_stable_and_by_left_bound() {
    let a = run(1, b"bbbb", b"cccc", vec![1], 1);
    let b = run(2, b"aaaa", b"aaab", vec![1], 1);
    let mut c = run(3, b"bbbb", b"zzzz", vec![1], 1);
    c.key_range = Some(KeyRange::new(full_key(b"bbbb", 1), full_key(b"zzzz", 1)));
    let sorted = sort_by_key_range(vec![a, b, c]);
    assert_eq!(sorted.iter().map(|r| r.sst_id).collect::<Vec<_>>(), vec![2, 1, 3]);
    // For one user key the newer epoch comes first.
    let mut old = run(4, b"kkkk", b"llll", vec![1], 1);
    old.key_range = Some(KeyRange::new(full_key(b"kkkk", 1), full_key(b"llll", 1)));
    let mut new = run(5, b"kkkk", b"llll", vec![1], 1);
    new.key_range = Some(KeyRange::new(full_key(b"kkkk", 9), full_key(b"llll", 1)));
    let sorted = sort_by_key_range(vec![old, new]);
    assert_eq!(sorted.iter().map(|r| r.sst_id).collect::<Vec<_>>(), vec![5, 4]);
}

#[test]
fn concatenability_of_runs() {
    let a = run(1, b"aaaa", b"bbbb", vec![1], 1);
    let b = run(2, b"bbbb", b"cccc", vec![1], 1);
    let c = run(3, b"cccd", b"dddd", vec![1], 1);
    assert!(can_concat(&vec![]));
    assert!(can_concat(&vec![a.clone()]));
    assert!(can_concat(&vec![a.clone(), c.clone()]));
    // The second run starts at the user key at which the first one ends.
    assert!(!can_concat(&vec![a.clone(), b.clone()]));
    let mut open = a.clone();
    open.key_range.as_mut().unwrap().right_exclusive = true;
    assert!(can_concat(&vec![open, b.clone()]));
    assert!(!can_concat(&vec![c.clone(), a.clone()]));
    let mut blind = b.clone();
    blind.key_range = None;
    assert!(check_runs_sortable(&vec![blind.clone()]));
    assert!(check_runs_joinable(&vec![blind.clone()]));
    assert!(!check_runs_sortable(&vec![a.clone(), blind.clone()]));
    assert!(!check_runs_joinable(&vec![a.clone(), blind]));
    let mut short = b.clone();
    short.key_range = Some(KeyRange::new(vec![1, 2, 3], full_key(b"cccc", 1)));
    assert!(!check_runs_sortable(&vec![a.clone(), short.clone()]));
    assert!(!check_runs_joinable(&vec![a.clone(), short]));
    // Of the last run only the left bound is read, of the first only the right one.
    let mut open_end = c.clone();
    open_end.key_range = Some(KeyRange::new(full_key(b"cccd", 1), vec![1, 2, 3]));
    assert!(check_runs_sortable(&vec![a.clone(), open_end.clone()]));
    assert!(check_runs_joinable(&vec![a.clone(), open_end.clone()]));
    assert!(can_concat(&vec![a.clone(), open_end.clone()]));
    assert!(!check_runs_joinable(&vec![open_end, a.clone()]));
    // The range that covers everything can be put in order, where it comes last.
    let mut all = b;
    all.key_range = Some(KeyRange::inf());
    assert!(check_runs_sortable(&vec![all.clone(), a.clone()]));
    assert!(!check_runs_joinable(&vec![a, all]));
}

#[test]
fn a_last_run_with_a_short_right_bound_is_accepted() {
    let mut open_end = run(9, b"eeee", b"ffff", vec![1], 1);
    open_end.key_range = Some(KeyRange::new(full_key(b"eeee", 1), vec![1, 2, 3]));
    let mut lv = level(1, vec![run(2, b"cccc", b"dddd", vec![1], 5), run(3, b"aaaa", b"bbbb", vec![1], 7)]);
    assert_eq!(level_insert_ssts(&mut lv, vec![open_end.clone()]), Ok(()));
    assert_eq!(lv.table_infos.iter().map(|r| r.sst_id).collect::<Vec<_>>(), vec![3, 2, 9]);
    // In the middle its right bound is read, and cannot be.
    let before = lv.clone();
    assert_eq!(
        level_insert_ssts(&mut lv, vec![run(10, b"gggg", b"hhhh", vec![1], 1)]),
        Err(VersionError::MalformedKeyRange)
    );
    assert_eq!(lv, before);
}

#[test]
fn sub_levels_are_built_and_inserted() {
    let lv = new_sub_level(
        8,
        LevelType::Overlapping,
        vec![run(1, b"aaaa", b"bbbb", vec![1], 3), run(2, b"aaaa", b"bbbb", vec![1], 4)],
    )
    .unwrap();
    assert_eq!(lv.level_idx, 0);
    assert_eq!(lv.sub_level_id, 8);
    assert_eq!(lv.total_file_size, 7);
    assert_eq!(lv.uncompressed_file_size, 14);
    assert_eq!(
        new_sub_level(
            1,
            LevelType::Overlapping,
            vec![run(1, b"a", b"b", vec![1], u64::MAX / 2), run(2, b"a", b"b", vec![1], 2)]
        )
        .err(),
        Some(VersionError::SizeOverflow)
    );

    let mut l0 = OverlappingLevel::default();
    insert_new_sub_level(&mut l0, 5, LevelType::Overlapping, vec![run(1, b"aaaa", b"bbbb", vec![1], 3)], None)
        .unwrap();
    insert_new_sub_level(&mut l0, 9, LevelType::Overlapping, vec![run(2, b"aaaa", b"bbbb", vec![1], 4)], None)
        .unwrap();
    insert_new_sub_level(
        &mut l0,
        7,
        LevelType::Nonoverlapping,
        vec![run(3, b"aaaa", b"bbbb", vec![1], 5)],
        Some(1),
    )
    .unwrap();
    assert_eq!(l0.sub_levels.iter().map(|l| l.sub_level_id).collect::<Vec<_>>(), vec![5, 7, 9]);
    assert_eq!(l0.total_file_size, 12);
    assert_eq!(l0.uncompressed_file_size, 24);
    let before = l0.clone();
    assert_eq!(
        insert_new_sub_level(&mut l0, 9, LevelType::Overlapping, vec![], None),
        Err(VersionError::SubLevelNotNewest)
    );
    assert_eq!(
        insert_new_sub_level(&mut l0, 10, LevelType::Overlapping, vec![], Some(4)),
        Err(VersionError::SubLevelOutOfRange)
    );
    assert_eq!(insert_new_sub_level(&mut l0, u64::MAX, LevelType::Overlapping, vec![], Some(44)), Ok(()));
    assert_eq!(l0, before);

    add_ssts_to_sub_level(&mut l0, 1, vec![run(4, b"cccc", b"dddd", vec![1], 1)]).unwrap();
    assert_eq!(l0.sub_levels[1].table_infos.iter().map(|r| r.sst_id).collect::<Vec<_>>(), vec![3, 4]);
    assert_eq!(l0.sub_levels[1].total_file_size, 6);
    assert_eq!(l0.total_file_size, 13);
    // A sub-level that may overlap takes any run and keeps the order of arrival.
    add_ssts_to_sub_level(&mut l0, 0, vec![run(5, b"aaaa", b"bbbb", vec![1], 1)]).unwrap();
    assert_eq!(l0.sub_levels[0].table_infos.iter().map(|r| r.sst_id).collect::<Vec<_>>(), vec![1, 5]);
    assert_eq!(
        add_ssts_to_sub_level(&mut l0, 3, vec![]),
        Err(VersionError::SubLevelOutOfRange)
    );
    assert_eq!(
        add_ssts_to_sub_level(&mut l0, 1, vec![run(6, b"cccc", b"dddd", vec![1], 1)]),
        Err(VersionError::NotConcatenable)
    );
}

fn two_groups() -> HummockVersion {
    HummockVersion {
        levels: HashMap::from_iter([
            (1, group_with_two_levels()),
            (2, build_initial_compaction_group_levels(2, &CompactionConfig { max_level: 2 })),
        ]),
        ..Default::default()
    }
}

fn tables_by_object(groups: &[&Levels]) -> Vec<(u64, u32)> {
    let mut pairs = vec![];
    for group in groups {
        let l0 = group.l0.as_ref().unwrap();
        for level in l0.sub_levels.iter().chain(group.levels.iter()) {
            for run in &level.table_infos {
                for table_id in &run.table_ids {
                    pairs.push((run.object_id, *table_id));
                }
            }
        }
    }
    pairs.sort();
    pairs.dedup();
    pairs
}

#[test]
fn whole_runs_move_to_the_target_group() {
    let mut version = two_groups();
    let before = tables_by_object(&[&version.levels[&1], &version.levels[&2]]);
    let infos = version.init_with_parent_group(1, 2, HashSet::from([1]), 500, true).unwrap();
    assert_eq!(infos, vec![(1, 500, 1, 1), (2, 501, 2, 2), (3, 502, 3, 3)]);
    let parent = &version.levels[&1];
    let child = &version.levels[&2];
    assert!(parent.l0.as_ref().unwrap().sub_levels[0].table_infos.is_empty());
    assert!(parent.levels[0].table_infos.is_empty());
    assert!(parent.levels[1].table_infos.is_empty());
    let sub_levels = &child.l0.as_ref().unwrap().sub_levels;
    assert_eq!(sub_levels.len(), 1);
    assert_eq!(sub_levels[0].sub_level_id, 4);
    assert_eq!(sub_levels[0].table_infos.len(), 1);
    assert_eq!(sub_levels[0].table_infos[0].object_id, 1);
    assert_eq!(sub_levels[0].table_infos[0].sst_id, 500);
    assert_eq!(sub_levels[0].table_infos[0].table_ids, vec![1]);
    let moved: Vec<(u64, u64)> =
        child.levels[0].table_infos.iter().map(|r| (r.object_id, r.sst_id)).collect();
    assert_eq!(moved, vec![(2, 501), (3, 502)]);
    assert!(can_concat(&child.levels[0].table_infos));
    assert_eq!(tables_by_object(&[parent, child]), before);
}

#[test]
fn shared_runs_are_kept_by_both_groups() {
    let mut version = two_groups();
    let before = tables_by_object(&[&version.levels[&1], &version.levels[&2]]);
    let infos = version.init_with_parent_group(1, 2, HashSet::from([1]), 500, false).unwrap();
    assert_eq!(infos, vec![(1, 500, 1, 501), (2, 502, 2, 503), (3, 504, 3, 505)]);
    let parent = &version.levels[&1];
    let child = &version.levels[&2];
    let ids = |level: &Level| -> Vec<(u64, u64, Vec<u32>)> {
        level.table_infos.iter().map(|r| (r.object_id, r.sst_id, r.table_ids.clone())).collect()
    };
    assert_eq!(ids(&parent.l0.as_ref().unwrap().sub_levels[0]), vec![(1, 501, vec![1])]);
    assert_eq!(ids(&child.l0.as_ref().unwrap().sub_levels[0]), vec![(1, 500, vec![1])]);
    assert_eq!(ids(&parent.levels[0]), vec![(2, 503, vec![1]), (3, 505, vec![1])]);
    assert_eq!(ids(&child.levels[0]), vec![(2, 502, vec![1]), (3, 504, vec![1])]);
    assert!(can_concat(&parent.levels[0].table_infos));
    assert!(can_concat(&child.levels[0].table_infos));
    assert_eq!(tables_by_object(&[parent, child]), before);
}

#[test]
fn untouched_runs_stay_where_they_are() {
    let mut version = two_groups();
    let before = version.clone();
    assert_eq!(version.init_with_parent_group(1, 2, HashSet::from([8]), 500, true), Ok(vec![]));
    assert_eq!(version, before);
}

#[test]
fn a_sub_level_with_the_greatest_id_is_split_like_any_other() {
    let mut version = two_groups();
    version.levels.get_mut(&1).unwrap().l0.as_mut().unwrap().sub_levels[0].sub_level_id = u64::MAX;
    let before = tables_by_object(&[&version.levels[&1], &version.levels[&2]]);
    let infos = version.clone().init_with_parent_group(1, 2, HashSet::from([1]), 500, false).unwrap();
    assert_eq!(infos, vec![(1, 500, 1, 501), (2, 502, 2, 503), (3, 504, 3, 505)]);

    let infos = version.init_with_parent_group(1, 2, HashSet::from([1]), 500, true).unwrap();
    assert_eq!(infos, vec![(1, 500, 1, 1), (2, 501, 2, 2), (3, 502, 3, 3)]);
    let parent = &version.levels[&1];
    let child = &version.levels[&2];
    assert!(parent.l0.as_ref().unwrap().sub_levels[0].table_infos.is_empty());
    let sub_levels = &child.l0.as_ref().unwrap().sub_levels;
    assert_eq!(sub_levels.len(), 1);
    assert_eq!(sub_levels[0].sub_level_id, u64::MAX);
    assert_eq!(sub_levels[0].table_infos.len(), 1);
    assert_eq!(sub_levels[0].table_infos[0].object_id, 1);
    assert_eq!(sub_levels[0].table_infos[0].sst_id, 500);
    assert_eq!(child.l0.as_ref().unwrap().total_file_size, 10);
    assert_eq!(tables_by_object(&[parent, child]), before);
}

#[test]
fn a_refused_move_leaves_the_version_untouched() {
    // The runs that would join the first level of the target overlap with those it holds.
    let mut version = two_groups();
    version.levels.get_mut(&2).unwrap().levels[0] =
        level(1, vec![run(7, b"aaaa", b"bbbb", vec![9], 1), run(8, b"cccc", b"dddd", vec![9], 1)]);
    let before = version.clone();
    assert_eq!(
        version.init_with_parent_group(1, 2, HashSet::from([1]), 500, true),
        Err(VersionError::NotConcatenable)
    );
    assert_eq!(version, before);
    assert_eq!(
        version.init_with_parent_group(1, 2, HashSet::from([1]), u64::MAX, false),
        Err(VersionError::RunIdOverflow)
    );
    assert_eq!(version, before);
}

#[test]
fn a_refused_split_leaves_both_groups_untouched() {
    let mut parent = group_with_two_levels();
    let mut child = build_initial_compaction_group_levels(2, &CompactionConfig { max_level: 1 });
    let (parent_before, child_before) = (parent.clone(), child.clone());
    assert_eq!(
        split_group(&mut parent, &mut child, &HashSet::from([1]), 500, true),
        Err(VersionError::LevelOutOfRange)
    );
    assert_eq!(parent, parent_before);
    assert_eq!(child, child_before);

    let mut lv = level(1, vec![run(2, b"aaaa", b"bbbb", vec![1], 5), run(3, b"cccc", b"dddd", vec![1], 7)]);
    let lv_before = lv.clone();
    let mut infos = vec![(9, 9, 9, 9)];
    let mut next_id = u64::MAX - 2;
    assert_eq!(
        split_sst_info_for_level(&HashSet::from([1]), false, &mut lv, &mut infos, &mut next_id),
        Err(VersionError::RunIdOverflow)
    );
    assert_eq!(lv, lv_before);
    assert_eq!(infos, vec![(9, 9, 9, 9)]);
    assert_eq!(next_id, u64::MAX - 2);
}

#[test]
fn a_refused_compaction_result_leaves_the_group_untouched() {
    let mut group = group_with_two_levels();
    let before = group.clone();
    // The runs leave the first level, then the insertion fails.
    let overlapping = vec![run(8, b"aaaa", b"cccc", vec![1], 1), run(9, b"bbbb", b"dddd", vec![1], 1)];
    assert_eq!(
        group.apply_compact_ssts(summary(vec![1], &[2, 3], 2, 0, overlapping)),
        Err(VersionError::NotConcatenable)
    );
    assert_eq!(group, before);
    assert_eq!(
        group.apply_compact_ssts(summary(vec![1], &[2, 3], 3, 0, vec![run(9, b"aaaa", b"dddd", vec![1], 1)])),
        Err(VersionError::LevelOutOfRange)
    );
    assert_eq!(group, before);
    assert_eq!(
        group.apply_compact_ssts(summary(vec![1], &[2], 0, 5, vec![run(9, b"aaaa", b"dddd", vec![1], 1)])),
        Err(VersionError::SubLevelNotFound)
    );
    assert_eq!(group, before);
}

#[test]
fn refused_edits_of_a_level_leave_it_untouched() {
    let mut lv = level(1, vec![run(2, b"cccc", b"dddd", vec![1], 5), run(3, b"aaaa", b"cccc", vec![1], 7)]);
    let before = lv.clone();
    assert_eq!(level_sort_runs(&mut lv), Err(VersionError::NotConcatenable));
    assert_eq!(lv, before);
    assert_eq!(
        level_insert_ssts(&mut lv, vec![run(4, b"eeee", b"ffff", vec![1], 1)]),
        Err(VersionError::NotConcatenable)
    );
    assert_eq!(lv, before);
    assert_eq!(
        level_insert_ssts(&mut lv, vec![run(4, b"eeee", b"ffff", vec![1], u64::MAX)]),
        Err(VersionError::SizeOverflow)
    );
    assert_eq!(lv, before);

    let mut big = level(1, vec![]);
    big.table_infos = vec![
        run(1, b"aaaa", b"bbbb", vec![1], u64::MAX / 2),
        run(2, b"cccc", b"dddd", vec![1], u64::MAX / 2),
        run(3, b"eeee", b"ffff", vec![1], u64::MAX / 2),
    ];
    let before = big.clone();
    assert_eq!(level_delete_ssts(&mut big, &HashSet::from([1])), Err(VersionError::SizeOverflow));
    assert_eq!(big, before);

    let mut sub = level(0, vec![run(1, b"cccc", b"dddd", vec![1], 1)]);
    sub.sub_level_id = 3;
    let mut l0 = OverlappingLevel { sub_levels: vec![sub], total_file_size: 1, uncompressed_file_size: 2 };
    let before = l0.clone();
    assert_eq!(
        add_ssts_to_sub_level(&mut l0, 0, vec![run(2, b"aaaa", b"cccc", vec![1], 1)]),
        Err(VersionError::NotConcatenable)
    );
    assert_eq!(l0, before);
    assert_eq!(add_ssts_to_sub_level(&mut l0, 1, vec![]), Err(VersionError::SubLevelOutOfRange));
    assert_eq!(l0, before);
}
