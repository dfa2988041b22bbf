use std::collections::{HashMap, HashSet};

use hummock::delta::{
    summarize_group_deltas, CompactionConfig, CompatibilityVersion, GroupConstruct, GroupDelta,
    GroupDeltas, GroupDestroy, GroupMetaChange, GroupTableChange, HummockVersionDelta,
    IntraLevelDelta,
};
use hummock::delta_info::SstDeltaInfo;
use hummock::error::VersionError;
use hummock::level::{Level, LevelType, Levels, OverlappingLevel};
use hummock::queries::build_version_delta_after_version;
use hummock::sstable::{can_concat, KeyRange, SstableInfo};
use hummock::validate::validate_version;
use hummock::version::{build_initial_compaction_group_levels, HummockVersion};
use hummock::watermark::{EpochWatermark, TableWatermarks};

fn full_key(user_key: &[u8], epoch: u64) -> Vec<u8> {
    let mut k = user_key.to_vec();
    k.extend_from_slice(&epoch.to_be_bytes());
    k
}

fn run(id: u64, left: &[u8], right: &[u8], tables: Vec<u32>, size: u64) -> SstableInfo {
    SstableInfo {
        object_id: id,
        sst_id: id,
        key_range: Some(KeyRange::new(full_key(left, 1), full_key(right, 1))),
        file_size: size,
        table_ids: tables,
        uncompressed_file_size: size * 2,
        ..Default::default()
    }
}

fn config() -> CompactionConfig {
    CompactionConfig { max_level: 6 }
}

fn version_with_groups(ids: &[u64]) -> HummockVersion {
    HummockVersion {
        id: 0,
        levels: HashMap::from_iter(
            ids.iter().map(|g| (*g, build_initial_compaction_group_levels(*g, &config()))),
        ),
        max_committed_epoch: 0,
        safe_epoch: 0,
        table_watermarks: HashMap::new(),
    }
}

fn one_group_delta(
    id: u64,
    group: u64,
    epoch: u64,
    deltas: Vec<GroupDelta>,
) -> HummockVersionDelta {
    HummockVersionDelta {
        id,
        prev_id: id - 1,
        group_deltas: HashMap::from_iter([(group, GroupDeltas { group_deltas: deltas })]),
        max_committed_epoch: epoch,
        ..Default::default()
    }
}

fn commit(id: u64, group: u64, epoch: u64, sub_level: u64, runs: Vec<SstableInfo>) -> HummockVersionDelta {
    one_group_delta(
        id,
        group,
        epoch,
        vec![GroupDelta::IntraLevel(IntraLevelDelta {
            level_idx: 0,
            l0_sub_level_id: sub_level,
            removed_table_ids: vec![],
            inserted_table_infos: runs,
        })],
    )
}

#[test]
fn test_apply_version_delta() {
    let mut version = version_with_groups(&[0, 1]);
    let version_delta = HummockVersionDelta {
        id: 1,
        group_deltas: HashMap::from_iter([
            (
                2,
                GroupDeltas {
                    group_deltas: vec![GroupDelta::GroupConstruct(GroupConstruct {
                        group_config: Some(CompactionConfig { max_level: 6 }),
                        ..Default::default()
                    })],
                },
            ),
            (0, GroupDeltas { group_deltas: vec![GroupDelta::GroupDestroy(GroupDestroy {})] }),
            (
                1,
                GroupDeltas {
                    group_deltas: vec![GroupDelta::IntraLevel(IntraLevelDelta {
                        level_idx: 1,
                        inserted_table_infos: vec![SstableInfo {
                            object_id: 1,
                            sst_id: 1,
                            ..Default::default()
                        }],
                        ..Default::default()
                    })],
                },
            ),
        ]),
        ..Default::default()
    };
    version.apply_version_delta(&version_delta).unwrap();
    let mut cg1 = build_initial_compaction_group_levels(1, &CompactionConfig { max_level: 6 });
    cg1.levels[0] = Level {
        level_idx: 1,
        level_type: LevelType::Nonoverlapping,
        table_infos: vec![SstableInfo { object_id: 1, sst_id: 1, ..Default::default() }],
        ..Default::default()
    };
    assert_eq!(
        version,
        HummockVersion {
            id: 1,
            levels: HashMap::from_iter([
                (2, build_initial_compaction_group_levels(2, &CompactionConfig { max_level: 6 })),
                (1, cg1),
            ]),
            max_committed_epoch: 0,
            safe_epoch: 0,
            table_watermarks: HashMap::new(),
        }
    );
}

#[test]
fn test_get_sst_object_ids() {
    let mut version = HummockVersion {
        id: 0,
        levels: HashMap::from_iter([(
            0,
            Levels {
                levels: vec![],
                l0: Some(OverlappingLevel {
                    sub_levels: vec![],
                    total_file_size: 0,
                    uncompressed_file_size: 0,
                }),
                ..Default::default()
            },
        )]),
        max_committed_epoch: 0,
        safe_epoch: 0,
        table_watermarks: HashMap::new(),
    };
    assert_eq!(version.get_object_ids().len(), 0);

    // Add to sub level
    version.levels.get_mut(&0).unwrap().l0.as_mut().unwrap().sub_levels.push(Level {
        table_infos: vec![SstableInfo { object_id: 11, sst_id: 11, ..Default::default() }],
        ..Default::default()
    });
    assert_eq!(version.get_object_ids().len(), 1);

    // Add to non sub level
    version.levels.get_mut(&0).unwrap().levels.push(Level {
        table_infos: vec![SstableInfo { object_id: 22, sst_id: 22, ..Default::default() }],
        ..Default::default()
    });
    assert_eq!(version.get_object_ids().len(), 2);
}

#[test]
fn empty_delta_changes_only_the_id() {
    let mut version = version_with_groups(&[3, 7]);
    version.id = 41;
    version.max_committed_epoch = 9;
    version.safe_epoch = 4;
    let mut first = commit(42, 3, 10, 1, vec![run(1, b"aaaa", b"bbbb", vec![1], 10)]);
    first.safe_epoch = 4;
    version.apply_version_delta(&first).unwrap();
    let before = version.clone();
    let delta = build_version_delta_after_version(&version);
    assert_eq!(delta.id, 43);
    assert_eq!(delta.prev_id, 42);
    assert_eq!(delta.max_committed_epoch, 10);
    assert_eq!(delta.safe_epoch, 4);
    assert!(delta.group_deltas.is_empty());
    let infos = version.apply_version_delta(&delta).unwrap();
    assert!(infos.is_empty());
    assert_eq!(version.id, 43);
    assert_eq!(version.levels, before.levels);
    assert_eq!(version.max_committed_epoch, before.max_committed_epoch);
    assert_eq!(version.safe_epoch, before.safe_epoch);
    assert_eq!(version.table_watermarks, before.table_watermarks);
}

#[test]
fn commit_then_compaction_scenario() {
    let mut version = version_with_groups(&[1]);
    version.max_committed_epoch = 1;
    let a = run(100, b"aaaa", b"cccc", vec![1], 10);
    let b = run(101, b"bbbb", b"dddd", vec![1], 20);
    version.apply_version_delta(&commit(1, 1, 2, 5, vec![a.clone(), b.clone()])).unwrap();
    assert_eq!(version.max_committed_epoch, 2);
    let ids: HashSet<u64> = version.get_object_ids().into_iter().collect();
    assert_eq!(ids, HashSet::from([100, 101]));
    let l0 = version.levels[&1].l0.as_ref().unwrap();
    assert_eq!(l0.sub_levels.len(), 1);
    assert_eq!(l0.sub_levels[0].sub_level_id, 5);
    assert_eq!(l0.sub_levels[0].level_type, LevelType::Overlapping);
    assert_eq!(l0.total_file_size, 30);
    assert_eq!(l0.uncompressed_file_size, 60);

    let c = run(102, b"aaaa", b"dddd", vec![1], 25);
    let compaction = one_group_delta(
        2,
        1,
        2,
        vec![
            GroupDelta::IntraLevel(IntraLevelDelta {
                level_idx: 0,
                l0_sub_level_id: 5,
                removed_table_ids: vec![100, 101],
                inserted_table_infos: vec![],
            }),
            GroupDelta::IntraLevel(IntraLevelDelta {
                level_idx: 1,
                l0_sub_level_id: 0,
                removed_table_ids: vec![],
                inserted_table_infos: vec![c.clone()],
            }),
        ],
    );
    let delta_infos = version.build_sst_delta_infos(&compaction).unwrap();
    assert_eq!(
        delta_infos,
        vec![SstDeltaInfo {
            insert_sst_level: 1,
            insert_sst_infos: vec![c.clone()],
            delete_sst_object_ids: vec![100, 101],
        }]
    );
    version.apply_version_delta(&compaction).unwrap();
    assert_eq!(version.max_committed_epoch, 2);
    assert_eq!(version.id, 2);
    assert_eq!(version.get_object_ids(), vec![102]);
    let group = &version.levels[&1];
    let l0 = group.l0.as_ref().unwrap();
    assert!(l0.sub_levels.is_empty());
    assert_eq!(l0.total_file_size, 0);
    assert_eq!(l0.uncompressed_file_size, 0);
    assert_eq!(group.levels[0].table_infos, vec![c]);
    assert_eq!(group.levels[0].total_file_size, 25);
    assert_eq!(group.levels[0].uncompressed_file_size, 50);
    assert_eq!(group.count_ssts(), 1);
    assert!(validate_version(&version).is_empty());
}

#[test]
fn epochs_stay_ordered_over_deltas() {
    let mut version = version_with_groups(&[1]);
    for (i, (epoch, safe)) in [(3u64, 1u64), (3, 2), (8, 2), (8, 8)].into_iter().enumerate() {
        let mut delta = build_version_delta_after_version(&version);
        delta.max_committed_epoch = epoch;
        delta.safe_epoch = safe;
        version.apply_version_delta(&delta).unwrap();
        assert_eq!(version.id, i as u64 + 1);
        assert_eq!(version.max_committed_epoch, epoch);
        assert_eq!(version.safe_epoch, safe);
        assert!(version.safe_epoch <= version.max_committed_epoch);
        assert!(validate_version(&version).is_empty());
    }
}

#[test]
fn refused_delta_leaves_version_as_it_was() {
    let mut version = version_with_groups(&[1]);
    version.max_committed_epoch = 5;
    let before = version.clone();
    let delta = commit(1, 1, 4, 1, vec![run(1, b"aaaa", b"bbbb", vec![1], 1)]);
    assert_eq!(version.apply_version_delta(&delta), Err(VersionError::EpochRegression));
    assert_eq!(version, before);
}

#[test]
fn safe_epoch_must_not_go_back() {
    let mut version = version_with_groups(&[1]);
    version.safe_epoch = 5;
    version.max_committed_epoch = 6;
    let mut delta = build_version_delta_after_version(&version);
    delta.safe_epoch = 4;
    assert_eq!(version.apply_version_delta(&delta), Err(VersionError::SafeEpochRegression));
    assert_eq!(version.id, 0);
}

#[test]
fn commit_is_refused_below_level_zero() {
    let mut version = version_with_groups(&[1]);
    let delta = one_group_delta(
        1,
        1,
        1,
        vec![GroupDelta::IntraLevel(IntraLevelDelta {
            level_idx: 2,
            l0_sub_level_id: 0,
            removed_table_ids: vec![],
            inserted_table_infos: vec![run(1, b"aaaa", b"bbbb", vec![1], 1)],
        })],
    );
    assert_eq!(version.apply_version_delta(&delta), Err(VersionError::CommitBelowLevel0));
}

#[test]
fn commit_must_not_remove_runs() {
    let mut version = version_with_groups(&[1]);
    let delta = one_group_delta(
        1,
        1,
        1,
        vec![GroupDelta::IntraLevel(IntraLevelDelta {
            level_idx: 0,
            l0_sub_level_id: 0,
            removed_table_ids: vec![9],
            inserted_table_infos: vec![],
        })],
    );
    assert_eq!(version.apply_version_delta(&delta), Err(VersionError::CommitRemovesRuns));
}

#[test]
fn commit_may_remove_runs_of_a_destroyed_group() {
    let mut version = version_with_groups(&[1, 2]);
    let delta = one_group_delta(
        1,
        1,
        1,
        vec![
            GroupDelta::IntraLevel(IntraLevelDelta {
                level_idx: 0,
                l0_sub_level_id: 0,
                removed_table_ids: vec![9],
                inserted_table_infos: vec![],
            }),
            GroupDelta::GroupDestroy(GroupDestroy {}),
        ],
    );
    version.apply_version_delta(&delta).unwrap();
    assert!(!version.levels.contains_key(&1));
    assert!(version.levels.contains_key(&2));
    assert_eq!(version.num_levels(1), 0);
    assert_eq!(version.num_levels(2), 7);
}

#[test]
fn unknown_group_is_refused() {
    let mut version = version_with_groups(&[1]);
    let delta = commit(1, 9, 1, 1, vec![run(1, b"aaaa", b"bbbb", vec![1], 1)]);
    assert_eq!(version.apply_version_delta(&delta), Err(VersionError::GroupNotFound));
}

#[test]
fn newest_sub_level_must_carry_the_greatest_id() {
    let mut version = version_with_groups(&[1]);
    version.apply_version_delta(&commit(1, 1, 1, 5, vec![run(1, b"aaaa", b"bbbb", vec![1], 1)]))
        .unwrap();
    let older = commit(2, 1, 2, 5, vec![run(2, b"aaaa", b"bbbb", vec![1], 1)]);
    assert_eq!(version.apply_version_delta(&older), Err(VersionError::SubLevelNotNewest));
    let newer = commit(2, 1, 2, 6, vec![run(2, b"aaaa", b"bbbb", vec![1], 1)]);
    version.apply_version_delta(&newer).unwrap();
    let l0 = version.levels[&1].l0.as_ref().unwrap();
    assert_eq!(l0.sub_levels.iter().map(|l| l.sub_level_id).collect::<Vec<_>>(), vec![5, 6]);
    assert_eq!(version.get_object_ids(), vec![2, 1]);
}

#[test]
fn commit_with_the_greatest_sub_level_id_keeps_its_runs() {
    let mut version = version_with_groups(&[1]);
    let delta = commit(1, 1, 1, u64::MAX, vec![run(1, b"aaaa", b"bbbb", vec![1], 1)]);
    version.apply_version_delta(&delta).unwrap();
    let l0 = version.levels[&1].l0.as_ref().unwrap();
    assert_eq!(l0.sub_levels.len(), 1);
    assert_eq!(l0.sub_levels[0].sub_level_id, u64::MAX);
    assert_eq!(l0.sub_levels[0].table_infos.len(), 1);
    assert_eq!(l0.sub_levels[0].table_infos[0].object_id, 1);
    assert_eq!(l0.total_file_size, 1);
    assert_eq!(version.get_object_ids(), vec![1]);
    assert_eq!(version.max_committed_epoch, 1);
    // No sub-level can be newer than this one.
    let next = commit(2, 1, 2, 7, vec![run(2, b"aaaa", b"bbbb", vec![1], 1)]);
    assert_eq!(version.apply_version_delta(&next), Err(VersionError::SubLevelNotNewest));
}

#[test]
fn commit_needs_level_zero() {
    let mut version = version_with_groups(&[1]);
    version.levels.get_mut(&1).unwrap().l0 = None;
    let delta = commit(1, 1, 1, 1, vec![run(1, b"aaaa", b"bbbb", vec![1], 1)]);
    assert_eq!(version.apply_version_delta(&delta), Err(VersionError::MissingLevel0));
}

#[test]
fn sizes_must_fit_their_counters() {
    let mut version = version_with_groups(&[1]);
    let delta = commit(
        1,
        1,
        1,
        1,
        vec![run(1, b"aaaa", b"bbbb", vec![1], u64::MAX / 2), run(2, b"cccc", b"dddd", vec![1], 3)],
    );
    assert_eq!(version.apply_version_delta(&delta), Err(VersionError::SizeOverflow));
}

#[test]
fn two_constructions_of_one_group_are_refused() {
    let construct = || {
        GroupDelta::GroupConstruct(GroupConstruct {
            group_config: Some(config()),
            ..Default::default()
        })
    };
    let deltas = GroupDeltas { group_deltas: vec![construct(), construct()] };
    assert_eq!(summarize_group_deltas(&deltas).err(), Some(VersionError::DuplicateGroupChange));
    let mut version = version_with_groups(&[1]);
    let delta = one_group_delta(1, 2, 0, vec![construct(), construct()]);
    assert_eq!(version.apply_version_delta(&delta), Err(VersionError::DuplicateGroupChange));
    let twice = GroupDeltas {
        group_deltas: vec![
            GroupDelta::GroupDestroy(GroupDestroy {}),
            GroupDelta::GroupDestroy(GroupDestroy {}),
        ],
    };
    assert_eq!(summarize_group_deltas(&twice).err(), Some(VersionError::DuplicateGroupChange));
}

#[test]
fn construction_needs_a_config() {
    let mut version = version_with_groups(&[1]);
    let delta = one_group_delta(
        1,
        2,
        0,
        vec![GroupDelta::GroupConstruct(GroupConstruct { group_config: None, ..Default::default() })],
    );
    assert_eq!(version.apply_version_delta(&delta), Err(VersionError::MissingGroupConfig));
    let too_deep = one_group_delta(
        1,
        2,
        0,
        vec![GroupDelta::GroupConstruct(GroupConstruct {
            group_config: Some(CompactionConfig { max_level: u32::MAX as u64 + 1 }),
            ..Default::default()
        })],
    );
    assert_eq!(version.apply_version_delta(&too_deep), Err(VersionError::LevelOutOfRange));
}

#[test]
fn summary_collects_the_edits() {
    let deltas = GroupDeltas {
        group_deltas: vec![
            GroupDelta::IntraLevel(IntraLevelDelta {
                level_idx: 3,
                l0_sub_level_id: 0,
                removed_table_ids: vec![7, 8],
                inserted_table_infos: vec![],
            }),
            GroupDelta::IntraLevel(IntraLevelDelta {
                level_idx: 0,
                l0_sub_level_id: 0,
                removed_table_ids: vec![9],
                inserted_table_infos: vec![],
            }),
            GroupDelta::IntraLevel(IntraLevelDelta {
                level_idx: 3,
                l0_sub_level_id: 0,
                removed_table_ids: vec![10],
                inserted_table_infos: vec![],
            }),
            GroupDelta::IntraLevel(IntraLevelDelta {
                level_idx: 4,
                l0_sub_level_id: 11,
                removed_table_ids: vec![],
                inserted_table_infos: vec![run(1, b"aaaa", b"bbbb", vec![1], 1)],
            }),
            GroupDelta::GroupMetaChange(GroupMetaChange {
                table_ids_add: vec![5],
                table_ids_remove: vec![],
            }),
        ],
    };
    let summary = summarize_group_deltas(&deltas).unwrap();
    assert_eq!(summary.delete_sst_levels, vec![0, 3]);
    assert_eq!(summary.delete_sst_ids_set, HashSet::from([7, 8, 9, 10]));
    assert_eq!(summary.insert_sst_level_id, 4);
    assert_eq!(summary.insert_sub_level_id, 11);
    assert_eq!(summary.insert_table_infos.len(), 1);
    assert!(summary.group_construct.is_none());
    assert!(summary.group_destroy.is_none());
    assert_eq!(summary.group_meta_changes.len(), 1);
    assert!(summary.group_table_change.is_none());

    let empty = summarize_group_deltas(&GroupDeltas { group_deltas: vec![] }).unwrap();
    assert_eq!(empty.insert_sst_level_id, u32::MAX);
    assert_eq!(empty.insert_sub_level_id, u64::MAX);
    assert!(empty.delete_sst_levels.is_empty());
}

#[test]
fn member_tables_change_and_stay_sorted() {
    let mut version = version_with_groups(&[1]);
    version.levels.get_mut(&1).unwrap().member_table_ids = vec![2, 9];
    let delta = one_group_delta(
        1,
        1,
        0,
        vec![
            GroupDelta::GroupMetaChange(GroupMetaChange {
                table_ids_add: vec![7, 1],
                table_ids_remove: vec![9],
            }),
            GroupDelta::GroupMetaChange(GroupMetaChange {
                table_ids_add: vec![4],
                table_ids_remove: vec![1, 33],
            }),
        ],
    );
    version.apply_version_delta(&delta).unwrap();
    assert_eq!(version.levels[&1].member_table_ids, vec![2, 4, 7]);
}

#[test]
fn watermarks_are_appended_and_purged() {
    let mark = |epoch: u64, byte: u8| EpochWatermark { epoch, watermark: vec![byte] };
    let mut version = version_with_groups(&[1]);
    version.table_watermarks.insert(
        1,
        TableWatermarks { watermarks: vec![mark(1, 1), mark(2, 2)], is_ascending: true },
    );
    let mut delta = build_version_delta_after_version(&version);
    delta.max_committed_epoch = 5;
    delta.new_table_watermarks.insert(
        1,
        TableWatermarks { watermarks: vec![mark(4, 4)], is_ascending: true },
    );
    delta.new_table_watermarks.insert(
        2,
        TableWatermarks { watermarks: vec![mark(5, 5)], is_ascending: false },
    );
    version.apply_version_delta(&delta).unwrap();
    assert_eq!(
        version.table_watermarks[&1],
        TableWatermarks { watermarks: vec![mark(1, 1), mark(2, 2), mark(4, 4)], is_ascending: true }
    );
    assert_eq!(
        version.table_watermarks[&2],
        TableWatermarks { watermarks: vec![mark(5, 5)], is_ascending: false }
    );

    let mut delta = build_version_delta_after_version(&version);
    delta.safe_epoch = 4;
    version.apply_version_delta(&delta).unwrap();
    assert_eq!(version.safe_epoch, 4);
    assert_eq!(
        version.table_watermarks[&1],
        TableWatermarks { watermarks: vec![mark(4, 4)], is_ascending: true }
    );
    assert_eq!(version.table_watermarks[&2].watermarks, vec![mark(5, 5)]);
}

#[test]
fn table_move_between_existing_groups() {
    let mut version = version_with_groups(&[1, 2]);
    version.levels.get_mut(&1).unwrap().member_table_ids = vec![10, 11, 12];
    version.levels.get_mut(&2).unwrap().member_table_ids = vec![20];
    version
        .apply_version_delta(&commit(1, 1, 1, 3, vec![run(50, b"aaaa", b"bbbb", vec![10, 11], 8)]))
        .unwrap();
    let delta = one_group_delta(
        2,
        2,
        1,
        vec![GroupDelta::GroupTableChange(GroupTableChange {
            table_ids: vec![11],
            target_group_id: 2,
            origin_group_id: 1,
            new_sst_start_id: 1000,
            version: CompatibilityVersion::NoTrivialSplit,
        })],
    );
    let infos = version.apply_version_delta(&delta).unwrap();
    assert_eq!(infos, vec![(50, 1000, 50, 1001)]);
    assert_eq!(version.levels[&1].member_table_ids, vec![10, 12]);
    assert_eq!(version.levels[&2].member_table_ids, vec![11, 20]);
    let parent_l0 = version.levels[&1].l0.as_ref().unwrap();
    assert_eq!(parent_l0.sub_levels[0].table_infos[0].sst_id, 1001);
    assert_eq!(parent_l0.sub_levels[0].table_infos[0].object_id, 50);
    let child_l0 = version.levels[&2].l0.as_ref().unwrap();
    assert_eq!(child_l0.sub_levels.len(), 1);
    assert_eq!(child_l0.sub_levels[0].sub_level_id, 3);
    assert_eq!(child_l0.sub_levels[0].table_infos[0].sst_id, 1000);
    assert_eq!(child_l0.total_file_size, 8);
    let branched = version.build_branched_sst_info().unwrap();
    assert_eq!(branched.len(), 1);
    assert_eq!(branched[&50], HashMap::from([(1, 1001), (2, 1000)]));
}

#[test]
fn group_construct_splits_from_parent() {
    let mut version = version_with_groups(&[1]);
    version.levels.get_mut(&1).unwrap().member_table_ids = vec![10, 11];
    version
        .apply_version_delta(&commit(
            1,
            1,
            1,
            3,
            vec![run(50, b"aaaa", b"bbbb", vec![10], 8), run(51, b"cccc", b"dddd", vec![11], 4)],
        ))
        .unwrap();
    let delta = one_group_delta(
        2,
        9,
        1,
        vec![GroupDelta::GroupConstruct(GroupConstruct {
            group_config: Some(config()),
            parent_group_id: 1,
            table_ids: vec![11],
            group_id: 9,
            new_sst_start_id: 70,
            version: CompatibilityVersion::VersionUnspecified,
        })],
    );
    let infos = version.apply_version_delta(&delta).unwrap();
    // The run of table 11 moves as a whole: one fresh id, and the parent gives it up.
    assert_eq!(infos, vec![(51, 70, 51, 51)]);
    let parent = &version.levels[&1];
    let parent_l0 = parent.l0.as_ref().unwrap();
    assert_eq!(parent_l0.sub_levels[0].table_infos.len(), 1);
    assert_eq!(parent_l0.sub_levels[0].table_infos[0].sst_id, 50);
    assert_eq!(parent_l0.sub_levels[0].total_file_size, 8);
    assert_eq!(parent_l0.total_file_size, 8);
    let child = &version.levels[&9];
    assert_eq!(child.parent_group_id, 1);
    assert_eq!(child.member_table_ids, vec![11]);
    assert_eq!(child.group_id, 9);
    assert_eq!(child.levels.len(), 6);
    let child_l0 = child.l0.as_ref().unwrap();
    assert_eq!(child_l0.sub_levels[0].table_infos[0].sst_id, 70);
    assert_eq!(child_l0.sub_levels[0].table_infos[0].object_id, 51);
    assert_eq!(child_l0.sub_levels[0].table_infos[0].table_ids, vec![11]);
    assert_eq!(child_l0.total_file_size, 4);
}

#[test]
fn levels_stay_concatenable_over_deltas() {
    let check = |version: &HummockVersion| {
        assert_eq!(validate_version(version), Vec::<String>::new());
        for group in version.levels.values() {
            for level in &group.levels {
                assert!(can_concat(&level.table_infos));
            }
        }
    };
    let mut version = version_with_groups(&[1]);
    version.levels.get_mut(&1).unwrap().member_table_ids = vec![10, 11];
    check(&version);
    // Two commits.
    version
        .apply_version_delta(&commit(1, 1, 1, 1, vec![run(1, b"aaaa", b"mmmm", vec![10, 11], 4)]))
        .unwrap();
    check(&version);
    version
        .apply_version_delta(&commit(2, 1, 2, 2, vec![run(2, b"bbbb", b"zzzz", vec![11], 6)]))
        .unwrap();
    check(&version);
    // Level zero is compacted into two runs of level 1.
    let compaction = one_group_delta(
        3,
        1,
        2,
        vec![
            GroupDelta::IntraLevel(IntraLevelDelta {
                level_idx: 0,
                l0_sub_level_id: 0,
                removed_table_ids: vec![1, 2],
                inserted_table_infos: vec![],
            }),
            GroupDelta::IntraLevel(IntraLevelDelta {
                level_idx: 1,
                l0_sub_level_id: 0,
                removed_table_ids: vec![],
                inserted_table_infos: vec![
                    run(4, b"nnnn", b"zzzz", vec![11], 5),
                    run(3, b"aaaa", b"mmmm", vec![10, 11], 5),
                ],
            }),
        ],
    );
    version.apply_version_delta(&compaction).unwrap();
    check(&version);
    assert_eq!(version.get_object_ids(), vec![3, 4]);
    // Table 11 leaves for a new group; run 3 is shared, run 4 moves as a whole.
    let split = one_group_delta(
        4,
        2,
        2,
        vec![
            GroupDelta::GroupConstruct(GroupConstruct {
                group_config: Some(config()),
                parent_group_id: 1,
                table_ids: vec![11],
                group_id: 2,
                new_sst_start_id: 100,
                version: CompatibilityVersion::VersionUnspecified,
            }),
        ],
    );
    let mut split = split;
    split.group_deltas.insert(
        1,
        GroupDeltas {
            group_deltas: vec![GroupDelta::GroupMetaChange(GroupMetaChange {
                table_ids_add: vec![],
                table_ids_remove: vec![11],
            })],
        },
    );
    let infos = version.apply_version_delta(&split).unwrap();
    assert_eq!(infos, vec![(3, 100, 3, 101), (4, 102, 4, 4)]);
    check(&version);
    assert_eq!(version.levels[&1].levels[0].table_infos.iter().map(|r| r.sst_id).collect::<Vec<_>>(), vec![101]);
    assert_eq!(
        version.levels[&2].levels[0].table_infos.iter().map(|r| r.sst_id).collect::<Vec<_>>(),
        vec![100, 102]
    );
    // A compaction in the new group, then the old group goes.
    let compaction = one_group_delta(
        5,
        2,
        2,
        vec![
            GroupDelta::IntraLevel(IntraLevelDelta {
                level_idx: 1,
                l0_sub_level_id: 0,
                removed_table_ids: vec![100, 102],
                inserted_table_infos: vec![],
            }),
            GroupDelta::IntraLevel(IntraLevelDelta {
                level_idx: 2,
                l0_sub_level_id: 0,
                removed_table_ids: vec![],
                inserted_table_infos: vec![run(200, b"aaaa", b"zzzz", vec![11], 9)],
            }),
        ],
    );
    version.apply_version_delta(&compaction).unwrap();
    check(&version);
    version
        .apply_version_delta(&one_group_delta(6, 1, 2, vec![GroupDelta::GroupDestroy(GroupDestroy {})]))
        .unwrap();
    check(&version);
    assert_eq!(version.get_object_ids(), vec![200]);
    assert_eq!(version.id, 6);
}

#[test]
fn committed_epoch_must_not_go_back_even_without_edits() {
    let mut version = version_with_groups(&[1]);
    version.max_committed_epoch = 5;
    let before = version.clone();
    let mut delta = build_version_delta_after_version(&version);
    delta.max_committed_epoch = 4;
    assert!(delta.group_deltas.is_empty());
    assert_eq!(version.apply_version_delta(&delta), Err(VersionError::EpochRegression));
    assert_eq!(version, before);
    // The check comes before any group is looked at.
    let delta = commit(1, 9, 4, 1, vec![run(1, b"aaaa", b"bbbb", vec![1], 1)]);
    assert_eq!(version.apply_version_delta(&delta), Err(VersionError::EpochRegression));
}

#[test]
fn every_insert_of_a_commit_must_target_level_zero() {
    let insert = |level_idx: u32, sub_level: u64, id: u64| {
        GroupDelta::IntraLevel(IntraLevelDelta {
            level_idx,
            l0_sub_level_id: sub_level,
            removed_table_ids: vec![],
            inserted_table_infos: vec![run(id, b"aaaa", b"bbbb", vec![1], 1)],
        })
    };
    let mut version = version_with_groups(&[1]);
    let before = version.clone();
    let delta = one_group_delta(1, 1, 1, vec![insert(1, 0, 1), insert(0, 7, 2)]);
    assert_eq!(version.apply_version_delta(&delta), Err(VersionError::CommitBelowLevel0));
    let delta = one_group_delta(1, 1, 1, vec![insert(0, 7, 2), insert(3, 0, 1)]);
    assert_eq!(version.apply_version_delta(&delta), Err(VersionError::CommitBelowLevel0));
    assert_eq!(version, before);
    let summary = summarize_group_deltas(&GroupDeltas {
        group_deltas: vec![insert(1, 0, 1), insert(0, 7, 2)],
    })
    .unwrap();
    assert!(summary.inserts_below_level0);
    assert_eq!(summary.insert_sst_level_id, 0);
    let summary =
        summarize_group_deltas(&GroupDeltas { group_deltas: vec![insert(0, 7, 2)] }).unwrap();
    assert!(!summary.inserts_below_level0);
    // Two inserts into level zero form one new sub-level.
    let delta = one_group_delta(1, 1, 1, vec![insert(0, 7, 1), insert(0, 7, 2)]);
    version.apply_version_delta(&delta).unwrap();
    let l0 = version.levels[&1].l0.as_ref().unwrap();
    assert_eq!(l0.sub_levels.len(), 1);
    assert_eq!(l0.sub_levels[0].table_infos.len(), 2);
}

#[test]
fn table_move_keeps_member_lists_sorted() {
    let mut version = version_with_groups(&[1, 2]);
    version.levels.get_mut(&1).unwrap().member_table_ids = vec![1, 2];
    version.levels.get_mut(&2).unwrap().member_table_ids = vec![5];
    let delta = one_group_delta(
        1,
        2,
        0,
        vec![GroupDelta::GroupTableChange(GroupTableChange {
            table_ids: vec![1],
            target_group_id: 2,
            origin_group_id: 1,
            new_sst_start_id: 10,
            version: CompatibilityVersion::NoTrivialSplit,
        })],
    );
    version.apply_version_delta(&delta).unwrap();
    assert_eq!(version.levels[&1].member_table_ids, vec![2]);
    assert_eq!(version.levels[&2].member_table_ids, vec![1, 5]);
    assert_eq!(validate_version(&version), Vec::<String>::new());
}

#[test]
fn a_version_built_by_commits_is_valid() {
    let mut version = version_with_groups(&[1, 2]);
    assert_eq!(validate_version(&version), Vec::<String>::new());
    version
        .apply_version_delta(&commit(1, 1, 1, 1, vec![run(1, b"aaaa", b"cccc", vec![1, 2], 1)]))
        .unwrap();
    assert_eq!(validate_version(&version), Vec::<String>::new());
    version
        .apply_version_delta(&commit(
            2,
            1,
            2,
            2,
            vec![run(2, b"aaaa", b"bbbb", vec![1], 1), run(3, b"bbbb", b"dddd", vec![2], 1)],
        ))
        .unwrap();
    version
        .apply_version_delta(&commit(3, 2, 3, u64::MAX, vec![run(4, b"aaaa", b"bbbb", vec![7], 1)]))
        .unwrap();
    let ids = |g: u64| -> Vec<u64> {
        version.levels[&g].l0.as_ref().unwrap().sub_levels.iter().map(|l| l.sub_level_id).collect()
    };
    assert_eq!(ids(1), vec![1, 2]);
    assert_eq!(ids(2), vec![u64::MAX]);
    assert_eq!(validate_version(&version), Vec::<String>::new());
}

#[test]
fn levels_stay_in_order_over_deltas() {
    let mut version = version_with_groups(&[1]);
    version.levels.get_mut(&1).unwrap().member_table_ids = vec![1, 2];
    let insert = |level_idx: u32, runs: Vec<SstableInfo>| {
        GroupDelta::IntraLevel(IntraLevelDelta {
            level_idx,
            l0_sub_level_id: 0,
            removed_table_ids: vec![],
            inserted_table_infos: runs,
        })
    };
    let in_order = |version: &HummockVersion| {
        for group in version.levels.values() {
            for level in &group.levels {
                assert!(can_concat(&level.table_infos));
                let lefts: Vec<&Vec<u8>> =
                    level.table_infos.iter().map(|r| &r.key_range.as_ref().unwrap().left).collect();
                assert!(lefts.windows(2).all(|w| w[0] <= w[1]));
            }
        }
        assert!(validate_version(version).iter().all(|m| !m.contains("overlap")));
    };
    // Runs join a level out of order, and one of them lies between two that are there.
    let first = vec![run(3, b"eeee", b"ffff", vec![1], 1), run(1, b"aaaa", b"bbbb", vec![1, 2], 1)];
    version.apply_version_delta(&one_group_delta(1, 1, 0, vec![insert(1, first)])).unwrap();
    in_order(&version);
    let second = vec![run(2, b"cccc", b"dddd", vec![2], 1)];
    version.apply_version_delta(&one_group_delta(2, 1, 0, vec![insert(1, second)])).unwrap();
    assert_eq!(
        version.levels[&1].levels[0].table_infos.iter().map(|r| r.sst_id).collect::<Vec<_>>(),
        vec![1, 2, 3]
    );
    in_order(&version);
    // A run that overlaps is refused, and nothing changes.
    let before = version.clone();
    let third = vec![run(4, b"bbbb", b"cccc", vec![1], 1)];
    assert_eq!(
        version.apply_version_delta(&one_group_delta(3, 1, 0, vec![insert(1, third)])),
        Err(VersionError::NotConcatenable)
    );
    assert_eq!(version, before);
    // A new group takes the runs of table 2; the run in the middle leaves the first group.
    let construct = GroupDelta::GroupConstruct(GroupConstruct {
        group_config: Some(config()),
        parent_group_id: 1,
        table_ids: vec![2],
        group_id: 2,
        new_sst_start_id: 100,
        ..Default::default()
    });
    version.apply_version_delta(&one_group_delta(3, 2, 0, vec![construct])).unwrap();
    in_order(&version);
    let ids = |g: u64| -> Vec<u64> {
        version.levels[&g].levels[0].table_infos.iter().map(|r| r.object_id).collect()
    };
    assert_eq!(ids(1), vec![1, 3]);
    assert_eq!(ids(2), vec![1, 2]);
    // The middle run leaves by a compaction into the next level.
    let removal = GroupDelta::IntraLevel(IntraLevelDelta {
        level_idx: 1,
        l0_sub_level_id: 0,
        removed_table_ids: vec![version.levels[&2].levels[0].table_infos[0].sst_id],
        inserted_table_infos: vec![],
    });
    version.apply_version_delta(&one_group_delta(4, 2, 0, vec![removal])).unwrap();
    in_order(&version);
}
