use std::collections::{HashMap, HashSet};

use hummock::delta::CompactionConfig;
use hummock::level::{Level, LevelType, Levels, OverlappingLevel};
use hummock::queries::{
    get_compaction_group_ids, get_compaction_group_ssts, get_member_table_ids,
    get_table_compaction_group_id_mapping, object_size_map, try_get_compaction_group_id_by_table_id,
};
use hummock::sstable::{KeyRange, SstableInfo};
use hummock::error::VersionError;
use hummock::validate::{check_version, validate_version, Violation};
use hummock::version::{build_initial_compaction_group_levels, HummockVersion};

fn full_key(user_key: &[u8], epoch: u64) -> Vec<u8> {
    let mut k = user_key.to_vec();
    k.extend_from_slice(&epoch.to_be_bytes());
    k
}

fn run(object_id: u64, sst_id: u64, left: &[u8], right: &[u8], size: u64) -> SstableInfo {
    SstableInfo {
        object_id,
        sst_id,
        key_range: Some(KeyRange::new(full_key(left, 1), full_key(right, 1))),
        file_size: size,
        table_ids: vec![1],
        ..Default::default()
    }
}

fn level(idx: u32, sub_level_id: u64, ty: LevelType, runs: Vec<SstableInfo>) -> Level {
    Level { level_idx: idx, level_type: ty, table_infos: runs, sub_level_id, ..Default::default() }
}

fn sample_version() -> HummockVersion {
    let group = |id: u64, members: Vec<u32>, base: u64| Levels {
        levels: vec![
            level(
                1,
                0,
                LevelType::Nonoverlapping,
                vec![run(base + 3, base + 3, b"aaaa", b"bbbb", 30), run(base + 4, base + 4, b"cccc", b"dddd", 40)],
            ),
            level(2, 0, LevelType::Nonoverlapping, vec![]),
        ],
        l0: Some(OverlappingLevel {
            sub_levels: vec![
                level(0, 1, LevelType::Overlapping, vec![run(base + 1, base + 1, b"aaaa", b"zzzz", 10)]),
                level(0, 2, LevelType::Overlapping, vec![run(base + 2, base + 2, b"aaaa", b"zzzz", 20)]),
            ],
            total_file_size: 30,
            uncompressed_file_size: 0,
        }),
        group_id: id,
        parent_group_id: 0,
        member_table_ids: members,
    };
    HummockVersion {
        id: 1,
        levels: HashMap::from_iter([(7, group(7, vec![3, 4], 70)), (2, group(2, vec![1, 2], 20))]),
        max_committed_epoch: 10,
        safe_epoch: 5,
        table_watermarks: HashMap::new(),
    }
}

#[test]
fn well_formed_version_has_no_violation() {
    assert!(check_version(&sample_version()).is_empty());
    assert!(validate_version(&sample_version()).is_empty());
    assert!(validate_version(&HummockVersion::default()).is_empty());
}

#[test]
fn epoch_violation_is_reported() {
    let mut v = sample_version();
    v.safe_epoch = 11;
    assert_eq!(
        check_version(&v),
        vec![Violation::SafeEpochAboveCommitted { safe_epoch: 11, max_committed_epoch: 10 }]
    );
    assert_eq!(validate_version(&v), vec!["VERSION: safe_epoch 11 > max_committed_epoch 10".to_string()]);
}

#[test]
fn group_violations_are_reported() {
    let mut v = sample_version();
    {
        let g = v.levels.get_mut(&2).unwrap();
        g.group_id = 3;
        g.member_table_ids = vec![2, 1, 1];
    }
    v.levels.get_mut(&7).unwrap().member_table_ids = vec![2, 4];
    v.levels.get_mut(&7).unwrap().l0 = None;
    assert_eq!(
        check_version(&v),
        vec![
            Violation::InconsistentGroupId { group_id: 2, found: 3 },
            Violation::MemberTablesNotSorted { group_id: 2 },
            Violation::DuplicatedTable { group_id: 2, table_id: 1, first_group: 2 },
            Violation::DuplicatedTable { group_id: 7, table_id: 2, first_group: 2 },
            Violation::MissingLevel0 { group_id: 7 },
        ]
    );
    assert_eq!(
        validate_version(&v),
        vec![
            "GROUP 2: inconsistent group id 3 in Levels".to_string(),
            "GROUP 2: member_table_ids is not sorted".to_string(),
            "GROUP 2: Duplicated table_id 1. First found in group 2".to_string(),
            "GROUP 7: Duplicated table_id 2. First found in group 2".to_string(),
            "GROUP 7: level0 not exist".to_string(),
        ]
    );
}

#[test]
fn level_violations_are_reported() {
    let mut v = sample_version();
    v.levels.remove(&7);
    {
        let g = v.levels.get_mut(&2).unwrap();
        let l0 = g.l0.as_mut().unwrap();
        l0.sub_levels[1].sub_level_id = 1;
        l0.sub_levels[1].table_infos.clear();
        l0.sub_levels[0].level_idx = 4;
        g.levels[0].table_infos[1].key_range = Some(KeyRange::new(full_key(b"bbbb", 1), full_key(b"dddd", 1)));
        g.levels[0].table_infos[0].table_ids = vec![5, 5];
        g.levels[1].level_type = LevelType::Overlapping;
        g.levels[1].level_idx = 7;
        g.levels.push(level(
            3,
            0,
            LevelType::Nonoverlapping,
            vec![run(1, 1, b"aaaa", b"bbbb", 1), SstableInfo { object_id: 2, sst_id: 2, ..Default::default() }],
        ));
    }
    assert_eq!(
        check_version(&v),
        vec![
            Violation::OverlappingLevel { group_id: 2, level_idx: 4 },
            Violation::MismatchedLevelIdx { group_id: 2, level_idx: 4, sub_level_id: 1, expected: 0 },
            Violation::SubLevelOutOfOrder { group_id: 2, sub_level_id: 1, prev_sub_level_id: 1 },
            Violation::EmptySubLevel { group_id: 2, sub_level_id: 1 },
            Violation::TableIdsNotSorted { group_id: 2, level_idx: 1, sub_level_id: 0, object_id: 23 },
            Violation::KeyRangeOverlap { group_id: 2, level_idx: 1, sub_level_id: 0, object_id: 24 },
            Violation::OverlappingLevel { group_id: 2, level_idx: 7 },
            Violation::MismatchedLevelIdx { group_id: 2, level_idx: 7, sub_level_id: 0, expected: 2 },
            Violation::KeyRangeUndecodable { group_id: 2, level_idx: 3, sub_level_id: 0, object_id: 2 },
        ]
    );
    assert_eq!(
        validate_version(&v),
        vec![
            "GROUP 2 LEVEL 4: level type is not non-overlapping".to_string(),
            "GROUP 2 LEVEL 4: mismatched level idx 0".to_string(),
            "GROUP 2 LEVEL 0: sub_level_id 1 <= prev_sub_level 1".to_string(),
            "GROUP 2 LEVEL 0 SUBLEVEL 1: empty level".to_string(),
            "GROUP 2 LEVEL 1 SST 23: table_ids not sorted".to_string(),
            "GROUP 2 LEVEL 1 SST 24: key range should not overlap".to_string(),
            "GROUP 2 LEVEL 7: level type is not non-overlapping".to_string(),
            "GROUP 2 LEVEL 7: mismatched level idx 2".to_string(),
            "GROUP 2 LEVEL 3 SST 2: key range cannot be decoded".to_string(),
        ]
    );
}

#[test]
fn messages_render_numbers_in_decimal() {
    let v = Violation::SafeEpochAboveCommitted { safe_epoch: u64::MAX, max_committed_epoch: 0 };
    assert_eq!(v.message(), "VERSION: safe_epoch 18446744073709551615 > max_committed_epoch 0");
    let v = Violation::TableIdsNotSorted { group_id: 10, level_idx: 0, sub_level_id: 907, object_id: 1000 };
    assert_eq!(v.message(), "GROUP 10 LEVEL 0 SUBLEVEL 907 SST 1000: table_ids not sorted");
}

#[test]
fn object_ids_follow_read_order() {
    let v = sample_version();
    // Group 2 before group 7; in each the newest sub-level first.
    assert_eq!(v.get_object_ids(), vec![22, 21, 23, 24, 72, 71, 73, 74]);
    assert_eq!(v.get_combined_levels().len(), 8);
    assert_eq!(v.get_combined_levels()[0].sub_level_id, 2);
    assert_eq!(get_compaction_group_ssts(&v, 7), vec![(72, 72), (71, 71), (73, 73), (74, 74)]);
    assert_eq!(get_compaction_group_ids(&v), vec![2, 7]);
    assert_eq!(v.num_levels(2), 3);
    assert_eq!(v.num_levels(5), 0);
    assert_eq!(v.get_compaction_group_levels(7).group_id, 7);
    assert_eq!(v.levels[&2].count_ssts(), 4);
    assert_eq!(v.levels[&2].get_level0().sub_levels.len(), 2);
    assert_eq!(v.levels[&2].get_level(1).table_infos.len(), 2);
    let mut g = build_initial_compaction_group_levels(4, &CompactionConfig { max_level: 3 });
    assert_eq!(g.levels.iter().map(|l| l.level_idx).collect::<Vec<_>>(), vec![1, 2, 3]);
    assert!(g.levels.iter().all(|l| l.level_type == LevelType::Nonoverlapping));
    g.get_level_mut(3).total_file_size = 9;
    assert_eq!(g.levels[2].total_file_size, 9);
    assert_eq!(g.count_ssts(), 0);
}

#[test]
fn tables_map_to_groups() {
    let mut v = sample_version();
    assert_eq!(
        get_table_compaction_group_id_mapping(&v),
        HashMap::from([(1, 2), (2, 2), (3, 7), (4, 7)])
    );
    assert_eq!(v.build_compaction_group_info(), HashMap::from([(1, 2), (2, 2), (3, 7), (4, 7)]));
    assert_eq!(get_member_table_ids(&v), HashSet::from([1, 2, 3, 4]));
    assert_eq!(try_get_compaction_group_id_by_table_id(&v, 3), Some(7));
    assert_eq!(try_get_compaction_group_id_by_table_id(&v, 9), None);
    // A table that two groups list is found in the lower group and filed under the higher.
    v.levels.get_mut(&7).unwrap().member_table_ids = vec![1, 3];
    assert_eq!(try_get_compaction_group_id_by_table_id(&v, 1), Some(2));
    assert_eq!(get_table_compaction_group_id_mapping(&v)[&1], 7);
}

#[test]
fn object_sizes_are_collected() {
    let v = sample_version();
    let sizes = object_size_map(&v);
    assert_eq!(sizes.len(), 8);
    assert_eq!(sizes[&21], 10);
    assert_eq!(sizes[&24], 40);
    assert_eq!(sizes[&73], 30);
}

#[test]
fn branches_are_indexed_per_object() {
    let mut v = sample_version();
    assert!(v.build_branched_sst_info().unwrap().is_empty());
    v.levels.get_mut(&2).unwrap().levels[0].table_infos[0] = run(500, 23, b"aaaa", b"bbbb", 1);
    v.levels.get_mut(&7).unwrap().levels[0].table_infos[0] = run(500, 73, b"aaaa", b"bbbb", 1);
    let index = v.build_branched_sst_info().unwrap();
    assert_eq!(index.len(), 1);
    assert_eq!(index[&500], HashMap::from([(2, 23), (7, 73)]));
    v.levels.get_mut(&7).unwrap().levels[0].table_infos[1] = run(500, 74, b"cccc", b"dddd", 1);
    assert_eq!(v.build_branched_sst_info().err(), Some(VersionError::DuplicateBranch));
}
