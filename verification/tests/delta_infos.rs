use std::collections::HashMap;

use hummock::delta::{
    CompactionConfig, GroupDelta, GroupDeltas, GroupDestroy, HummockVersionDelta, IntraLevelDelta,
};
use hummock::delta_info::SstDeltaInfo;
use hummock::error::VersionError;
use hummock::level::{Level, LevelType};
use hummock::sstable::SstableInfo;
use hummock::version::{build_initial_compaction_group_levels, HummockVersion};

fn run(object_id: u64, sst_id: u64) -> SstableInfo {
    SstableInfo { object_id, sst_id, ..Default::default() }
}

fn version() -> HummockVersion {
    let mut v = HummockVersion {
        id: 1,
        levels: HashMap::from_iter([
            (1, build_initial_compaction_group_levels(1, &CompactionConfig { max_level: 3 })),
            (2, build_initial_compaction_group_levels(2, &CompactionConfig { max_level: 3 })),
        ]),
        ..Default::default()
    };
    {
        let g = v.levels.get_mut(&1).unwrap();
        let l0 = g.l0.as_mut().unwrap();
        l0.sub_levels.push(Level {
            level_type: LevelType::Overlapping,
            sub_level_id: 1,
            table_infos: vec![run(101, 11), run(102, 12)],
            ..Default::default()
        });
        l0.sub_levels.push(Level {
            level_type: LevelType::Overlapping,
            sub_level_id: 2,
            table_infos: vec![run(103, 13)],
            ..Default::default()
        });
        g.levels[1].table_infos = vec![run(104, 14), run(105, 15)];
    }
    v
}

fn intra(level_idx: u32, removed: Vec<u64>, inserted: Vec<SstableInfo>) -> GroupDelta {
    GroupDelta::IntraLevel(IntraLevelDelta {
        level_idx,
        l0_sub_level_id: 0,
        removed_table_ids: removed,
        inserted_table_infos: inserted,
    })
}

fn delta(groups: Vec<(u64, Vec<GroupDelta>)>) -> HummockVersionDelta {
    HummockVersionDelta {
        id: 2,
        prev_id: 1,
        group_deltas: groups
            .into_iter()
            .map(|(g, d)| (g, GroupDeltas { group_deltas: d }))
            .collect(),
        ..Default::default()
    }
}

#[test]
fn removed_runs_are_looked_up_by_level() {
    let v = version();
    let d = delta(vec![(
        1,
        vec![
            intra(0, vec![13, 11], vec![]),
            intra(2, vec![15], vec![]),
            // Run 14 is named at a level that does not hold it.
            intra(3, vec![14], vec![]),
            intra(3, vec![], vec![run(200, 20), run(201, 21)]),
        ],
    )]);
    assert_eq!(
        v.build_sst_delta_infos(&d),
        Ok(vec![SstDeltaInfo {
            insert_sst_level: 3,
            insert_sst_infos: vec![run(200, 20), run(201, 21)],
            delete_sst_object_ids: vec![101, 103, 105],
        }])
    );
}

#[test]
fn groups_with_other_edits_are_passed_over() {
    let v = version();
    let d = delta(vec![
        (2, vec![intra(1, vec![], vec![run(300, 30)])]),
        (1, vec![intra(0, vec![11], vec![]), GroupDelta::GroupDestroy(GroupDestroy {})]),
    ]);
    assert_eq!(
        v.build_sst_delta_infos(&d),
        Ok(vec![SstDeltaInfo {
            insert_sst_level: 1,
            insert_sst_infos: vec![run(300, 30)],
            delete_sst_object_ids: vec![],
        }])
    );
    assert_eq!(v.build_sst_delta_infos(&delta(vec![])), Ok(vec![]));
    // Groups come in ascending order of their ids.
    let d = delta(vec![(2, vec![intra(0, vec![], vec![])]), (1, vec![intra(2, vec![14], vec![])])]);
    let infos = v.build_sst_delta_infos(&d).unwrap();
    assert_eq!(infos.len(), 2);
    assert_eq!(infos[0].delete_sst_object_ids, vec![104]);
    assert_eq!(infos[1], SstDeltaInfo::default());
}

#[test]
fn delta_infos_need_the_group_and_its_level_zero() {
    let mut v = version();
    let d = delta(vec![(9, vec![intra(0, vec![11], vec![])])]);
    assert_eq!(v.build_sst_delta_infos(&d), Err(VersionError::GroupNotFound));
    v.levels.get_mut(&2).unwrap().l0 = None;
    let d = delta(vec![(2, vec![intra(0, vec![11], vec![])])]);
    assert_eq!(v.build_sst_delta_infos(&d), Err(VersionError::MissingLevel0));
}

#[test]
fn group_levels_can_be_written_in_place() {
    let mut v = version();
    {
        let levels = v.get_compaction_group_levels_mut(2);
        assert_eq!(levels.group_id, 2);
        levels.member_table_ids.push(77);
        levels.parent_group_id = 1;
    }
    assert_eq!(v.get_compaction_group_levels(2).member_table_ids, vec![77]);
    assert_eq!(v.get_compaction_group_levels(2).parent_group_id, 1);
    assert!(v.get_compaction_group_levels(1).member_table_ids.is_empty());
    assert_eq!(v.levels.len(), 2);
}

#[test]
fn level_iter_stops_when_told() {
    let v = version();
    let seen = std::cell::RefCell::new(vec![]);
    let shown = v.level_iter(1, |level| {
        seen.borrow_mut().push((level.level_idx, level.sub_level_id));
        true
    });
    assert_eq!(shown, 5);
    assert_eq!(*seen.borrow(), vec![(0, 1), (0, 2), (1, 0), (2, 0), (3, 0)]);
    seen.borrow_mut().clear();
    let shown = v.level_iter(1, |level| {
        seen.borrow_mut().push((level.level_idx, level.sub_level_id));
        level.level_idx == 0
    });
    assert_eq!(shown, 3);
    assert_eq!(*seen.borrow(), vec![(0, 1), (0, 2), (1, 0)]);
    assert_eq!(v.level_iter(9, |_| true), 0);
}
