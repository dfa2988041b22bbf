use std::collections::HashMap;

use hummock::delta::CompactionConfig;
use hummock::level::LevelType;
use hummock::pin_ledger::{PinEntry, PinLedger, PinVersionAction};
use hummock::pinned::PinnedVersion;
use hummock::sstable::SstableInfo;
use hummock::version::{build_initial_compaction_group_levels, HummockVersion, INVALID_VERSION_ID};
use hummock::level::Level;

fn ids(ledger: &PinLedger) -> Vec<(u64, usize)> {
    ledger.versions_in_use.iter().map(|e| (e.version_id, e.count)).collect()
}

#[test]
fn pins_and_unpins_are_counted() {
    let mut ledger = PinLedger::new();
    ledger.pin(5, 10);
    ledger.pin(3, 11);
    ledger.pin(5, 12);
    ledger.pin(9, 13);
    assert_eq!(
        ledger.versions_in_use,
        vec![
            PinEntry { version_id: 3, count: 1, pinned_at: 11 },
            PinEntry { version_id: 5, count: 2, pinned_at: 10 },
            PinEntry { version_id: 9, count: 1, pinned_at: 13 },
        ]
    );
    ledger.unpin(5);
    assert_eq!(ids(&ledger), vec![(3, 1), (5, 1), (9, 1)]);
    ledger.unpin(5);
    assert_eq!(ids(&ledger), vec![(3, 1), (9, 1)]);
    ledger.unpin(5);
    ledger.unpin(4);
    assert_eq!(ids(&ledger), vec![(3, 1), (9, 1)]);
    assert!(!ledger.need_unpin);
}

#[test]
fn tick_names_the_oldest_version_in_use() {
    let mut ledger = PinLedger::new();
    // Only pins: nothing to tell.
    let r = ledger.tick(0, 1000, &vec![PinVersionAction::Pin(1), PinVersionAction::Pin(2)]);
    assert_eq!(r, None);
    assert!(!ledger.need_unpin);
    assert_eq!(ids(&ledger), vec![(1, 1), (2, 1)]);
    // A reader moves from version 1 to version 3; the unpin is counted after the pin.
    let r = ledger.tick(10, 1000, &vec![PinVersionAction::Unpin(1), PinVersionAction::Pin(3)]);
    assert_eq!(r, Some(2));
    assert!(ledger.need_unpin);
    assert_eq!(ids(&ledger), vec![(2, 1), (3, 1)]);
    // The call failed: the next tick asks again although nothing new was reported.
    assert_eq!(ledger.tick(20, 1000, &vec![]), Some(2));
    ledger.unpin_succeeded();
    assert!(!ledger.need_unpin);
    assert_eq!(ledger.tick(30, 1000, &vec![]), None);
    // The last holders let go.
    let r = ledger.tick(40, 1000, &vec![PinVersionAction::Unpin(2), PinVersionAction::Unpin(3)]);
    assert_eq!(r, None);
    assert!(ledger.need_unpin);
    assert!(ledger.versions_in_use.is_empty());
}

#[test]
fn ledger_counts_match_outstanding_guards() {
    // Three readers share version 4; one of them also holds version 6.
    let mut ledger = PinLedger::new();
    let mut outstanding: HashMap<u64, usize> = HashMap::new();
    let batches = vec![
        vec![PinVersionAction::Pin(4), PinVersionAction::Pin(4)],
        vec![PinVersionAction::Pin(6), PinVersionAction::Pin(4), PinVersionAction::Unpin(4)],
        vec![PinVersionAction::Unpin(4)],
        vec![PinVersionAction::Unpin(4), PinVersionAction::Pin(8)],
        vec![PinVersionAction::Unpin(6)],
    ];
    for (tick, batch) in batches.iter().enumerate() {
        for action in batch {
            match action {
                PinVersionAction::Pin(id) => *outstanding.entry(*id).or_default() += 1,
                PinVersionAction::Unpin(id) => *outstanding.get_mut(id).unwrap() -= 1,
            }
        }
        outstanding.retain(|_, c| *c > 0);
        let named = ledger.tick(tick as u64, u64::MAX, batch);
        let counted: HashMap<u64, usize> = ids(&ledger).into_iter().collect();
        assert_eq!(counted, outstanding);
        if let Some(before) = named {
            assert_eq!(Some(&before), outstanding.keys().min());
            assert!(outstanding.keys().all(|id| before <= *id));
        }
    }
    assert_eq!(ids(&ledger), vec![(8, 1)]);
}

#[test]
fn versions_held_too_long_are_given_up() {
    let mut ledger = PinLedger::new();
    ledger.pin(1, 0);
    ledger.pin(2, 50);
    ledger.pin(3, 200);
    assert!(!ledger.expire(99, 100));
    assert_eq!(ids(&ledger).len(), 3);
    assert!(ledger.expire(150, 100));
    assert_eq!(ids(&ledger), vec![(3, 1)]);
    // The only version left is kept however old it is.
    assert!(!ledger.expire(100_000, 100));
    assert_eq!(ids(&ledger), vec![(3, 1)]);

    let mut ledger = PinLedger::new();
    ledger.pin(1, 0);
    ledger.pin(2, 10);
    assert_eq!(ledger.tick(500, 100, &vec![]), Some(2));
    assert!(ledger.need_unpin);
    assert_eq!(ids(&ledger), vec![(2, 1)]);
    // An unpin of the version that was given up is not counted against another.
    assert_eq!(ledger.tick(501, 100, &vec![PinVersionAction::Unpin(1)]), Some(2));
    assert_eq!(ids(&ledger), vec![(2, 1)]);
}

#[test]
fn pinned_version_reports_pin_and_unpin() {
    let mut version = HummockVersion {
        id: 12,
        levels: HashMap::from_iter([
            (1, build_initial_compaction_group_levels(1, &CompactionConfig { max_level: 2 })),
            (2, build_initial_compaction_group_levels(2, &CompactionConfig { max_level: 2 })),
        ]),
        max_committed_epoch: 30,
        safe_epoch: 20,
        table_watermarks: HashMap::new(),
    };
    version.levels.get_mut(&1).unwrap().member_table_ids = vec![100];
    version.levels.get_mut(&2).unwrap().member_table_ids = vec![200];
    {
        let l0 = version.levels.get_mut(&2).unwrap().l0.as_mut().unwrap();
        for id in [1u64, 2] {
            l0.sub_levels.push(Level {
                level_type: LevelType::Overlapping,
                sub_level_id: id,
                table_infos: vec![SstableInfo { object_id: id, sst_id: id, ..Default::default() }],
                ..Default::default()
            });
        }
    }
    let (pinned, action) = PinnedVersion::new(version.clone());
    assert_eq!(action, PinVersionAction::Pin(12));
    assert_eq!(pinned.id(), 12);
    assert!(pinned.is_valid());
    assert_eq!(pinned.max_committed_epoch(), 30);
    assert_eq!(pinned.safe_epoch(), 20);
    assert_eq!(pinned.version(), version);
    assert_eq!(pinned.compaction_group_index(), &HashMap::from([(100, 1), (200, 2)]));
    assert_eq!(pinned.levels(100).len(), 2);
    let levels = pinned.levels(200);
    assert_eq!(levels.iter().map(|l| (l.level_idx, l.sub_level_id)).collect::<Vec<_>>(), vec![
        (0, 2),
        (0, 1),
        (1, 0),
        (2, 0)
    ]);
    assert!(pinned.levels(300).is_empty());
    assert_eq!(pinned.release(), PinVersionAction::Unpin(12));

    let mut newer = version.clone();
    newer.id = 13;
    let (next, action) = pinned.new_pin_version(newer);
    assert_eq!(action, PinVersionAction::Pin(13));
    assert_eq!(next.id(), 13);
    let (invalid, _) = PinnedVersion::new(HummockVersion { id: INVALID_VERSION_ID, ..Default::default() });
    assert!(!invalid.is_valid());
}

#[test]
fn a_version_is_held_since_its_first_pin() {
    let mut ledger = PinLedger::new();
    ledger.pin(1, 0);
    ledger.pin(2, 10);
    // A second reader takes version 1 much later; the version has still been held since 0.
    ledger.pin(1, 90);
    assert_eq!(ledger.versions_in_use[0], PinEntry { version_id: 1, count: 2, pinned_at: 0 });
    assert!(ledger.expire(100, 100));
    assert_eq!(ids(&ledger), vec![(2, 1)]);

    let mut ledger = PinLedger::new();
    assert_eq!(ledger.tick(0, 100, &vec![PinVersionAction::Pin(1), PinVersionAction::Pin(2)]), None);
    assert_eq!(ledger.tick(90, 100, &vec![PinVersionAction::Pin(1)]), None);
    assert_eq!(ledger.tick(100, 100, &vec![]), Some(2));
    assert_eq!(ids(&ledger), vec![(2, 1)]);
}

#[test]
fn the_ledger_counts_holders_over_many_ticks() {
    let mut ledger = PinLedger::new();
    let ticks: Vec<Vec<PinVersionAction>> = vec![
        vec![PinVersionAction::Pin(1), PinVersionAction::Pin(2), PinVersionAction::Pin(1)],
        vec![PinVersionAction::Unpin(1)],
        vec![],
        vec![PinVersionAction::Pin(3), PinVersionAction::Unpin(2), PinVersionAction::Pin(1)],
        vec![PinVersionAction::Unpin(1), PinVersionAction::Unpin(1)],
    ];
    let holders = |id: u64, upto: usize| -> i64 {
        let mut n = 0;
        for batch in &ticks[..upto] {
            for action in batch {
                match action {
                    PinVersionAction::Pin(v) if *v == id => n += 1,
                    PinVersionAction::Unpin(v) if *v == id => n -= 1,
                    _ => {},
                }
            }
        }
        n
    };
    for (i, batch) in ticks.iter().enumerate() {
        ledger.tick(i as u64, 1000, batch);
        if i % 2 == 1 {
            ledger.unpin_succeeded();
        }
        for id in 1..=3u64 {
            let counted: i64 =
                ledger.versions_in_use.iter().filter(|e| e.version_id == id).map(|e| e.count as i64).sum();
            assert_eq!(counted, holders(id, i + 1));
        }
    }
    assert_eq!(ids(&ledger), vec![(3, 1)]);
}
