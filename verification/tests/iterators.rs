use hummock::iterator::from_rust::{is_sorted_batch, BatchItem, FromRustIterator};
use hummock::iterator::merge::MergeIterator;
use hummock::iterator::user::{RangeTombstone, UserIterator};
use hummock::iterator::{
    compare_full_key_pair, Backward, DirectionEnum, Forward, FullKey, HummockIterator,
    HummockIteratorDirection, HummockIteratorUnion, HummockValue, PhantomHummockIterator, UserKey,
};
use hummock::key::KeyOrder;
use hummock::store::{scan, scan_read_options, PrefetchOptions, ReadOptions, StateStoreIter};

type Source<'a> = HummockIteratorUnion<
    Forward,
    FromRustIterator<'a>,
    PhantomHummockIterator<Forward>,
    PhantomHummockIterator<Forward>,
    PhantomHummockIterator<Forward>,
>;

fn put(key: &str, value: &str) -> BatchItem {
    (key.as_bytes().to_vec(), HummockValue::Put(value.as_bytes().to_vec()))
}

fn delete(key: &str) -> BatchItem {
    (key.as_bytes().to_vec(), HummockValue::Delete)
}

fn fk(table_id: u32, key: &str, epoch: u64) -> FullKey {
    FullKey { user_key: UserKey { table_id, table_key: key.as_bytes().to_vec() }, epoch }
}

fn uk(table_id: u32, key: &str) -> UserKey {
    UserKey { table_id, table_key: key.as_bytes().to_vec() }
}

fn collect<I: HummockIterator>(iter: &mut I) -> Vec<(FullKey, HummockValue)> {
    let mut out = vec![];
    while iter.is_valid() {
        out.push((iter.key(), iter.value()));
        iter.next().unwrap();
    }
    out
}

fn read(batches: &[(&Vec<BatchItem>, u64)], read_epoch: u64, tombstones: Vec<RangeTombstone>) -> Vec<(String, String)> {
    let children: Vec<FromRustIterator> =
        batches.iter().map(|(b, epoch)| FromRustIterator::new(b, *epoch, 1)).collect();
    let merge = MergeIterator::new(children);
    let mut user = UserIterator::new(merge, read_epoch, 1, (None, None), tombstones);
    user.rewind().unwrap();
    let mut out = vec![];
    while user.is_valid() {
        out.push((
            String::from_utf8(user.key().user_key.table_key.clone()).unwrap(),
            String::from_utf8(user.value().clone()).unwrap(),
        ));
        user.next().unwrap();
    }
    out
}

#[test]
fn directions_are_fixed_by_type() {
    assert_eq!(Forward::direction(), DirectionEnum::Forward);
    assert_eq!(Backward::direction(), DirectionEnum::Backward);
}

#[test]
fn full_keys_order_by_user_key_then_newest_epoch() {
    assert_eq!(compare_full_key_pair(&fk(1, "a", 5), &fk(1, "b", 9)), KeyOrder::Less);
    assert_eq!(compare_full_key_pair(&fk(2, "a", 5), &fk(1, "b", 9)), KeyOrder::Greater);
    assert_eq!(compare_full_key_pair(&fk(1, "a", 9), &fk(1, "a", 5)), KeyOrder::Less);
    assert_eq!(compare_full_key_pair(&fk(1, "a", 5), &fk(1, "a", 9)), KeyOrder::Greater);
    assert_eq!(compare_full_key_pair(&fk(1, "a", 5), &fk(1, "a", 5)), KeyOrder::Equal);
    assert_eq!(compare_full_key_pair(&fk(1, "a", 5), &fk(1, "ab", 5)), KeyOrder::Less);
}

#[test]
fn batch_iterator_walks_and_seeks() {
    let batch = vec![put("b", "1"), delete("d"), put("f", "3")];
    assert!(is_sorted_batch(&batch));
    assert!(!is_sorted_batch(&vec![put("b", "1"), put("b", "2")]));
    assert!(!is_sorted_batch(&vec![put("c", "1"), put("b", "2")]));
    let mut it = FromRustIterator::new(&batch, 7, 3);
    assert!(!it.is_valid());
    it.rewind().unwrap();
    assert_eq!(
        collect(&mut it),
        vec![
            (fk(3, "b", 7), HummockValue::Put(b"1".to_vec())),
            (fk(3, "d", 7), HummockValue::Delete),
            (fk(3, "f", 7), HummockValue::Put(b"3".to_vec())),
        ]
    );
    assert!(!it.is_valid());

    it.seek(&fk(3, "c", 7)).unwrap();
    assert_eq!(it.key(), fk(3, "d", 7));
    it.seek(&fk(3, "d", 7)).unwrap();
    assert_eq!(it.key(), fk(3, "d", 7));
    // The key sought is older than the entry of the batch: the entry is met.
    it.seek(&fk(3, "d", 9)).unwrap();
    assert_eq!(it.key(), fk(3, "d", 7));
    // The key sought is at an epoch that the entry of the batch is newer than: it is passed.
    it.seek(&fk(3, "d", 5)).unwrap();
    assert_eq!(it.key(), fk(3, "f", 7));
    it.seek(&fk(3, "f", 5)).unwrap();
    assert!(!it.is_valid());
    it.seek(&fk(3, "g", 7)).unwrap();
    assert!(!it.is_valid());
    it.seek(&fk(3, "a", 7)).unwrap();
    assert_eq!(it.key(), fk(3, "b", 7));
    // Another table: before all of the batch, or behind all of it.
    it.seek(&fk(2, "z", 7)).unwrap();
    assert_eq!(it.key(), fk(3, "b", 7));
    it.seek(&fk(4, "a", 7)).unwrap();
    assert!(!it.is_valid());
}

#[test]
fn merge_shows_entries_in_order() {
    let old = vec![put("a", "a1"), put("c", "c1")];
    let new = vec![put("b", "b2"), delete("c"), put("d", "d2")];
    let mut merge =
        MergeIterator::new(vec![FromRustIterator::new(&old, 1, 1), FromRustIterator::new(&new, 2, 1)]);
    assert!(!merge.is_valid());
    merge.rewind().unwrap();
    assert_eq!(
        collect(&mut merge).into_iter().map(|(k, _)| k).collect::<Vec<_>>(),
        vec![fk(1, "a", 1), fk(1, "b", 2), fk(1, "c", 2), fk(1, "c", 1), fk(1, "d", 2)]
    );
    merge.seek(&fk(1, "c", 1)).unwrap();
    assert_eq!(merge.key(), fk(1, "c", 1));
    assert_eq!(merge.value(), HummockValue::Put(b"c1".to_vec()));
    merge.next().unwrap();
    assert_eq!(merge.key(), fk(1, "d", 2));
    merge.seek(&fk(1, "c", 3)).unwrap();
    assert_eq!(merge.key(), fk(1, "c", 2));
    let mut empty: MergeIterator<FromRustIterator> = MergeIterator::new(vec![]);
    empty.rewind().unwrap();
    assert!(!empty.is_valid());
}

#[test]
fn union_dispatches_to_its_kind() {
    let batch = vec![put("a", "1")];
    let mut merge: MergeIterator<Source> = MergeIterator::new(vec![
        HummockIteratorUnion::Second(PhantomHummockIterator::new()),
        HummockIteratorUnion::First(FromRustIterator::new(&batch, 4, 1)),
    ]);
    merge.rewind().unwrap();
    assert_eq!(collect(&mut merge), vec![(fk(1, "a", 4), HummockValue::Put(b"1".to_vec()))]);
    let mut phantom: PhantomHummockIterator<Forward> = PhantomHummockIterator::new();
    phantom.rewind().unwrap();
    assert!(!phantom.is_valid());
    phantom.seek(&fk(1, "a", 4)).unwrap();
    assert!(!phantom.is_valid());
}

#[test]
fn read_sees_newest_visible_version() {
    let e1 = vec![put("k", "a")];
    let e2 = vec![delete("k")];
    let e3 = vec![put("k", "b")];
    let batches = [(&e1, 1u64), (&e2, 2), (&e3, 3)];
    assert_eq!(read(&batches, 1, vec![]), vec![("k".to_string(), "a".to_string())]);
    assert_eq!(read(&batches, 2, vec![]), vec![]);
    assert_eq!(read(&batches, 3, vec![]), vec![("k".to_string(), "b".to_string())]);
    assert_eq!(read(&batches, 0, vec![]), vec![]);
    assert_eq!(read(&batches, u64::MAX, vec![]), vec![("k".to_string(), "b".to_string())]);
}

#[test]
fn read_shows_one_entry_per_key() {
    let e1 = vec![put("a", "a1"), put("b", "b1"), put("c", "c1")];
    let e2 = vec![put("a", "a2"), delete("b"), put("d", "d2")];
    let e3 = vec![put("b", "b3"), delete("d")];
    let batches = [(&e3, 3u64), (&e1, 1), (&e2, 2)];
    let s = |k: &str, v: &str| (k.to_string(), v.to_string());
    assert_eq!(read(&batches, 1, vec![]), vec![s("a", "a1"), s("b", "b1"), s("c", "c1")]);
    assert_eq!(read(&batches, 2, vec![]), vec![s("a", "a2"), s("c", "c1"), s("d", "d2")]);
    assert_eq!(read(&batches, 3, vec![]), vec![s("a", "a2"), s("b", "b3"), s("c", "c1")]);
}

#[test]
fn range_tombstone_hides_older_writes() {
    let e1 = vec![put("a", "a1"), put("b", "b1"), put("c", "c1")];
    let e3 = vec![put("b", "b3")];
    let batches = [(&e1, 1u64), (&e3, 3)];
    let tombstone = |epoch: u64| vec![RangeTombstone { start: uk(1, "a"), end: uk(1, "c"), epoch }];
    let s = |k: &str, v: &str| (k.to_string(), v.to_string());
    // The tombstone of epoch 2 deletes what was written at epoch 1 from "a" up to "c".
    assert_eq!(read(&batches, 3, tombstone(2)), vec![s("b", "b3"), s("c", "c1")]);
    assert_eq!(read(&batches, 2, tombstone(2)), vec![s("c", "c1")]);
    // A read below the tombstone does not see it.
    assert_eq!(read(&batches, 1, tombstone(2)), vec![s("a", "a1"), s("b", "b1"), s("c", "c1")]);
    // A tombstone of the epoch of the write deletes the write, an older one does not.
    assert_eq!(read(&batches, 3, tombstone(3)), vec![s("c", "c1")]);
    assert_eq!(read(&batches, 3, tombstone(0)), vec![s("a", "a1"), s("b", "b3"), s("c", "c1")]);
    // A tombstone of another table deletes nothing.
    let other = vec![RangeTombstone { start: uk(2, "a"), end: uk(2, "z"), epoch: 2 }];
    assert_eq!(read(&batches, 3, other), vec![s("a", "a1"), s("b", "b3"), s("c", "c1")]);
}

#[test]
fn read_skips_other_tables() {
    let mine = vec![put("a", "1")];
    let theirs = vec![put("a", "2")];
    let merge =
        MergeIterator::new(vec![FromRustIterator::new(&theirs, 1, 2), FromRustIterator::new(&mine, 1, 1)]);
    let mut user = UserIterator::new(merge, 5, 2, (None, None), vec![]);
    user.rewind().unwrap();
    assert!(user.is_valid());
    assert_eq!(user.key(), &fk(2, "a", 1));
    assert_eq!(user.value(), &b"2".to_vec());
    user.next().unwrap();
    assert!(!user.is_valid());
}

#[test]
fn user_iterator_serves_as_state_store_iter() {
    let e1 = vec![put("a", "a1"), put("b", "b1")];
    let merge = MergeIterator::new(vec![FromRustIterator::new(&e1, 1, 1)]);
    let mut user = UserIterator::new(merge, 5, 1, (None, None), vec![]);
    user.rewind().unwrap();
    assert_eq!(StateStoreIter::next(&mut user), Ok(Some((fk(1, "a", 1), b"a1".to_vec()))));
    assert_eq!(StateStoreIter::next(&mut user), Ok(Some((fk(1, "b", 1), b"b1".to_vec()))));
    assert_eq!(StateStoreIter::next(&mut user), Ok(None));
    assert_eq!(StateStoreIter::next(&mut user), Ok(None));
}

#[test]
fn read_respects_its_key_range() {
    let e1 = vec![put("a", "1"), put("b", "2"), put("c", "3"), put("d", "4")];
    let keys = |lower: Option<&str>, upper: Option<&str>| {
        let merge = MergeIterator::new(vec![FromRustIterator::new(&e1, 1, 1)]);
        let bound = |b: Option<&str>| b.map(|s| s.as_bytes().to_vec());
        let mut user = UserIterator::new(merge, 5, 1, (bound(lower), bound(upper)), vec![]);
        user.rewind().unwrap();
        let mut out = String::new();
        while user.is_valid() {
            out.push_str(&String::from_utf8(user.key().user_key.table_key.clone()).unwrap());
            user.next().unwrap();
        }
        out
    };
    assert_eq!(keys(None, None), "abcd");
    assert_eq!(keys(Some("b"), None), "bcd");
    assert_eq!(keys(None, Some("c")), "ab");
    assert_eq!(keys(Some("b"), Some("d")), "bc");
    assert_eq!(keys(Some("bb"), Some("c")), "");
    assert_eq!(keys(Some("d"), Some("a")), "");
}

#[test]
fn scan_takes_at_most_its_limit() {
    let e1 = vec![put("a", "1"), put("b", "2"), put("c", "3")];
    let taken = |limit: Option<usize>| {
        let merge = MergeIterator::new(vec![FromRustIterator::new(&e1, 1, 1)]);
        let mut user = UserIterator::new(merge, 5, 1, (None, None), vec![]);
        user.rewind().unwrap();
        scan(&mut user, limit).unwrap()
    };
    let all = vec![
        (fk(1, "a", 1), b"1".to_vec()),
        (fk(1, "b", 1), b"2".to_vec()),
        (fk(1, "c", 1), b"3".to_vec()),
    ];
    assert_eq!(taken(None), all);
    assert_eq!(taken(Some(5)), all);
    assert_eq!(taken(Some(3)), all);
    assert_eq!(taken(Some(2)), all[..2].to_vec());
    assert_eq!(taken(Some(0)), vec![]);
}

#[test]
fn scan_leaves_the_iterator_behind_the_last_item() {
    let e1 = vec![put("a", "1"), put("b", "2"), put("c", "3")];
    let merge = MergeIterator::new(vec![FromRustIterator::new(&e1, 1, 1)]);
    let mut user = UserIterator::new(merge, 5, 1, (None, None), vec![]);
    user.rewind().unwrap();
    assert_eq!(scan(&mut user, Some(1)).unwrap(), vec![(fk(1, "a", 1), b"1".to_vec())]);
    assert_eq!(StateStoreIter::next(&mut user), Ok(Some((fk(1, "b", 1), b"2".to_vec()))));
    assert_eq!(scan(&mut user, None).unwrap(), vec![(fk(1, "c", 1), b"3".to_vec())]);
    assert_eq!(scan(&mut user, None).unwrap(), vec![]);
}

fn exhausting_options() -> ReadOptions {
    let mut options = ReadOptions::default();
    options.prefetch_options = PrefetchOptions::new_for_large_range_scan();
    options.prefix_hint = Some(b"pre".to_vec());
    options.table_id = 7;
    options
}

#[test]
fn scan_with_a_limit_does_not_preload() {
    assert!(exhausting_options().prefetch_options.preload);
    let limited = scan_read_options(Some(10), exhausting_options());
    assert!(!limited.prefetch_options.preload);
    assert_eq!(limited.table_id, 7);
    assert_eq!(limited.prefix_hint, Some(b"pre".to_vec()));
    let unlimited = scan_read_options(None, exhausting_options());
    assert!(unlimited.prefetch_options.preload);
    assert_eq!(unlimited, exhausting_options());
    let plain = scan_read_options(None, ReadOptions::default());
    assert!(!plain.prefetch_options.preload);
}
