use hummock::iterator::backward_user::BackwardUserIterator;
use hummock::iterator::merge::MergeIterator;
use hummock::iterator::run::{is_sorted_run, RunEntry, RunIterator};
use hummock::iterator::user::{RangeTombstone, UserIterator};
use hummock::iterator::{
    Backward, DirectionEnum, Forward, FullKey, HummockIterator, HummockValue, UserKey,
};

fn fk(key: &str, epoch: u64) -> FullKey {
    FullKey { user_key: UserKey { table_id: 1, table_key: key.as_bytes().to_vec() }, epoch }
}

fn put(key: &str, epoch: u64, value: &str) -> RunEntry {
    (fk(key, epoch), HummockValue::Put(value.as_bytes().to_vec()))
}

fn delete(key: &str, epoch: u64) -> RunEntry {
    (fk(key, epoch), HummockValue::Delete)
}

/// The same writes in forward order and in backward order.
fn runs() -> (Vec<RunEntry>, Vec<RunEntry>) {
    let forward = vec![
        put("a", 3, "a3"),
        put("a", 1, "a1"),
        delete("b", 2),
        put("b", 1, "b1"),
        put("c", 5, "c5"),
        put("c", 2, "c2"),
        delete("c", 1),
        put("d", 4, "d4"),
    ];
    let mut backward = forward.clone();
    backward.reverse();
    (forward, backward)
}

fn read_forward(read_epoch: u64, tombstones: Vec<RangeTombstone>) -> Vec<(String, String)> {
    let (forward, _) = runs();
    assert!(is_sorted_run(DirectionEnum::Forward, &forward));
    let source: RunIterator<Forward> = RunIterator::new(forward);
    let mut user = UserIterator::new(source, read_epoch, 1, (None, None), tombstones);
    user.rewind().unwrap();
    let mut out = vec![];
    while user.is_valid() {
        out.push((
            String::from_utf8(user.key().user_key.table_key.clone()).unwrap(),
            String::from_utf8(user.value().clone()).unwrap(),
        ));
        user.next().unwrap();
    }
    out
}

fn read_backward(read_epoch: u64, tombstones: Vec<RangeTombstone>) -> Vec<(String, String)> {
    let (_, backward) = runs();
    assert!(is_sorted_run(DirectionEnum::Backward, &backward));
    // Two sources whose entries interleave, merged backwards.
    let (even, odd): (Vec<_>, Vec<_>) = backward.into_iter().partition(|(k, _)| k.epoch % 2 == 0);
    let merge = MergeIterator::new(vec![
        RunIterator::<Backward>::new(even),
        RunIterator::<Backward>::new(odd),
    ]);
    let mut user = BackwardUserIterator::new(merge, read_epoch, 1, (None, None), tombstones);
    user.rewind().unwrap();
    let mut out = vec![];
    while user.is_valid() {
        out.push((
            String::from_utf8(user.key().user_key.table_key.clone()).unwrap(),
            String::from_utf8(user.value().clone()).unwrap(),
        ));
        user.next().unwrap();
    }
    out
}

fn s(k: &str, v: &str) -> (String, String) {
    (k.to_string(), v.to_string())
}

#[test]
fn run_iterator_walks_in_its_direction() {
    let (forward, backward) = runs();
    assert!(!is_sorted_run(DirectionEnum::Backward, &forward));
    assert!(!is_sorted_run(DirectionEnum::Forward, &backward));
    assert!(is_sorted_run(DirectionEnum::Forward, &vec![]));
    let mut it: RunIterator<Forward> = RunIterator::new(forward);
    assert!(!it.is_valid());
    it.rewind().unwrap();
    assert_eq!(it.key(), fk("a", 3));
    it.seek(&fk("b", 1)).unwrap();
    assert_eq!(it.key(), fk("b", 1));
    assert_eq!(it.value(), HummockValue::Put(b"b1".to_vec()));
    it.seek(&fk("b", 9)).unwrap();
    assert_eq!(it.key(), fk("b", 2));
    it.seek(&fk("bb", 9)).unwrap();
    assert_eq!(it.key(), fk("c", 5));
    it.seek(&fk("e", 9)).unwrap();
    assert!(!it.is_valid());

    let mut it: RunIterator<Backward> = RunIterator::new(backward);
    it.rewind().unwrap();
    assert_eq!(it.key(), fk("d", 4));
    it.next().unwrap();
    assert_eq!(it.key(), fk("c", 1));
    // Backwards, a seek stops at the first entry that is not above the key.
    it.seek(&fk("c", 4)).unwrap();
    assert_eq!(it.key(), fk("c", 5));
    it.seek(&fk("c", 2)).unwrap();
    assert_eq!(it.key(), fk("c", 2));
    it.seek(&fk("bb", 1)).unwrap();
    assert_eq!(it.key(), fk("b", 1));
    it.seek(&fk("a", 9)).unwrap();
    assert!(!it.is_valid());
}

#[test]
fn backward_read_shows_the_reverse_of_the_forward_read() {
    for read_epoch in 0..7 {
        let forward = read_forward(read_epoch, vec![]);
        let mut backward = read_backward(read_epoch, vec![]);
        backward.reverse();
        assert_eq!(forward, backward, "read epoch {}", read_epoch);
    }
    assert_eq!(read_backward(1, vec![]), vec![s("b", "b1"), s("a", "a1")]);
    assert_eq!(read_backward(2, vec![]), vec![s("c", "c2"), s("a", "a1")]);
    assert_eq!(read_backward(5, vec![]), vec![s("d", "d4"), s("c", "c5"), s("a", "a3")]);
}

#[test]
fn backward_read_honours_tombstones() {
    let tombstone = |epoch: u64| {
        vec![RangeTombstone {
            start: UserKey { table_id: 1, table_key: b"a".to_vec() },
            end: UserKey { table_id: 1, table_key: b"d".to_vec() },
            epoch,
        }]
    };
    assert_eq!(read_backward(5, tombstone(4)), vec![s("d", "d4"), s("c", "c5")]);
    assert_eq!(read_forward(5, tombstone(4)), vec![s("c", "c5"), s("d", "d4")]);
    assert_eq!(read_backward(3, tombstone(4)), vec![s("c", "c2"), s("a", "a3")]);
    assert_eq!(read_backward(5, tombstone(5)), vec![s("d", "d4")]);
}

fn uk(key: &str) -> UserKey {
    UserKey { table_id: 1, table_key: key.as_bytes().to_vec() }
}

fn seek_forward(key: UserKey, read_epoch: u64) -> Vec<(String, String)> {
    let (forward, _) = runs();
    let source: RunIterator<Forward> = RunIterator::new(forward);
    let mut user = UserIterator::new(source, read_epoch, 1, (None, None), vec![]);
    user.seek(&key).unwrap();
    let mut out = vec![];
    while user.is_valid() {
        out.push((
            String::from_utf8(user.key().user_key.table_key.clone()).unwrap(),
            String::from_utf8(user.value().clone()).unwrap(),
        ));
        user.next().unwrap();
    }
    out
}

fn seek_backward(key: UserKey, read_epoch: u64) -> Vec<(String, String)> {
    let (_, backward) = runs();
    let source: RunIterator<Backward> = RunIterator::new(backward);
    let mut user = BackwardUserIterator::new(source, read_epoch, 1, (None, None), vec![]);
    user.seek(&key).unwrap();
    let mut out = vec![];
    while user.is_valid() {
        out.push((
            String::from_utf8(user.key().user_key.table_key.clone()).unwrap(),
            String::from_utf8(user.value().clone()).unwrap(),
        ));
        user.next().unwrap();
    }
    out
}

#[test]
fn forward_seek_starts_at_the_first_key_not_before_its_target() {
    assert_eq!(seek_forward(uk("a"), 5), vec![s("a", "a3"), s("c", "c5"), s("d", "d4")]);
    // The newest version of the target itself is shown, whatever its epoch.
    assert_eq!(seek_forward(uk("c"), 5), vec![s("c", "c5"), s("d", "d4")]);
    assert_eq!(seek_forward(uk("c"), 2), vec![s("c", "c2")]);
    // A target between two keys, and one that is deleted at the read epoch.
    assert_eq!(seek_forward(uk("bb"), 5), vec![s("c", "c5"), s("d", "d4")]);
    assert_eq!(seek_forward(uk("b"), 5), vec![s("c", "c5"), s("d", "d4")]);
    assert_eq!(seek_forward(uk("b"), 1), vec![s("b", "b1")]);
    assert_eq!(seek_forward(uk("e"), 5), vec![]);
    assert_eq!(seek_forward(UserKey { table_id: 0, table_key: b"z".to_vec() }, 5), read_forward(5, vec![]));
    assert_eq!(seek_forward(UserKey { table_id: 2, table_key: vec![] }, 5), vec![]);
}

#[test]
fn backward_seek_starts_at_the_last_key_not_after_its_target() {
    assert_eq!(seek_backward(uk("d"), 5), vec![s("d", "d4"), s("c", "c5"), s("a", "a3")]);
    assert_eq!(seek_backward(uk("c"), 5), vec![s("c", "c5"), s("a", "a3")]);
    assert_eq!(seek_backward(uk("c"), 2), vec![s("c", "c2"), s("a", "a1")]);
    assert_eq!(seek_backward(uk("bb"), 5), vec![s("a", "a3")]);
    assert_eq!(seek_backward(uk("b"), 1), vec![s("b", "b1"), s("a", "a1")]);
    assert_eq!(seek_backward(uk("0"), 5), vec![]);
    assert_eq!(seek_backward(uk("z"), 5), read_backward(5, vec![]));
}

#[test]
fn a_seek_after_a_walk_starts_afresh() {
    let (forward, _) = runs();
    let source: RunIterator<Forward> = RunIterator::new(forward);
    let mut user = UserIterator::new(source, 5, 1, (None, None), vec![]);
    user.rewind().unwrap();
    user.next().unwrap();
    user.next().unwrap();
    assert_eq!(user.key(), &fk("d", 4));
    user.seek(&uk("a")).unwrap();
    assert_eq!(user.key(), &fk("a", 3));
    user.seek(&uk("c")).unwrap();
    assert_eq!(user.key(), &fk("c", 5));
}
