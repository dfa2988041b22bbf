use hummock::iterator::concat::ConcatIterator;
use hummock::iterator::from_rust::{BatchItem, FromRustIterator};
use hummock::iterator::merge::MergeIterator;
use hummock::iterator::user::UserIterator;
use hummock::iterator::{
    EntryView, Forward, FullKey, HummockIterator, HummockIteratorUnion, HummockValue, PhantomHummockIterator,
    UserKey,
};
use hummock::store::{scan, StateStoreIter, StorageError};

/// A source that yields one entry and then fails to read on.
struct Broken {
    at_first: bool,
    error: StorageError,
}

impl HummockIterator for Broken {
    type Direction = Forward;

    // The four descriptions and the lemma exist for proofs only and are never run.
    fn all(&self) -> vstd::seq::Seq<EntryView> {
        unreachable!()
    }

    fn remaining(&self) -> vstd::seq::Seq<EntryView> {
        unreachable!()
    }

    fn wf(&self) -> bool {
        unreachable!()
    }

    fn never_fails(&self) -> bool {
        unreachable!()
    }

    fn lemma_sorted(&self) {
        unreachable!()
    }

    fn is_valid(&self) -> bool {
        self.at_first
    }

    fn key(&self) -> FullKey {
        fk("m", 1)
    }

    fn value(&self) -> HummockValue {
        HummockValue::Put(b"m1".to_vec())
    }

    fn next(&mut self) -> Result<(), StorageError> {
        Err(self.error)
    }

    fn rewind(&mut self) -> Result<(), StorageError> {
        self.at_first = true;
        Ok(())
    }

    fn seek(&mut self, _key: &FullKey) -> Result<(), StorageError> {
        Err(self.error)
    }
}

type Source<'a> = HummockIteratorUnion<
    Forward,
    FromRustIterator<'a>,
    Broken,
    PhantomHummockIterator<Forward>,
    PhantomHummockIterator<Forward>,
>;

fn put(key: &str, value: &str) -> BatchItem {
    (key.as_bytes().to_vec(), HummockValue::Put(value.as_bytes().to_vec()))
}

fn fk(key: &str, epoch: u64) -> FullKey {
    FullKey { user_key: UserKey { table_id: 1, table_key: key.as_bytes().to_vec() }, epoch }
}

fn keys<I: HummockIterator>(iter: &mut I) -> Vec<FullKey> {
    let mut out = vec![];
    while iter.is_valid() {
        out.push(iter.key());
        iter.next().unwrap();
    }
    out
}

#[test]
fn read_failures_pass_through_merge_and_user_iterator() {
    let batch = vec![put("a", "a1"), put("z", "z1")];
    let sources = |error| -> Vec<Source> {
        vec![
            HummockIteratorUnion::First(FromRustIterator::new(&batch, 1, 1)),
            HummockIteratorUnion::Second(Broken { at_first: false, error }),
        ]
    };
    let mut merge = MergeIterator::new(sources(StorageError::Io));
    merge.rewind().unwrap();
    assert_eq!(merge.key(), fk("a", 1));
    merge.next().unwrap();
    assert_eq!(merge.key(), fk("m", 1));
    assert_eq!(merge.next(), Err(StorageError::Io));
    assert_eq!(merge.seek(&fk("a", 1)), Err(StorageError::Io));

    let mut user = UserIterator::new(MergeIterator::new(sources(StorageError::Decode)), 9, 1, (None, None), vec![]);
    assert_eq!(user.rewind(), Ok(()));
    assert_eq!(user.key(), &fk("a", 1));
    // Moving on from "a" takes the merge to "m", whose source cannot be read further.
    assert_eq!(StateStoreIter::next(&mut user), Err(StorageError::Decode));

    let mut user = UserIterator::new(MergeIterator::new(sources(StorageError::Decode)), 9, 1, (None, None), vec![]);
    assert_eq!(user.rewind(), Ok(()));
    assert_eq!(scan(&mut user, Some(0)), Ok(vec![]));
    assert_eq!(scan(&mut user, None), Err(StorageError::Decode));
}

#[test]
fn concat_walks_runs_one_after_the_other() {
    let first = vec![put("a", "1"), put("c", "2")];
    let second: Vec<BatchItem> = vec![];
    let third = vec![put("e", "3"), put("g", "4")];
    let children = || {
        vec![
            FromRustIterator::new(&first, 5, 1),
            FromRustIterator::new(&second, 5, 1),
            FromRustIterator::new(&third, 4, 1),
        ]
    };
    let mut concat = ConcatIterator::new(children());
    assert!(!concat.is_valid());
    concat.rewind().unwrap();
    assert_eq!(keys(&mut concat), vec![fk("a", 5), fk("c", 5), fk("e", 4), fk("g", 4)]);
    assert!(!concat.is_valid());
    concat.seek(&fk("d", 5)).unwrap();
    assert_eq!(concat.key(), fk("e", 4));
    assert_eq!(concat.value(), HummockValue::Put(b"3".to_vec()));
    concat.seek(&fk("c", 5)).unwrap();
    assert_eq!(keys(&mut concat), vec![fk("c", 5), fk("e", 4), fk("g", 4)]);
    concat.seek(&fk("g", 1)).unwrap();
    assert!(!concat.is_valid());
    concat.seek(&fk("a", 9)).unwrap();
    assert_eq!(concat.key(), fk("a", 5));
    let mut empty: ConcatIterator<FromRustIterator> = ConcatIterator::new(vec![]);
    empty.rewind().unwrap();
    assert!(!empty.is_valid());
    // A merge over a run of concatenated batches and a newer batch.
    let newer = vec![put("c", "9")];
    let mut merge = MergeIterator::new(vec![
        HummockIteratorUnion::<Forward, _, _, PhantomHummockIterator<Forward>, PhantomHummockIterator<Forward>>::First(ConcatIterator::new(children())),
        HummockIteratorUnion::Second(FromRustIterator::new(&newer, 7, 1)),
    ]);
    merge.rewind().unwrap();
    assert_eq!(keys(&mut merge), vec![fk("a", 5), fk("c", 7), fk("c", 5), fk("e", 4), fk("g", 4)]);
}
