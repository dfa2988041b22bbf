use hummock::estimated_lru::{EstimatedLruCache, KEY_SIZE, VALUE_OVERHEAD};
use hummock::key::{
    compare_byte_strings, compare_encoded_full_key, compare_encoded_user_key, KeyOrder, EPOCH_LEN,
};
use hummock::members::{contains_table, partition_tables, sort_table_ids};
use hummock::ordered::{insert_ascending, insert_ascending_u32};
use hummock::sstable::KeyRange;
use hummock::store::{
    gen_min_epoch, EpochPair, InitOptions, NewLocalOptions, PrefetchOptions, SealCurrentEpochOptions,
    TableOption,
};
use hummock::text::push_decimal;

fn full_key(user_key: &[u8], epoch: u64) -> Vec<u8> {
    let mut k = user_key.to_vec();
    k.extend_from_slice(&epoch.to_be_bytes());
    k
}

fn entry_size(value_len: usize) -> usize {
    KEY_SIZE + VALUE_OVERHEAD + value_len
}

#[test]
fn cache_keeps_order_of_use() {
    let mut cache = EstimatedLruCache::unbounded();
    assert!(cache.is_empty());
    assert_eq!(cache.len(), 0);
    assert_eq!(cache.current_epoch(), 0);
    assert_eq!(cache.push(1, vec![1]), None);
    assert_eq!(cache.push(2, vec![2, 2]), None);
    assert_eq!(cache.push(3, vec![3, 3, 3]), None);
    assert_eq!(cache.len(), 3);
    assert!(!cache.is_empty());
    assert!(cache.contains(2));
    assert!(!cache.contains(4));
    assert_eq!(cache.values(), vec![&vec![3, 3, 3], &vec![2, 2], &vec![1]]);
    // A look at a key makes it the most recently used one; `contains` does not.
    assert_eq!(cache.get(1), Some(&vec![1]));
    assert_eq!(cache.get(9), None);
    assert!(cache.contains(2));
    assert_eq!(cache.values(), vec![&vec![1], &vec![3, 3, 3], &vec![2, 2]]);
    // A second push of a key replaces the value and hands the old entry back.
    assert_eq!(cache.push(3, vec![9]), Some((3, vec![3, 3, 3])));
    assert_eq!(cache.values(), vec![&vec![9], &vec![1], &vec![2, 2]]);
    assert_eq!(cache.len(), 3);
    cache.clear();
    assert!(cache.is_empty());
    assert_eq!(cache.estimated_heap_size(), 0);
    assert!(cache.values().is_empty());
}

#[test]
fn cache_accounts_for_sizes() {
    let mut cache = EstimatedLruCache::unbounded();
    assert_eq!(cache.estimated_heap_size(), 0);
    cache.push(1, vec![0; 10]);
    assert_eq!(cache.estimated_heap_size(), entry_size(10));
    cache.push(2, vec![0; 5]);
    assert_eq!(cache.estimated_heap_size(), entry_size(10) + entry_size(5));
    cache.push(1, vec![0; 1]);
    assert_eq!(cache.estimated_heap_size(), entry_size(1) + entry_size(5));
    cache.get(2);
    assert_eq!(cache.estimated_heap_size(), entry_size(1) + entry_size(5));
    assert_eq!(entry_size(0), 32);
}

#[test]
fn cache_evicts_by_epoch() {
    let mut cache = EstimatedLruCache::unbounded();
    cache.update_epoch(1);
    cache.push(1, vec![1]);
    cache.push(2, vec![2]);
    cache.update_epoch(2);
    assert_eq!(cache.current_epoch(), 2);
    cache.push(3, vec![3]);
    // Key 1 is used again at epoch 2, key 2 was last used at epoch 1.
    cache.get(1);
    cache.evict_by_epoch(1);
    assert_eq!(cache.len(), 3);
    cache.evict_by_epoch(2);
    assert_eq!(cache.values(), vec![&vec![1], &vec![3]]);
    assert_eq!(cache.estimated_heap_size(), 2 * entry_size(1));
    cache.update_epoch(5);
    cache.get(3);
    // The least recently used entry decides: key 1 leaves, key 3 has been used since.
    cache.evict_by_epoch(4);
    assert_eq!(cache.values(), vec![&vec![3]]);
    cache.evict_by_epoch(u64::MAX);
    assert!(cache.is_empty());
    assert_eq!(cache.estimated_heap_size(), 0);
    cache.evict_by_epoch(u64::MAX);
    assert!(cache.is_empty());
}

#[test]
fn cache_eviction_stops_at_a_fresh_entry() {
    let mut cache = EstimatedLruCache::unbounded();
    cache.update_epoch(1);
    cache.push(1, vec![1]);
    cache.update_epoch(3);
    cache.push(2, vec![2]);
    cache.update_epoch(1);
    cache.push(3, vec![3]);
    // From the far end: key 1 is stale; key 2 is fresh and shields key 3 behind it.
    cache.evict_by_epoch(2);
    assert_eq!(cache.values(), vec![&vec![3], &vec![2]]);
}

#[test]
fn bytes_compare_lexicographically() {
    let c = |a: &[u8], b: &[u8]| compare_byte_strings(&a.to_vec(), &b.to_vec());
    assert_eq!(c(b"", b""), KeyOrder::Equal);
    assert_eq!(c(b"", b"a"), KeyOrder::Less);
    assert_eq!(c(b"a", b""), KeyOrder::Greater);
    assert_eq!(c(b"ab", b"abc"), KeyOrder::Less);
    assert_eq!(c(b"abd", b"abc"), KeyOrder::Greater);
    assert_eq!(c(b"abc", b"abc"), KeyOrder::Equal);
    assert_eq!(c(&[0xff], &[0x01, 0x02]), KeyOrder::Greater);
    assert_eq!(KeyOrder::Less.reverse(), KeyOrder::Greater);
    assert_eq!(KeyOrder::Equal.reverse(), KeyOrder::Equal);
    assert_eq!(KeyOrder::Greater.reverse(), KeyOrder::Less);
}

#[test]
fn encoded_full_keys_put_newer_epochs_first() {
    assert_eq!(EPOCH_LEN, 8);
    let c = |a: Vec<u8>, b: Vec<u8>| compare_encoded_full_key(&a, &b);
    assert_eq!(c(full_key(b"a", 1), full_key(b"b", 9)), KeyOrder::Less);
    assert_eq!(c(full_key(b"a", 9), full_key(b"a", 1)), KeyOrder::Less);
    assert_eq!(c(full_key(b"a", 1), full_key(b"a", 9)), KeyOrder::Greater);
    assert_eq!(c(full_key(b"a", 4), full_key(b"a", 4)), KeyOrder::Equal);
    assert_eq!(c(full_key(b"", 4), full_key(b"a", 4)), KeyOrder::Less);
    assert_eq!(compare_encoded_user_key(&full_key(b"a", 1), &full_key(b"a", 9)), KeyOrder::Equal);
    assert_eq!(compare_encoded_user_key(&full_key(b"b", 1), &full_key(b"a", 9)), KeyOrder::Greater);
}

#[test]
fn key_ranges_compare() {
    let r = |l: &[u8], r: &[u8]| KeyRange::new(full_key(l, 1), full_key(r, 1));
    assert_eq!(r(b"a", b"c").compare(&r(b"b", b"c")), KeyOrder::Less);
    assert_eq!(r(b"b", b"c").compare(&r(b"a", b"z")), KeyOrder::Greater);
    assert_eq!(r(b"a", b"c").compare(&r(b"a", b"z")), KeyOrder::Equal);
    assert!(KeyRange::inf().inf_key_range());
    assert!(!r(b"a", b"c").inf_key_range());
    assert_eq!(r(b"a", b"c").compare(&KeyRange::inf()), KeyOrder::Less);
    assert_eq!(KeyRange::inf().compare(&r(b"a", b"c")), KeyOrder::Greater);
    assert_eq!(KeyRange::inf().compare(&KeyRange::inf()), KeyOrder::Equal);
    assert!(r(b"a", b"c").has_bounds());
    assert!(!KeyRange::inf().has_bounds());

    let range = r(b"a", b"c");
    assert_eq!(range.compare_right_with(&full_key(b"d", 1)), KeyOrder::Less);
    assert_eq!(range.compare_right_with(&full_key(b"b", 1)), KeyOrder::Greater);
    assert_eq!(range.compare_right_with(&full_key(b"c", 77)), KeyOrder::Equal);
    let mut open = r(b"a", b"c");
    open.right_exclusive = true;
    assert_eq!(open.compare_right_with(&full_key(b"c", 77)), KeyOrder::Less);
    assert_eq!(open.compare_right_with(&full_key(b"b", 1)), KeyOrder::Greater);
}

#[test]
fn min_epoch_subtracts_retention() {
    let epoch = |ms: u64| ms << 16;
    assert_eq!(gen_min_epoch(epoch(5000) + 3, Some(2)), epoch(3000));
    assert_eq!(gen_min_epoch(epoch(5000), Some(5)), 0);
    assert_eq!(gen_min_epoch(epoch(5000), Some(6)), 0);
    assert_eq!(gen_min_epoch(epoch(5000), Some(0)), epoch(5000));
    assert_eq!(gen_min_epoch(epoch(5000), None), 0);
    assert_eq!(gen_min_epoch(u64::MAX, Some(u32::MAX)), ((u64::MAX >> 16) - u32::MAX as u64 * 1000) << 16);
}

#[test]
fn options_are_built() {
    assert!(PrefetchOptions::new_for_large_range_scan().preload);
    assert!(PrefetchOptions::new_with_exhaust_iter(true).preload);
    assert!(!PrefetchOptions::new_with_exhaust_iter(false).preload);
    assert!(!PrefetchOptions::default().preload);
    assert_eq!(SealCurrentEpochOptions::new(), SealCurrentEpochOptions::for_test());
    let option = TableOption { retention_seconds: Some(60) };
    let local = NewLocalOptions::new(7, true, option);
    assert_eq!((local.table_id, local.is_consistent_op, local.table_option, local.is_replicated), (7, true, option, false));
    assert!(NewLocalOptions::new_replicated(7, true, option).is_replicated);
    assert_eq!(
        NewLocalOptions::for_test(9),
        NewLocalOptions {
            table_id: 9,
            is_consistent_op: false,
            table_option: TableOption { retention_seconds: None },
            is_replicated: false
        }
    );
    let pair = EpochPair { curr: 2, prev: 1 };
    assert_eq!(InitOptions::new_with_epoch(pair).epoch, pair);
}

#[test]
fn small_helpers() {
    let mut v = vec![2u64, 5];
    insert_ascending(&mut v, 3);
    insert_ascending(&mut v, 5);
    insert_ascending(&mut v, 1);
    insert_ascending(&mut v, 9);
    assert_eq!(v, vec![1, 2, 3, 5, 9]);
    let mut v = vec![];
    insert_ascending_u32(&mut v, 4);
    insert_ascending_u32(&mut v, 0);
    insert_ascending_u32(&mut v, 4);
    assert_eq!(v, vec![0, 4]);
    assert_eq!(sort_table_ids(&vec![3, 1, 2, 1]), vec![1, 1, 2, 3]);
    assert!(contains_table(&vec![3, 1], 1));
    assert!(!contains_table(&vec![3, 1], 2));
    assert_eq!(partition_tables(&vec![5, 1, 4, 1], &vec![1, 9]), (vec![1, 1], vec![5, 4]));
    let mut s = String::from("n=");
    push_decimal(&mut s, 0);
    push_decimal(&mut s, 1090);
    assert_eq!(s, "n=01090");
}
