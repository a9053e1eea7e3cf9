use bucket_map::bucket::Bucket;
use bucket_map::bucket_error::BucketMapError;
use bucket_map::bucket_stats::BucketMapStats;
use bucket_map::pubkey::{KeyBound, KeyRange, Pubkey};
use std::collections::BTreeMap;
use std::path::PathBuf;
use std::sync::Arc;

fn empty(max_search: u8) -> Bucket<u64> {
    let drives = Arc::new(vec![PathBuf::from("drive")]);
    Bucket::new(drives, max_search, BucketMapStats::default())
}

fn key(number: u64) -> Pubkey {
    let mut bytes = [0u8; 32];
    bytes[..8].copy_from_slice(&number.to_be_bytes());
    Pubkey::new_from_array(bytes)
}

fn value(bucket: &Bucket<u64>, number: u64) -> Option<(Vec<u64>, u64)> {
    bucket.read_value(&key(number)).map(|(slots, count)| (slots.to_vec(), count))
}

fn list(len: u64, from: u64) -> Vec<u64> {
    (from..from + len).collect()
}

#[test]
fn new_bucket_has_no_keys() {
    let bucket = empty(8);
    assert_eq!(bucket.bucket_len(), 0);
    assert!(bucket.keys().is_empty());
    assert!(bucket.items_in_range(&None).is_empty());
    assert!(bucket.find_entry(&key(1)).is_none());
    assert_eq!(value(&bucket, 1), None);
    assert!(bucket.data.is_empty());
    assert_eq!(bucket.index.capacity(), 32);
    assert_eq!(bucket.stats(), BucketMapStats::default());
}

#[test]
fn insert_then_read_gives_the_list_back() {
    let mut bucket = empty(8);
    for len in 0..20 {
        bucket.insert(&key(len), (&list(len, 100 * len), len + 1)).unwrap();
    }
    for len in 0..20 {
        assert_eq!(value(&bucket, len), Some((list(len, 100 * len), len + 1)));
    }
    assert_eq!(value(&bucket, 20), None);
    assert_eq!(bucket.bucket_len(), 20);
}

#[test]
fn last_insert_wins() {
    let mut bucket = empty(8);
    bucket.insert(&key(2), (&[9], 4)).unwrap();
    for len in [3, 4, 0, 1, 7, 2, 2, 0] {
        bucket.insert(&key(1), (&list(len, 5), len)).unwrap();
        assert_eq!(value(&bucket, 1), Some((list(len, 5), len)));
        assert_eq!(value(&bucket, 2), Some((vec![9], 4)));
        assert_eq!(bucket.bucket_len(), 2);
    }
}

#[test]
fn deleted_key_is_gone() {
    let mut bucket = empty(8);
    bucket.insert(&key(1), (&[1, 2, 3], 1)).unwrap();
    bucket.insert(&key(2), (&[], 2)).unwrap();
    bucket.delete_key(&key(1));
    assert_eq!(value(&bucket, 1), None);
    assert_eq!(value(&bucket, 2), Some((vec![], 2)));
    assert_eq!(bucket.bucket_len(), 1);
    assert_eq!(bucket.data[2].used(), 0);
    bucket.delete_key(&key(1));
    bucket.delete_key(&key(2));
    assert_eq!(bucket.bucket_len(), 0);
}

#[test]
fn references_are_counted() {
    let mut bucket = empty(8);
    assert_eq!(bucket.addref(&key(1)), None);
    assert_eq!(bucket.unref(&key(1)), None);
    bucket.insert(&key(1), (&[7], 1)).unwrap();
    assert_eq!(bucket.addref(&key(1)), Some(2));
    assert_eq!(bucket.addref(&key(1)), Some(3));
    assert_eq!(bucket.unref(&key(1)), Some(2));
    assert_eq!(value(&bucket, 1), Some((vec![7], 2)));
    assert_eq!(bucket.unref(&key(1)), Some(1));
    assert_eq!(bucket.unref(&key(1)), Some(0));
    assert_eq!(value(&bucket, 1), Some((vec![7], 0)));
}

#[test]
fn write_without_data_bucket_fails_early() {
    let mut bucket = empty(8);
    for (len, data_bucket) in [(0, 0), (1, 0), (2, 1), (3, 2), (4, 2), (5, 3), (9, 4)] {
        let result = bucket.try_write(&key(1), &list(len, 0), 1);
        assert_eq!(result, Err(BucketMapError::DataNoSpace((data_bucket, 0))));
        assert_eq!(bucket.bucket_len(), 0);
        assert!(bucket.find_entry(&key(1)).is_none());
    }
}

#[test]
fn write_without_data_cell_keeps_the_old_list() {
    let mut bucket = empty(8);
    bucket.grow(BucketMapError::DataNoSpace((0, 0))).unwrap();
    bucket.handle_delayed_grows();
    assert_eq!(bucket.data.len(), 1);
    assert_eq!(bucket.data[0].capacity(), 2);
    assert_eq!(bucket.try_write(&key(1), &[1], 1), Ok(()));
    assert_eq!(bucket.try_write(&key(2), &[2], 1), Ok(()));
    // both cells are taken: the new key is known, but its list had no room
    let full = BucketMapError::DataNoSpace((0, 1));
    assert_eq!(bucket.try_write(&key(3), &[3], 5), Err(full));
    assert_eq!(value(&bucket, 3), Some((vec![], 5)));
    assert_eq!(value(&bucket, 1), Some((vec![1], 1)));
    // a list of the same length is overwritten where it is
    assert_eq!(bucket.try_write(&key(1), &[11], 6), Ok(()));
    assert_eq!(value(&bucket, 1), Some((vec![11], 6)));
    bucket.grow(full).unwrap();
    assert_eq!(bucket.data[0].capacity(), 2);
    bucket.handle_delayed_grows();
    assert_eq!(bucket.data[0].capacity(), 4);
    assert_eq!(bucket.try_write(&key(3), &[3], 7), Ok(()));
    assert_eq!(value(&bucket, 3), Some((vec![3], 7)));
    assert_eq!(value(&bucket, 1), Some((vec![11], 6)));
    assert_eq!(value(&bucket, 2), Some((vec![2], 1)));
}

#[test]
fn write_moves_a_list_that_needs_another_data_bucket() {
    let mut bucket = empty(8);
    bucket.insert(&key(1), (&[1], 1)).unwrap();
    bucket.insert(&key(1), (&[1, 2], 1)).unwrap();
    assert_eq!((bucket.data[0].used(), bucket.data[1].used()), (0, 1));
    bucket.insert(&key(1), (&[1, 2, 3], 1)).unwrap();
    assert_eq!((bucket.data[1].used(), bucket.data[2].used()), (0, 1));
    bucket.insert(&key(1), (&[1, 2, 3, 4], 1)).unwrap();
    assert_eq!(bucket.data[2].used(), 1);
    bucket.insert(&key(1), (&[], 1)).unwrap();
    assert_eq!(bucket.data[2].used(), 0);
}

#[test]
fn empty_list_in_place_of_one_slot_keeps_the_cell_locked() {
    let mut bucket = empty(8);
    bucket.insert(&key(1), (&[1], 1)).unwrap();
    bucket.insert(&key(1), (&[], 1)).unwrap();
    assert_eq!(value(&bucket, 1), Some((vec![], 1)));
    assert_eq!(bucket.data[0].used(), 1);
    bucket.insert(&key(1), (&[2], 1)).unwrap();
    assert_eq!(value(&bucket, 1), Some((vec![2], 1)));
    assert_eq!(bucket.data[0].used(), 2);
}

#[test]
fn moved_list_takes_the_first_free_cell_from_the_position_on() {
    let mut bucket = empty(3);
    bucket.grow_data(1, 4);
    bucket.handle_delayed_grows();
    assert_eq!(bucket.data[1].capacity(), 32);
    for (number, pos, cell) in [(1, 31, 31), (2, 31, 0), (3, 31, 1), (4, 9, 9)] {
        bucket.insert(&key(number), (&[], number)).unwrap();
        let (_, ix) = bucket.find_entry(&key(number)).unwrap();
        assert_eq!(bucket.write_moved(ix, &[number, 7], pos), Ok(()));
        let (entry, _) = bucket.find_entry(&key(number)).unwrap();
        assert_eq!(entry.storage_offset, cell);
        assert_eq!(entry.num_slots, 2);
        assert_eq!(value(&bucket, number), Some((vec![number, 7], number)));
    }
    // three cells may be searched, and all three from 31 on are taken
    bucket.insert(&key(5), (&[], 5)).unwrap();
    let (_, ix) = bucket.find_entry(&key(5)).unwrap();
    assert_eq!(bucket.write_moved(ix, &[5, 7], 31), Err(BucketMapError::DataNoSpace((1, 5))));
    assert_eq!(value(&bucket, 5), Some((vec![], 5)));
}

#[test]
fn positions_of_lists_are_random() {
    let mut seen = [false; 2];
    for _ in 0..200 {
        let mut bucket = empty(8);
        bucket.insert(&key(1), (&[1], 1)).unwrap();
        let (entry, _) = bucket.find_entry(&key(1)).unwrap();
        seen[entry.storage_offset as usize] = true;
    }
    assert_eq!(seen, [true, true]);
}

#[test]
fn offsets_of_indexes_are_random() {
    let mut cells = Vec::new();
    for _ in 0..200 {
        let mut bucket = empty(8);
        bucket.insert(&key(1), (&[1], 1)).unwrap();
        let (_, ix) = bucket.find_entry(&key(1)).unwrap();
        if !cells.contains(&ix) {
            cells.push(ix);
        }
    }
    assert!(cells.len() > 1);
}

#[test]
fn update_sees_the_current_value_and_replaces_it() {
    let mut bucket = empty(8);
    let grow = |current: Option<(&[u64], u64)>| {
        let (mut slots, count) =
            current.map(|(slots, count)| (slots.to_vec(), count)).unwrap_or_default();
        slots.push(count);
        Some((slots, count + 1))
    };
    for count in 1..10u64 {
        assert_eq!(bucket.update(&key(1), grow), Ok(()));
        assert_eq!(value(&bucket, 1), Some((list(count, 0), count)));
    }
    assert_eq!(bucket.update(&key(1), |current| {
        assert_eq!(current.unwrap().1, 9);
        None
    }), Ok(()));
    assert_eq!(value(&bucket, 1), None);
    assert_eq!(bucket.update(&key(1), |current| {
        assert!(current.is_none());
        None
    }), Ok(()));
    assert_eq!(bucket.bucket_len(), 0);
}

#[test]
fn keys_and_items_are_listed() {
    let mut bucket = empty(8);
    for number in 0..50 {
        bucket.insert(&key(number), (&list(number % 5, number), number)).unwrap();
    }
    let mut listed: Vec<[u8; 32]> = bucket.keys().iter().map(|key| key.bytes).collect();
    listed.sort();
    let all: Vec<[u8; 32]> = (0..50).map(|number| key(number).bytes).collect();
    assert_eq!(listed, all);
    let items = bucket.items_in_range(&None);
    assert_eq!(items.len(), 50);
    let order: Vec<[u8; 32]> = items.iter().map(|item| item.pubkey.bytes).collect();
    let keys: Vec<[u8; 32]> = bucket.keys().iter().map(|key| key.bytes).collect();
    assert_eq!(order, keys);
    for item in items {
        let number = item.ref_count;
        assert_eq!(item.pubkey.bytes, key(number).bytes);
        assert_eq!(item.slot_list, list(number % 5, number));
    }
    let range = KeyRange { start: KeyBound::Included(key(10)), end: KeyBound::Excluded(key(20)) };
    let mut inside: Vec<u64> =
        bucket.items_in_range(&Some(&range)).iter().map(|item| item.ref_count).collect();
    inside.sort();
    assert_eq!(inside, list(10, 10));
}

#[test]
fn bucket_behaves_like_a_map() {
    let mut bucket = empty(4);
    let mut model: BTreeMap<u64, (Vec<u64>, u64)> = BTreeMap::new();
    let mut state: u64 = 1;
    for step in 0..3000u64 {
        state = state.wrapping_mul(6364136223846793005).wrapping_add(1442695040888963407);
        let number = (state >> 33) % 200;
        match (state >> 50) % 4 {
            0 => {
                bucket.delete_key(&key(number));
                model.remove(&number);
            }
            1 => {
                let expected = model.get_mut(&number).map(|entry| {
                    entry.1 += 1;
                    entry.1
                });
                assert_eq!(bucket.addref(&key(number)), expected);
            }
            _ => {
                let slots = list((state >> 40) % 12, step);
                bucket.insert(&key(number), (&slots, step)).unwrap();
                model.insert(number, (slots, step));
            }
        }
        assert_eq!(value(&bucket, number), model.get(&number).cloned());
        assert_eq!(bucket.bucket_len(), model.len() as u64);
    }
    for number in 0..200 {
        assert_eq!(value(&bucket, number), model.get(&number).cloned());
    }
}

#[test]
fn write_after_insert_replaces_the_value() {
    let mut bucket = empty(8);
    assert_eq!(bucket.insert(&key(1), (&[1], 1)), Ok(()));
    assert_eq!(bucket.try_write(&key(1), &[2], 9), Ok(()));
    assert_eq!(value(&bucket, 1), Some((vec![2], 9)));
    assert_eq!(bucket.bucket_len(), 1);
    assert!(bucket.keys() == vec![key(1)]);
}

#[test]
fn update_that_gives_back_what_it_is_shown_changes_nothing() {
    let mut bucket = empty(8);
    for number in 1..=7u64 {
        assert_eq!(bucket.insert(&key(number), (&list(number % 4, number), number)), Ok(()));
    }
    let keys = bucket.keys();
    for number in 0..=9u64 {
        let before = value(&bucket, number);
        let result = bucket.update(&key(number), |current| {
            current.map(|(slots, ref_count)| (slots.to_vec(), ref_count))
        });
        assert_eq!(result, Ok(()));
        assert_eq!(value(&bucket, number), before);
        assert_eq!(bucket.bucket_len(), 7);
        assert!(bucket.keys() == keys);
    }
}

#[test]
fn update_to_an_empty_list_keeps_the_key() {
    let mut bucket = empty(8);
    assert_eq!(bucket.update(&key(1), |_| Some((vec![0], 1))), Ok(()));
    assert_eq!(bucket.update(&key(1), |_| Some((vec![], 2))), Ok(()));
    assert_eq!(value(&bucket, 1), Some((vec![], 2)));
    assert_eq!(bucket.bucket_len(), 1);
}
