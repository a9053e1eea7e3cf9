use bucket_map::bucket::{Bucket, Reallocated, ReallocatedItems};
use bucket_map::bucket_error::BucketMapError;
use bucket_map::bucket_stats::{BucketMapStats, BucketStats};
use bucket_map::bucket_storage::BucketStorage;
use bucket_map::byte_order::ByteOrder;
use bucket_map::index_entry::IndexEntry;
use bucket_map::pubkey::Pubkey;
use std::hash::{Hash, Hasher};
use std::path::PathBuf;
use std::sync::Arc;

fn drives() -> Arc<Vec<PathBuf>> {
    Arc::new(vec![PathBuf::from("drive")])
}

fn empty(max_search: u8) -> Bucket<u32> {
    Bucket::new(drives(), max_search, BucketMapStats::default())
}

fn key(number: u64) -> Pubkey {
    let mut bytes = [7u8; 32];
    bytes[..8].copy_from_slice(&number.to_le_bytes());
    Pubkey::new_from_array(bytes)
}

#[test]
fn reallocation_is_taken_once() {
    let mut reallocated: Reallocated<u32> = Reallocated::default();
    assert_eq!(reallocated.active_reallocations, 0);
    assert!(reallocated.items.index.is_none() && reallocated.items.data.is_none());
    assert!(!reallocated.get_reallocated());
    reallocated.add_reallocation();
    assert_eq!(reallocated.active_reallocations, 1);
    assert!(reallocated.get_reallocated());
    assert!(!reallocated.get_reallocated());
    let items: ReallocatedItems<u32> = ReallocatedItems::default();
    assert!(items.index.is_none() && items.data.is_none());
}

#[test]
fn reallocation_that_is_not_the_only_one_is_not_taken() {
    let mut reallocated: Reallocated<u32> = Reallocated::default();
    reallocated.active_reallocations = 2;
    assert!(!reallocated.get_reallocated());
    assert_eq!(reallocated.active_reallocations, 2);
}

#[test]
fn full_index_is_reported_and_grown() {
    let mut bucket = empty(1);
    bucket.grow_data(0, 7);
    bucket.handle_delayed_grows();
    let mut written = Vec::new();
    let mut number = 0;
    loop {
        number += 1;
        match bucket.try_write(&key(number), &[], number) {
            Ok(()) => written.push(number),
            Err(BucketMapError::IndexNoSpace(capacity_pow2)) => {
                assert_eq!(capacity_pow2, 5);
                break;
            }
            Err(BucketMapError::DataNoSpace(_)) => unreachable!(),
        }
    }
    assert!(bucket.find_entry(&key(number)).is_none());
    assert_eq!(bucket.bucket_len(), written.len() as u64);
    // the larger index is made, but not in use yet
    assert_eq!(bucket.grow(BucketMapError::IndexNoSpace(5)), Ok(()));
    assert_eq!(bucket.index.capacity_pow2(), 5);
    assert_eq!(bucket.reallocated.active_reallocations, 1);
    assert!(bucket.reallocated.items.index.is_some());
    bucket.handle_delayed_grows();
    assert!(bucket.index.capacity_pow2() > 5);
    assert_eq!(bucket.reallocated.active_reallocations, 0);
    assert!(bucket.reallocated.items.index.is_none());
    assert_eq!(bucket.bucket_len(), written.len() as u64);
    for number in written {
        let (slots, count) = bucket.read_value(&key(number)).unwrap();
        assert!(slots.is_empty());
        assert_eq!(count, number);
    }
    // nothing waits, so nothing happens
    let capacity_pow2 = bucket.index.capacity_pow2();
    bucket.handle_delayed_grows();
    assert_eq!(bucket.index.capacity_pow2(), capacity_pow2);
}

#[test]
fn index_of_another_size_is_left_alone() {
    let mut bucket = empty(8);
    assert_eq!(bucket.grow_index(4), Ok(()));
    assert_eq!(bucket.reallocated.active_reallocations, 0);
    assert_eq!(bucket.stats(), BucketMapStats::default());
}

#[test]
fn growing_the_index_is_counted() {
    let mut bucket = empty(8);
    bucket.insert(&key(1), (&[1], 1)).unwrap();
    assert_eq!(bucket.grow_index(5), Ok(()));
    let stats = bucket.stats();
    assert_eq!(stats.index.resizes, 1);
    assert_eq!(stats.index.max_size, 64);
    assert_eq!(stats.data, BucketStats::default());
    let mut counters = BucketStats { resizes: u64::MAX, max_size: 9, resize_us: 3 };
    counters.record_resize(4);
    counters.record_size(8);
    assert_eq!(counters, BucketStats { resizes: 0, max_size: 9, resize_us: 7 });
    counters.record_size(10);
    assert_eq!(counters.max_size, 10);
}

#[test]
fn entries_of_a_larger_index_are_where_their_hashes_say() {
    let mut bucket = empty(16);
    for number in 0..12 {
        bucket.insert(&key(number), (&[number as u32], number)).unwrap();
    }
    let random = 0x1234_5678_9abc_def0u64;
    let index = bucket.reindex(10, random).unwrap();
    assert_eq!(index.capacity(), 1024);
    assert_eq!(index.used(), 12);
    let mut taken: Vec<u64> = Vec::new();
    for ix in 0..bucket.index.capacity() {
        if bucket.index.uid(ix) == 0 {
            continue;
        }
        let entry = bucket.index.get(ix);
        let uid = IndexEntry::key_uid(&entry.key);
        let mut hasher = std::collections::hash_map::DefaultHasher::new();
        uid.hash(&mut hasher);
        random.hash(&mut hasher);
        let mut expected = hasher.finish() % 1024;
        while taken.contains(&expected) {
            expected = (expected + 1) % 1024;
        }
        taken.push(expected);
        assert_eq!(index.uid(expected), uid);
        let moved = index.get(expected);
        assert_eq!(moved.key.bytes, entry.key.bytes);
        assert_eq!(moved.ref_count, entry.ref_count);
        assert_eq!(moved.storage_offset, entry.storage_offset);
        assert_eq!(moved.num_slots, entry.num_slots);
    }
    assert_eq!(taken.len(), 12);
    // put in place, it finds what the old one found
    bucket.apply_grow_index(random, index);
    for number in 0..12 {
        assert_eq!(bucket.read_value(&key(number)).unwrap().0, &[number as u32]);
    }
}

#[test]
fn index_that_has_no_room_for_all_is_not_made() {
    let mut bucket = empty(1);
    for number in 0..40 {
        bucket.insert(&key(number), (&[], number)).unwrap();
    }
    // forty keys cannot be told apart by eight cells
    assert!(bucket.reindex(3, 1).is_none());
}

#[test]
fn data_buckets_are_filled_in() {
    let mut bucket = empty(8);
    assert_eq!(Bucket::<u32>::elem_size(), 4);
    let third: BucketStorage<u32> = bucket.index.grow(None, 2, 8, 4);
    bucket.apply_grow_data(3, third);
    let capacities: Vec<u64> = bucket.data.iter().map(|data| data.capacity()).collect();
    assert_eq!(capacities, [32, 32, 32, 4]);
    let first: BucketStorage<u32> = bucket.index.grow(None, 1, 2, 4);
    bucket.apply_grow_data(1, first);
    let capacities: Vec<u64> = bucket.data.iter().map(|data| data.capacity()).collect();
    assert_eq!(capacities, [32, 2, 32, 4]);
}

#[test]
fn growing_data_keeps_every_list() {
    let mut bucket = empty(32);
    for number in 0..30 {
        bucket.insert(&key(number), (&[number as u32, 1, 2], number)).unwrap();
    }
    let before = bucket.data[2].capacity_pow2();
    bucket.grow_data(2, before + 2);
    assert_eq!(bucket.data[2].capacity_pow2(), before);
    bucket.handle_delayed_grows();
    assert_eq!(bucket.data[2].capacity_pow2(), before + 3);
    for number in 0..30 {
        let (slots, count) = bucket.read_value(&key(number)).unwrap();
        assert_eq!(slots, &[number as u32, 1, 2]);
        assert_eq!(count, number);
    }
    assert_eq!(bucket.data[2].used(), 30);
}

#[test]
fn many_keys_survive_many_grows() {
    let mut bucket = empty(2);
    for number in 0..600u64 {
        let list: Vec<u32> = (0..number as u32 % 6).collect();
        bucket.insert(&key(number), (&list, number)).unwrap();
    }
    assert_eq!(bucket.bucket_len(), 600);
    assert!(bucket.stats().index.resizes > 0);
    assert_eq!(bucket.stats().index.max_size, bucket.index.capacity());
    for number in 0..600u64 {
        let list: Vec<u32> = (0..number as u32 % 6).collect();
        assert_eq!(bucket.read_value(&key(number)), Some((list.as_slice(), number)));
    }
}

#[test]
fn first_list_of_its_length_makes_a_data_bucket_of_two_cells() {
    let mut bucket = empty(8);
    assert_eq!(bucket.insert(&key(1), (&[1, 2, 3], 4)), Ok(()));
    assert_eq!(bucket.read_value(&key(1)), Some((&[1u32, 2, 3][..], 4)));
    assert_eq!(bucket.bucket_len(), 1);
    assert_eq!(bucket.data().len(), 3);
    assert_eq!(bucket.data()[0].capacity_pow2(), 5);
    assert_eq!(bucket.data()[1].capacity_pow2(), 5);
    assert_eq!(bucket.data()[2].capacity_pow2(), 1);
    assert_eq!(bucket.index().capacity_pow2(), 5);
    assert!(!bucket.reallocated.get_reallocated());
    assert_eq!(bucket.stats(), BucketMapStats::default());
}

#[test]
fn full_data_bucket_is_doubled_once() {
    for _ in 0..20 {
        let mut bucket = empty(8);
        for number in 1..=3u64 {
            assert_eq!(bucket.insert(&key(number), (&[number as u32], number)), Ok(()));
        }
        assert_eq!(bucket.data().len(), 1);
        assert_eq!(bucket.data()[0].capacity_pow2(), 2);
        assert_eq!(bucket.insert(&key(4), (&[4], 4)), Ok(()));
        assert_eq!(bucket.data()[0].capacity_pow2(), 2);
        assert_eq!(bucket.insert(&key(5), (&[5], 5)), Ok(()));
        assert_eq!(bucket.data()[0].capacity_pow2(), 3);
        assert_eq!(bucket.index().capacity_pow2(), 5);
        for number in 1..=5u64 {
            assert_eq!(bucket.read_value(&key(number)), Some((&[number as u32][..], number)));
        }
    }
}

#[test]
fn few_keys_always_have_room_in_the_index() {
    for _ in 0..20 {
        let mut bucket = empty(8);
        for number in 1..=8u64 {
            assert_eq!(bucket.insert(&key(number), (&[], number)), Ok(()));
        }
        assert_eq!(bucket.index().capacity_pow2(), 5);
        assert_eq!(bucket.grow_index(5), Ok(()));
        let waiting = bucket.reallocated().items.index.as_ref().unwrap();
        assert_eq!(waiting.1.capacity_pow2(), 6);
    }
}

#[test]
fn waiting_index_has_the_entries() {
    let mut bucket = empty(8);
    assert_eq!(bucket.insert(&key(1), (&[7], 5)), Ok(()));
    let capacity_pow2 = bucket.index().capacity_pow2();
    assert_eq!(bucket.grow_index(capacity_pow2), Ok(()));
    assert_eq!(bucket.reallocated().active_reallocations, 1);
    let (random, index) = bucket.reallocated().items.index.as_ref().unwrap();
    assert_eq!(index.capacity_pow2(), capacity_pow2 + 1);
    let order = bucket.order();
    let (entry, ix) = Bucket::<u32>::bucket_find_entry(index, &key(1), *random, order).unwrap();
    assert_eq!((entry.ref_count, entry.num_slots), (5, 1));
    assert_eq!(index.uid(ix), IndexEntry::key_uid(&key(1)));
    assert_eq!(bucket.index().capacity_pow2(), capacity_pow2);
    assert_eq!(bucket.read_value(&key(1)), Some((&[7u32][..], 5)));
}

#[test]
fn searches_start_by_key_offset_and_size() {
    let mut found: BucketStorage<IndexEntry> = BucketStorage::new(drives(), 1, 64, 4);
    let small: BucketStorage<IndexEntry> = BucketStorage::new_with_capacity(drives(), 1, 64, 3, 4);
    let big: BucketStorage<IndexEntry> = BucketStorage::new_with_capacity(drives(), 1, 64, 7, 9);
    let order = ByteOrder::native();
    for number in 0..50u64 {
        let starts: Vec<u64> = [&small, &found, &big]
            .iter()
            .map(|index| Bucket::<u32>::bucket_index_ix(index, &key(number), 99, order))
            .collect();
        assert!(starts[0] < 8 && starts[1] < 32 && starts[2] < 128);
        assert_eq!(starts[2] % 32, starts[1]);
        assert_eq!(starts[2] % 8, starts[0]);
    }
    assert!(Bucket::<u32>::bucket_find_entry(&found, &key(1), 99, order).is_none());
    assert!(Bucket::<u32>::bucket_find_entry_mut(&mut found, &key(1), 99, order).is_none());
}

#[test]
fn entry_found_to_be_changed_is_the_one_that_is_read() {
    let mut bucket = empty(8);
    for number in 1..=6u64 {
        assert_eq!(bucket.insert(&key(number), (&[], number)), Ok(()));
    }
    let random = bucket.random();
    let order = bucket.order();
    let uids: Vec<u64> = (0..32).map(|ix| bucket.index().uid(ix)).collect();
    let read = {
        let (entry, ix) = bucket.find_entry(&key(3)).unwrap();
        (entry.ref_count, ix)
    };
    assert_eq!(read.0, 3);
    {
        let (entry, ix) =
            Bucket::<u32>::bucket_find_entry_mut(&mut bucket.index, &key(3), random, order)
                .unwrap();
        assert_eq!((entry.ref_count, ix), read);
        entry.ref_count = 30;
    }
    let after: Vec<u64> = (0..32).map(|ix| bucket.index().uid(ix)).collect();
    assert_eq!(after, uids);
    for number in 1..=6u64 {
        let expected = if number == 3 { 30 } else { number };
        assert_eq!(bucket.read_value(&key(number)), Some((&[][..], expected)));
    }
}

#[test]
fn larger_table_leaves_the_bucket_alone() {
    let mut bucket = empty(8);
    assert_eq!(bucket.insert(&key(1), (&[7], 5)), Ok(()));
    let grown = bucket.larger_table(BucketMapError::DataNoSpace((0, 1))).ok().unwrap();
    assert!(grown.index.is_none());
    let (data_index, data) = grown.data.unwrap();
    assert_eq!((data_index, data.capacity_pow2()), (0, 2));
    assert_eq!(bucket.data()[0].capacity_pow2(), 1);
    assert_eq!(bucket.reallocated().active_reallocations, 0);
    bucket.defer_data(data_index, data);
    assert_eq!(bucket.reallocated().active_reallocations, 1);
    bucket.handle_delayed_grows();
    assert_eq!(bucket.data()[0].capacity_pow2(), 2);
    assert_eq!(bucket.read_value(&key(1)), Some((&[7u32][..], 5)));

    let stale = bucket.larger_table(BucketMapError::IndexNoSpace(4)).ok().unwrap();
    assert!(stale.index.is_none() && stale.data.is_none());
    let grown = bucket.larger_table(BucketMapError::IndexNoSpace(5)).ok().unwrap();
    let (random, index) = grown.index.unwrap();
    assert_eq!(index.capacity_pow2(), 6);
    assert_eq!(bucket.stats().index.resizes, 0);
    bucket.defer_index(random, index, 12);
    let counted = BucketStats { resizes: 1, max_size: 64, resize_us: 12 };
    assert_eq!(bucket.stats().index, counted);
    bucket.handle_delayed_grows();
    assert_eq!(bucket.random(), random);
    assert_eq!(bucket.index().capacity_pow2(), 6);
    assert_eq!(bucket.read_value(&key(1)), Some((&[7u32][..], 5)));
}

#[test]
fn counters_are_handed_out_and_added_up() {
    let mut bucket = empty(8);
    assert_eq!(bucket.grow_index(5), Ok(()));
    let taken = bucket.take_stats();
    assert_eq!((taken.index.resizes, taken.index.max_size), (1, 64));
    assert_eq!(bucket.stats(), BucketMapStats::default());
    let mut total = BucketMapStats {
        index: BucketStats { resizes: u64::MAX, max_size: 40, resize_us: 3 },
        data: BucketStats { resizes: 2, max_size: 9, resize_us: 1 },
    };
    let part = BucketMapStats {
        index: BucketStats { resizes: 2, max_size: 64, resize_us: 5 },
        data: BucketStats { resizes: 1, max_size: 8, resize_us: 1 },
    };
    total.merge(&part);
    assert_eq!(total.index, BucketStats { resizes: 1, max_size: 64, resize_us: 8 });
    assert_eq!(total.data, BucketStats { resizes: 3, max_size: 9, resize_us: 2 });
}

#[test]
fn growing_after_a_failed_write_keeps_the_map() {
    let mut bucket = empty(8);
    for number in 1..=2u64 {
        assert_eq!(bucket.insert(&key(number), (&[number as u32], number)), Ok(()));
    }
    while bucket.data()[0].used() < bucket.data()[0].capacity() {
        let number = bucket.bucket_len() + 1;
        assert_eq!(bucket.insert(&key(number), (&[number as u32], number)), Ok(()));
    }
    let size = bucket.data()[0].capacity_pow2();
    let err = bucket.try_write(&key(0), &[9], 4).unwrap_err();
    assert_eq!(err, BucketMapError::DataNoSpace((0, size)));
    let keys = bucket.keys();
    let len = bucket.bucket_len();
    assert_eq!(bucket.read_value(&key(0)), Some((&[][..], 4)));
    assert_eq!(bucket.grow(err), Ok(()));
    assert_eq!(bucket.data()[0].capacity_pow2(), size);
    assert!(bucket.keys() == keys);
    bucket.handle_delayed_grows();
    assert_eq!(bucket.data()[0].capacity_pow2(), size + 1);
    assert!(bucket.keys() == keys);
    assert_eq!(bucket.bucket_len(), len);
    assert_eq!(bucket.read_value(&key(0)), Some((&[][..], 4)));
    for number in 1..len {
        assert_eq!(bucket.read_value(&key(number)), Some((&[number as u32][..], number)));
    }
}
