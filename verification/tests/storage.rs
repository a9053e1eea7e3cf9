use bucket_map::bucket_storage::{BucketStorage, BucketStorageError, DEFAULT_CAPACITY_POW2};
use bucket_map::index_entry::IndexEntry;
use bucket_map::pubkey::Pubkey;
use std::hash::Hasher;
use std::path::PathBuf;
use std::sync::Arc;

fn drives() -> Arc<Vec<PathBuf>> {
    Arc::new(vec![PathBuf::from("drive")])
}

#[test]
fn storage_has_a_power_of_two_of_free_cells() {
    let storage: BucketStorage<u64> = BucketStorage::new(drives(), 1, 8, 4);
    assert_eq!(storage.capacity_pow2(), DEFAULT_CAPACITY_POW2);
    assert_eq!(storage.capacity(), 32);
    assert_eq!(storage.used(), 0);
    assert_eq!(storage.max_search(), 4);
    assert_eq!(storage.search_limit(), 4);
    for ix in 0..32 {
        assert_eq!(storage.uid(ix), 0);
    }
    let one: BucketStorage<u64> = BucketStorage::new_with_capacity(drives(), 1, 8, 0, 4);
    assert_eq!(one.capacity(), 1);
}

#[test]
fn cell_is_allocated_once_until_it_is_freed() {
    let mut storage: BucketStorage<u64> = BucketStorage::new(drives(), 1, 8, 4);
    assert!(storage.allocate(3, 17).is_ok());
    assert_eq!(storage.uid(3), 17);
    assert_eq!(storage.used(), 1);
    assert!(matches!(storage.allocate(3, 18), Err(BucketStorageError::AlreadyAllocated)));
    assert_eq!(storage.uid(3), 17);
    assert_eq!(storage.used(), 1);
    storage.free(3, 17);
    assert_eq!(storage.uid(3), 0);
    assert_eq!(storage.used(), 0);
    assert!(storage.allocate(3, 18).is_ok());
}

#[test]
fn cell_gives_back_what_was_written() {
    let mut storage: BucketStorage<u64> = BucketStorage::new(drives(), 4, 8, 4);
    storage.put_cell_slice(2, &[5, 6, 7]);
    assert_eq!(storage.get_cell_slice(2, 3), &[5, 6, 7]);
    assert_eq!(storage.get_cell_slice(2, 1), &[5]);
    assert_eq!(*storage.get(2), 5);
    storage.put(2, 9);
    assert_eq!(*storage.get(2), 9);
    *storage.get_mut(2) += 1;
    assert_eq!(storage.get_cell_slice(2, 1), &[10]);
    assert!(storage.get_empty_cell_slice().is_empty());
}

#[test]
fn growing_spreads_the_cells_out() {
    let mut small: BucketStorage<u64> = BucketStorage::new_with_capacity(drives(), 2, 8, 2, 4);
    small.allocate(0, 10).unwrap();
    small.put_cell_slice(0, &[1]);
    small.allocate(3, 13).unwrap();
    small.put_cell_slice(3, &[2, 3]);
    let large = small.grow(Some(&small), 4, 2, 8);
    assert_eq!(large.capacity(), 16);
    assert_eq!(large.used(), 2);
    for ix in 0..16 {
        let expected = match ix {
            0 => 10,
            12 => 13,
            _ => 0,
        };
        assert_eq!(large.uid(ix), expected);
    }
    assert_eq!(large.get_cell_slice(12, 2), &[2, 3]);
    let fresh: BucketStorage<u64> = small.grow(None, 3, 2, 8);
    assert_eq!((fresh.capacity(), fresh.used()), (8, 0));
    let same = small.grow(Some(&small), 2, 2, 8);
    assert_eq!((same.uid(0), same.uid(3), same.used()), (10, 13, 2));
}

#[test]
fn data_bucket_is_the_logarithm_rounded_up() {
    let expected: [(u64, u64); 14] = [
        (0, 0),
        (1, 0),
        (2, 1),
        (3, 2),
        (4, 2),
        (5, 3),
        (8, 3),
        (9, 4),
        (1024, 10),
        (1025, 11),
        (1 << 62, 62),
        (1 << 63, 63),
        ((1 << 63) + 1, 64),
        (u64::MAX, 64),
    ];
    for (num_slots, bucket) in expected {
        assert_eq!(IndexEntry::data_bucket_from_num_slots(num_slots), bucket);
    }
}

#[test]
fn data_location_follows_the_growth_of_the_data_bucket() {
    let entry = IndexEntry {
        key: Pubkey::new_from_array([1; 32]),
        ref_count: 5,
        storage_offset: 3,
        storage_capacity_when_created_pow2: 2,
        num_slots: 6,
    };
    assert_eq!(entry.data_bucket_ix(), 3);
    assert_eq!(entry.ref_count(), 5);
    for (capacity_pow2, loc) in [(2u8, 3u64), (3, 6), (5, 24)] {
        let storage: BucketStorage<u64> =
            BucketStorage::new_with_capacity(drives(), 8, 8, capacity_pow2, 4);
        assert_eq!(entry.data_loc(&storage), loc);
    }
}

#[test]
fn owner_of_a_key_is_its_hash() {
    for byte in 0..20u8 {
        let key = Pubkey::new_from_array([byte; 32]);
        let mut hasher = std::collections::hash_map::DefaultHasher::new();
        hasher.write(&[byte; 32]);
        assert_eq!(IndexEntry::key_uid(&key), hasher.finish().max(1));
    }
    assert_ne!(
        IndexEntry::key_uid(&Pubkey::new_from_array([1; 32])),
        IndexEntry::key_uid(&Pubkey::new_from_array([2; 32]))
    );
}
