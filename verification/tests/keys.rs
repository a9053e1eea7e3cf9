use bucket_map::bucket::Bucket;
use bucket_map::bucket_storage::BucketStorage;
use bucket_map::byte_order::ByteOrder;
use bucket_map::index_entry::IndexEntry;
use bucket_map::pubkey::{KeyBound, KeyRange, Pubkey};
use std::collections::hash_map::DefaultHasher;
use std::hash::{Hash, Hasher};
use std::sync::Arc;

fn key(first: u8, last: u8) -> Pubkey {
    let mut bytes = [0u8; 32];
    bytes[0] = first;
    bytes[31] = last;
    Pubkey::new_from_array(bytes)
}

#[test]
fn keys_are_equal_byte_by_byte() {
    assert!(key(1, 2) == key(1, 2));
    assert!(key(1, 2) != key(1, 3));
    assert!(key(1, 2) != key(0, 2));
}

#[test]
fn keys_are_ordered_from_the_first_byte() {
    assert!(key(0, 9).is_before(&key(1, 0)));
    assert!(key(1, 0).is_before(&key(1, 1)));
    assert!(!key(1, 1).is_before(&key(1, 1)));
    assert!(!key(2, 0).is_before(&key(1, 255)));
}

#[test]
fn key_order_agrees_with_solana_keys() {
    let mut state: u64 = 7;
    let mut keys = Vec::new();
    for _ in 0..40 {
        let mut bytes = [0u8; 32];
        for byte in bytes.iter_mut() {
            state = state.wrapping_mul(6364136223846793005).wrapping_add(1);
            *byte = (state >> 62) as u8;
        }
        keys.push(bytes);
    }
    for a in &keys {
        for b in &keys {
            let theirs = solana_sdk::pubkey::Pubkey::new_from_array(*a)
                < solana_sdk::pubkey::Pubkey::new_from_array(*b);
            assert_eq!(Pubkey::new_from_array(*a).is_before(&Pubkey::new_from_array(*b)), theirs);
        }
    }
}

#[test]
fn range_ends_are_included_or_not() {
    let from = key(2, 0);
    let to = key(4, 0);
    let closed = KeyRange { start: KeyBound::Included(from), end: KeyBound::Included(to) };
    assert!(closed.contains(&from) && closed.contains(&key(3, 0)) && closed.contains(&to));
    assert!(!closed.contains(&key(1, 255)) && !closed.contains(&key(4, 1)));
    let open = KeyRange { start: KeyBound::Excluded(from), end: KeyBound::Excluded(to) };
    assert!(!open.contains(&from) && open.contains(&key(2, 1)) && !open.contains(&to));
    let all = KeyRange { start: KeyBound::Unbounded, end: KeyBound::Unbounded };
    assert!(all.contains(&key(0, 0)) && all.contains(&key(255, 255)));
}

#[test]
fn bytes_of_numbers_are_in_order() {
    for number in [0u64, 1, 0x0102_0304_0506_0708, u64::MAX, 1 << 63] {
        assert_eq!(ByteOrder::Little.to_bytes(number), number.to_le_bytes().to_vec());
        assert_eq!(ByteOrder::Big.to_bytes(number), number.to_be_bytes().to_vec());
        assert_eq!(ByteOrder::native().to_bytes(number), number.to_ne_bytes().to_vec());
    }
    assert_eq!(ByteOrder::of_one(&1u64.to_le_bytes()), ByteOrder::Little);
    assert_eq!(ByteOrder::of_one(&1u64.to_be_bytes()), ByteOrder::Big);
}

#[test]
fn searches_start_where_the_hash_of_the_numbers_says() {
    let index: BucketStorage<IndexEntry> =
        BucketStorage::new_with_capacity(Arc::new(vec![]), 1, 64, 20, 4);
    for byte in 0..40u8 {
        let key = Pubkey::new_from_array([byte; 32]);
        let random = 0x0123_4567_89ab_cdefu64.rotate_left(u32::from(byte));
        let uid = IndexEntry::key_uid(&key);
        let mut native = DefaultHasher::new();
        uid.hash(&mut native);
        random.hash(&mut native);
        let mut big = DefaultHasher::new();
        big.write(&uid.to_be_bytes());
        big.write(&random.to_be_bytes());
        let start = |order| Bucket::<u64>::bucket_index_ix(&index, &key, random, order);
        assert_eq!(start(ByteOrder::native()), native.finish() % index.capacity());
        assert_eq!(start(ByteOrder::Big), big.finish() % index.capacity());
    }
}
