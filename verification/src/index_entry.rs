//! Entries of a bucket's index, and how keys are hashed.
use crate::bucket_storage::{BucketStorage, Uid};
use crate::byte_order::ByteOrder;
use crate::pubkey::Pubkey;
use std::collections::hash_map::DefaultHasher;
use std::hash::Hasher;
use vstd::arithmetic::power2::pow2;
use vstd::prelude::*;

verus! {

/// How often a key is referred to.
pub type RefCount = u64;

/// The hash that a `DefaultHasher` gives after `writes` have been written to it.
pub open spec fn hash_of(writes: Seq<Seq<u8>>) -> u64 {
    <DefaultHasher as vstd::std_specs::hash::DefaultHasherAdditionalSpecFns>::spec_finish(writes)
}

/// The owner of the cells that belong to `key`: its hash, or 1 where that is the number of an
/// unlocked cell.
pub open spec fn key_uid(key: Seq<u8>) -> u64 {
    let hash = hash_of(seq![key]);
    if hash == 0 {
        1
    } else {
        hash
    }
}

/// Where the search for `key` starts in an index of `capacity` cells with the random offset
/// `random`, where numbers are hashed by their bytes in `order`.
pub open spec fn home(key: Seq<u8>, random: u64, order: ByteOrder, capacity: int) -> int {
    let writes = seq![order.bytes(key_uid(key)), order.bytes(random)];
    hash_of(writes) as int % capacity
}

/// Whether `2^bucket` is the smallest power of two that is at least `num_slots`.
pub open spec fn fits_bucket(num_slots: int, bucket: nat) -> bool {
    &&& num_slots <= pow2(bucket)
    &&& 0 < bucket ==> pow2((bucket - 1) as nat) < num_slots
}

/// Which data bucket holds lists of `num_slots` slots.
pub open spec fn data_bucket(num_slots: int) -> nat {
    choose|bucket: nat| fits_bucket(num_slots, bucket)
}

/// Some bucket fits.
pub proof fn lemma_fits(num_slots: int)
    ensures
        fits_bucket(num_slots, data_bucket(num_slots)),
{
    lemma_some_fits(num_slots, 0);
}

proof fn lemma_some_fits(num_slots: int, bucket: nat)
    requires
        0 < bucket ==> pow2((bucket - 1) as nat) < num_slots,
    ensures
        exists|fitting: nat| fits_bucket(num_slots, fitting),
    decreases
        if pow2(bucket) < num_slots {
            num_slots - pow2(bucket)
        } else {
            0
        },
{
    if num_slots <= pow2(bucket) {
        assert(fits_bucket(num_slots, bucket));
    } else {
        vstd::arithmetic::power2::lemma_pow2_strictly_increases(bucket, bucket + 1);
        lemma_some_fits(num_slots, bucket + 1);
    }
}

/// Only one bucket fits.
pub proof fn lemma_fits_unique(num_slots: int, bucket: nat)
    requires
        fits_bucket(num_slots, bucket),
    ensures
        data_bucket(num_slots) == bucket,
{
    let other = data_bucket(num_slots);
    assert(fits_bucket(num_slots, other));
    if other < bucket {
        if other < bucket - 1 {
            vstd::arithmetic::power2::lemma_pow2_strictly_increases(other, (bucket - 1) as nat);
        }
    } else if bucket < other {
        if bucket < other - 1 {
            vstd::arithmetic::power2::lemma_pow2_strictly_increases(bucket, (other - 1) as nat);
        }
    }
}

/// The index entry of a key: what is known of the key, and where its list of slots is.
#[derive(Clone, Copy, Debug)]
pub struct IndexEntry {
    pub key: Pubkey,
    pub ref_count: RefCount,
    /// the cell of the data bucket, at the time of writing
    pub storage_offset: u64,
    /// the capacity of the data bucket at the time of writing, as a power of two
    pub storage_capacity_when_created_pow2: u8,
    /// the number of slots in the list
    pub num_slots: u64,
}

impl IndexEntry {
    /// Which data bucket holds the list.
    pub open spec fn bucket(self) -> int {
        data_bucket(self.num_slots as int) as int
    }

    /// The cell that holds the list in a data bucket that now has `2^capacity_pow2` cells.
    pub open spec fn loc(self, capacity_pow2: u8) -> int {
        self.storage_offset * pow2(
            (capacity_pow2 - self.storage_capacity_when_created_pow2) as nat,
        )
    }

    /// The entry was written when the data bucket had no more than `2^capacity_pow2` cells, and
    /// named one of them.
    pub open spec fn located(self, capacity_pow2: u8) -> bool {
        &&& self.storage_capacity_when_created_pow2 <= capacity_pow2
        &&& self.storage_offset < pow2(self.storage_capacity_when_created_pow2 as nat)
    }

    /// The cell that holds the list is a cell of the data bucket.
    pub proof fn lemma_loc(self, capacity_pow2: u8)
        requires
            self.located(capacity_pow2),
        ensures
            0 <= self.loc(capacity_pow2) < pow2(capacity_pow2 as nat),
    {
        let created = self.storage_capacity_when_created_pow2 as nat;
        let by = (capacity_pow2 - created) as nat;
        vstd::arithmetic::power2::lemma_pow2_pos(by);
        vstd::arithmetic::power2::lemma_pow2_adds(created, by);
        let (offset, scale) = (self.storage_offset as int, pow2(by) as int);
        let limit = pow2(created) as int;
        assert(0 <= offset * scale < limit * scale) by (nonlinear_arith)
            requires
                0 <= offset < limit,
                0 < scale,
        ;
    }

    /// Which data bucket holds lists of `num_slots` slots: the logarithm to the base 2, rounded
    /// up.
    pub fn data_bucket_from_num_slots(num_slots: u64) -> (bucket: u64)
        ensures
            bucket == data_bucket(num_slots as int),
            fits_bucket(num_slots as int, bucket as nat),
            num_slots <= pow2(bucket as nat),
            0 < bucket ==> pow2((bucket - 1) as nat) < num_slots,
            bucket <= 64,
    {
        proof {
            vstd::arithmetic::power2::lemma2_to64();
            vstd::arithmetic::power2::lemma2_to64_rest();
            vstd::bits::lemma_u64_shl_is_mul(1, 0);
        }
        let mut bucket: u64 = 0;
        while bucket < 64 && (1u64 << bucket) < num_slots
            invariant
                bucket <= 64,
                0 < bucket ==> pow2((bucket - 1) as nat) < num_slots,
                bucket < 64 ==> (1u64 << bucket) == pow2(bucket as nat),
            decreases 64 - bucket,
        {
            bucket = bucket + 1;
            proof {
                if bucket < 64 {
                    vstd::bits::lemma_u64_pow2_no_overflow(bucket as nat);
                    vstd::bits::lemma_u64_shl_is_mul(1, bucket);
                }
            }
        }
        proof {
            lemma_fits_unique(num_slots as int, bucket as nat);
        }
        bucket
    }

    /// Which data bucket holds the list.
    pub fn data_bucket_ix(&self) -> (bucket: u64)
        ensures
            bucket == self.bucket(),
            fits_bucket(self.num_slots as int, bucket as nat),
            bucket <= 64,
    {
        Self::data_bucket_from_num_slots(self.num_slots)
    }

    pub fn ref_count(&self) -> (ref_count: RefCount)
        ensures
            ref_count == self.ref_count,
    {
        self.ref_count
    }

    /// The cell of `storage`, the data bucket of the list, that now holds the list.
    pub fn data_loc<T: Copy>(&self, storage: &BucketStorage<T>) -> (loc: u64)
        requires
            storage@.wf(),
            self.located(storage@.capacity_pow2),
        ensures
            loc == self.loc(storage@.capacity_pow2),
            loc < storage@.cells.len(),
    {
        proof {
            self.lemma_loc(storage@.capacity_pow2);
            storage@.lemma_capacity();
        }
        let by: u64 = (storage.capacity_pow2() - self.storage_capacity_when_created_pow2) as u64;
        proof {
            vstd::bits::lemma_u64_shl_is_mul(self.storage_offset, by);
        }
        self.storage_offset << by
    }

    /// The owner of the cells that belong to `key`.
    pub fn key_uid(key: &Pubkey) -> (uid: Uid)
        ensures
            uid == key_uid(key@),
            uid != 0,
    {
        let mut s = DefaultHasher::new();
        s.write(key.bytes.as_slice());
        assert(s@ =~= seq![key@]);
        let hash: u64 = s.finish();
        if hash == 0 {
            1
        } else {
            hash
        }
    }
}

} // verus!
