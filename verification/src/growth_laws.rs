//! What making tables larger comes to, and how far a write that makes room for itself goes.
use crate::bucket::Reallocated;
use crate::bucket_error::BucketMapError;
use crate::bucket_growth::growable;
use crate::bucket_item::BucketItemModel;
use crate::bucket_model::BucketModel;
use crate::bucket_stats::{larger, BucketMapStats, BucketStats};
use crate::bucket_storage::StorageModel;
use crate::index_entry::{data_bucket, home, IndexEntry};
use crate::pubkey::Pubkey;
use crate::search_laws::{
    law_larger_index_has_every_entry, law_new_key_gets_nearest_cell,
    law_search_finds_nearest_free_cell,
};
use crate::storage_laws::law_refilled_storage;
use vstd::arithmetic::power2::pow2;
use vstd::prelude::*;

verus! {

/// Counters go up by one and by the time that was taken, and start over when they are full. The
/// largest size goes up only.
pub proof fn law_counters_count(stats: BucketStats, other: BucketStats, size: u64, us: u64)
    ensures
        ({
            let sized = stats.with_size(size);
            &&& sized.resizes == stats.resizes
            &&& sized.resize_us == stats.resize_us
            &&& sized.max_size >= stats.max_size
            &&& sized.max_size >= size
            &&& sized.max_size == stats.max_size || sized.max_size == size
        }),
        ({
            let resized = stats.with_resize(us);
            &&& resized.max_size == stats.max_size
            &&& resized.resizes == (stats.resizes + 1) % 0x1_0000_0000_0000_0000
            &&& resized.resize_us == (stats.resize_us + us) % 0x1_0000_0000_0000_0000
        }),
        ({
            let merged = stats.merged(other);
            &&& merged.resizes == (stats.resizes + other.resizes) % 0x1_0000_0000_0000_0000
            &&& merged.resize_us == (stats.resize_us + other.resize_us) % 0x1_0000_0000_0000_0000
            &&& merged.max_size >= stats.max_size
            &&& merged.max_size >= other.max_size
            &&& merged.max_size == stats.max_size || merged.max_size == other.max_size
        }),
        larger(stats.max_size, size) >= size,
        larger(stats.max_size, size) >= stats.max_size,
        larger(stats.max_size, size) == size || larger(stats.max_size, size) == stats.max_size,
{
}

/// The counters of the index and of the data buckets are added up apart, and start from nothing.
pub proof fn law_counters_are_apart(a: BucketMapStats, b: BucketMapStats)
    ensures
        a.merged(b).index == a.index.merged(b.index),
        a.merged(b).data == a.data.merged(b.data),
        BucketMapStats::zero().index.resizes == 0,
        BucketMapStats::zero().index.max_size == 0,
        BucketMapStats::zero().index.resize_us == 0,
        BucketMapStats::zero().data.resizes == 0,
        BucketMapStats::zero().data.max_size == 0,
        BucketMapStats::zero().data.resize_us == 0,
{
}

/// What waits is seen as it is.
pub proof fn law_what_waits_is_seen<T>(reallocated: Reallocated<T>)
    ensures
        reallocated@.active == reallocated.active_reallocations,
        reallocated@.index is Some <==> reallocated.items.index is Some,
        reallocated.items.index matches Some((random, index)) ==> reallocated@.index == Some(
            (random, index@),
        ),
        reallocated@.data is Some <==> reallocated.items.data is Some,
        reallocated.items.data matches Some((bucket, storage)) ==> reallocated@.data == Some(
            (bucket, storage@),
        ),
{
}

/// A larger data bucket is made for lists of up to `2^bucket` slots, on the drives and with the
/// search limit of the bucket. It has each cell of the old one, as many times further on as it has
/// more cells, and nothing in the others.
pub proof fn law_larger_data_bucket<T>(model: BucketModel<T>, bucket: int, capacity_pow2: u8)
    requires
        model.wf(),
        0 <= bucket < 64,
        capacity_pow2 < usize::BITS,
        bucket < model.data.len() ==> model.data[bucket].capacity_pow2 <= capacity_pow2,
    ensures
        ({
            let after = model.larger_data(bucket, capacity_pow2);
            &&& after.wf()
            &&& after.drives == model.drives
            &&& after.num_elems == pow2(bucket as nat)
            &&& after.elem_size == vstd::layout::size_of::<T>() as u64
            &&& after.capacity_pow2 == capacity_pow2
            &&& after.max_search == model.index.max_search
            &&& bucket >= model.data.len() ==> after.used == 0 && forall|j: int|
                0 <= j < after.cells.len() ==> (#[trigger] after.cells[j]).uid == 0
                    && after.cells[j].items.len() == 0
            &&& bucket < model.data.len() ==> {
                let old = model.data[bucket];
                let step = pow2((capacity_pow2 - old.capacity_pow2) as nat) as int;
                &&& after.used == old.used
                &&& forall|i: int|
                    #![trigger old.cells[i]]
                    0 <= i < old.cells.len() ==> after.cells[i * step] == old.cells[i]
                &&& forall|j: int|
                    0 <= j < after.cells.len() && j % step != 0 ==> (
                    #[trigger] after.cells[j]).uid == 0 && after.cells[j].items.len() == 0
            }
        }),
{
    model.lemma_larger_data(bucket, capacity_pow2);
    vstd::bits::lemma_u64_pow2_no_overflow(bucket as nat);
    if bucket < model.data.len() {
        assert(model.data[bucket].wf());
        law_refilled_storage(model.fresh_data(bucket, capacity_pow2), model.data[bucket]);
    }
}

/// A table that is put in place takes the place of the old one, and of nothing else. A data bucket
/// that goes behind the last one comes after unused ones of the usual size.
pub proof fn law_table_put_in_place<T>(
    model: BucketModel<T>,
    random: u64,
    index: StorageModel<IndexEntry>,
    bucket: int,
    storage: StorageModel<T>,
)
    requires
        0 <= bucket < 64,
    ensures
        model.with_index(random, index) == (BucketModel { random, index, ..model }),
        ({
            let after = model.with_data(bucket, storage);
            &&& after == (BucketModel { data: after.data, ..model })
            &&& bucket < model.data.len() ==> after.data == model.data.update(bucket, storage)
            &&& bucket >= model.data.len() ==> {
                &&& after.data.len() == bucket + 1
                &&& after.data[bucket] == storage
                &&& forall|b: int|
                    #![trigger after.data[b]]
                    0 <= b < model.data.len() ==> after.data[b] == model.data[b]
                &&& forall|b: int|
                    #![trigger after.data[b]]
                    model.data.len() <= b < bucket ==> {
                        &&& after.data[b].drives == model.drives
                        &&& after.data[b].num_elems == pow2(b as nat)
                        &&& after.data[b].elem_size == vstd::layout::size_of::<T>() as u64
                        &&& after.data[b].capacity_pow2 == 5
                        &&& after.data[b].max_search == model.index.max_search
                        &&& after.data[b].used == 0
                        &&& after.data[b].cells.len() == pow2(5)
                        &&& forall|j: int|
                            0 <= j < pow2(5) ==> (#[trigger] after.data[b].cells[j]).uid == 0
                                && after.data[b].cells[j].items.len() == 0
                    }
            }
        }),
{
    assert forall|b: int| 0 <= b < 64 implies #[trigger] pow2(b as nat) <= u64::MAX by {
        vstd::bits::lemma_u64_pow2_no_overflow(b as nat);
    }
    let after = model.with_data(bucket, storage);
    assert forall|b: int|
        #![trigger after.data[b]]
        model.data.len() <= b < bucket implies after.data[b].num_elems == pow2(b as nat) by {
        assert(pow2(b as nat) <= u64::MAX);
    }
}

/// A table that is kept for later waits alone, and the tables in place stay as they are. For an index
/// the size and the resize are counted.
pub proof fn law_table_kept_for_later<T>(
    model: BucketModel<T>,
    random: u64,
    index: StorageModel<IndexEntry>,
    us: u64,
    bucket: u64,
    storage: StorageModel<T>,
)
    ensures
        ({
            let after = model.with_deferred_index(random, index, us);
            &&& after.reallocated.active == 1
            &&& after.reallocated.index == Some((random, index))
            &&& after.reallocated.data == model.reallocated.data
            &&& after.stats.data == model.stats.data
            &&& after.stats.index == model.stats.index.with_size(
                index.cells.len() as u64,
            ).with_resize(us)
            &&& after == (BucketModel {
                stats: after.stats,
                reallocated: after.reallocated,
                ..model
            })
        }),
        ({
            let after = model.with_deferred_data(bucket, storage);
            &&& after.reallocated.active == 1
            &&& after.reallocated.data == Some((bucket, storage))
            &&& after.reallocated.index == model.reallocated.index
            &&& after == (BucketModel { reallocated: after.reallocated, ..model })
        }),
{
}

/// What waits is put in place if it is said to wait, and taken away: an index before a data bucket.
/// Else nothing happens.
pub proof fn law_what_waits_is_put_in_place<T>(model: BucketModel<T>)
    ensures
        model.reallocated.active != 1 ==> model.settled() == model,
        model.reallocated.active == 1 ==> {
            let after = model.settled();
            &&& after.reallocated.active == 0
            &&& after.reallocated.index is None
            &&& after.reallocated.data is None
            &&& after.stats == model.stats
            &&& after.drives == model.drives
            &&& after.order == model.order
            &&& model.reallocated.index matches Some((random, index)) ==> {
                &&& after.index == index
                &&& after.random == random
                &&& after.data == model.data
            }
            &&& model.reallocated.index is None ==> {
                &&& after.index == model.index
                &&& after.random == model.random
                &&& model.reallocated.data matches Some((bucket, storage)) ==> after.data
                    == model.with_data(bucket as int, storage).data
                &&& model.reallocated.data is None ==> after.data == model.data
            }
        },
{
    if model.reallocated.active == 1 && model.reallocated.index is None {
        if let Some((bucket, storage)) = model.reallocated.data {
            assert(model.settled().data =~= model.with_data(bucket as int, storage).data);
        }
    }
}

/// Something can be put in place unless it is said to wait and is not there, or is a data bucket for
/// which there is no place.
pub proof fn law_what_can_be_put_in_place<T>(model: BucketModel<T>)
    ensures
        model.reallocated.active != 1 ==> model.pending_applies(),
        model.reallocated.index is Some ==> model.pending_applies(),
        model.reallocated.data matches Some((bucket, _)) ==> bucket <= 64
            ==> model.pending_applies(),
{
}

/// A table that waits and was made from the tables as they are is current: putting it in place keeps
/// the map.
pub proof fn law_table_made_from_present_tables_is_current<T>(model: BucketModel<T>)
    ensures
        model.reallocated.active != 1 ==> model.pending_current(),
        model.reallocated.index matches Some((random, index)) ==> index.capacity_pow2 < usize::BITS
            && model.larger_index(index.capacity_pow2, random) == Some(index)
            ==> model.pending_current(),
        model.reallocated.index is None ==> (model.reallocated.data matches Some((bucket, storage))
            ==> bucket < 64 && storage.capacity_pow2 < usize::BITS && (bucket < model.data.len()
            ==> model.data[bucket as int].capacity_pow2 <= storage.capacity_pow2) && storage
            == model.larger_data(bucket as int, storage.capacity_pow2) ==> model.pending_current()),
{
    if model.reallocated.active == 1 {
        if let Some((random, index)) = model.reallocated.index {
            if index.capacity_pow2 < usize::BITS && model.larger_index(index.capacity_pow2, random)
                == Some(index) {
                assert(model.extends_index(random, index));
            }
        } else if let Some((bucket, storage)) = model.reallocated.data {
            if bucket < 64 && storage.capacity_pow2 < usize::BITS && (bucket < model.data.len()
                ==> model.data[bucket as int].capacity_pow2 <= storage.capacity_pow2) && storage
                == model.larger_data(bucket as int, storage.capacity_pow2) {
                assert(model.may_grow_data(bucket as int, storage.capacity_pow2 as int));
                assert(model.extends_data(bucket, storage));
            }
        }
    }
}

/// A data bucket may be made larger, or made, where its number and its size are ones that there can
/// be and it does not become smaller.
pub proof fn law_data_bucket_may_grow<T>(model: BucketModel<T>, bucket: int, capacity_pow2: int)
    ensures
        model.may_grow_data(bucket, capacity_pow2) <==> {
            &&& 0 <= bucket < 64
            &&& 0 <= capacity_pow2 < usize::BITS
            &&& bucket < model.data.len() ==> model.data[bucket].capacity_pow2 <= capacity_pow2
        },
{
}

/// A size of the index that may have no room is one that some random offset leaves without room.
pub proof fn law_size_without_room<T>(model: BucketModel<T>, capacity_pow2: u8) -> (random: u64)
    ensures
        model.may_overflow(capacity_pow2) ==> model.larger_index(capacity_pow2, random) is None,
{
    choose|random: u64| #[trigger] model.larger_index(capacity_pow2, random) is None
}

/// A size of the index that has room with every random offset is not passed over.
pub proof fn law_size_with_room<T>(model: BucketModel<T>, capacity_pow2: u8)
    requires
        forall|random: u64| #[trigger] model.larger_index(capacity_pow2, random) is Some,
    ensures
        !model.may_overflow(capacity_pow2),
        capacity_pow2 < usize::BITS && model.index.capacity_pow2 < capacity_pow2
            ==> !model.index_exhausted(),
{
    if model.index_exhausted() && model.index.capacity_pow2 < capacity_pow2 < usize::BITS {
        assert(model.may_overflow(capacity_pow2));
    }
}

/// A size of a data bucket that may have no room is one in which all cells that are searched from
/// some cell on are locked.
pub proof fn law_data_size_without_room<T>(
    model: BucketModel<T>,
    bucket: int,
    capacity_pow2: u8,
) -> (pos: int)
    requires
        model.wf(),
        0 <= bucket < 64,
        capacity_pow2 < usize::BITS,
        bucket < model.data.len() ==> model.data[bucket].capacity_pow2 <= capacity_pow2,
        model.may_fill(bucket, capacity_pow2),
    ensures
        ({
            let cells = model.larger_data(bucket, capacity_pow2).cells;
            let len = cells.len() as int;
            &&& 0 <= pos < len
            &&& forall|j: int|
                #![trigger cells[j]]
                0 <= j < len && (j - pos) % len < model.index.max_search ==> cells[j].uid != 0
        }),
{
    let pos = choose|pos: int|
        0 <= pos < pow2(capacity_pow2 as nat) && #[trigger] model.room_at(
            bucket,
            capacity_pow2,
            pos,
        ) is None;
    model.lemma_larger_data(bucket, capacity_pow2);
    let storage = model.larger_data(bucket, capacity_pow2);
    storage.lemma_capacity();
    law_search_finds_nearest_free_cell(storage.cells, pos, model.index.max_search as int);
    pos
}

/// Growing an index that no longer has the size that is named does nothing at all.
pub proof fn law_index_of_another_size_is_left_alone<T>(
    before: BucketModel<T>,
    current_capacity: u8,
    after: BucketModel<T>,
    result: Result<(), BucketMapError>,
)
    requires
        before.index.capacity_pow2 != current_capacity,
    ensures
        before.grows_index(current_capacity, after, result) ==> result is Ok && after == before,
        before.grows(BucketMapError::IndexNoSpace(current_capacity), after, result)
            ==> result is Ok && after == before,
{
}

/// Growing the index makes one of a larger size with room for every entry, and keeps it for later.
/// Each size that is passed over is one that some random offset leaves without room, and it fails
/// only if each larger size is. The resize is counted once, with the size that was made.
pub proof fn law_index_grows_to_first_size_with_room<T>(
    before: BucketModel<T>,
    after: BucketModel<T>,
    result: Result<(), BucketMapError>,
)
    requires
        before.wf(),
        before.grows_index(before.index.capacity_pow2, after, result),
    ensures
        after == (BucketModel { stats: after.stats, reallocated: after.reallocated, ..before }),
        after.stats.data == before.stats.data,
        after.stats.index.resizes == (before.stats.index.resizes + 1) % 0x1_0000_0000_0000_0000,
        match result {
            Ok(()) => {
                &&& after.reallocated.active == 1
                &&& after.reallocated.data == before.reallocated.data
                &&& after.reallocated.index matches Some((random, index))
                &&& before.index.capacity_pow2 < index.capacity_pow2 < usize::BITS
                &&& before.larger_index(index.capacity_pow2, random) == Some(index)
                &&& forall|smaller: u8|
                    before.index.capacity_pow2 < smaller < index.capacity_pow2
                        ==> #[trigger] before.may_overflow(smaller)
                &&& after.stats.index.max_size >= before.stats.index.max_size
                &&& after.stats.index.max_size >= index.cells.len()
                &&& after.stats.index.max_size == before.stats.index.max_size
                    || after.stats.index.max_size == index.cells.len()
            },
            Err(err) => {
                &&& err == BucketMapError::IndexNoSpace(before.index.capacity_pow2)
                &&& after.reallocated == before.reallocated
                &&& after.stats.index.max_size == before.stats.index.max_size
                &&& forall|larger_size: u8|
                    before.index.capacity_pow2 < larger_size < usize::BITS
                        ==> #[trigger] before.may_overflow(larger_size)
            },
        },
{
    let current = before.index.capacity_pow2;
    match result {
        Ok(()) => {
            let (capacity_pow2, random, us) = choose|capacity_pow2: u8, random: u64, us: u64|
                {
                    &&& before.takes_index(capacity_pow2, random)
                    &&& after == #[trigger] before.with_pending_index(capacity_pow2, random, us)
                };
            let index = before.larger_index(capacity_pow2, random)->0;
            law_larger_index_has_every_entry(before, capacity_pow2, random);
            before.lemma_larger_index(capacity_pow2, random);
            assert(before.with_index(random, index).index.wf());
            index.lemma_capacity();
        },
        Err(err) => {
            let us = choose|us: u64|
                after.stats.index == #[trigger] before.stats.index.with_resize(us);
        },
    }
}

/// Growing a data bucket makes it with twice as many cells as are named, and keeps it for later. It
/// never fails.
pub proof fn law_data_bucket_grows_by_one_size<T>(
    before: BucketModel<T>,
    bucket: u64,
    capacity_pow2: u8,
    after: BucketModel<T>,
    result: Result<(), BucketMapError>,
)
    requires
        before.grows(BucketMapError::DataNoSpace((bucket, capacity_pow2)), after, result),
    ensures
        result is Ok,
        after.reallocated.active == 1,
        after.reallocated.index == before.reallocated.index,
        after.reallocated.data == Some(
            (bucket, before.larger_data(bucket as int, (capacity_pow2 + 1) as u8)),
        ),
        after == (BucketModel { reallocated: after.reallocated, ..before }),
{
}

/// A growing index is one that grows by the error that names it.
pub proof fn law_index_grows_by_its_error<T>(
    before: BucketModel<T>,
    capacity_pow2: u8,
    after: BucketModel<T>,
    result: Result<(), BucketMapError>,
)
    ensures
        before.grows(BucketMapError::IndexNoSpace(capacity_pow2), after, result)
            <==> before.grows_index(capacity_pow2, after, result),
{
}

/// The index can always be tried in a larger size. A data bucket can be made larger unless it has the
/// most cells that there can be, and made unless it is one too many.
pub proof fn law_what_can_grow(bucket: u64, capacity_pow2: u8)
    ensures
        growable(BucketMapError::IndexNoSpace(capacity_pow2)),
        growable(BucketMapError::DataNoSpace((bucket, capacity_pow2))) <==> bucket < 64
            && capacity_pow2 + 1 < usize::BITS,
{
}

/// A key has a place where it has an entry, or where one of the cells that are searched for it is
/// free.
pub proof fn law_key_has_place<T>(model: BucketModel<T>, key: Seq<u8>)
    requires
        model.wf(),
    ensures
        model.has_place(key) <==> model.contents().contains_key(key) || exists|j: int|
            #![trigger model.index.cells[j]]
            {
                let len = model.index.cells.len() as int;
                &&& 0 <= j < len
                &&& (j - home(key, model.random, model.order, len)) % len < model.index.max_search
                &&& model.index.cells[j].uid == 0
            },
{
    model.index.lemma_capacity();
    law_new_key_gets_nearest_cell(model.index, model.random, model.order, key);
}

/// What an insert does to the map: the key has what was inserted, or, where there was no room, what
/// it had, or what it had with the new number of references. Every other key has what it had.
pub proof fn law_insert_changes_one_key<T>(
    before: BucketModel<T>,
    key: Pubkey,
    slots: Seq<T>,
    ref_count: u64,
    after: BucketModel<T>,
    result: Result<(), BucketMapError>,
)
    requires
        before.insert_outcome(key, slots, ref_count, after, result),
    ensures
        after.contents().remove(key@) == before.contents().remove(key@),
        result is Ok ==> after.contents().contains_key(key@) && after.contents()[key@] == (
            slots,
            ref_count,
        ),
        result is Err && before.contents().contains_key(key@) ==> after.contents().contains_key(
            key@,
        ) && after.contents()[key@].0 == before.contents()[key@].0,
        result is Err && after.contents().contains_key(key@) && !before.contents().contains_key(
            key@,
        ) ==> after.contents()[key@].0.len() == 0,
{
    assert(after.contents().remove(key@) =~= before.contents().remove(key@));
}

/// An insert fails only where no table can be made large enough: the data bucket for the list would
/// be one too many, or each size that it can be given may have no room; or the key is not there, all
/// cells that are searched for it are locked, and each larger size of the index may have no room.
pub proof fn law_insert_fails_only_where_nothing_can_grow<T>(
    before: BucketModel<T>,
    key: Pubkey,
    slots: Seq<T>,
    ref_count: u64,
    after: BucketModel<T>,
    err: BucketMapError,
)
    requires
        before.wf(),
        after.wf(),
        before.insert_outcome(key, slots, ref_count, after, Err(err)),
    ensures
        match err {
            BucketMapError::DataNoSpace((bucket, capacity_pow2)) => {
                let first: int = if bucket < before.data.len() {
                    before.data[bucket as int].capacity_pow2 as int
                } else {
                    1
                };
                &&& bucket == data_bucket(slots.len() as int)
                &&& bucket >= 64 || capacity_pow2 + 1 >= usize::BITS
                &&& bucket >= 64 || forall|size: u8|
                    first <= size < usize::BITS ==> #[trigger] before.may_fill(bucket as int, size)
            },
            BucketMapError::IndexNoSpace(capacity_pow2) => {
                let cells = after.index.cells;
                let len = cells.len() as int;
                let start = home(key@, after.random, after.order, len);
                &&& capacity_pow2 == after.index.capacity_pow2
                &&& !after.contents().contains_key(key@)
                &&& forall|j: int|
                    #![trigger cells[j]]
                    0 <= j < len && (j - start) % len < after.index.max_search ==> cells[j].uid != 0
                &&& forall|size: u8|
                    capacity_pow2 < size < usize::BITS ==> #[trigger] after.may_overflow(
                        size,
                    )
            },
        },
{
    if let BucketMapError::DataNoSpace((bucket, _)) = err {
        assert(after.stuck(key@, slots.len(), err));
        let b = bucket as int;
        assert(b == data_bucket(slots.len() as int) as int);
        if bucket < 64 {
            assert(before.data_exhausted(b));
            assert forall|size: u8|
                (if bucket < before.data.len() {
                    before.data[b].capacity_pow2 as int
                } else {
                    1
                }) <= size < usize::BITS implies #[trigger] before.may_fill(b, size) by {
                assert(before.first_size(b) <= size);
            }
        }
    }
    if let BucketMapError::IndexNoSpace(capacity_pow2) = err {
        after.index.lemma_capacity();
        law_new_key_gets_nearest_cell(after.index, after.random, after.order, key@);
    }
}

/// Where the key has an entry, or one of the cells that are searched for it is free, an insert
/// succeeds if its data bucket is there, is not of the largest size and two cells are searched, or is
/// not there and any cell is searched. The index keeps its size, and the data bucket is doubled at
/// most once, or made with two cells.
pub proof fn law_insert_makes_room_once<T>(
    before: BucketModel<T>,
    key: Pubkey,
    slots: Seq<T>,
    ref_count: u64,
    after: BucketModel<T>,
    result: Result<(), BucketMapError>,
)
    requires
        before.wf(),
        before.insert_outcome(key, slots, ref_count, after, result),
        before.contents().contains_key(key@) || exists|j: int|
            #![trigger before.index.cells[j]]
            {
                let len = before.index.cells.len() as int;
                &&& 0 <= j < len
                &&& (j - home(key@, before.random, before.order, len)) % len
                    < before.index.max_search
                &&& before.index.cells[j].uid == 0
            },
        data_bucket(slots.len() as int) < 64,
        data_bucket(slots.len() as int) < before.data.len() ==> before.index.max_search >= 2
            && before.data[data_bucket(slots.len() as int) as int].capacity_pow2 + 1 < usize::BITS,
        data_bucket(slots.len() as int) >= before.data.len() ==> before.index.max_search > 0,
    ensures
        ({
            let bucket = data_bucket(slots.len() as int) as int;
            let size = after.data[bucket].capacity_pow2;
            &&& result is Ok
            &&& bucket < after.data.len()
            &&& bucket < before.data.len() ==> after.data.len() == before.data.len()
                && before.data[bucket].capacity_pow2 <= size <= before.data[bucket].capacity_pow2
                + 1
            &&& bucket >= before.data.len() ==> after.data.len() == bucket + 1 && size == 1
            &&& after.index.capacity_pow2 == before.index.capacity_pow2
            &&& after.random == before.random
            &&& after.stats == before.stats
        }),
{
    law_key_has_place(before, key@);
    before.lemma_find(key@);
    if before.find(key@) is None {
        before.lemma_room(key@);
    }
}

/// An insert leaves the index as it is but for the cell of its key, if the key has an entry or one of
/// the cells that are searched for it is free.
pub proof fn law_insert_keeps_other_cells_of_index<T>(
    before: BucketModel<T>,
    key: Pubkey,
    slots: Seq<T>,
    ref_count: u64,
    after: BucketModel<T>,
    result: Result<(), BucketMapError>,
    i: int,
)
    requires
        before.wf(),
        before.insert_outcome(key, slots, ref_count, after, result),
        0 <= i < before.index.cells.len(),
        ({
            let cells = before.index.cells;
            let len = cells.len() as int;
            let start = home(key@, before.random, before.order, len);
            ||| cells[i].uid != 0 && cells[i].items[0].key@ == key@
            ||| {
                &&& !before.contents().contains_key(key@)
                &&& cells[i].uid == 0
                &&& (i - start) % len < before.index.max_search
                &&& forall|j: int|
                    #![trigger cells[j]]
                    0 <= j < len && (j - start) % len < (i - start) % len ==> cells[j].uid != 0
            }
        }),
    ensures
        after.index.cells.len() == before.index.cells.len(),
        forall|j: int|
            0 <= j < before.index.cells.len() && j != i ==> #[trigger] after.index.cells[j]
                == before.index.cells[j],
        before.index.cells[i].uid != 0 ==> after.index.cells[i].uid == before.index.cells[i].uid
            && after.index.cells[i].items[0].key == before.index.cells[i].items[0].key,
        result is Ok ==> after.index.cells[i].uid != 0 && after.index.cells[i].items[0].key@
            == key@,
{
    before.index.lemma_capacity();
    before.lemma_find(key@);
    law_new_key_gets_nearest_cell(before.index, before.random, before.order, key@);
    if before.index.cells[i].uid != 0 {
        before.lemma_position(i, key@);
        before.lemma_entry(i);
    } else {
        let at = before.room(key@)->0;
        let len = before.index.cells.len() as int;
        let start = home(key@, before.random, before.order, len);
        assert((at - start) % len == (i - start) % len);
        lemma_same_distance(len, start, at, i);
    }
}

/// Cells at the same distance are one.
proof fn lemma_same_distance(len: int, start: int, a: int, b: int)
    requires
        0 <= a < len,
        0 <= b < len,
        (a - start) % len == (b - start) % len,
    ensures
        a == b,
{
    vstd::arithmetic::div_mod::lemma_fundamental_div_mod(a - start, len);
    vstd::arithmetic::div_mod::lemma_fundamental_div_mod(b - start, len);
    let p = (a - start) / len;
    let q = (b - start) / len;
    assert(p == q) by (nonlinear_arith)
        requires
            a - b == len * p - len * q,
            -len < a - b < len,
            0 < len,
    ;
}

/// An insert makes no table larger than it needs. The other data buckets keep their size, but that
/// missing ones before its own are made of the usual size; its own passes over a size only if that
/// may have no room. The index never becomes smaller, and keeps its random offset and its counters
/// where it does not become larger.
pub proof fn law_insert_grows_no_more_than_needed<T>(
    before: BucketModel<T>,
    key: Pubkey,
    slots: Seq<T>,
    ref_count: u64,
    after: BucketModel<T>,
    result: Result<(), BucketMapError>,
)
    requires
        before.insert_outcome(key, slots, ref_count, after, result),
    ensures
        ({
            let bucket = data_bucket(slots.len() as int) as int;
            let first: int = if bucket < before.data.len() {
                before.data[bucket].capacity_pow2 as int
            } else {
                1
            };
            &&& after.drives == before.drives
            &&& after.order == before.order
            &&& after.index.max_search == before.index.max_search
            &&& after.stats.data == before.stats.data
            &&& before.index.capacity_pow2 <= after.index.capacity_pow2
            &&& before.index.capacity_pow2 == after.index.capacity_pow2 ==> after.random
                == before.random && after.stats.index.max_size == before.stats.index.max_size
            &&& after.data.len() == before.data.len() || after.data.len() == bucket + 1
                && before.data.len() <= bucket
            &&& forall|b: int|
                #![trigger after.data[b]]
                0 <= b < before.data.len() && b != bucket ==> after.data[b].capacity_pow2
                    == before.data[b].capacity_pow2
            &&& forall|b: int|
                #![trigger after.data[b]]
                before.data.len() <= b < after.data.len() && b != bucket
                    ==> after.data[b].capacity_pow2 == 5
            &&& bucket < after.data.len() ==> {
                &&& first <= after.data[bucket].capacity_pow2
                &&& forall|size: u8|
                    first <= size < after.data[bucket].capacity_pow2 ==> #[trigger] before.may_fill(
                        bucket,
                        size,
                    )
            }
            &&& result is Ok ==> exists|times: nat|
                {
                    &&& times <= after.index.capacity_pow2 - before.index.capacity_pow2
                    &&& before.index.capacity_pow2 < after.index.capacity_pow2 ==> times > 0
                    &&& #[trigger] wrapped(before.stats.index.resizes + times)
                        == after.stats.index.resizes
                }
        }),
{
    let bucket = data_bucket(slots.len() as int) as int;
    if bucket < after.data.len() {
        assert(after.data[bucket].capacity_pow2 >= before.first_size(bucket));
    }
    if result is Ok {
        let times = choose|times: nat| before.resized(after, times);
        assert(wrapped(before.stats.index.resizes + times) == after.stats.index.resizes);
    }
}

/// A number as a counter of 64 bits shows it.
pub open spec fn wrapped(number: int) -> int {
    number % 0x1_0000_0000_0000_0000
}

/// An insert is a row of attempts to write. The tables are made larger between them only, and only
/// the one that had no room in the attempt before. `run.0` are the states of the bucket before each
/// attempt, `run.1` is where each attempt starts its search of a data bucket, and `run.2` are the
/// states in which the larger table waits.
pub proof fn law_insert_grows_only_after_failed_writes<T>(
    before: BucketModel<T>,
    key: Pubkey,
    slots: Seq<T>,
    ref_count: u64,
    after: BucketModel<T>,
    result: Result<(), BucketMapError>,
) -> (run: (Seq<BucketModel<T>>, Seq<int>, Seq<BucketModel<T>>))
    requires
        before.insert_outcome(key, slots, ref_count, after, result),
    ensures
        ({
            let (states, starts, grown) = run;
            let last = states.len() - 1;
            &&& states.len() > 0
            &&& starts.len() == states.len()
            &&& grown.len() == states.len()
            &&& states[0] == before
            &&& forall|n: int|
                #![trigger starts[n]]
                0 <= n < states.len() ==> states[n].starts(slots.len(), starts[n])
            &&& forall|n: int|
                #![trigger grown[n]]
                0 <= n < last ==> {
                    let (tried, written) = states[n].write(key, slots, ref_count, starts[n]);
                    &&& written matches Err(err)
                    &&& tried.grows(err, grown[n], Ok(()))
                    &&& states[n + 1] == grown[n].settled()
                }
            &&& ({
                let (tried, written) = states[last].write(key, slots, ref_count, starts[last]);
                match written {
                    Ok(()) => result is Ok && after == tried,
                    Err(err) => {
                        &&& result is Err
                        &&& growable(err) ==> tried.grows(err, after, result)
                        &&& !growable(err) ==> after == tried && result == written
                    },
                }
            })
        }),
{
    assert(before.inserted(key, slots, ref_count, after, result));
    reveal(BucketModel::inserted);
    let states = choose|states: Seq<BucketModel<T>>| #[trigger]
        before.attempts(key, slots, ref_count, states) && states.last().concluded(
            key,
            slots,
            ref_count,
            after,
            result,
        );
    let last = states.len() - 1;
    let end = choose|pos: int|
        {
            &&& states[last].starts(slots.len(), pos)
            &&& match #[trigger] states[last].write(key, slots, ref_count, pos) {
                (tried, Ok(())) => after == tried && result == Ok::<(), BucketMapError>(()),
                (tried, Err(err)) => if growable(err) {
                    result is Err && tried.grows(err, after, result)
                } else {
                    after == tried && result == Err::<(), BucketMapError>(err)
                },
            }
        };
    let starts = Seq::new(
        states.len(),
        |n: int|
            if n == last {
                end
            } else {
                widening(states[n], key, slots, ref_count, states[n + 1]).0
            },
    );
    let grown = Seq::new(
        states.len(),
        |n: int| widening(states[n], key, slots, ref_count, states[n + 1]).1,
    );
    assert forall|n: int| 0 <= n < last implies widens(
        states[n],
        key,
        slots,
        ref_count,
        states[n + 1],
        starts[n],
        #[trigger] grown[n],
    ) by {
        assert(BucketModel::follows(key, slots, ref_count, states, n + 1));
        lemma_widening(states[n], key, slots, ref_count, states[n + 1]);
    }
    assert forall|n: int| #![trigger starts[n]] 0 <= n < states.len() implies states[n].starts(
        slots.len(),
        starts[n],
    ) by {
        if n < last {
            assert(widens(
                states[n],
                key,
                slots,
                ref_count,
                states[n + 1],
                starts[n],
                grown[n],
            ));
        }
    }
    (states, starts, grown)
}

/// An attempt that starts at `pos` finds no room, and `grown` is the state in which the larger table
/// waits.
spec fn widens<T>(
    state: BucketModel<T>,
    key: Pubkey,
    slots: Seq<T>,
    ref_count: u64,
    next: BucketModel<T>,
    pos: int,
    grown: BucketModel<T>,
) -> bool {
    &&& state.starts(slots.len(), pos)
    &&& next == grown.settled()
    &&& match state.write(key, slots, ref_count, pos) {
        (tried, Err(err)) => tried.grows(err, grown, Ok(())),
        (_, Ok(())) => false,
    }
}

/// Where an attempt starts, and the state in which the larger table waits.
spec fn widening<T>(
    state: BucketModel<T>,
    key: Pubkey,
    slots: Seq<T>,
    ref_count: u64,
    next: BucketModel<T>,
) -> (int, BucketModel<T>) {
    choose|pos: int, grown: BucketModel<T>|
        widens(state, key, slots, ref_count, next, pos, grown)
}

proof fn lemma_widening<T>(
    state: BucketModel<T>,
    key: Pubkey,
    slots: Seq<T>,
    ref_count: u64,
    next: BucketModel<T>,
)
    requires
        state.widened(key, slots, ref_count, next),
    ensures
        ({
            let (pos, grown) = widening(state, key, slots, ref_count, next);
            widens(state, key, slots, ref_count, next, pos, grown)
        }),
{
    let (pos, grown) = choose|pos: int, grown: BucketModel<T>|
        #![trigger state.write(key, slots, ref_count, pos), grown.settled()]
        {
            &&& state.starts(slots.len(), pos)
            &&& next == grown.settled()
            &&& match state.write(key, slots, ref_count, pos) {
                (tried, Err(err)) => growable(err) && tried.grows(err, grown, Ok(())),
                (_, Ok(())) => false,
            }
        };
    assert(widens(state, key, slots, ref_count, next, pos, grown));
}

/// An insert for which a write finds room from every cell on is that write.
pub proof fn law_insert_with_room_is_a_write<T>(
    before: BucketModel<T>,
    key: Pubkey,
    slots: Seq<T>,
    ref_count: u64,
    after: BucketModel<T>,
    result: Result<(), BucketMapError>,
) -> (pos: int)
    requires
        before.insert_outcome(key, slots, ref_count, after, result),
        forall|pos: int|
            before.starts(slots.len(), pos) ==> (#[trigger] before.write(
                key,
                slots,
                ref_count,
                pos,
            )).1 is Ok,
    ensures
        before.starts(slots.len(), pos),
        (after, result) == before.write(key, slots, ref_count, pos),
{
    choose|pos: int|
        before.starts(slots.len(), pos) && (after, result) == #[trigger] before.write(
            key,
            slots,
            ref_count,
            pos,
        )
}

/// A listed item is what the map says of its key.
pub proof fn law_listed_item_is_in_the_map<T>(model: BucketModel<T>, item: BucketItemModel<T>)
    ensures
        model.has_item(item) <==> model.contents().contains_key(item.pubkey@)
            && model.contents()[item.pubkey@] == (item.slot_list, item.ref_count),
{
}

} // verus!
