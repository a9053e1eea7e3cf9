//! What holds of a bucket over several operations, whatever the keys, lists and random numbers.
use crate::bucket_error::BucketMapError;
use crate::bucket_growth::{growable, lemma_bucket_bound};
use crate::bucket_item::BucketItemModel;
use crate::bucket_model::{find_in, holding, BucketModel, ReallocatedModel};
use crate::bucket_stats::BucketStats;
use crate::bucket_storage::StorageModel;
use crate::byte_order::ByteOrder;
use crate::index_entry::{data_bucket, hash_of, home, key_uid, lemma_fits, IndexEntry};
use crate::probe::{lemma_probe_found, lemma_probe_same};
use crate::pubkey::Pubkey;
use vstd::arithmetic::power2::pow2;
use vstd::prelude::*;

verus! {

/// A read gives back what was inserted last for the key, and for every other key what it gave
/// before.
pub proof fn law_read_after_insert<T>(
    before: BucketModel<T>,
    key: Seq<u8>,
    slots: Seq<T>,
    ref_count: u64,
    after: BucketModel<T>,
)
    requires
        before.inserts(key, slots, ref_count, after, Ok(())),
    ensures
        after.contents().contains_key(key),
        after.contents()[key] == (slots, ref_count),
        forall|other: Seq<u8>|
            other != key ==> (#[trigger] after.contents().contains_key(other)
                == before.contents().contains_key(other)) && (before.contents().contains_key(other)
                ==> after.contents()[other] == before.contents()[other]),
{
}

/// Of two inserts for one key, only the second is seen.
pub proof fn law_last_insert_wins<T>(
    first: BucketModel<T>,
    key: Seq<u8>,
    slots1: Seq<T>,
    ref_count1: u64,
    second: BucketModel<T>,
    slots2: Seq<T>,
    ref_count2: u64,
    third: BucketModel<T>,
)
    requires
        first.inserts(key, slots1, ref_count1, second, Ok(())),
        second.inserts(key, slots2, ref_count2, third, Ok(())),
    ensures
        first.inserts(key, slots2, ref_count2, third, Ok(())),
{
    assert(third.contents() =~= first.contents().insert(key, (slots2, ref_count2)));
}

/// A deleted key is gone, every other key is what it was, and deleting again changes nothing.
pub proof fn law_delete_forgets<T>(before: BucketModel<T>, key: Seq<u8>)
    requires
        before.wf(),
    ensures
        !before.deleted(key).contents().contains_key(key),
        forall|other: Seq<u8>|
            other != key ==> (#[trigger] before.deleted(key).contents().contains_key(other)
                == before.contents().contains_key(other)) && (before.contents().contains_key(other)
                ==> before.deleted(key).contents()[other] == before.contents()[other]),
        before.deleted(key).deleted(key) == before.deleted(key),
{
    let after = before.deleted(key);
    before.lemma_deleted(key);
    after.lemma_find(key);
    assert(!after.contents().contains_key(key));
}

/// Deleting a key that was new when it was inserted brings the map back.
pub proof fn law_delete_undoes_insert<T>(
    before: BucketModel<T>,
    key: Seq<u8>,
    slots: Seq<T>,
    ref_count: u64,
    after: BucketModel<T>,
)
    requires
        !before.contents().contains_key(key),
        after.wf(),
        before.inserts(key, slots, ref_count, after, Ok(())),
    ensures
        after.deleted(key).contents() == before.contents(),
{
    after.lemma_deleted(key);
    assert(after.contents().remove(key) =~= before.contents());
}

/// Taking away a reference that was just added brings the bucket back, cell by cell.
pub proof fn law_unref_undoes_addref<T>(before: BucketModel<T>, key: Seq<u8>)
    requires
        before.wf(),
        before.contents().contains_key(key),
        before.contents()[key].1 < u64::MAX,
    ensures
        ({
            let count = before.contents()[key].1;
            let added = before.with_ref_count(before.position(key), (count + 1) as u64);
            &&& added.contents()[key].1 == count + 1
            &&& added.with_ref_count(added.position(key), (added.contents()[key].1 - 1) as u64)
                == before
        }),
{
    let i = before.position(key);
    let count = before.contents()[key].1;
    let added = before.with_ref_count(i, (count + 1) as u64);
    assert(before.holds(i, key));
    before.lemma_entry(i);
    before.lemma_contents_at(i);
    before.lemma_ref_count(i, (count + 1) as u64);
    assert(added.holds(i, key));
    added.lemma_position(i, key);
    let restored = added.with_ref_count(i, count);
    assert(restored.index.cells[i] =~= before.index.cells[i]);
    assert(restored.index.cells =~= before.index.cells);
    assert(restored =~= before);
}

/// A write that needs a data bucket that does not exist, or room in the index that it does not
/// have, leaves the bucket as it is, index included.
pub proof fn law_refused_write_leaves_bucket<T>(
    before: BucketModel<T>,
    key: Pubkey,
    items: Seq<T>,
    ref_count: u64,
    pos: int,
)
    requires
        before.wf(),
        before.data.len() <= data_bucket(items.len() as int) || (!before.contents().contains_key(
            key@,
        ) && before.room(key@) is None),
    ensures
        before.write(key, items, ref_count, pos).0 == before,
        before.write(key, items, ref_count, pos).1 is Err,
{
    before.lemma_find(key@);
}

/// Where a write finds no cell for the list, no other key is affected, and the key keeps the list
/// that it had.
pub proof fn law_failed_write_keeps_lists<T>(
    before: BucketModel<T>,
    key: Pubkey,
    items: Seq<T>,
    ref_count: u64,
    pos: int,
)
    requires
        before.wf(),
        items.len() <= u64::MAX,
        before.write(key, items, ref_count, pos).1 is Err,
    ensures
        ({
            let after = before.write(key, items, ref_count, pos).0;
            &&& forall|other: Seq<u8>|
                other != key@ ==> (#[trigger] after.contents().contains_key(other)
                    == before.contents().contains_key(other)) && (before.contents().contains_key(
                    other,
                ) ==> after.contents()[other] == before.contents()[other])
            &&& before.contents().contains_key(key@) ==> after.contents().contains_key(key@)
                && after.contents()[key@].0 == before.contents()[key@].0
            &&& !before.contents().contains_key(key@) && after.contents().contains_key(key@)
                ==> after.contents()[key@].0.len() == 0
        }),
{
    before.lemma_write(key, items, ref_count, pos);
}

/// A list that gives way to one of the same data bucket is overwritten where it is, whatever the
/// random number, and without fail.
pub proof fn law_same_bucket_never_fails<T>(
    before: BucketModel<T>,
    key: Pubkey,
    items: Seq<T>,
    ref_count: u64,
    pos: int,
)
    requires
        before.wf(),
        before.contents().contains_key(key@),
        before.contents()[key@].0.len() > 0,
        data_bucket(before.contents()[key@].0.len() as int) == data_bucket(items.len() as int),
    ensures
        before.write(key, items, ref_count, pos).1 is Ok,
        before.write(key, items, ref_count, pos) == before.write(key, items, ref_count, 0),
{
    before.lemma_find(key@);
    let i = before.position(key@);
    assert(before.holds(i, key@));
    before.lemma_entry(i);
    before.lemma_contents_at(i);
}

/// A data bucket that was made larger, or made at all, and put in place leaves the map what it was,
/// and no table smaller.
pub proof fn law_growing_data_keeps_map<T>(before: BucketModel<T>, bucket: u64, capacity_pow2: u8)
    requires
        before.wf(),
        before.reallocated.idle(),
        before.may_grow_data(bucket as int, capacity_pow2 as int),
    ensures
        ({
            let after = before.with_pending_data(bucket, capacity_pow2).settled();
            &&& after.wf()
            &&& after.reallocated.idle()
            &&& after.contents() == before.contents()
            &&& bucket < after.data.len()
            &&& after.data[bucket as int].capacity_pow2 == capacity_pow2
            &&& before.data.len() <= after.data.len()
            &&& forall|b: int|
                #![trigger after.data[b]]
                0 <= b < before.data.len() ==> before.data[b].capacity_pow2
                    <= after.data[b].capacity_pow2
        }),
{
    let pending = before.with_pending_data(bucket, capacity_pow2);
    BucketModel::lemma_same_tables(before, pending);
    assert(pending.larger_data(bucket as int, capacity_pow2) == before.larger_data(
        bucket as int,
        capacity_pow2,
    ));
    assert(pending.may_grow_data(bucket as int, capacity_pow2 as int));
    assert(pending.extends_data(bucket, before.larger_data(bucket as int, capacity_pow2)));
    pending.lemma_settled();
}

/// An index that was made larger and put in place leaves the map what it was.
pub proof fn law_growing_index_keeps_map<T>(
    before: BucketModel<T>,
    capacity_pow2: u8,
    random: u64,
    us: u64,
)
    requires
        before.wf(),
        before.reallocated.idle(),
        capacity_pow2 < usize::BITS,
        before.larger_index(capacity_pow2, random) is Some,
    ensures
        ({
            let after = before.with_pending_index(capacity_pow2, random, us).settled();
            &&& after.wf()
            &&& after.reallocated.idle()
            &&& after.contents() == before.contents()
            &&& after.index.capacity_pow2 == capacity_pow2
            &&& after.data == before.data
        }),
{
    let pending = before.with_pending_index(capacity_pow2, random, us);
    BucketModel::lemma_same_tables(before, pending);
    before.lemma_larger_index(capacity_pow2, random);
    assert(pending.larger_index(capacity_pow2, random) == before.larger_index(
        capacity_pow2,
        random,
    ));
    pending.lemma_settled();
}

/// What waits is put in place once: afterwards nothing waits, and doing it again changes nothing.
pub proof fn law_settled_once<T>(before: BucketModel<T>)
    ensures
        before.settled().settled() == before.settled(),
        before.reallocated.active == 1 ==> before.settled().reallocated.idle(),
{
}

/// A reallocation is taken once.
pub proof fn law_taken_once<T>(before: ReallocatedModel<T>)
    ensures
        before.taken().0 <==> before.active == 1,
        !before.taken().1.taken().0,
{
}

/// A list is kept in the data bucket with the smallest cells that have room for it.
pub proof fn law_best_fit<T>(bucket: BucketModel<T>, key: Seq<u8>)
    requires
        bucket.wf(),
        bucket.contents().contains_key(key),
    ensures
        ({
            let len = bucket.contents()[key].0.len();
            let b = data_bucket(len as int) as int;
            &&& b < bucket.data.len()
            &&& len <= bucket.data[b].num_elems
            &&& 0 < b ==> bucket.data[b - 1].num_elems < len
        }),
{
    let i = bucket.position(key);
    assert(bucket.holds(i, key));
    bucket.lemma_entry(i);
    bucket.lemma_contents_at(i);
    let b = bucket.entry(i).bucket();
    lemma_fits(bucket.entry(i).num_slots as int);
    assert(bucket.data[b].num_elems == pow2(b as nat));
    if 0 < b {
        assert(bucket.data[b - 1].num_elems == pow2((b - 1) as nat));
    }
}

/// Inserting a key counts it once: the number of keys goes up by one if the key is new, and stays
/// the same if not.
pub proof fn law_insert_counts_keys<T>(
    before: BucketModel<T>,
    key: Seq<u8>,
    slots: Seq<T>,
    ref_count: u64,
    after: BucketModel<T>,
)
    requires
        before.wf(),
        after.wf(),
        before.inserts(key, slots, ref_count, after, Ok(())),
    ensures
        after.index.used == before.index.used + if before.contents().contains_key(key) {
            0int
        } else {
            1
        },
{
    before.lemma_len();
    after.lemma_len();
    assert(after.contents().dom() =~= before.contents().dom().insert(key));
    if before.contents().contains_key(key) {
        assert(after.contents().dom() =~= before.contents().dom());
    }
}

/// Deleting a key that is there takes one off the number of keys.
pub proof fn law_delete_counts_keys<T>(before: BucketModel<T>, key: Seq<u8>)
    requires
        before.wf(),
    ensures
        before.deleted(key).index.used == before.index.used - if before.contents().contains_key(
            key,
        ) {
            1int
        } else {
            0
        },
{
    let after = before.deleted(key);
    before.lemma_deleted(key);
    before.lemma_len();
    after.lemma_len();
    assert(after.contents().dom() =~= before.contents().dom().remove(key));
    if !before.contents().contains_key(key) {
        assert(after.contents().dom() =~= before.contents().dom());
    }
}

/// Listing the items of all keys and listing the keys go through the keys in the same order.
pub proof fn law_items_follow_keys<T>(bucket: BucketModel<T>, n: int)
    requires
        0 <= n <= bucket.capacity(),
    ensures
        bucket.items_upto(n, None).map_values(|item: BucketItemModel<T>| item.pubkey)
            == bucket.keys_upto(n),
    decreases n,
{
    let pubkey = |item: BucketItemModel<T>| item.pubkey;
    if n > 0 {
        law_items_follow_keys(bucket, n - 1);
        let before = bucket.items_upto(n - 1, None);
        if bucket.locked(n - 1) {
            assert(before.push(bucket.item(n - 1)).map_values(pubkey) =~= before.map_values(
                pubkey,
            ).push(bucket.entry(n - 1).key));
        }
    } else {
        assert(bucket.items_upto(n, None).map_values(pubkey) =~= bucket.keys_upto(n));
    }
}

/// No cell of a data bucket is lost: where every locked cell holds the list of some entry, that
/// still holds after a delete, and after every write but one that puts an empty list in place of
/// a list of one slot.
pub proof fn law_no_cell_is_lost<T>(
    before: BucketModel<T>,
    key: Pubkey,
    items: Seq<T>,
    ref_count: u64,
    pos: int,
)
    requires
        before.wf(),
        before.no_leaks(),
        items.len() <= u64::MAX,
    ensures
        before.deleted(key@).no_leaks(),
        !before.drops_cell(key@, items.len()) ==> before.write(
            key,
            items,
            ref_count,
            pos,
        ).0.no_leaks(),
{
    before.lemma_deleted_owners(key@);
    if !before.drops_cell(key@, items.len()) {
        before.lemma_write_owners(key, items, ref_count, pos);
    }
}

/// The search for a key starts in a cell of the index, and which one it is depends on nothing but the
/// key, the random offset, the byte order and the number of cells.
pub proof fn law_search_starts_by_size(
    a: StorageModel<IndexEntry>,
    b: StorageModel<IndexEntry>,
    key: Seq<u8>,
    random: u64,
    order: ByteOrder,
)
    requires
        a.wf(),
        b.wf(),
        a.capacity_pow2 == b.capacity_pow2,
    ensures
        0 <= home(key, random, order, a.cells.len() as int) < a.cells.len(),
        home(key, random, order, a.cells.len() as int) == home(
            key,
            random,
            order,
            b.cells.len() as int,
        ),
{
    a.lemma_capacity();
    vstd::arithmetic::div_mod::lemma_mod_bound(
        home(key, random, order, a.cells.len() as int),
        a.cells.len() as int,
    );
}

/// With one random offset, the cell in which a search starts in a larger index gives the one in which
/// it starts in a smaller index as the remainder by the size of that.
pub proof fn law_search_start_of_smaller_index(
    small: StorageModel<IndexEntry>,
    big: StorageModel<IndexEntry>,
    key: Seq<u8>,
    random: u64,
    order: ByteOrder,
)
    requires
        small.wf(),
        big.wf(),
        small.capacity_pow2 <= big.capacity_pow2,
    ensures
        home(key, random, order, big.cells.len() as int) % (small.cells.len() as int) == home(
            key,
            random,
            order,
            small.cells.len() as int,
        ),
{
    let by = (big.capacity_pow2 - small.capacity_pow2) as nat;
    small.lemma_capacity();
    vstd::arithmetic::power2::lemma_pow2_pos(by);
    vstd::arithmetic::power2::lemma_pow2_adds(small.capacity_pow2 as nat, by);
    let writes = seq![order.bytes(key_uid(key)), order.bytes(random)];
    vstd::arithmetic::div_mod::lemma_mod_mod(
        hash_of(writes) as int,
        small.cells.len() as int,
        pow2(by) as int,
    );
}

/// An entry that is found and replaced by another changes its own cell only, and no owner of a cell;
/// another entry for the same key is found where the first was.
pub proof fn law_found_entry_stands_alone(
    index: StorageModel<IndexEntry>,
    random: u64,
    order: ByteOrder,
    key: Seq<u8>,
    entry: IndexEntry,
)
    requires
        index.wf(),
        find_in(index, random, order, key) is Some,
    ensures
        ({
            let i = find_in(index, random, order, key)->0;
            let after = index.put(i, seq![entry]);
            &&& 0 <= i < index.cells.len()
            &&& index.cells[i].locked() && index.cells[i].items[0].key@ == key
            &&& after.cells.len() == index.cells.len()
            &&& after.cells[i].items == seq![entry]
            &&& forall|j: int|
                #![trigger after.cells[j]]
                0 <= j < index.cells.len() ==> after.cells[j].uid == index.cells[j].uid && (j != i
                    ==> after.cells[j] == index.cells[j])
            &&& entry.key@ == key ==> find_in(after, random, order, key) == Some(i)
        }),
{
    let i = find_in(index, random, order, key)->0;
    let after = index.put(i, seq![entry]);
    let start = home(key, random, order, index.cells.len() as int);
    let steps = index.max_search as int;
    index.lemma_capacity();
    lemma_probe_found(index.cells.len() as int, start, steps, holding(index.cells, key));
    if entry.key@ == key {
        lemma_probe_same(
            index.cells.len() as int,
            start,
            steps,
            holding(after.cells, key),
            holding(index.cells, key),
        );
    }
}

/// An index with fewer entries than cells, and than cells that are searched, has room for any key.
pub proof fn law_few_keys_have_room<T>(bucket: BucketModel<T>, key: Seq<u8>)
    requires
        bucket.wf(),
        bucket.contents().dom().len() < bucket.index.max_search,
        bucket.contents().dom().len() < bucket.capacity(),
    ensures
        bucket.room(key) is Some,
{
    bucket.lemma_len();
    bucket.lemma_room_left(key);
}

/// A list for a key that is there or has room finds room where it is put, without any table being
/// made larger, if its data bucket has fewer lists than cells, and than cells that are searched.
pub proof fn law_few_lists_have_room<T>(
    bucket: BucketModel<T>,
    key: Pubkey,
    items: Seq<T>,
    ref_count: u64,
)
    requires
        bucket.wf(),
        bucket.has_place(key@),
        data_bucket(items.len() as int) < bucket.data.len(),
        ({
            let storage = bucket.data[data_bucket(items.len() as int) as int];
            storage.used < bucket.index.max_search && storage.used < storage.cells.len()
        }),
    ensures
        bucket.always_fits(key, items, ref_count),
{
    let b = data_bucket(items.len() as int) as int;
    bucket.lemma_find(key@);
    bucket.lemma_entered(key, ref_count);
    assert forall|pos: int| bucket.starts(items.len(), pos) implies (#[trigger] bucket.write(
        key,
        items,
        ref_count,
        pos,
    )).1 is Ok by {
        assert(bucket.data[b].wf());
        bucket.lemma_data_room_left(b, pos);
        let (ready, i) = bucket.entered(key, ref_count)->0;
        assert(ready.data_room(b, pos) == bucket.data_room(b, pos));
    }
}

/// Where the entry of one key is replaced by another for that key, the keys keep their order.
pub proof fn law_rewritten_key_keeps_order<T>(
    before: BucketModel<T>,
    i: int,
    after: BucketModel<T>,
    n: int,
)
    requires
        0 <= i < before.capacity(),
        after.index == before.index.put(i, seq![after.entry(i)]),
        after.entry(i).key == before.entry(i).key,
        0 <= n <= before.capacity(),
    ensures
        after.keys_upto(n) == before.keys_upto(n),
    decreases n,
{
    if n > 0 {
        law_rewritten_key_keeps_order(before, i, after, n - 1);
    }
}

/// Writing for a key what is kept for it changes neither the map nor the number of keys nor the
/// order in which they are listed, whether or not there is room for the write.
pub proof fn law_same_value_changes_nothing<T>(
    before: BucketModel<T>,
    key: Pubkey,
    after: BucketModel<T>,
    result: Result<(), BucketMapError>,
)
    requires
        before.wf(),
        before.contents().contains_key(key@),
        before.insert_outcome(
            key,
            before.contents()[key@].0,
            before.contents()[key@].1,
            after,
            result,
        ),
    ensures
        after.contents() == before.contents(),
        after.index.used == before.index.used,
        after.capacity() == before.capacity(),
        after.keys_upto(after.capacity()) == before.keys_upto(before.capacity()),
{
    let value = before.contents()[key@];
    before.lemma_find(key@);
    assert(before.contents().insert(key@, value) =~= before.contents());
    law_rewritten_key_keeps_order(before, before.find(key@)->0, after, before.capacity());
}

/// Counters that are started over and added to totals later come to what they would have been, had
/// the totals been counted in.
pub proof fn law_merged_counters(total: BucketStats, part: BucketStats, size: u64, us: u64)
    ensures
        total.merged(part.with_size(size)) == total.merged(part).with_size(size),
        total.merged(part.with_resize(us)) == total.merged(part).with_resize(us),
        total.merged(BucketStats { resizes: 0, max_size: 0, resize_us: 0 }) == total,
{
}

/// Making the larger table that an error calls for leaves the tables that are in place as they are,
/// and with them the map, the number of keys and their order. Only what waits and the counters
/// change.
pub proof fn law_making_a_table_leaves_the_others<T>(
    before: BucketModel<T>,
    err: BucketMapError,
    after: BucketModel<T>,
    result: Result<(), BucketMapError>,
    n: int,
)
    requires
        before.wf(),
        before.grows(err, after, result),
    ensures
        after == (BucketModel {
            stats: after.stats,
            reallocated: after.reallocated,
            ..before
        }),
        after.wf(),
        after.contents() == before.contents(),
        after.keys_upto(n) == before.keys_upto(n),
    decreases n,
{
    BucketModel::lemma_same_tables(before, after);
    if n > 0 {
        law_making_a_table_leaves_the_others(before, err, after, result, n - 1);
    }
}

/// After a write that found no room, making the table larger that had none and putting it in place
/// keep the map as the write left it, and with it the number of keys and which ones are listed.
pub proof fn law_growing_after_a_failed_write_keeps_map<T>(
    before: BucketModel<T>,
    key: Pubkey,
    items: Seq<T>,
    ref_count: u64,
    pos: int,
    err: BucketMapError,
    grown: BucketModel<T>,
    result: Result<(), BucketMapError>,
)
    requires
        before.wf(),
        before.reallocated.idle(),
        items.len() <= u64::MAX,
        before.starts(items.len(), pos),
        before.write(key, items, ref_count, pos).1 == Err::<(), BucketMapError>(err),
        growable(err),
        before.write(key, items, ref_count, pos).0.grows(err, grown, result),
    ensures
        ({
            let failed = before.write(key, items, ref_count, pos).0;
            let after = grown.settled();
            &&& after.wf()
            &&& after.reallocated.idle()
            &&& after.contents() == failed.contents()
            &&& after.index.used == failed.index.used
            &&& after.keys_upto(after.capacity()).map_values(|key: Pubkey| key@).to_multiset()
                == failed.keys_upto(failed.capacity()).map_values(
                |key: Pubkey| key@,
            ).to_multiset()
        }),
{
    let failed = before.write(key, items, ref_count, pos).0;
    let after = grown.settled();
    before.lemma_write(key, items, ref_count, pos);
    lemma_bucket_bound(items.len() as int);
    BucketModel::lemma_same_tables(failed, grown);
    match err {
        BucketMapError::DataNoSpace((bucket, capacity_pow2)) => {
            let wider = (capacity_pow2 + 1) as u8;
            assert(failed.may_grow_data(bucket as int, wider as int));
            assert(grown.larger_data(bucket as int, wider) == failed.larger_data(
                bucket as int,
                wider,
            ));
            assert(grown.may_grow_data(bucket as int, wider as int));
            assert(grown.extends_data(bucket, failed.larger_data(bucket as int, wider)));
        },
        BucketMapError::IndexNoSpace(_) => {
            if result is Ok {
                let (capacity_pow2, random, us) = choose|capacity_pow2: u8, random: u64, us: u64|
                    {
                        &&& failed.takes_index(capacity_pow2, random)
                        &&& grown == #[trigger] failed.with_pending_index(
                            capacity_pow2,
                            random,
                            us,
                        )
                    };
                assert(grown.larger_index(capacity_pow2, random) == failed.larger_index(
                    capacity_pow2,
                    random,
                ));
            }
        },
    }
    grown.lemma_settled();
    failed.lemma_len();
    after.lemma_len();
    failed.lemma_keys();
    after.lemma_keys();
    let old_keys = failed.keys_upto(failed.capacity()).map_values(|key: Pubkey| key@);
    let new_keys = after.keys_upto(after.capacity()).map_values(|key: Pubkey| key@);
    old_keys.lemma_multiset_has_no_duplicates();
    new_keys.lemma_multiset_has_no_duplicates();
    old_keys.to_multiset_ensures();
    new_keys.to_multiset_ensures();
    assert forall|k: Seq<u8>| old_keys.contains(k) == new_keys.contains(k) by {
        assert(old_keys.to_set().contains(k) == new_keys.to_set().contains(k));
    }
    assert(new_keys.to_multiset() =~= old_keys.to_multiset());
}

} // verus!
