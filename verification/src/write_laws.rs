//! What a bucket is and what operations on keys do to it, cell by cell.
use crate::bucket_error::BucketMapError;
use crate::bucket_growth::lemma_bucket_bound;
use crate::bucket_model::{slots_of, stored, BucketModel, ReallocatedModel};
use crate::bucket_storage::{CellModel, StorageModel};
use crate::index_entry::{data_bucket, home, key_uid, IndexEntry};
use crate::probe::{lemma_visited_near, visited};
use crate::pubkey::{KeyRange, Pubkey};
use crate::search_laws::{law_list_gets_nearest_cell, law_new_key_gets_nearest_cell};
use vstd::arithmetic::power2::pow2;
use vstd::prelude::*;

verus! {

/// A bucket is sound where its tables are; where each locked cell of the index has one entry, is
/// owned by its key, is searched for it, and is the only one for it; where data bucket `b` has cells
/// for `2^b` slots; and where each entry with slots has a cell of its own, of the right data bucket
/// and with as many slots in it, that has the same owner.
pub proof fn law_sound_bucket<T>(model: BucketModel<T>)
    ensures
        model.wf() <==> {
            let cells = model.index.cells;
            let len = cells.len() as int;
            &&& model.index.drives == model.drives
            &&& model.index.wf()
            &&& model.data.len() <= 64
            &&& forall|b: int|
                #![trigger model.data[b]]
                0 <= b < model.data.len() ==> model.data[b].wf() && model.data[b].num_elems == pow2(
                    b as nat,
                )
            &&& forall|i: int|
                #![trigger cells[i]]
                0 <= i < len && cells[i].uid != 0 ==> {
                    let entry = cells[i].items[0];
                    let b = data_bucket(entry.num_slots as int) as int;
                    let storage = model.data[b];
                    let created = entry.storage_capacity_when_created_pow2;
                    &&& cells[i].items.len() == 1
                    &&& cells[i].uid == key_uid(entry.key@)
                    &&& (i - home(entry.key@, model.random, model.order, len)) % len
                        < model.index.max_search
                    &&& b < model.data.len()
                    &&& created <= storage.capacity_pow2
                    &&& entry.storage_offset < pow2(created as nat)
                    &&& entry.num_slots > 0 ==> {
                        let at = entry.storage_offset * pow2(
                            (storage.capacity_pow2 - created) as nat,
                        );
                        &&& storage.cells[at].uid == cells[i].uid
                        &&& storage.cells[at].items.len() == entry.num_slots
                    }
                }
            &&& forall|i: int, j: int|
                #![trigger cells[i], cells[j]]
                0 <= i < len && 0 <= j < len && i != j && cells[i].uid != 0 && cells[j].uid != 0
                    ==> {
                    let (a, b) = (cells[i].items[0], cells[j].items[0]);
                    let bucket = data_bucket(a.num_slots as int) as int;
                    let size = model.data[bucket].capacity_pow2;
                    &&& a.key@ != b.key@
                    &&& a.num_slots > 0 && b.num_slots > 0 && bucket == data_bucket(
                        b.num_slots as int,
                    ) ==> a.storage_offset * pow2(
                        (size - a.storage_capacity_when_created_pow2) as nat,
                    ) != b.storage_offset * pow2(
                        (size - b.storage_capacity_when_created_pow2) as nat,
                    )
                }
        },
{
    let cells = model.index.cells;
    let len = cells.len() as int;
    assert forall|i: int| #![trigger cells[i]] 0 <= i < len implies visited(
        len,
        home(cells[i].items[0].key@, model.random, model.order, len),
        model.index.max_search as int,
        i,
    ) == ((i - home(cells[i].items[0].key@, model.random, model.order, len)) % len
        < model.index.max_search) by {
        lemma_visited_near(
            len,
            home(cells[i].items[0].key@, model.random, model.order, len),
            model.index.max_search as int,
            i,
        );
    }
}

/// The cells of a bucket's index are those of that table: how many there are, which are locked, and
/// what entry each has.
pub proof fn law_cells_of_the_index<T>(model: BucketModel<T>, i: int, key: Seq<u8>)
    ensures
        model.capacity() == model.index.cells.len(),
        model.locked(i) <==> model.index.cells[i].uid != 0,
        model.entry(i) == model.index.cells[i].items[0],
        model.holds(i, key) <==> 0 <= i < model.index.cells.len() && model.index.cells[i].uid != 0
            && model.index.cells[i].items[0].key@ == key,
{
}

/// The list of an entry is in the cell that it names, or is empty where it has no slots. It is there
/// where that cell is one of the right data bucket, and, if there are slots, has the owner and as
/// many slots.
pub proof fn law_list_of_an_entry<T>(data: Seq<StorageModel<T>>, entry: IndexEntry, uid: u64)
    ensures
        ({
            let bucket = data_bucket(entry.num_slots as int) as int;
            let storage = data[bucket];
            let created = entry.storage_capacity_when_created_pow2;
            let at = entry.storage_offset * pow2((storage.capacity_pow2 - created) as nat);
            &&& entry.num_slots == 0 ==> slots_of(data, entry) == Seq::<T>::empty()
            &&& entry.num_slots > 0 ==> slots_of(data, entry) == storage.cells[at].items
            &&& stored(data, entry, uid) <==> {
                &&& bucket < data.len()
                &&& created <= storage.capacity_pow2
                &&& entry.storage_offset < pow2(created as nat)
                &&& entry.num_slots > 0 ==> storage.cells[at].uid == uid
                    && storage.cells[at].items.len() == entry.num_slots
            }
        }),
{
}

/// The map has the keys that have an entry, and each with the list that is in the cell that the
/// entry names, or with an empty one, and with the entry's number of references.
pub proof fn law_map_is_in_the_tables<T>(model: BucketModel<T>, key: Seq<u8>)
    requires
        model.wf(),
    ensures
        ({
            let cells = model.index.cells;
            &&& model.contents().contains_key(key) <==> exists|i: int|
                #![trigger cells[i]]
                0 <= i < cells.len() && cells[i].uid != 0 && cells[i].items[0].key@ == key
            &&& forall|i: int|
                #![trigger cells[i]]
                0 <= i < cells.len() && cells[i].uid != 0 && cells[i].items[0].key@ == key ==> {
                    let entry = cells[i].items[0];
                    let storage = model.data[data_bucket(entry.num_slots as int) as int];
                    let at = entry.storage_offset * pow2(
                        (storage.capacity_pow2 - entry.storage_capacity_when_created_pow2) as nat,
                    );
                    &&& model.contents()[key].1 == entry.ref_count
                    &&& entry.num_slots == 0 ==> model.contents()[key].0 == Seq::<T>::empty()
                    &&& entry.num_slots > 0 ==> model.contents()[key].0 == storage.cells[at].items
                }
        }),
{
    let cells = model.index.cells;
    if model.contents().contains_key(key) {
        let i = model.position(key);
        assert(model.holds(i, key));
        assert(cells[i].uid != 0);
    }
    assert forall|i: int|
        #![trigger cells[i]]
        0 <= i < cells.len() && cells[i].uid != 0 && cells[i].items[0].key@ == key implies {
        let entry = cells[i].items[0];
        let storage = model.data[data_bucket(entry.num_slots as int) as int];
        let at = entry.storage_offset * pow2(
            (storage.capacity_pow2 - entry.storage_capacity_when_created_pow2) as nat,
        );
        &&& model.contents().contains_key(key)
        &&& model.contents()[key].1 == entry.ref_count
        &&& entry.num_slots == 0 ==> model.contents()[key].0 == Seq::<T>::empty()
        &&& entry.num_slots > 0 ==> model.contents()[key].0 == storage.cells[at].items
    } by {
        model.lemma_contents_at(i);
    }
}

/// What a write comes to. It fails for want of the data bucket for its list; else for want of a free
/// cell in the index, if the key is new and all cells that are searched are locked; else for want of
/// a free cell in the data bucket, if the list cannot go where the old one is and all cells that are
/// searched from the position on are locked; and for nothing else.
pub proof fn law_write_fails_only_without_room<T>(
    before: BucketModel<T>,
    key: Pubkey,
    items: Seq<T>,
    ref_count: u64,
    pos: int,
)
    requires
        before.wf(),
        items.len() <= u64::MAX,
    ensures
        ({
            let bucket = data_bucket(items.len() as int) as int;
            let map = before.contents();
            let cells = before.index.cells;
            let len = cells.len() as int;
            let start = home(key@, before.random, before.order, len);
            let known = map.contains_key(key@);
            let index_full = forall|j: int|
                #![trigger cells[j]]
                0 <= j < len && (j - start) % len < before.index.max_search ==> cells[j].uid != 0;
            let in_place = known && map[key@].0.len() > 0 && data_bucket(
                map[key@].0.len() as int,
            ) == bucket;
            let list_cells = before.data[bucket].cells;
            let list_len = list_cells.len() as int;
            let data_full = forall|j: int|
                #![trigger list_cells[j]]
                0 <= j < list_len && (j - pos) % list_len < before.index.max_search
                    ==> list_cells[j].uid != 0;
            let (after, result) = before.write(key, items, ref_count, pos);
            match result {
                Ok(()) => {
                    &&& bucket < before.data.len()
                    &&& known || !index_full
                    &&& in_place || !data_full
                    &&& after.contents() == map.insert(key@, (items, ref_count))
                },
                Err(BucketMapError::IndexNoSpace(capacity_pow2)) => {
                    &&& bucket < before.data.len()
                    &&& !known && index_full
                    &&& capacity_pow2 == before.index.capacity_pow2
                    &&& after == before
                },
                Err(BucketMapError::DataNoSpace((b, capacity_pow2))) => {
                    &&& b == bucket
                    &&& before.data.len() <= bucket ==> capacity_pow2 == 0 && after == before
                    &&& bucket < before.data.len() ==> {
                        &&& known || !index_full
                        &&& !in_place && data_full
                        &&& capacity_pow2 == before.data[bucket].capacity_pow2
                        &&& after.data == before.data
                        &&& after.contents() == map.insert(
                            key@,
                            (
                                if known {
                                    map[key@].0
                                } else {
                                    Seq::<T>::empty()
                                },
                                ref_count,
                            ),
                        )
                    }
                },
            }
        }),
{
    let bucket = data_bucket(items.len() as int) as int;
    lemma_bucket_bound(items.len() as int);
    before.index.lemma_capacity();
    before.lemma_find(key@);
    before.lemma_write(key, items, ref_count, pos);
    law_new_key_gets_nearest_cell(before.index, before.random, before.order, key@);
    if bucket < before.data.len() {
        assert(before.data[bucket].wf());
        before.data[bucket].lemma_capacity();
        law_list_gets_nearest_cell(before, bucket, pos);
        before.lemma_entered(key, ref_count);
        if before.entered(key, ref_count) is Some {
            let (ready, i) = before.entered(key, ref_count)->0;
            assert(ready.data_room(bucket, pos) == before.data_room(bucket, pos));
            if before.find(key@) is Some {
                before.lemma_entry(i);
                before.lemma_contents_at(i);
            }
        }
    }
}

/// A list that goes where the old one is changes the cell of that and the entry of the key: the
/// number of slots and the number of references.
pub proof fn law_list_is_overwritten_in_its_cell<T>(
    before: BucketModel<T>,
    key: Pubkey,
    items: Seq<T>,
    ref_count: u64,
    pos: int,
    i: int,
)
    requires
        before.wf(),
        items.len() <= u64::MAX,
        0 <= i < before.index.cells.len(),
        before.index.cells[i].uid != 0,
        before.index.cells[i].items[0].key@ == key@,
        before.index.cells[i].items[0].num_slots > 0,
        data_bucket(before.index.cells[i].items[0].num_slots as int) == data_bucket(
            items.len() as int,
        ),
    ensures
        ({
            let bucket = data_bucket(items.len() as int) as int;
            let entry = before.index.cells[i].items[0];
            let storage = before.data[bucket];
            let at = entry.storage_offset * pow2(
                (storage.capacity_pow2 - entry.storage_capacity_when_created_pow2) as nat,
            );
            let (after, result) = before.write(key, items, ref_count, pos);
            &&& result is Ok
            &&& after == (BucketModel {
                index: StorageModel {
                    cells: before.index.cells.update(
                        i,
                        CellModel {
                            uid: before.index.cells[i].uid,
                            items: seq![
                                IndexEntry {
                                    ref_count,
                                    num_slots: items.len() as u64,
                                    ..entry
                                },
                            ],
                        },
                    ),
                    ..before.index
                },
                data: before.data.update(
                    bucket,
                    StorageModel {
                        cells: storage.cells.update(
                            at,
                            CellModel { uid: storage.cells[at].uid, items },
                        ),
                        ..storage
                    },
                ),
                ..before
            })
        }),
{
    before.lemma_find(key@);
    before.lemma_position(i, key@);
    before.lemma_entry(i);
    let (after, result) = before.write(key, items, ref_count, pos);
    let bucket = data_bucket(items.len() as int) as int;
    let entry = before.index.cells[i].items[0];
    assert(after.index.cells =~= before.index.cells.update(
        i,
        CellModel {
            uid: before.index.cells[i].uid,
            items: seq![IndexEntry { ref_count, num_slots: items.len() as u64, ..entry }],
        },
    ));
}

/// The list of a key that cannot go where the old one is goes to the nearest free cell from the
/// position on, which gets the owner of the key; the cell of the old list, if it had one, becomes
/// free; the entry says where the list is now. An empty list takes no cell. Nothing else changes.
pub proof fn law_list_is_moved_to_nearest_cell<T>(
    before: BucketModel<T>,
    key: Pubkey,
    items: Seq<T>,
    ref_count: u64,
    pos: int,
    i: int,
    ix: int,
)
    requires
        before.wf(),
        items.len() <= u64::MAX,
        0 <= i < before.index.cells.len(),
        before.index.cells[i].uid != 0,
        before.index.cells[i].items[0].key@ == key@,
        before.index.cells[i].items[0].num_slots == 0 || data_bucket(
            before.index.cells[i].items[0].num_slots as int,
        ) != data_bucket(items.len() as int),
        data_bucket(items.len() as int) < before.data.len(),
        ({
            let cells = before.data[data_bucket(items.len() as int) as int].cells;
            let len = cells.len() as int;
            &&& 0 <= ix < len
            &&& cells[ix].uid == 0
            &&& (ix - pos) % len < before.index.max_search
            &&& forall|j: int|
                #![trigger cells[j]]
                0 <= j < len && (j - pos) % len < (ix - pos) % len ==> cells[j].uid != 0
        }),
    ensures
        ({
            let bucket = data_bucket(items.len() as int) as int;
            let entry = before.index.cells[i].items[0];
            let uid = before.index.cells[i].uid;
            let from = data_bucket(entry.num_slots as int) as int;
            let left = before.data[from];
            let at = entry.storage_offset * pow2(
                (left.capacity_pow2 - entry.storage_capacity_when_created_pow2) as nat,
            );
            let storage = before.data[bucket];
            let freed = if entry.num_slots == 0 {
                before.data
            } else {
                before.data.update(
                    from,
                    StorageModel {
                        used: (left.used - 1) as u64,
                        cells: left.cells.update(
                            at,
                            CellModel { uid: 0, items: left.cells[at].items },
                        ),
                        ..left
                    },
                )
            };
            let (after, result) = before.write(key, items, ref_count, pos);
            &&& result is Ok
            &&& after == (BucketModel {
                index: StorageModel {
                    cells: before.index.cells.update(
                        i,
                        CellModel {
                            uid,
                            items: seq![
                                IndexEntry {
                                    key: entry.key,
                                    ref_count,
                                    storage_offset: ix as u64,
                                    storage_capacity_when_created_pow2: storage.capacity_pow2,
                                    num_slots: items.len() as u64,
                                },
                            ],
                        },
                    ),
                    ..before.index
                },
                data: if items.len() == 0 {
                    freed
                } else {
                    freed.update(
                        bucket,
                        StorageModel {
                            used: (storage.used + 1) as u64,
                            cells: storage.cells.update(ix, CellModel { uid, items }),
                            ..storage
                        },
                    )
                },
                ..before
            })
        }),
{
    let bucket = data_bucket(items.len() as int) as int;
    before.lemma_find(key@);
    before.lemma_position(i, key@);
    before.lemma_entry(i);
    assert(before.data[bucket].wf());
    before.data[bucket].lemma_capacity();
    law_list_gets_nearest_cell(before, bucket, pos);
    let (ready, _) = before.entered(key, ref_count)->0;
    assert(ready.data_room(bucket, pos) == before.data_room(bucket, pos));
    let len = before.data[bucket].cells.len() as int;
    lemma_nearest_is_one(before.data[bucket].cells, pos, ix, before.data_room(bucket, pos)->0);
    let (after, result) = before.write(key, items, ref_count, pos);
    let entry = before.index.cells[i].items[0];
    let uid = before.index.cells[i].uid;
    assert(after.index.cells =~= before.index.cells.update(
        i,
        CellModel {
            uid,
            items: seq![
                IndexEntry {
                    key: entry.key,
                    ref_count,
                    storage_offset: ix as u64,
                    storage_capacity_when_created_pow2: before.data[bucket].capacity_pow2,
                    num_slots: items.len() as u64,
                },
            ],
        },
    ));
    if items.len() > 0 {
        let storage = before.data[bucket];
        assert(storage.allocate(ix, uid).put(ix, items).cells =~= storage.cells.update(
            ix,
            CellModel { uid, items },
        ));
    }
}

/// There is one nearest free cell.
proof fn lemma_nearest_is_one<E>(cells: Seq<CellModel<E>>, start: int, a: int, b: int)
    requires
        0 <= a < cells.len(),
        0 <= b < cells.len(),
        cells[a].uid == 0,
        cells[b].uid == 0,
        forall|j: int|
            #![trigger cells[j]]
            0 <= j < cells.len() && (j - start) % (cells.len() as int) < (a - start) % (
            cells.len() as int) ==> cells[j].uid != 0,
        forall|j: int|
            #![trigger cells[j]]
            0 <= j < cells.len() && (j - start) % (cells.len() as int) < (b - start) % (
            cells.len() as int) ==> cells[j].uid != 0,
    ensures
        a == b,
{
    let len = cells.len() as int;
    assert((a - start) % len == (b - start) % len);
    vstd::arithmetic::div_mod::lemma_fundamental_div_mod(a - start, len);
    vstd::arithmetic::div_mod::lemma_fundamental_div_mod(b - start, len);
    let p = (a - start) / len;
    let q = (b - start) / len;
    assert(p == q) by (nonlinear_arith)
        requires
            a - b == len * p - len * q,
            -len < a - b < len,
            0 < len,
    ;
}

/// A write for a new key first gives it the nearest free cell of the index, with an entry that has
/// an empty list, and then goes on as a write for a key that is there.
pub proof fn law_new_key_is_entered_first<T>(
    before: BucketModel<T>,
    key: Pubkey,
    items: Seq<T>,
    ref_count: u64,
    pos: int,
    i: int,
)
    requires
        before.wf(),
        items.len() <= u64::MAX,
        !before.contents().contains_key(key@),
        data_bucket(items.len() as int) < before.data.len(),
        ({
            let cells = before.index.cells;
            let len = cells.len() as int;
            let start = home(key@, before.random, before.order, len);
            &&& 0 <= i < len
            &&& cells[i].uid == 0
            &&& (i - start) % len < before.index.max_search
            &&& forall|j: int|
                #![trigger cells[j]]
                0 <= j < len && (j - start) % len < (i - start) % len ==> cells[j].uid != 0
        }),
    ensures
        ({
            let entered = BucketModel {
                index: StorageModel {
                    used: (before.index.used + 1) as u64,
                    cells: before.index.cells.update(
                        i,
                        CellModel {
                            uid: key_uid(key@),
                            items: seq![
                                IndexEntry {
                                    key,
                                    ref_count,
                                    storage_offset: 0,
                                    storage_capacity_when_created_pow2: 0,
                                    num_slots: 0,
                                },
                            ],
                        },
                    ),
                    ..before.index
                },
                ..before
            };
            &&& entered.wf()
            &&& before.write(key, items, ref_count, pos) == entered.write(
                key,
                items,
                ref_count,
                pos,
            )
            &&& before.write(key, items, ref_count, pos).1 is Err ==> before.write(
                key,
                items,
                ref_count,
                pos,
            ).0 == entered
        }),
{
    before.index.lemma_capacity();
    before.lemma_find(key@);
    law_new_key_gets_nearest_cell(before.index, before.random, before.order, key@);
    lemma_nearest_is_one(
        before.index.cells,
        home(key@, before.random, before.order, before.index.cells.len() as int),
        i,
        before.room(key@)->0,
    );
    let ready = before.with_new_entry(i, key, ref_count);
    before.lemma_entered(key, ref_count);
    let entry = IndexEntry {
        key,
        ref_count,
        storage_offset: 0,
        storage_capacity_when_created_pow2: 0,
        num_slots: 0,
    };
    let entered = BucketModel {
        index: StorageModel {
            used: (before.index.used + 1) as u64,
            cells: before.index.cells.update(
                i,
                CellModel { uid: key_uid(key@), items: seq![entry] },
            ),
            ..before.index
        },
        ..before
    };
    assert(entered.index.cells =~= ready.index.cells);
    assert(entered == ready);
    ready.lemma_position(i, key@);
    ready.lemma_find(key@);
    assert(ready.with_ref_count(i, ref_count).index.cells =~~= ready.index.cells);
    assert(ready.entered(key, ref_count) == Some((ready, i)));
}

/// Deleting a key unlocks the cell of its entry and, if its list has slots, the cell of that. What
/// was written to them stays, and nothing else changes. Deleting a key that is not there changes
/// nothing.
pub proof fn law_delete_unlocks_two_cells<T>(before: BucketModel<T>, key: Seq<u8>, i: int)
    requires
        before.wf(),
    ensures
        !before.contents().contains_key(key) ==> before.deleted(key) == before,
        0 <= i < before.index.cells.len() && before.index.cells[i].uid != 0
            && before.index.cells[i].items[0].key@ == key ==> {
            let entry = before.index.cells[i].items[0];
            let from = data_bucket(entry.num_slots as int) as int;
            let left = before.data[from];
            let at = entry.storage_offset * pow2(
                (left.capacity_pow2 - entry.storage_capacity_when_created_pow2) as nat,
            );
            before.deleted(key) == (BucketModel {
                index: StorageModel {
                    used: (before.index.used - 1) as u64,
                    cells: before.index.cells.update(
                        i,
                        CellModel { uid: 0, items: before.index.cells[i].items },
                    ),
                    ..before.index
                },
                data: if entry.num_slots == 0 {
                    before.data
                } else {
                    before.data.update(
                        from,
                        StorageModel {
                            used: (left.used - 1) as u64,
                            cells: left.cells.update(
                                at,
                                CellModel { uid: 0, items: left.cells[at].items },
                            ),
                            ..left
                        },
                    )
                },
                ..before
            })
        },
{
    before.lemma_find(key);
    if 0 <= i < before.index.cells.len() && before.index.cells[i].uid != 0
        && before.index.cells[i].items[0].key@ == key {
        before.lemma_position(i, key);
    }
}

/// Another number of references changes the entry of the key, and nothing else in any table.
pub proof fn law_references_change_one_number<T>(
    before: BucketModel<T>,
    key: Seq<u8>,
    ref_count: u64,
)
    requires
        before.wf(),
        before.contents().contains_key(key),
    ensures
        ({
            let i = before.position(key);
            let cell = before.index.cells[i];
            &&& 0 <= i < before.index.cells.len()
            &&& cell.uid != 0
            &&& cell.items[0].key@ == key
            &&& before.with_ref_count(i, ref_count) == (BucketModel {
                index: StorageModel {
                    cells: before.index.cells.update(
                        i,
                        CellModel {
                            uid: cell.uid,
                            items: seq![IndexEntry { ref_count, ..cell.items[0] }],
                        },
                    ),
                    ..before.index
                },
                ..before
            })
        }),
{
    assert(before.holds(before.position(key), key));
}

/// A write may start its search of a data bucket in any of its cells, and in no other.
pub proof fn law_search_starts_in_a_cell<T>(model: BucketModel<T>, len: nat, pos: int)
    ensures
        model.starts(len, pos) <==> (data_bucket(len as int) < model.data.len() ==> 0 <= pos
            < model.data[data_bucket(len as int) as int].cells.len()),
{
}

/// A list goes where the old one is if that has slots and both belong in one data bucket.
pub proof fn law_same_data_bucket_is_in_place<T>(model: BucketModel<T>, i: int, len: nat)
    ensures
        model.fits_in_place(i, len) <==> model.index.cells[i].items[0].num_slots > 0
            && data_bucket(model.index.cells[i].items[0].num_slots as int) == data_bucket(
            len as int,
        ),
{
}

/// Only an empty list that takes the place of one slot leaves a locked cell behind.
pub proof fn law_one_slot_that_is_emptied<T>(model: BucketModel<T>, key: Seq<u8>, len: nat)
    ensures
        model.drops_cell(key, len) <==> len == 0 && model.contents().contains_key(key)
            && model.contents()[key].0.len() == 1,
{
}

/// No cell is lost where each locked cell of a data bucket is the one that some entry names.
pub proof fn law_no_cell_without_entry<T>(model: BucketModel<T>)
    requires
        model.no_leaks(),
    ensures
        forall|b: int, c: int|
            #![trigger model.data[b].cells[c]]
            0 <= b < model.data.len() && 0 <= c < model.data[b].cells.len()
                && model.data[b].cells[c].uid != 0 ==> exists|i: int|
                #![trigger model.index.cells[i]]
                {
                    let entry = model.index.cells[i].items[0];
                    &&& 0 <= i < model.index.cells.len()
                    &&& model.index.cells[i].uid != 0
                    &&& entry.num_slots > 0
                    &&& data_bucket(entry.num_slots as int) == b
                    &&& entry.storage_offset * pow2(
                        (model.data[b].capacity_pow2 - entry.storage_capacity_when_created_pow2)
                            as nat,
                    ) == c
                },
{
    assert forall|b: int, c: int|
        #![trigger model.data[b].cells[c]]
        0 <= b < model.data.len() && 0 <= c < model.data[b].cells.len()
            && model.data[b].cells[c].uid != 0 implies exists|i: int|
        #![trigger model.index.cells[i]]
        {
            let entry = model.index.cells[i].items[0];
            &&& 0 <= i < model.index.cells.len()
            &&& model.index.cells[i].uid != 0
            &&& entry.num_slots > 0
            &&& data_bucket(entry.num_slots as int) == b
            &&& entry.storage_offset * pow2(
                (model.data[b].capacity_pow2 - entry.storage_capacity_when_created_pow2) as nat,
            ) == c
        } by {
        assert(model.owned(b, c));
        let i = choose|i: int| model.owns(i, b, c);
        assert(model.index.cells[i].uid != 0);
    }
}

/// Keys are listed cell by cell, from the first cell on.
pub proof fn law_keys_are_listed_by_cell<T>(model: BucketModel<T>, n: int)
    requires
        0 <= n < model.index.cells.len(),
    ensures
        model.keys_upto(0) == Seq::<Pubkey>::empty(),
        model.index.cells[n].uid == 0 ==> model.keys_upto(n + 1) == model.keys_upto(n),
        model.index.cells[n].uid != 0 ==> model.keys_upto(n + 1) == model.keys_upto(n).push(
            model.index.cells[n].items[0].key,
        ),
{
}

/// Items are listed cell by cell, from the first cell on, if their keys are in the range.
pub proof fn law_items_are_listed_by_cell<T>(
    model: BucketModel<T>,
    n: int,
    range: Option<KeyRange>,
)
    requires
        model.wf(),
        0 <= n < model.index.cells.len(),
    ensures
        model.items_upto(0, range).len() == 0,
        ({
            let cell = model.index.cells[n];
            let listed = model.items_upto(n, range);
            let next = model.items_upto(n + 1, range);
            let wanted = range matches Some(range) ==> range.holds(cell.items[0].key@);
            &&& cell.uid == 0 || !wanted ==> next == listed
            &&& cell.uid != 0 && wanted ==> {
                let key = cell.items[0].key;
                &&& next.len() == listed.len() + 1
                &&& next.drop_last() == listed
                &&& next.last().pubkey == key
                &&& next.last().ref_count == model.contents()[key@].1
                &&& next.last().slot_list == model.contents()[key@].0
            }
        }),
{
    if model.index.cells[n].uid != 0 {
        model.lemma_contents_at(n);
        assert(model.items_upto(n, range).push(model.item(n)).drop_last() =~= model.items_upto(
            n,
            range,
        ));
    }
}

/// What is shown of a key is what the map says of it.
pub proof fn law_shown_is_in_the_map<T>(
    model: BucketModel<T>,
    key: Seq<u8>,
    slots: &[T],
    ref_count: u64,
)
    ensures
        model.shows(key, None) <==> !model.contents().contains_key(key),
        model.shows(key, Some((slots, ref_count))) <==> model.contents().contains_key(key)
            && model.contents()[key] == (slots@, ref_count),
{
}

/// A write that finds no room for its list leaves the key with the list that it had, or an empty
/// one, and the new number of references.
pub proof fn law_touched_key<T>(model: BucketModel<T>, key: Seq<u8>, ref_count: u64)
    ensures
        ({
            let map = model.contents();
            let touched = model.touched(key, ref_count);
            &&& touched.contains_key(key)
            &&& touched[key].1 == ref_count
            &&& map.contains_key(key) ==> touched[key].0 == map[key].0
            &&& !map.contains_key(key) ==> touched[key].0.len() == 0
            &&& touched.remove(key) == map.remove(key)
        }),
{
    let touched = model.touched(key, ref_count);
    assert(touched.remove(key) =~= model.contents().remove(key));
}

/// A write always finds room where it does so from each cell on in which a search may start.
pub proof fn law_room_from_every_cell<T>(
    model: BucketModel<T>,
    key: Pubkey,
    items: Seq<T>,
    ref_count: u64,
)
    ensures
        model.always_fits(key, items, ref_count) <==> forall|pos: int|
            (data_bucket(items.len() as int) < model.data.len() ==> 0 <= pos
                < model.data[data_bucket(items.len() as int) as int].cells.len()) ==> (
            #[trigger] model.write(key, items, ref_count, pos)).1 is Ok,
{
    assert forall|pos: int| #[trigger]
        model.write(key, items, ref_count, pos) == model.write(key, items, ref_count, pos)
            implies model.starts(items.len(), pos) == (data_bucket(items.len() as int)
        < model.data.len() ==> 0 <= pos < model.data[data_bucket(
        items.len() as int,
    ) as int].cells.len()) by {}
}

/// Taking a reallocation takes down that one waits, and leaves the table that does.
pub proof fn law_taking_a_reallocation<T>(model: ReallocatedModel<T>)
    ensures
        model.taken().0 <==> model.active == 1,
        model.active == 1 ==> model.taken().1.active == 0,
        model.active != 1 ==> model.taken().1.active == model.active,
        model.taken().1.index == model.index,
        model.taken().1.data == model.data,
        model.idle() <==> model.active == 0 && model.index is None && model.data is None,
{
}

} // verus!
