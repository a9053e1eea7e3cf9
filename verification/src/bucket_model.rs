//! What a bucket holds, as mathematics: its tables, and the map from keys to lists of slots that
//! they stand for.
use crate::bucket_error::BucketMapError;
use crate::bucket_item::BucketItemModel;
use crate::bucket_stats::{larger, BucketMapStats};
use crate::bucket_storage::{CellModel, StorageModel, DEFAULT_CAPACITY_POW2};
use crate::byte_order::ByteOrder;
use crate::index_entry::{data_bucket, home, key_uid, IndexEntry};
use crate::probe::{probe, visited};
use crate::pubkey::{KeyRange, Pubkey};
use std::path::PathBuf;
use std::sync::Arc;
use vstd::arithmetic::power2::pow2;
use vstd::prelude::*;

verus! {

/// A resized table that waits to be put in place.
#[verifier::ext_equal]
pub struct ReallocatedModel<T> {
    pub active: usize,
    pub index: Option<(u64, StorageModel<IndexEntry>)>,
    pub data: Option<(u64, StorageModel<T>)>,
}

impl<T> ReallocatedModel<T> {
    /// Whether something waits that has not been taken, and what is left after it was taken.
    pub open spec fn taken(self) -> (bool, Self) {
        if self.active == 1 {
            (true, ReallocatedModel { active: 0, ..self })
        } else {
            (false, self)
        }
    }

    /// Nothing waits.
    pub open spec fn idle(self) -> bool {
        &&& self.active == 0
        &&& self.index is None
        &&& self.data is None
    }
}

/// The cells that hold an entry for `key`.
pub open spec fn holding(cells: Seq<CellModel<IndexEntry>>, key: Seq<u8>) -> spec_fn(int) -> bool {
    |i: int| cells[i].locked() && cells[i].items[0].key@ == key
}

/// The cells that are free.
pub open spec fn free_cells<E>(cells: Seq<CellModel<E>>) -> spec_fn(int) -> bool {
    |i: int| !cells[i].locked()
}

/// The cell in which the search for `key` ends, if it is found.
pub open spec fn find_in(
    index: StorageModel<IndexEntry>,
    random: u64,
    order: ByteOrder,
    key: Seq<u8>,
) -> Option<int> {
    probe(
        index.cells.len() as int,
        home(key, random, order, index.cells.len() as int),
        index.max_search as int,
        holding(index.cells, key),
    )
}

/// The cell that would be allocated for `key`, if there is one.
pub open spec fn room_in(
    index: StorageModel<IndexEntry>,
    random: u64,
    order: ByteOrder,
    key: Seq<u8>,
) -> Option<int> {
    probe(
        index.cells.len() as int,
        home(key, random, order, index.cells.len() as int),
        index.max_search as int,
        free_cells(index.cells),
    )
}

/// Each locked cell holds something.
pub open spec fn filled<E>(cells: Seq<CellModel<E>>) -> bool {
    forall|i: int|
        #![trigger cells[i]]
        0 <= i < cells.len() && cells[i].locked() ==> cells[i].items.len() > 0
}

/// Each locked cell holds one thing.
pub open spec fn filled_singly<E>(cells: Seq<CellModel<E>>) -> bool {
    forall|i: int|
        #![trigger cells[i]]
        0 <= i < cells.len() && cells[i].locked() ==> cells[i].items.len() == 1
}

/// The locked cell `i` of the index holds one entry, belongs to the key of that entry, and is
/// visited when that key is searched for.
pub open spec fn placed(
    index: StorageModel<IndexEntry>,
    random: u64,
    order: ByteOrder,
    i: int,
) -> bool {
    let cell = index.cells[i];
    let key = cell.items[0].key@;
    let capacity = index.cells.len() as int;
    &&& cell.items.len() == 1
    &&& cell.uid == key_uid(key)
    &&& visited(capacity, home(key, random, order, capacity), index.max_search as int, i)
}

/// Every entry of the index is where it is searched for, and no key has two.
pub open spec fn index_wf(
    index: StorageModel<IndexEntry>,
    random: u64,
    order: ByteOrder,
) -> bool {
    &&& index.wf()
    &&& forall|i: int|
        #![trigger index.cells[i]]
        0 <= i < index.cells.len() && index.cells[i].locked() ==> placed(
            index,
            random,
            order,
            i,
        )
    &&& forall|i: int, j: int|
        #![trigger index.cells[i], index.cells[j]]
        0 <= i < index.cells.len() && 0 <= j < index.cells.len() && i != j
            && index.cells[i].locked() && index.cells[j].locked()
            ==> index.cells[i].items[0].key@ != index.cells[j].items[0].key@
}

/// Data bucket `b` has room for `2^b` slots in each cell.
pub open spec fn data_wf<T>(data: Seq<StorageModel<T>>) -> bool {
    &&& data.len() <= 64
    &&& forall|b: int|
        #![trigger data[b]]
        0 <= b < data.len() ==> data[b].wf() && data[b].num_elems == pow2(b as nat)
}

/// The list that `entry` refers to is in the data buckets: an empty one takes no cell, any other
/// has a cell of its own that `uid` has locked.
pub open spec fn stored<T>(data: Seq<StorageModel<T>>, entry: IndexEntry, uid: u64) -> bool {
    let bucket = entry.bucket();
    &&& 0 <= bucket < data.len()
    &&& entry.located(data[bucket].capacity_pow2)
    &&& entry.num_slots > 0 ==> {
        let cell = data[bucket].cells[entry.loc(data[bucket].capacity_pow2)];
        &&& cell.uid == uid
        &&& cell.items.len() == entry.num_slots
    }
}

/// The list that `entry` refers to.
pub open spec fn slots_of<T>(data: Seq<StorageModel<T>>, entry: IndexEntry) -> Seq<T> {
    if entry.num_slots == 0 {
        Seq::empty()
    } else {
        data[entry.bucket()].cells[entry.loc(data[entry.bucket()].capacity_pow2)].items
    }
}

/// The lists of the two entries do not share a cell.
pub open spec fn apart<T>(data: Seq<StorageModel<T>>, a: IndexEntry, b: IndexEntry) -> bool {
    a.num_slots > 0 && b.num_slots > 0 && a.bucket() == b.bucket() ==> a.loc(
        data[a.bucket()].capacity_pow2,
    ) != b.loc(data[b.bucket()].capacity_pow2)
}

/// The index after the entry of `cell` was given a cell of its own; nothing where there is no
/// room.
pub open spec fn index_with(
    index: StorageModel<IndexEntry>,
    random: u64,
    order: ByteOrder,
    cell: CellModel<IndexEntry>,
) -> Option<StorageModel<IndexEntry>> {
    match room_in(index, random, order, cell.items[0].key@) {
        Some(i) => Some(index.allocate(i, cell.uid).put(i, seq![cell.items[0]])),
        None => None,
    }
}

/// The index `target` after the entries of the first `n` of `cells` were given cells in it, one
/// after the other; nothing where there is no room for one of them.
pub open spec fn reindexed(
    cells: Seq<CellModel<IndexEntry>>,
    n: int,
    target: StorageModel<IndexEntry>,
    random: u64,
    order: ByteOrder,
) -> Option<StorageModel<IndexEntry>>
    decreases n,
{
    if n <= 0 {
        Some(target)
    } else {
        match reindexed(cells, n - 1, target, random, order) {
            None => None,
            Some(index) => if cells[n - 1].locked() {
                index_with(index, random, order, cells[n - 1])
            } else {
                Some(index)
            },
        }
    }
}

/// Whether `key` lies in `range`, no range being all keys.
pub open spec fn in_range(range: Option<KeyRange>, key: Seq<u8>) -> bool {
    match range {
        Some(range) => range.holds(key),
        None => true,
    }
}

/// What a bucket holds.
#[verifier::ext_equal]
pub struct BucketModel<T> {
    pub drives: Arc<Vec<PathBuf>>,
    pub index: StorageModel<IndexEntry>,
    pub random: u64,
    pub order: ByteOrder,
    pub data: Seq<StorageModel<T>>,
    pub stats: BucketMapStats,
    pub reallocated: ReallocatedModel<T>,
}

impl<T> BucketModel<T> {
    pub open spec fn capacity(self) -> int {
        self.index.cells.len() as int
    }

    pub open spec fn locked(self, i: int) -> bool {
        self.index.cells[i].locked()
    }

    pub open spec fn entry(self, i: int) -> IndexEntry {
        self.index.cells[i].items[0]
    }

    /// Cell `i` of the index holds an entry for `key`.
    pub open spec fn holds(self, i: int, key: Seq<u8>) -> bool {
        0 <= i < self.capacity() && self.locked(i) && self.entry(i).key@ == key
    }

    /// The tables fit together.
    pub open spec fn wf(self) -> bool {
        &&& self.index.drives == self.drives
        &&& index_wf(self.index, self.random, self.order)
        &&& data_wf(self.data)
        &&& forall|i: int|
            #![trigger self.index.cells[i]]
            0 <= i < self.capacity() && self.locked(i) ==> stored(
                self.data,
                self.entry(i),
                self.index.cells[i].uid,
            )
        &&& forall|i: int, j: int|
            #![trigger self.index.cells[i], self.index.cells[j]]
            0 <= i < self.capacity() && 0 <= j < self.capacity() && i != j && self.locked(i)
                && self.locked(j) ==> apart(self.data, self.entry(i), self.entry(j))
    }

    /// Whether there is an entry for `key`.
    pub open spec fn has(self, key: Seq<u8>) -> bool {
        exists|i: int| self.holds(i, key)
    }

    /// The cell of the index that holds the entry for `key`.
    pub open spec fn position(self, key: Seq<u8>) -> int {
        choose|i: int| self.holds(i, key)
    }

    /// The map that the tables stand for: each key's list of slots and number of references.
    pub open spec fn contents(self) -> Map<Seq<u8>, (Seq<T>, u64)> {
        Map::new(
            |key: Seq<u8>| self.has(key),
            |key: Seq<u8>|
                {
                    let entry = self.entry(self.position(key));
                    (slots_of(self.data, entry), entry.ref_count)
                },
        )
    }

    /// The entry in cell `i` replaced by `entry`.
    pub open spec fn with_entry(self, i: int, entry: IndexEntry) -> Self {
        BucketModel { index: self.index.put(i, seq![entry]), ..self }
    }

    /// The entry in cell `i` with another number of references.
    pub open spec fn with_ref_count(self, i: int, ref_count: u64) -> Self {
        self.with_entry(i, IndexEntry { ref_count, ..self.entry(i) })
    }

    /// An entry for `key`, with an empty list, in the free cell `i`.
    pub open spec fn with_new_entry(self, i: int, key: Pubkey, ref_count: u64) -> Self {
        let entry = IndexEntry {
            key,
            ref_count,
            storage_offset: 0,
            storage_capacity_when_created_pow2: 0,
            num_slots: 0,
        };
        BucketModel {
            index: self.index.allocate(i, key_uid(key@)).put(i, seq![entry]),
            ..self
        }
    }

    /// Where `key` is searched for in the index.
    pub open spec fn find(self, key: Seq<u8>) -> Option<int> {
        find_in(self.index, self.random, self.order, key)
    }

    /// Where the index has room for `key`.
    pub open spec fn room(self, key: Seq<u8>) -> Option<int> {
        room_in(self.index, self.random, self.order, key)
    }

    /// Whether the list of the entry in cell `i` can give way to one of `len` slots where it is.
    pub open spec fn fits_in_place(self, i: int, len: nat) -> bool {
        self.entry(i).num_slots > 0 && self.entry(i).bucket() == data_bucket(len as int)
    }

    /// `items` written over the list of the entry in cell `i`.
    pub open spec fn overwritten(self, i: int, items: Seq<T>) -> Self {
        let entry = self.entry(i);
        let bucket = entry.bucket();
        let storage = self.data[bucket];
        let moved = self.with_entry(i, IndexEntry { num_slots: items.len() as u64, ..entry });
        BucketModel {
            data: self.data.update(bucket, storage.put(entry.loc(storage.capacity_pow2), items)),
            ..moved
        }
    }

    /// The data buckets after the list of `entry`, if it takes a cell, has given that up.
    pub open spec fn data_without(self, entry: IndexEntry) -> Seq<StorageModel<T>> {
        if entry.num_slots > 0 {
            let storage = self.data[entry.bucket()];
            self.data.update(entry.bucket(), storage.free(entry.loc(storage.capacity_pow2)))
        } else {
            self.data
        }
    }

    /// The list of the entry in cell `i` given up, and `items` written to cell `ix` of the data
    /// bucket for their number, unless there are none.
    pub open spec fn relocated(self, i: int, items: Seq<T>, ix: int) -> Self {
        let entry = self.entry(i);
        let bucket = data_bucket(items.len() as int) as int;
        let freed = self.data_without(entry);
        let moved = self.with_entry(
            i,
            IndexEntry {
                storage_offset: ix as u64,
                storage_capacity_when_created_pow2: self.data[bucket].capacity_pow2,
                num_slots: items.len() as u64,
                ..entry
            },
        );
        BucketModel {
            data: if items.len() > 0 {
                freed.update(
                    bucket,
                    freed[bucket].allocate(ix, self.index.cells[i].uid).put(ix, items),
                )
            } else {
                freed
            },
            ..moved
        }
    }

    /// The free cell of data bucket `bucket` that a search from `pos` on finds.
    pub open spec fn data_room(self, bucket: int, pos: int) -> Option<int> {
        probe(
            self.data[bucket].cells.len() as int,
            pos,
            self.index.max_search as int,
            free_cells(self.data[bucket].cells),
        )
    }

    /// `items` made the list of the entry in cell `i`: where the list is, if it fits there, or
    /// else in the free cell that is found from `pos` on.
    pub open spec fn store(self, i: int, items: Seq<T>, pos: int) -> (Self, Result<
        (),
        BucketMapError,
    >) {
        let bucket = data_bucket(items.len() as int) as int;
        if self.fits_in_place(i, items.len()) {
            (self.overwritten(i, items), Ok(()))
        } else {
            match self.data_room(bucket, pos) {
                Some(ix) => (self.relocated(i, items, ix), Ok(())),
                None => (
                    self,
                    Err(
                        BucketMapError::DataNoSpace((bucket as u64, self.data[bucket].capacity_pow2)),
                    ),
                ),
            }
        }
    }

    /// The index made ready for a write: `key` has an entry with `ref_count`. With the cell of
    /// that entry; nothing where the index has no room.
    pub open spec fn entered(self, key: Pubkey, ref_count: u64) -> Option<(Self, int)> {
        match self.find(key@) {
            Some(i) => Some((self.with_ref_count(i, ref_count), i)),
            None => match self.room(key@) {
                Some(i) => Some((self.with_new_entry(i, key, ref_count), i)),
                None => None,
            },
        }
    }

    /// What comes of writing `items` and `ref_count` for `key`, where a search for a free cell of
    /// a data bucket starts at `pos`.
    pub open spec fn write(self, key: Pubkey, items: Seq<T>, ref_count: u64, pos: int) -> (
        Self,
        Result<(), BucketMapError>,
    ) {
        let bucket = data_bucket(items.len() as int);
        if self.data.len() <= bucket {
            (self, Err(BucketMapError::DataNoSpace((bucket as u64, 0))))
        } else {
            match self.entered(key, ref_count) {
                None => (self, Err(BucketMapError::IndexNoSpace(self.index.capacity_pow2))),
                Some((ready, i)) => ready.store(i, items, pos),
            }
        }
    }

    /// The map after a write for `key` that found no cell for its list: the key has the new number
    /// of references, and the list that it had, or an empty one.
    pub open spec fn touched(self, key: Seq<u8>, ref_count: u64) -> Map<Seq<u8>, (Seq<T>, u64)> {
        let slots = if self.contents().contains_key(key) {
            self.contents()[key].0
        } else {
            Seq::empty()
        };
        self.contents().insert(key, (slots, ref_count))
    }

    /// Whether `pos` is a cell from which the data bucket for `len` slots can be searched.
    pub open spec fn starts(self, len: nat, pos: int) -> bool {
        let bucket = data_bucket(len as int) as int;
        bucket < self.data.len() ==> 0 <= pos < self.data[bucket].cells.len()
    }

    /// The entry for `key`, if there is one, and its list given up.
    pub open spec fn deleted(self, key: Seq<u8>) -> Self {
        match self.find(key) {
            Some(i) => BucketModel {
                index: self.index.free(i),
                data: self.data_without(self.entry(i)),
                ..self
            },
            None => self,
        }
    }

    /// An index of `2^capacity_pow2` unused cells that could take the place of this bucket's.
    pub open spec fn fresh_index(self, capacity_pow2: u8) -> StorageModel<IndexEntry> {
        StorageModel::fresh(
            self.drives,
            1,
            vstd::layout::size_of::<IndexEntry>() as u64,
            capacity_pow2,
            self.index.max_search,
        )
    }

    /// The index of `2^capacity_pow2` cells, with the random offset `random`, that could take the
    /// place of this bucket's; nothing where it has no room for some entry.
    pub open spec fn larger_index(self, capacity_pow2: u8, random: u64) -> Option<
        StorageModel<IndexEntry>,
    > {
        reindexed(
            self.index.cells,
            self.capacity(),
            self.fresh_index(capacity_pow2),
            random,
            self.order,
        )
    }

    /// An unused data bucket for lists of up to `2^bucket` slots.
    pub open spec fn fresh_data(self, bucket: int, capacity_pow2: u8) -> StorageModel<T> {
        StorageModel::fresh(
            self.drives,
            pow2(bucket as nat) as u64,
            vstd::layout::size_of::<T>() as u64,
            capacity_pow2,
            self.index.max_search,
        )
    }

    /// The data bucket of `2^capacity_pow2` cells that could take the place of data bucket
    /// `bucket`.
    pub open spec fn larger_data(self, bucket: int, capacity_pow2: u8) -> StorageModel<T> {
        if bucket < self.data.len() {
            self.fresh_data(bucket, capacity_pow2).refilled(self.data[bucket])
        } else {
            self.fresh_data(bucket, capacity_pow2)
        }
    }

    /// `index` and its random offset put in place.
    pub open spec fn with_index(self, random: u64, index: StorageModel<IndexEntry>) -> Self {
        BucketModel { random, index, ..self }
    }

    /// `storage` put in place as data bucket `bucket`, after unused ones where there were none.
    pub open spec fn with_data(self, bucket: int, storage: StorageModel<T>) -> Self {
        BucketModel {
            data: if bucket < self.data.len() {
                self.data.update(bucket, storage)
            } else {
                Seq::new(
                    bucket as nat + 1,
                    |b: int|
                        if b < self.data.len() {
                            self.data[b]
                        } else if b < bucket {
                            self.fresh_data(b, DEFAULT_CAPACITY_POW2)
                        } else {
                            storage
                        },
                )
            },
            ..self
        }
    }

    /// What waits put in place.
    pub open spec fn settled(self) -> Self {
        if self.reallocated.active == 1 {
            let rest = BucketModel {
                reallocated: ReallocatedModel { active: 0, index: None, data: None },
                ..self
            };
            match (self.reallocated.index, self.reallocated.data) {
                (Some((random, index)), _) => rest.with_index(random, index),
                (None, Some((bucket, storage))) => rest.with_data(bucket as int, storage),
                (None, None) => rest,
            }
        } else {
            self
        }
    }

    /// `index`, with the random offset `random`, waits to be put in place, `us` microseconds having
    /// been spent on it.
    pub open spec fn with_deferred_index(
        self,
        random: u64,
        index: StorageModel<IndexEntry>,
        us: u64,
    ) -> Self {
        BucketModel {
            stats: BucketMapStats {
                index: self.stats.index.with_size(index.cells.len() as u64).with_resize(us),
                ..self.stats
            },
            reallocated: ReallocatedModel {
                active: 1,
                index: Some((random, index)),
                ..self.reallocated
            },
            ..self
        }
    }

    /// The index of `2^capacity_pow2` cells with the random offset `random` waits to be put in
    /// place, `us` microseconds having been spent on it.
    pub open spec fn with_pending_index(self, capacity_pow2: u8, random: u64, us: u64) -> Self {
        self.with_deferred_index(random, self.larger_index(capacity_pow2, random)->0, us)
    }

    /// Some random offset leaves an index of `2^capacity_pow2` cells without room for an entry.
    pub open spec fn may_overflow(self, capacity_pow2: u8) -> bool {
        exists|random: u64| #[trigger] self.larger_index(capacity_pow2, random) is None
    }

    /// `storage` waits to be put in place as data bucket `bucket`.
    pub open spec fn with_deferred_data(self, bucket: u64, storage: StorageModel<T>) -> Self {
        BucketModel {
            reallocated: ReallocatedModel {
                active: 1,
                data: Some((bucket, storage)),
                ..self.reallocated
            },
            ..self
        }
    }

    /// The data bucket of `2^capacity_pow2` cells for lists of up to `2^bucket` slots waits to be
    /// put in place.
    pub open spec fn with_pending_data(self, bucket: u64, capacity_pow2: u8) -> Self {
        self.with_deferred_data(bucket, self.larger_data(bucket as int, capacity_pow2))
    }

    /// Data bucket `bucket` may be given `2^capacity_pow2` cells.
    pub open spec fn may_grow_data(self, bucket: int, capacity_pow2: int) -> bool {
        &&& 0 <= bucket < 64
        &&& 0 <= capacity_pow2 < usize::BITS
        &&& bucket < self.data.len() ==> self.data[bucket].capacity_pow2 <= capacity_pow2
    }

    /// Where something is said to wait, there is an index, or a data bucket that has a place.
    pub open spec fn pending_applies(self) -> bool {
        self.reallocated.active == 1 ==> match (self.reallocated.index, self.reallocated.data) {
            (Some(_), _) => true,
            (None, Some((bucket, _))) => bucket <= 64 || bucket < self.data.len(),
            (None, None) => false,
        }
    }

    /// `index` is a larger index for the entries as they are.
    pub open spec fn extends_index(self, random: u64, index: StorageModel<IndexEntry>) -> bool {
        exists|capacity_pow2: u8|
            capacity_pow2 < usize::BITS && #[trigger] self.larger_index(capacity_pow2, random)
                == Some(index)
    }

    /// `storage` is a larger data bucket with the lists of data bucket `bucket` as they are.
    pub open spec fn extends_data(self, bucket: u64, storage: StorageModel<T>) -> bool {
        exists|capacity_pow2: u8|
            self.may_grow_data(bucket as int, capacity_pow2 as int) && storage
                == #[trigger] self.larger_data(bucket as int, capacity_pow2)
    }

    /// What waits, if anything, was made from the tables as they are.
    pub open spec fn pending_current(self) -> bool {
        self.reallocated.active == 1 ==> match (self.reallocated.index, self.reallocated.data) {
            (Some((random, index)), _) => self.extends_index(random, index),
            (None, Some((bucket, storage))) => self.extends_data(bucket, storage),
            (None, None) => false,
        }
    }

    /// The index is made larger by giving it `2^capacity_pow2` cells and the random offset `random`:
    /// it has room then, and each size below that is larger than its own may turn out to have none.
    pub open spec fn takes_index(self, capacity_pow2: u8, random: u64) -> bool {
        &&& self.index.capacity_pow2 < capacity_pow2 < usize::BITS
        &&& self.larger_index(capacity_pow2, random) is Some
        &&& forall|smaller: u8|
            self.index.capacity_pow2 < smaller < capacity_pow2 ==> #[trigger] self.may_overflow(
                smaller,
            )
    }

    /// What an attempt to make the index larger, from `2^current_capacity` cells on, may come to.
    /// An index that has another number of cells is left alone. Else the sizes are tried from the
    /// next one up, and a size is passed over only if some random offset leaves it without room.
    pub open spec fn grows_index(
        self,
        current_capacity: u8,
        next: Self,
        result: Result<(), BucketMapError>,
    ) -> bool {
        if self.index.capacity_pow2 != current_capacity {
            result is Ok && next == self
        } else {
            match result {
                Ok(()) => exists|capacity_pow2: u8, random: u64, us: u64|
                    {
                        &&& self.takes_index(capacity_pow2, random)
                        &&& next == #[trigger] self.with_pending_index(capacity_pow2, random, us)
                    },
                Err(err) => {
                    &&& err == BucketMapError::IndexNoSpace(current_capacity)
                    &&& exists|us: u64|
                        next.stats.index == #[trigger] self.stats.index.with_resize(us)
                    &&& next == (BucketModel {
                        stats: BucketMapStats { index: next.stats.index, ..self.stats },
                        ..self
                    })
                    &&& self.index_exhausted()
                },
            }
        }
    }

    /// Each larger size of the index may turn out to have no room.
    pub open spec fn index_exhausted(self) -> bool {
        forall|larger: u8|
            self.index.capacity_pow2 < larger < usize::BITS ==> #[trigger] self.may_overflow(larger)
    }

    /// `next` differs from this bucket in nothing but what its cells hold.
    pub open spec fn same_shape(self, next: Self) -> bool {
        &&& next == (BucketModel { index: next.index, data: next.data, ..self })
        &&& self.index.same_shape(next.index)
        &&& next.data.len() == self.data.len()
        &&& forall|b: int|
            #![trigger next.data[b]]
            0 <= b < self.data.len() ==> self.data[b].same_shape(next.data[b])
    }

    /// `next` has the drives, the byte order, the search limit and the counters of data buckets of
    /// this bucket, and no table that is smaller. Where its index is not larger, it has the random
    /// offset of this bucket; where it is, the size of the index has been noted.
    pub open spec fn outgrown_by(self, next: Self) -> bool {
        &&& next.drives == self.drives
        &&& next.order == self.order
        &&& next.index.max_search == self.index.max_search
        &&& next.stats.data == self.stats.data
        &&& self.index.capacity_pow2 <= next.index.capacity_pow2
        &&& if self.index.capacity_pow2 == next.index.capacity_pow2 {
            &&& next.random == self.random
            &&& next.stats.index.max_size == self.stats.index.max_size
        } else {
            next.stats.index.max_size == larger(
                self.stats.index.max_size,
                next.index.cells.len() as u64,
            )
        }
        &&& self.data.len() <= next.data.len()
        &&& forall|b: int|
            #![trigger next.data[b]]
            0 <= b < self.data.len() ==> self.data[b].capacity_pow2 <= next.data[b].capacity_pow2
    }

    /// A write of `items` and `ref_count` for `key` finds room, whatever the random number.
    pub open spec fn always_fits(self, key: Pubkey, items: Seq<T>, ref_count: u64) -> bool {
        forall|pos: int|
            self.starts(items.len(), pos) ==> (#[trigger] self.write(
                key,
                items,
                ref_count,
                pos,
            )).1 is Ok
    }

    /// Why nothing can be made larger to take a list of `len` slots for `key`: the data bucket for
    /// it has the most cells that there can be, or each larger size of the index may turn out to
    /// have no room.
    pub open spec fn stuck(self, key: Seq<u8>, len: nat, err: BucketMapError) -> bool {
        match err {
            BucketMapError::DataNoSpace((bucket, capacity_pow2)) => {
                &&& bucket == data_bucket(len as int)
                &&& bucket >= 64 || capacity_pow2 + 1 >= usize::BITS
                &&& capacity_pow2 == if bucket < self.data.len() {
                    self.data[bucket as int].capacity_pow2
                } else {
                    0
                }
            },
            BucketMapError::IndexNoSpace(capacity_pow2) => {
                &&& capacity_pow2 == self.index.capacity_pow2
                &&& !self.contents().contains_key(key)
                &&& self.room(key) is None
                &&& self.index_exhausted()
            },
        }
    }

    /// `next` is what comes of writing `slots` and `ref_count` for `key` while tables are made
    /// larger as it needs: the key has them, or a table cannot be made larger and the map is what it
    /// was but for what a write without room does to the key.
    pub open spec fn inserts(
        self,
        key: Seq<u8>,
        slots: Seq<T>,
        ref_count: u64,
        next: Self,
        result: Result<(), BucketMapError>,
    ) -> bool {
        match result {
            Ok(()) => next.contents() == self.contents().insert(key, (slots, ref_count)),
            Err(err) => {
                &&& next.stuck(key, slots.len(), err)
                &&& next.contents() == self.contents() || next.contents() == self.touched(
                    key,
                    ref_count,
                )
            },
        }
    }

    /// How often the index and data bucket `bucket` can be made larger, and one more if there is
    /// no such data bucket.
    pub open spec fn headroom(self, bucket: int) -> int {
        (usize::BITS - self.index.capacity_pow2) + if bucket < self.data.len() {
            usize::BITS - self.data[bucket].capacity_pow2
        } else {
            usize::BITS + 1
        }
    }

    /// The keys of the entries in the first `n` cells of the index.
    pub open spec fn keys_upto(self, n: int) -> Seq<Pubkey>
        decreases n,
    {
        if n <= 0 {
            Seq::empty()
        } else if self.locked(n - 1) {
            self.keys_upto(n - 1).push(self.entry(n - 1).key)
        } else {
            self.keys_upto(n - 1)
        }
    }

    /// What is kept for the key in cell `i` of the index.
    pub open spec fn item(self, i: int) -> BucketItemModel<T> {
        BucketItemModel {
            pubkey: self.entry(i).key,
            ref_count: self.entry(i).ref_count,
            slot_list: slots_of(self.data, self.entry(i)),
        }
    }

    /// What is kept for the keys in the first `n` cells of the index that lie in `range`.
    pub open spec fn items_upto(self, n: int, range: Option<KeyRange>) -> Seq<BucketItemModel<T>>
        decreases n,
    {
        if n <= 0 {
            Seq::empty()
        } else if self.locked(n - 1) && in_range(range, self.entry(n - 1).key@) {
            self.items_upto(n - 1, range).push(self.item(n - 1))
        } else {
            self.items_upto(n - 1, range)
        }
    }

    /// `current` is what the map says of `key`.
    pub open spec fn shows(self, key: Seq<u8>, current: Option<(&[T], u64)>) -> bool {
        match current {
            Some((slots, ref_count)) => self.contents().contains_key(key) && self.contents()[key]
                == (slots@, ref_count),
            None => !self.contents().contains_key(key),
        }
    }
}

} // verus!
