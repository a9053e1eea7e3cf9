//! A bucket: an index from keys to entries, and data buckets for lists of slots by their length.
use crate::bucket_error::BucketMapError;
use crate::bucket_growth::growable;
use crate::bucket_item::BucketItem;
use crate::bucket_model::{
    filled, filled_singly, find_in, free_cells, holding, in_range, reindexed, room_in, slots_of,
    stored, BucketModel, ReallocatedModel,
};
use crate::bucket_stats::BucketMapStats;
use crate::bucket_storage::{
    BucketStorage, MaxSearch, StorageModel, Uid, DEFAULT_CAPACITY_POW2, UID_UNLOCKED,
};
use crate::byte_order::ByteOrder;
use crate::index_entry::{data_bucket, home, key_uid, IndexEntry, RefCount};
use crate::outside::{measured_us, random_below, random_u64, start_measure, stop_measure};
use crate::probe::probe;
use crate::pubkey::{KeyRange, Pubkey};
use crate::search_laws::{law_list_gets_nearest_cell, law_search_finds_nearest_entry};
use std::collections::hash_map::DefaultHasher;
use std::hash::Hasher;
use std::path::PathBuf;
use std::sync::Arc;
use vstd::prelude::*;

verus! {

/// The resized tables that wait to be put in place.
pub struct ReallocatedItems<T> {
    /// Some if the index was reallocated
    /// u64 is random associated with the new index
    pub index: Option<(u64, BucketStorage<IndexEntry>)>,
    /// Some for a data bucket reallocation
    /// u64 is data bucket index
    pub data: Option<(u64, BucketStorage<T>)>,
}

impl<T> Default for ReallocatedItems<T> {
    fn default() -> (items: Self)
        ensures
            items.index is None,
            items.data is None,
    {
        ReallocatedItems { index: None, data: None }
    }
}

/// Whether a resized table waits to be put in place, and which.
pub struct Reallocated<T> {
    /// > 0 if reallocations are encoded
    pub active_reallocations: usize,
    /// actual reallocated bucket
    pub items: ReallocatedItems<T>,
}

impl<T> View for Reallocated<T> {
    type V = ReallocatedModel<T>;

    open spec fn view(&self) -> ReallocatedModel<T> {
        ReallocatedModel {
            active: self.active_reallocations,
            index: match self.items.index {
                Some((random, index)) => Some((random, index@)),
                None => None,
            },
            data: match self.items.data {
                Some((bucket, storage)) => Some((bucket, storage@)),
                None => None,
            },
        }
    }
}

impl<T> Default for Reallocated<T> {
    fn default() -> (reallocated: Self)
        ensures
            reallocated@.idle(),
    {
        Reallocated { active_reallocations: 0, items: ReallocatedItems::default() }
    }
}

impl<T> Reallocated<T> {
    /// specify that a reallocation has occurred
    /// Only 1 reallocation can occur at a time.
    pub fn add_reallocation(&mut self)
        requires
            old(self).active_reallocations == 0,
        ensures
            final(self).active_reallocations == 1,
            final(self).items == old(self).items,
    {
        self.active_reallocations = self.active_reallocations + 1;
    }

    /// Return true IFF a reallocation has occurred.
    /// Calling this takes conceptual ownership of the reallocation encoded in the struct.
    pub fn get_reallocated(&mut self) -> (reallocated: bool)
        ensures
            reallocated <==> old(self).active_reallocations == 1,
            reallocated ==> final(self).active_reallocations == 0,
            !reallocated ==> final(self).active_reallocations == old(self).active_reallocations,
            final(self).items == old(self).items,
            (reallocated, final(self)@) == old(self)@.taken(),
    {
        if self.active_reallocations == 1 {
            self.active_reallocations = 0;
            true
        } else {
            false
        }
    }
}

/// A map from keys to lists of slots.
pub struct Bucket<T> {
    drives: Arc<Vec<PathBuf>>,
    /// index
    pub index: BucketStorage<IndexEntry>,
    /// random offset for the index
    random: u64,
    /// the order in which the bytes of a number are hashed
    order: ByteOrder,
    /// storage buckets to store SlotSlice up to a power of 2 in len
    pub data: Vec<BucketStorage<T>>,
    stats: BucketMapStats,
    pub reallocated: Reallocated<T>,
}

impl<T> View for Bucket<T> {
    type V = BucketModel<T>;

    closed spec fn view(&self) -> BucketModel<T> {
        BucketModel {
            drives: self.drives,
            index: self.index@,
            random: self.random,
            order: self.order,
            data: Seq::new(self.data@.len(), |b: int| self.data@[b]@),
            stats: self.stats,
            reallocated: self.reallocated@,
        }
    }
}

impl<T: Clone + Copy> Bucket<T> {
    /// Where the search for `key` starts in `index`.
    pub fn bucket_index_ix(
        index: &BucketStorage<IndexEntry>,
        key: &Pubkey,
        random: u64,
        order: ByteOrder,
    ) -> (ix: u64)
        requires
            index@.wf(),
        ensures
            ix == home(key@, random, order, index@.cells.len() as int),
            ix < index@.cells.len(),
    {
        proof {
            index@.lemma_capacity();
        }
        let uid = IndexEntry::key_uid(key);
        let mut s = DefaultHasher::new();
        s.write(order.to_bytes(uid).as_slice());
        //the locally generated random will make it hard for an attacker
        //to deterministically cause all the pubkeys to land in the same
        //location in any bucket on all validators
        s.write(order.to_bytes(random).as_slice());
        assert(s@ =~= seq![order.bytes(uid), order.bytes(random)]);
        let ix: u64 = s.finish();
        ix % index.capacity()
    }

    /// The entry for `key` in `index`, and its cell.
    pub fn bucket_find_entry<'a>(
        index: &'a BucketStorage<IndexEntry>,
        key: &Pubkey,
        random: u64,
        order: ByteOrder,
    ) -> (found: Option<(&'a IndexEntry, u64)>)
        requires
            index@.wf(),
            filled(index@.cells),
        ensures
            match find_in(index@, random, order, key@) {
                Some(i) => found matches Some((elem, ix)) && ix == i && *elem
                    == index@.cells[i].items[0],
                None => found is None,
            },
            found matches Some((elem, ix)) ==> {
                &&& ix < index@.cells.len()
                &&& index@.cells[ix as int].locked()
                &&& elem.key@ == key@
            },
            ({
                let cells = index@.cells;
                let len = cells.len() as int;
                let start = home(key@, random, order, len);
                found is None <==> forall|j: int|
                    #![trigger cells[j]]
                    0 <= j < len && (j - start) % len < index@.max_search ==> cells[j].uid == 0
                        || cells[j].items[0].key@ != key@
            }),
    {
        let ix = Self::bucket_index_ix(index, key, random, order);
        let capacity = index.capacity();
        proof {
            index@.lemma_capacity();
            law_search_finds_nearest_entry(index@, random, order, key@);
        }
        let ghost hit = holding(index@.cells, key@);
        let end: u64 = ix + index.max_search();
        let mut i: u64 = ix;
        while i < end
            invariant
                i <= end,
                0 < capacity,
                capacity == index@.cells.len(),
                index@.wf(),
                filled(index@.cells),
                hit == holding(index@.cells, key@),
                find_in(index@, random, order, key@) == probe(
                    capacity as int,
                    i as int,
                    end - i,
                    hit,
                ),
            decreases end - i,
        {
            let ii: u64 = i % capacity;
            i = i + 1;
            if index.uid(ii) == UID_UNLOCKED {
                continue;
            }
            let elem = index.get(ii);
            if elem.key == *key {
                proof {
                    law_search_finds_nearest_entry(index@, random, order, key@);
                }
                return Some((elem, ii));
            }
        }
        None
    }

    /// The entry for `key` in `index`, to be changed, and its cell.
    pub fn bucket_find_entry_mut<'a>(
        index: &'a mut BucketStorage<IndexEntry>,
        key: &Pubkey,
        random: u64,
        order: ByteOrder,
    ) -> (found: Option<(&'a mut IndexEntry, u64)>)
        requires
            old(index)@.wf(),
            filled_singly(old(index)@.cells),
        ensures
            match find_in(old(index)@, random, order, key@) {
                Some(i) => found matches Some((elem, ix)) && ix == i && *elem
                    == old(index)@.cells[i].items[0] && final(index)@ == old(index)@.put(
                    i,
                    seq![*final(elem)],
                ),
                None => found is None && final(index)@ == old(index)@,
            },
    {
        let ix: u64 = match Self::bucket_find_entry(index, key, random, order) {
            Some((_, ix)) => ix,
            None => {
                return None;
            },
        };
        Some((index.get_mut(ix), ix))
    }

    /// Gives `key` a cell in `index`, with an entry that has `ref_count` and an empty list, and
    /// says which.
    fn bucket_create_key(
        index: &mut BucketStorage<IndexEntry>,
        key: &Pubkey,
        elem_uid: Uid,
        random: u64,
        order: ByteOrder,
        ref_count: u64,
    ) -> (created: Result<u64, BucketMapError>)
        requires
            old(index)@.wf(),
            elem_uid != UID_UNLOCKED,
        ensures
            final(index)@.wf(),
            match room_in(old(index)@, random, order, key@) {
                Some(i) => {
                    let elem = IndexEntry {
                        key: *key,
                        ref_count,
                        storage_offset: 0,
                        storage_capacity_when_created_pow2: 0,
                        num_slots: 0,
                    };
                    &&& created == Ok::<u64, BucketMapError>(i as u64)
                    &&& 0 <= i < old(index)@.cells.len() <= u64::MAX
                    &&& final(index)@ == old(index)@.allocate(i, elem_uid).put(i, seq![elem])
                },
                None => {
                    &&& created == Err::<u64, BucketMapError>(
                        BucketMapError::IndexNoSpace(old(index)@.capacity_pow2),
                    )
                    &&& final(index)@ == old(index)@
                },
            },
    {
        let ghost before = index@;
        let ix = Self::bucket_index_ix(index, key, random, order);
        let capacity = index.capacity();
        proof {
            index@.lemma_capacity();
        }
        let ghost hit = free_cells(index@.cells);
        let end: u64 = ix + index.max_search();
        let mut i: u64 = ix;
        while i < end
            invariant
                i <= end,
                0 < capacity,
                capacity == index@.cells.len(),
                index@.wf(),
                index@ == before,
                before == old(index)@,
                elem_uid != UID_UNLOCKED,
                hit == free_cells(before.cells),
                room_in(before, random, order, key@) == probe(
                    capacity as int,
                    i as int,
                    end - i,
                    hit,
                ),
            decreases end - i,
        {
            let ii: u64 = i % capacity;
            i = i + 1;
            if index.uid(ii) != UID_UNLOCKED {
                continue;
            }
            index.allocate(ii, elem_uid).unwrap();
            let elem = IndexEntry {
                key: *key,
                ref_count,
                storage_offset: 0,
                storage_capacity_when_created_pow2: 0,
                num_slots: 0,
            };
            index.put(ii, elem);
            return Ok(ii);
        }
        Err(BucketMapError::IndexNoSpace(index.capacity_pow2()))
    }

    /// A bucket without keys. `stats` is what its counters start from. Numbers are hashed by their
    /// bytes in the order of the machine.
    pub fn new(
        drives: Arc<Vec<PathBuf>>,
        max_search: MaxSearch,
        stats: BucketMapStats,
    ) -> (bucket: Self)
        ensures
            bucket@.wf(),
            bucket@.no_leaks(),
            bucket@.contents() == Map::<Seq<u8>, (Seq<T>, u64)>::empty(),
            bucket@.reallocated.idle(),
            bucket@.drives == drives,
            bucket@.stats == stats,
            bucket@.data.len() == 0,
            bucket@.index == StorageModel::<IndexEntry>::fresh(
                drives,
                1,
                vstd::layout::size_of::<IndexEntry>() as u64,
                DEFAULT_CAPACITY_POW2,
                max_search,
            ),
    {
        let index = BucketStorage::new(
            Arc::clone(&drives),
            1,
            std::mem::size_of::<IndexEntry>() as u64,
            max_search,
        );
        let bucket = Bucket {
            random: random_u64(),
            order: ByteOrder::native(),
            drives,
            index,
            data: Vec::new(),
            stats,
            reallocated: Reallocated::default(),
        };
        assert(bucket@.contents() =~= Map::<Seq<u8>, (Seq<T>, u64)>::empty()) by {
            assert forall|key: Seq<u8>| !bucket@.has(key) by {
                assert forall|i: int| !bucket@.holds(i, key) by {}
            }
        }
        bucket
    }

    /// The number of keys.
    pub fn bucket_len(&self) -> (len: u64)
        requires
            self@.wf(),
        ensures
            len == self@.index.used,
            self@.contents().dom().finite(),
            len == self@.contents().dom().len(),
    {
        proof {
            self@.lemma_len();
        }
        self.index.used()
    }

    /// The index.
    pub fn index(&self) -> (index: &BucketStorage<IndexEntry>)
        ensures
            index@ == self@.index,
    {
        &self.index
    }

    /// The random offset of the index.
    pub fn random(&self) -> (random: u64)
        ensures
            random == self@.random,
    {
        self.random
    }

    /// The order in which the bytes of a number are hashed.
    pub fn order(&self) -> (order: ByteOrder)
        ensures
            order == self@.order,
    {
        self.order
    }

    /// The data buckets.
    pub fn data(&self) -> (data: &Vec<BucketStorage<T>>)
        ensures
            data@.len() == self@.data.len(),
            forall|b: int| 0 <= b < data@.len() ==> (#[trigger] data@[b])@ == self@.data[b],
    {
        &self.data
    }

    /// What waits to be put in place.
    pub fn reallocated(&self) -> (reallocated: &Reallocated<T>)
        ensures
            reallocated@ == self@.reallocated,
    {
        &self.reallocated
    }

    /// Hands the counters out, and starts them over.
    pub fn take_stats(&mut self) -> (stats: BucketMapStats)
        ensures
            stats == old(self)@.stats,
            final(self)@ == (BucketModel { stats: BucketMapStats::zero(), ..old(self)@ }),
    {
        let stats = self.stats;
        self.stats = BucketMapStats::default();
        stats
    }

    /// The counters.
    pub fn stats(&self) -> (stats: BucketMapStats)
        ensures
            stats == self@.stats,
    {
        self.stats
    }

    /// The entry for `key`, and its cell of the index.
    pub fn find_entry(&self, key: &Pubkey) -> (found: Option<(&IndexEntry, u64)>)
        requires
            self@.wf(),
        ensures
            match self@.find(key@) {
                Some(i) => found matches Some((elem, ix)) && ix == i && *elem == self@.entry(i),
                None => found is None,
            },
            found is Some <==> self@.contents().contains_key(key@),
            found matches Some((elem, ix)) ==> {
                &&& self@.holds(ix as int, key@)
                &&& elem.key@ == key@
                &&& self@.contents()[key@] == (slots_of(self@.data, *elem), elem.ref_count)
            },
    {
        proof {
            self@.lemma_find(key@);
        }
        Self::bucket_find_entry(&self.index, key, self.random, self.order)
    }

    /// The entry for `key`, to be changed, and its cell of the index.
    fn find_entry_mut(&mut self, key: &Pubkey) -> (found: Option<(&mut IndexEntry, u64)>)
        requires
            old(self)@.wf(),
        ensures
            match old(self)@.find(key@) {
                Some(i) => found matches Some((elem, ix)) && ix == i && *elem == old(self)@.entry(i)
                    && final(self)@ == old(self)@.with_entry(i, *final(elem)),
                None => found is None && final(self)@ == old(self)@,
            },
    {
        Self::bucket_find_entry_mut(&mut self.index, key, self.random, self.order)
    }

    /// Gives `key` a cell in the index, and says which.
    fn create_key(&mut self, key: &Pubkey, ref_count: u64) -> (created: Result<u64, BucketMapError>)
        requires
            old(self)@.wf(),
        ensures
            match old(self)@.room(key@) {
                Some(i) => {
                    &&& created == Ok::<u64, BucketMapError>(i as u64)
                    &&& 0 <= i < old(self)@.capacity() <= u64::MAX
                    &&& final(self)@ == old(self)@.with_new_entry(i, *key, ref_count)
                },
                None => {
                    &&& created == Err::<u64, BucketMapError>(
                        BucketMapError::IndexNoSpace(old(self)@.index.capacity_pow2),
                    )
                    &&& final(self)@ == old(self)@
                },
            },
    {
        Self::bucket_create_key(
            &mut self.index,
            key,
            IndexEntry::key_uid(key),
            self.random,
            self.order,
            ref_count,
        )
    }

    /// Adds a reference to `key`, and says how many there are then.
    pub fn addref(&mut self, key: &Pubkey) -> (ref_count: Option<RefCount>)
        requires
            old(self)@.wf(),
            old(self)@.contents().contains_key(key@) ==> old(self)@.contents()[key@].1 < u64::MAX,
        ensures
            final(self)@.wf(),
            ref_count is Some <==> old(self)@.contents().contains_key(key@),
            match ref_count {
                Some(count) => {
                    let (slots, before) = old(self)@.contents()[key@];
                    &&& count == before + 1
                    &&& final(self)@ == old(self)@.with_ref_count(old(self)@.position(key@), count)
                    &&& final(self)@.contents() == old(self)@.contents().insert(
                        key@,
                        (slots, count),
                    )
                },
                None => final(self)@ == old(self)@,
            },
            old(self)@.no_leaks() ==> final(self)@.no_leaks(),
    {
        proof {
            self@.lemma_find(key@);
        }
        let (elem, _) = self.find_entry_mut(key)?;
        elem.ref_count = elem.ref_count + 1;
        let ref_count: u64 = elem.ref_count;
        proof {
            let i = old(self)@.position(key@);
            old(self)@.lemma_ref_count(i, ref_count);
            if old(self)@.no_leaks() {
                old(self)@.lemma_ref_count_owners(i, ref_count);
            }
        }
        Some(ref_count)
    }

    /// Takes a reference from `key`, and says how many there are then.
    pub fn unref(&mut self, key: &Pubkey) -> (ref_count: Option<RefCount>)
        requires
            old(self)@.wf(),
            old(self)@.contents().contains_key(key@) ==> old(self)@.contents()[key@].1 > 0,
        ensures
            final(self)@.wf(),
            ref_count is Some <==> old(self)@.contents().contains_key(key@),
            match ref_count {
                Some(count) => {
                    let (slots, before) = old(self)@.contents()[key@];
                    &&& count == before - 1
                    &&& final(self)@ == old(self)@.with_ref_count(old(self)@.position(key@), count)
                    &&& final(self)@.contents() == old(self)@.contents().insert(
                        key@,
                        (slots, count),
                    )
                },
                None => final(self)@ == old(self)@,
            },
            old(self)@.no_leaks() ==> final(self)@.no_leaks(),
    {
        proof {
            self@.lemma_find(key@);
        }
        let (elem, _) = self.find_entry_mut(key)?;
        elem.ref_count = elem.ref_count - 1;
        let ref_count: u64 = elem.ref_count;
        proof {
            let i = old(self)@.position(key@);
            old(self)@.lemma_ref_count(i, ref_count);
            if old(self)@.no_leaks() {
                old(self)@.lemma_ref_count_owners(i, ref_count);
            }
        }
        Some(ref_count)
    }

    /// The list of slots of `key`, and its number of references.
    pub fn read_value(&self, key: &Pubkey) -> (value: Option<(&[T], RefCount)>)
        requires
            self@.wf(),
        ensures
            value is Some <==> self@.contents().contains_key(key@),
            value matches Some((slots, ref_count)) ==> (slots@, ref_count)
                == self@.contents()[key@],
    {
        proof {
            self@.lemma_find(key@);
        }
        let (elem, ix) = self.find_entry(key)?;
        proof {
            self@.lemma_entry(ix as int);
        }
        elem.read_value(self)
    }

    /// Makes the index ready for a write: `key` has an entry with `ref_count`. Gives the cell of
    /// that entry.
    fn enter_key(&mut self, key: &Pubkey, ref_count: u64) -> (entered: Result<u64, BucketMapError>)
        requires
            old(self)@.wf(),
        ensures
            match old(self)@.entered(*key, ref_count) {
                Some((ready, i)) => {
                    &&& entered == Ok::<u64, BucketMapError>(i as u64)
                    &&& 0 <= i < old(self)@.capacity() <= u64::MAX
                    &&& final(self)@ == ready
                },
                None => {
                    &&& entered == Err::<u64, BucketMapError>(
                        BucketMapError::IndexNoSpace(old(self)@.index.capacity_pow2),
                    )
                    &&& final(self)@ == old(self)@
                },
            },
    {
        proof {
            self@.lemma_find(key@);
            self@.index.lemma_capacity();
        }
        match self.find_entry_mut(key) {
            Some((elem, ix)) => {
                if ref_count != elem.ref_count {
                    elem.ref_count = ref_count;
                }
                Ok(ix)
            },
            None => self.create_key(key, ref_count),
        }
    }

    /// Writes `data` over the list of the entry in cell `elem_ix` of the index, which is of such
    /// a length that `data` fits where it is.
    fn write_in_place(&mut self, elem_ix: u64, data: &[T])
        requires
            old(self)@.wf(),
            elem_ix < old(self)@.capacity(),
            old(self)@.locked(elem_ix as int),
            old(self)@.fits_in_place(elem_ix as int, data@.len()),
        ensures
            final(self)@ == old(self)@.overwritten(elem_ix as int, data@),
    {
        proof {
            self@.lemma_entry(elem_ix as int);
        }
        let ghost before = self@;
        let elem: IndexEntry = *self.index.get(elem_ix);
        let bucket_ix = elem.data_bucket_ix();
        let elem_loc = elem.data_loc(&self.data[bucket_ix as usize]);
        let num_slots: u64 = data.len() as u64;
        self.index.get_mut(elem_ix).num_slots = num_slots;
        self.data[bucket_ix as usize].put_cell_slice(elem_loc, data);
        assert(self@ =~= before.overwritten(elem_ix as int, data@));
    }

    /// Gives up the list of the entry in cell `elem_ix` of the index, and writes `data` to a cell
    /// of the data bucket for its length: the first free one from `pos` on, of as many as may be
    /// searched. Where none of them is free, nothing changes.
    pub fn write_moved(&mut self, elem_ix: u64, data: &[T], pos: u64) -> (result: Result<
        (),
        BucketMapError,
    >)
        requires
            old(self)@.wf(),
            elem_ix < old(self)@.capacity(),
            old(self)@.locked(elem_ix as int),
            !old(self)@.fits_in_place(elem_ix as int, data@.len()),
            data_bucket(data@.len() as int) < old(self)@.data.len(),
            pos < old(self)@.data[data_bucket(data@.len() as int) as int].cells.len(),
        ensures
            (final(self)@, result) == old(self)@.store(elem_ix as int, data@, pos as int),
            final(self)@.wf(),
            result is Ok <==> old(self)@.data_room(
                data_bucket(data@.len() as int) as int,
                pos as int,
            ) is Some,
            ({
                let cells = old(self)@.data[data_bucket(data@.len() as int) as int].cells;
                let len = cells.len() as int;
                result is Err <==> forall|j: int|
                    #![trigger cells[j]]
                    0 <= j < len && (j - pos) % len < old(self)@.index.max_search
                        ==> cells[j].uid != 0
            }),
            result is Ok ==> final(self)@.contents() == old(self)@.contents().insert(
                old(self)@.entry(elem_ix as int).key@,
                (data@, old(self)@.entry(elem_ix as int).ref_count),
            ),
            result is Err ==> final(self)@ == old(self)@,
    {
        proof {
            self@.lemma_entry(elem_ix as int);
        }
        let ghost before = self@;
        let ghost at = elem_ix as int;
        let elem_uid = self.index.uid(elem_ix);
        let elem: IndexEntry = *self.index.get(elem_ix);
        let bucket_ix = elem.data_bucket_ix();
        let num_slots: u64 = data.len() as u64;
        let best_fit_bucket = IndexEntry::data_bucket_from_num_slots(num_slots);
        assert(before.data[best_fit_bucket as int].wf());
        let cap_power = self.data[best_fit_bucket as usize].capacity_pow2();
        let cap = self.data[best_fit_bucket as usize].capacity();
        proof {
            before.data[best_fit_bucket as int].lemma_capacity();
            law_list_gets_nearest_cell(before, best_fit_bucket as int, pos as int);
        }
        let ghost hit = free_cells(before.data[best_fit_bucket as int].cells);
        let end: u64 = pos + self.index.max_search();
        let mut i: u64 = pos;
        while i < end
            invariant
                i <= end,
                0 < cap,
                self@ == before,
                before == old(self)@,
                before.wf(),
                at == elem_ix,
                elem_ix < before.capacity(),
                before.locked(at),
                elem == before.entry(at),
                elem_uid == before.index.cells[at].uid,
                bucket_ix == elem.bucket(),
                num_slots == data@.len(),
                best_fit_bucket == data_bucket(data@.len() as int),
                best_fit_bucket < before.data.len(),
                self.data@.len() == before.data.len(),
                before.data[best_fit_bucket as int].wf(),
                cap_power == before.data[best_fit_bucket as int].capacity_pow2,
                cap == before.data[best_fit_bucket as int].cells.len(),
                !before.fits_in_place(at, data@.len()),
                hit == free_cells(before.data[best_fit_bucket as int].cells),
                before.data_room(best_fit_bucket as int, pos as int) == probe(
                    cap as int,
                    i as int,
                    end - i,
                    hit,
                ),
            decreases end - i,
        {
            let ix: u64 = i % cap;
            i = i + 1;
            if self.data[best_fit_bucket as usize].uid(ix) == UID_UNLOCKED {
                proof {
                    before.lemma_entry(at);
                    before.lemma_data_without(at);
                    before.lemma_relocated(at, data@, ix as int);
                }
                let ghost freed = before.data_without(elem);
                let elem_loc = elem.data_loc(&self.data[bucket_ix as usize]);
                if elem.num_slots > 0 {
                    self.data[bucket_ix as usize].free(elem_loc, elem_uid);
                }
                assert(self@.data =~= freed);
                let moved = self.index.get_mut(elem_ix);
                moved.storage_offset = ix;
                moved.storage_capacity_when_created_pow2 = cap_power;
                moved.num_slots = num_slots;
                if num_slots > 0 {
                    assert(freed[best_fit_bucket as int].cells[ix as int]
                        == before.data[best_fit_bucket as int].cells[ix as int]);
                    self.data[best_fit_bucket as usize].allocate(ix, elem_uid).unwrap();
                    self.data[best_fit_bucket as usize].put_cell_slice(ix, data);
                }
                proof {
                    assert(self@ =~= before.relocated(at, data@, ix as int));
                    law_list_gets_nearest_cell(before, best_fit_bucket as int, pos as int);
                }
                return Ok(());
            }
        }
        Err(BucketMapError::DataNoSpace((best_fit_bucket, cap_power)))
    }

    /// Writes `data` and `ref_count` for `key`, unless a table has no room. A key whose list has no
    /// room keeps the list that it had, or gets an empty one.
    pub fn try_write(&mut self, key: &Pubkey, data: &[T], ref_count: u64) -> (result: Result<
        (),
        BucketMapError,
    >)
        requires
            old(self)@.wf(),
        ensures
            final(self)@.wf(),
            exists|pos: int|
                old(self)@.starts(data@.len(), pos) && (final(self)@, result) == #[trigger] old(
                    self,
                )@.write(*key, data@, ref_count, pos),
            old(self)@.same_shape(final(self)@),
            old(self)@.no_leaks() && !old(self)@.drops_cell(key@, data@.len())
                ==> final(self)@.no_leaks(),
            ({
                let bucket = data_bucket(data@.len() as int);
                let no_bucket = old(self)@.data.len() <= bucket;
                let no_entry = !old(self)@.contents().contains_key(key@) && old(self)@.room(
                    key@,
                ) is None;
                match result {
                    Ok(()) => {
                        &&& !no_bucket && !no_entry
                        &&& final(self)@.contents() == old(self)@.contents().insert(
                            key@,
                            (data@, ref_count),
                        )
                    },
                    Err(BucketMapError::IndexNoSpace(capacity_pow2)) => {
                        &&& !no_bucket && no_entry
                        &&& capacity_pow2 == old(self)@.index.capacity_pow2
                        &&& final(self)@ == old(self)@
                    },
                    Err(BucketMapError::DataNoSpace((b, capacity_pow2))) => {
                        &&& b == bucket
                        &&& no_bucket ==> capacity_pow2 == 0 && final(self)@ == old(self)@
                        &&& !no_bucket ==> {
                            &&& !no_entry
                            &&& capacity_pow2 == old(self)@.data[bucket as int].capacity_pow2
                            &&& final(self)@.contents() == old(self)@.touched(key@, ref_count)
                        }
                    },
                }
            }),
    {
        let ghost before = self@;
        let best_fit_bucket = IndexEntry::data_bucket_from_num_slots(data.len() as u64);
        proof {
            before.lemma_find(key@);
            if before.no_leaks() && !before.drops_cell(key@, data@.len()) {
                assert forall|pos: int| (#[trigger] before.write(
                    *key,
                    data@,
                    ref_count,
                    pos,
                )).0.no_leaks() by {
                    before.lemma_write_owners(*key, data@, ref_count, pos);
                }
            }
        }
        if best_fit_bucket >= self.data.len() as u64 {
            // fail early if the data bucket we need doesn't exist - we don't want the index entry partially allocated
            proof {
                before.lemma_write(*key, data@, ref_count, 0);
                assert(before.starts(data@.len(), 0));
            }
            return Err(BucketMapError::DataNoSpace((best_fit_bucket, 0)));
        }
        proof {
            assert(before.data[best_fit_bucket as int].wf());
            before.data[best_fit_bucket as int].lemma_capacity();
            before.lemma_entered(*key, ref_count);
        }
        let elem_ix: u64 = match self.enter_key(key, ref_count) {
            Ok(ix) => ix,
            Err(err) => {
                proof {
                    before.lemma_write(*key, data@, ref_count, 0);
                    assert(before.starts(data@.len(), 0));
                }
                return Err(err);
            },
        };
        let ghost ready = self@;
        proof {
            ready.lemma_entry(elem_ix as int);
            assert(ready.data == before.data);
        }
        let elem: IndexEntry = *self.index.get(elem_ix);
        if best_fit_bucket == elem.data_bucket_ix() && elem.num_slots > 0 {
            //in place update
            self.write_in_place(elem_ix, data);
            proof {
                before.lemma_write(*key, data@, ref_count, 0);
                assert(before.starts(data@.len(), 0));
            }
            Ok(())
        } else {
            //need to move the allocation to a best fit spot
            let cap = self.data[best_fit_bucket as usize].capacity();
            let pos = random_below(cap);
            proof {
                before.lemma_write(*key, data@, ref_count, pos as int);
                assert(before.starts(data@.len(), pos as int));
            }
            self.write_moved(elem_ix, data, pos)
        }
    }

    /// Takes `key` and its list out.
    pub fn delete_key(&mut self, key: &Pubkey)
        requires
            old(self)@.wf(),
        ensures
            final(self)@.wf(),
            final(self)@ == old(self)@.deleted(key@),
            final(self)@.contents() == old(self)@.contents().remove(key@),
            old(self)@.same_shape(final(self)@),
            old(self)@.no_leaks() ==> final(self)@.no_leaks(),
    {
        let ghost before = self@;
        proof {
            before.lemma_find(key@);
            before.lemma_deleted(key@);
            if before.no_leaks() {
                before.lemma_deleted_owners(key@);
            }
        }
        if let Some((elem, elem_ix)) = self.find_entry(key) {
            proof {
                before.lemma_entry(elem_ix as int);
            }
            let elem: IndexEntry = *elem;
            let elem_uid = self.index.uid(elem_ix);
            if elem.num_slots > 0 {
                let bucket_ix = elem.data_bucket_ix() as usize;
                let loc = elem.data_loc(&self.data[bucket_ix]);
                self.data[bucket_ix].free(loc, elem_uid);
            }
            assert(self@.data =~= before.data_without(elem));
            self.index.free(elem_ix, elem_uid);
            assert(self@ =~= before.deleted(key@));
        }
    }

    /// The index of `2^capacity_pow2` cells, with the random offset `random`, that could take the
    /// place of this bucket's; nothing where it has no room for some entry.
    pub fn reindex(&self, capacity_pow2: u8, random: u64) -> (index: Option<
        BucketStorage<IndexEntry>,
    >)
        requires
            self@.wf(),
            capacity_pow2 < usize::BITS,
        ensures
            match self@.larger_index(capacity_pow2, random) {
                Some(larger) => index matches Some(index) && index@ == larger,
                None => index is None,
            },
            index matches Some(index) ==> self@.with_index(random, index@).wf() && self@.with_index(
                random,
                index@,
            ).contents() == self@.contents(),
    {
        let mut index = BucketStorage::<IndexEntry>::new_with_capacity(
            Arc::clone(&self.drives),
            1,
            std::mem::size_of::<IndexEntry>() as u64,
            capacity_pow2,
            self.index.search_limit(),
        );
        let ghost target = index@;
        assert(target == self@.fresh_index(capacity_pow2));
        let capacity = self.index.capacity();
        let mut ix: u64 = 0;
        while ix < capacity
            invariant
                self@.wf(),
                ix <= capacity,
                capacity == self@.capacity(),
                target == self@.fresh_index(capacity_pow2),
                index@.wf(),
                reindexed(self@.index.cells, ix as int, target, random, self@.order) == Some(
                    index@,
                ),
            decreases capacity - ix,
        {
            let ghost before = index@;
            let uid = self.index.uid(ix);
            if UID_UNLOCKED != uid {
                proof {
                    self@.lemma_entry(ix as int);
                }
                let elem: IndexEntry = *self.index.get(ix);
                let ref_count: u64 = 0;
                let new_ix: u64 = match Self::bucket_create_key(
                    &mut index,
                    &elem.key,
                    uid,
                    random,
                    self.order,
                    ref_count,
                ) {
                    Ok(new_ix) => new_ix,
                    Err(_) => {
                        proof {
                            BucketModel::<T>::lemma_reindexed_stuck(
                                self@.index.cells,
                                ix + 1,
                                capacity as int,
                                target,
                                random,
                                self@.order,
                            );
                        }
                        return None;
                    },
                };
                index.put(new_ix, elem);
                assert(index@ =~= before.allocate(new_ix as int, uid).put(
                    new_ix as int,
                    seq![elem],
                ));
            }
            ix = ix + 1;
        }
        proof {
            self@.lemma_larger_index(capacity_pow2, random);
        }
        Some(index)
    }

    /// A larger index for the entries as they are, and its random offset. Each size is tried with a
    /// random offset, from the next one up; the first that has room for all entries is taken.
    fn find_larger_index(&self) -> (grown: Option<(u64, BucketStorage<IndexEntry>)>)
        requires
            self@.wf(),
        ensures
            match grown {
                Some((random, index)) => {
                    &&& index@.wf()
                    &&& self@.takes_index(index@.capacity_pow2, random)
                    &&& self@.larger_index(index@.capacity_pow2, random) == Some(index@)
                },
                None => self@.index_exhausted(),
            },
    {
        let current_capacity = self.index.capacity_pow2();
        let mut capacity_pow2: u8 = current_capacity;
        while (capacity_pow2 as u32) + 1 < usize::BITS
            invariant
                self@.wf(),
                current_capacity == self@.index.capacity_pow2,
                current_capacity <= capacity_pow2 < usize::BITS,
                forall|smaller: u8|
                    current_capacity < smaller <= capacity_pow2 ==> #[trigger] self@.may_overflow(
                        smaller,
                    ),
            decreases usize::BITS - capacity_pow2,
        {
            capacity_pow2 = capacity_pow2 + 1;
            let random = random_u64();
            match self.reindex(capacity_pow2, random) {
                Some(index) => {
                    proof {
                        self@.lemma_larger_index(capacity_pow2, random);
                        assert(self@.with_index(random, index@).index.wf());
                    }
                    return Some((random, index));
                },
                None => {
                    assert(self@.may_overflow(capacity_pow2));
                },
            }
        }
        None
    }

    /// A larger data bucket with the lists of data bucket `data_index` as they are.
    fn make_larger_data(&self, data_index: u64, current_capacity: u8) -> (bucket: BucketStorage<T>)
        requires
            self@.wf(),
            self@.may_grow_data(data_index as int, current_capacity + 1),
        ensures
            bucket@ == self@.larger_data(data_index as int, (current_capacity + 1) as u8),
    {
        proof {
            vstd::bits::lemma_u64_pow2_no_overflow(data_index as nat);
            vstd::bits::lemma_u64_shl_is_mul(1, data_index);
            if data_index < self@.data.len() {
                assert(self@.data[data_index as int].wf());
            }
        }
        let bucket: Option<&BucketStorage<T>> = if data_index < self.data.len() as u64 {
            Some(&self.data[data_index as usize])
        } else {
            None
        };
        self.index.grow(bucket, current_capacity + 1, 1u64 << data_index, Self::elem_size())
    }

    /// The larger table for the error `err`, made from the tables as they are and not put in place.
    /// There is none where the index no longer has the size that `err` names.
    pub fn larger_table(&self, err: BucketMapError) -> (larger: Result<
        ReallocatedItems<T>,
        BucketMapError,
    >)
        requires
            self@.wf(),
            err matches BucketMapError::DataNoSpace((data_index, current_capacity))
                ==> self@.may_grow_data(data_index as int, current_capacity + 1),
        ensures
            match err {
                BucketMapError::DataNoSpace((data_index, current_capacity)) => {
                    &&& larger matches Ok(items)
                    &&& items.index is None
                    &&& items.data matches Some((bucket, storage))
                    &&& bucket == data_index
                    &&& storage@ == self@.larger_data(
                        data_index as int,
                        (current_capacity + 1) as u8,
                    )
                },
                BucketMapError::IndexNoSpace(current_capacity) => if self@.index.capacity_pow2
                    != current_capacity {
                    larger matches Ok(items) && items.index is None && items.data is None
                } else {
                    match larger {
                        Ok(items) => {
                            &&& items.data is None
                            &&& items.index matches Some((random, index))
                            &&& index@.wf()
                            &&& self@.takes_index(index@.capacity_pow2, random)
                            &&& self@.larger_index(index@.capacity_pow2, random) == Some(index@)
                        },
                        Err(exhausted) => exhausted == err && self@.index_exhausted(),
                    }
                },
            },
    {
        match err {
            BucketMapError::DataNoSpace((data_index, current_capacity)) => {
                let bucket = self.make_larger_data(data_index, current_capacity);
                Ok(ReallocatedItems { index: None, data: Some((data_index, bucket)) })
            },
            BucketMapError::IndexNoSpace(current_capacity) => {
                if self.index.capacity_pow2() != current_capacity {
                    return Ok(ReallocatedItems::default());
                }
                match self.find_larger_index() {
                    Some(grown) => Ok(ReallocatedItems { index: Some(grown), data: None }),
                    None => Err(BucketMapError::IndexNoSpace(current_capacity)),
                }
            },
        }
    }

    /// Keeps `index`, with its random offset, to be put in place later. `us` is the time in
    /// microseconds that it took to make.
    pub fn defer_index(&mut self, random: u64, index: BucketStorage<IndexEntry>, us: u64)
        requires
            index@.wf(),
            old(self)@.reallocated.active == 0,
        ensures
            final(self)@ == old(self)@.with_deferred_index(random, index@, us),
            old(self)@.wf() ==> final(self)@.wf() && final(self)@.contents() == old(
                self,
            )@.contents(),
    {
        let ghost before = self@;
        let sz = index.capacity();
        self.stats.index.record_size(sz);
        self.reallocated.items.index = Some((random, index));
        self.reallocated.add_reallocation();
        self.stats.index.record_resize(us);
        proof {
            assert(self@ =~= before.with_deferred_index(random, index@, us));
            if before.wf() {
                BucketModel::lemma_same_tables(before, self@);
            }
        }
    }

    /// Keeps `bucket` to be put in place later as data bucket `data_index`.
    pub fn defer_data(&mut self, data_index: u64, bucket: BucketStorage<T>)
        requires
            old(self)@.reallocated.active == 0,
        ensures
            final(self)@ == old(self)@.with_deferred_data(data_index, bucket@),
            old(self)@.wf() ==> final(self)@.wf() && final(self)@.contents() == old(
                self,
            )@.contents(),
    {
        let ghost before = self@;
        self.reallocated.add_reallocation();
        self.reallocated.items.data = Some((data_index, bucket));
        proof {
            assert(self@ =~= before.with_deferred_data(data_index, bucket@));
            if before.wf() {
                BucketModel::lemma_same_tables(before, self@);
            }
        }
    }

    /// Makes a larger index, to be put in place later, unless the index no longer has
    /// `2^current_capacity` cells. Each size is tried with a random offset, from the next one up;
    /// the first that has room for all entries is taken. That is the next one where no more entries
    /// are kept than cells are searched.
    pub fn grow_index(&mut self, current_capacity: u8) -> (result: Result<(), BucketMapError>)
        requires
            old(self)@.wf(),
            old(self)@.index.capacity_pow2 == current_capacity ==> old(self)@.reallocated.active
                == 0,
        ensures
            old(self)@.grows_index(current_capacity, final(self)@, result),
            old(self)@.index.capacity_pow2 != current_capacity ==> result is Ok && final(self)@
                == old(self)@,
            old(self)@.index.capacity_pow2 == current_capacity && current_capacity + 1 < usize::BITS
                && old(self)@.index.used <= old(self)@.index.max_search ==> {
                &&& result is Ok
                &&& final(self)@.reallocated.index matches Some((_, index))
                &&& index.capacity_pow2 == current_capacity + 1
            },
            old(self)@.reallocated.idle() ==> final(self)@.pending_current(),
            final(self)@.wf(),
            final(self)@.contents() == old(self)@.contents(),
    {
        let ghost before = self@;
        if self.index.capacity_pow2() != current_capacity {
            return Ok(());
        }
        let mut m = start_measure("grow_index");
        let grown = self.find_larger_index();
        stop_measure(&mut m);
        let us: u64 = measured_us(&m);
        proof {
            if current_capacity + 1 < usize::BITS && before.index.used <= before.index.max_search {
                before.lemma_no_overflow((current_capacity + 1) as u8);
            }
        }
        match grown {
            Some((random, index)) => {
                let ghost larger = index@;
                self.defer_index(random, index, us);
                proof {
                    let capacity_pow2 = larger.capacity_pow2;
                    assert(self@ == before.with_pending_index(capacity_pow2, random, us));
                    assert(self@.larger_index(capacity_pow2, random) == before.larger_index(
                        capacity_pow2,
                        random,
                    ));
                }
                Ok(())
            },
            None => {
                self.stats.index.record_resize(us);
                proof {
                    BucketModel::lemma_same_tables(before, self@);
                }
                Err(BucketMapError::IndexNoSpace(current_capacity))
            },
        }
    }

    /// Puts `index`, with its random offset, in place.
    pub fn apply_grow_index(&mut self, random: u64, index: BucketStorage<IndexEntry>)
        ensures
            final(self)@ == old(self)@.with_index(random, index@),
    {
        self.random = random;
        self.index = index;
    }

    /// The size of a slot in bytes.
    pub fn elem_size() -> (size: u64)
        ensures
            size == vstd::layout::size_of::<T>() as u64,
            size as nat == vstd::layout::size_of::<T>(),
    {
        std::mem::size_of::<T>() as u64
    }

    /// Puts `bucket` in place as data bucket `ix`, after unused ones where there were none.
    pub fn apply_grow_data(&mut self, ix: usize, bucket: BucketStorage<T>)
        requires
            ix <= 64 || ix < old(self)@.data.len(),
        ensures
            final(self)@ == old(self)@.with_data(ix as int, bucket@),
    {
        let ghost before = self@;
        let ghost added = bucket@;
        if ix >= self.data.len() {
            let mut i: usize = self.data.len();
            while i < ix
                invariant
                    ix <= 64,
                    before.data.len() <= i <= ix,
                    self@.data.len() == i,
                    self@ == (BucketModel { data: self@.data, ..before }),
                    forall|b: int|
                        0 <= b < i ==> #[trigger] self@.data[b] == if b < before.data.len() {
                            before.data[b]
                        } else {
                            before.fresh_data(b, DEFAULT_CAPACITY_POW2)
                        },
                decreases ix - i,
            {
                let ghost filled = self@.data;
                proof {
                    vstd::bits::lemma_u64_pow2_no_overflow(i as nat);
                    vstd::bits::lemma_u64_shl_is_mul(1, i as u64);
                }
                // insert empty data buckets
                let empty = BucketStorage::<T>::new(
                    Arc::clone(&self.drives),
                    1u64 << (i as u64),
                    Self::elem_size(),
                    self.index.search_limit(),
                );
                self.data.push(empty);
                assert(self@.data =~= filled.push(empty@));
                i = i + 1;
            }
            let ghost filled = self@.data;
            self.data.push(bucket);
            assert(self@.data =~= filled.push(added));
            assert(self@.data =~= before.with_data(ix as int, added).data);
        } else {
            self.data[ix] = bucket;
            assert(self@.data =~= before.data.update(ix as int, added));
        }
        assert(self@ =~= before.with_data(ix as int, added));
    }

    /// grow a data bucket
    /// The application of the new bucket is deferred until `handle_delayed_grows`.
    pub fn grow_data(&mut self, data_index: u64, current_capacity: u8)
        requires
            old(self)@.wf(),
            old(self)@.may_grow_data(data_index as int, current_capacity + 1),
            old(self)@.reallocated.active == 0,
        ensures
            final(self)@ == old(self)@.with_pending_data(data_index, (current_capacity + 1) as u8),
            old(self)@.reallocated.idle() ==> final(self)@.pending_current(),
            final(self)@.wf(),
            final(self)@.contents() == old(self)@.contents(),
    {
        let ghost before = self@;
        let new_bucket = self.make_larger_data(data_index, current_capacity);
        self.defer_data(data_index, new_bucket);
        proof {
            let capacity_pow2 = (current_capacity + 1) as u8;
            assert(self@.larger_data(data_index as int, capacity_pow2) == before.larger_data(
                data_index as int,
                capacity_pow2,
            ));
            assert(self@.may_grow_data(data_index as int, capacity_pow2 as int));
            assert(self@.extends_data(
                data_index,
                before.larger_data(data_index as int, capacity_pow2),
            ));
        }
    }

    /// grow the appropriate piece.
    /// The actual grow is set into self.reallocated and applied later by `handle_delayed_grows`.
    pub fn grow(&mut self, err: BucketMapError) -> (result: Result<(), BucketMapError>)
        requires
            old(self)@.wf(),
            match err {
                BucketMapError::DataNoSpace((data_index, current_capacity)) => {
                    &&& old(self)@.may_grow_data(data_index as int, current_capacity + 1)
                    &&& old(self)@.reallocated.active == 0
                },
                BucketMapError::IndexNoSpace(current_capacity) => {
                    old(self)@.index.capacity_pow2 == current_capacity ==> old(
                        self,
                    )@.reallocated.active == 0
                },
            },
        ensures
            old(self)@.grows(err, final(self)@, result),
            err matches BucketMapError::IndexNoSpace(current_capacity) ==> old(
                self,
            )@.index.capacity_pow2 != current_capacity ==> result is Ok && final(self)@ == old(
                self,
            )@,
            err matches BucketMapError::DataNoSpace(_) ==> result is Ok,
            old(self)@.reallocated.idle() ==> final(self)@.pending_current(),
            final(self)@.wf(),
            final(self)@.contents() == old(self)@.contents(),
    {
        match err {
            BucketMapError::DataNoSpace((data_index, current_capacity)) => {
                self.grow_data(data_index, current_capacity);
                Ok(())
            },
            BucketMapError::IndexNoSpace(current_capacity) => self.grow_index(current_capacity),
        }
    }

    /// if a bucket was resized previously, then apply that resize now
    pub fn handle_delayed_grows(&mut self)
        requires
            old(self)@.pending_applies(),
        ensures
            final(self)@ == old(self)@.settled(),
            old(self)@.wf() && old(self)@.pending_current() ==> {
                &&& final(self)@.wf()
                &&& final(self)@.contents() == old(self)@.contents()
                &&& old(self)@.no_leaks() ==> final(self)@.no_leaks()
            },
    {
        let ghost before = self@;
        proof {
            if before.wf() && before.pending_current() {
                before.lemma_settled();
                if before.no_leaks() {
                    before.lemma_settled_owners();
                }
            }
            assert(self.data.len() == before.data.len());
        }
        if self.reallocated.get_reallocated() {
            // swap out the bucket that was resized previously
            let mut items: ReallocatedItems<T> = ReallocatedItems::default();
            std::mem::swap(&mut items, &mut self.reallocated.items);
            let ghost rest = self@;
            assert(rest =~= (BucketModel {
                reallocated: ReallocatedModel { active: 0, index: None, data: None },
                ..before
            }));
            if let Some((random, bucket)) = items.index.take() {
                self.apply_grow_index(random, bucket);
            } else {
                // data bucket
                let (i, new_bucket) = items.data.take().unwrap();
                self.apply_grow_data(i as usize, new_bucket);
            }
        }
    }

    /// Whether a table that had no room can be made larger.
    fn can_grow(err: &BucketMapError) -> (can: bool)
        ensures
            can == growable(*err),
    {
        match err {
            BucketMapError::DataNoSpace((bucket, capacity_pow2)) => *bucket < 64 && (
            *capacity_pow2 as u32) + 1 < usize::BITS,
            BucketMapError::IndexNoSpace(_) => true,
        }
    }

    /// Writes a list of slots and a number of references for `key`, and makes tables larger until
    /// there is room. A table is made larger only after a write that found no room in it. An error
    /// says which table cannot be made large enough. A key that is there, or that the index has room
    /// for, gets its list without error where `max_search` is at least two and its data bucket can
    /// still be doubled.
    pub fn insert(&mut self, key: &Pubkey, value: (&[T], RefCount)) -> (result: Result<
        (),
        BucketMapError,
    >)
        requires
            old(self)@.wf(),
            old(self)@.reallocated.idle() || old(self)@.always_fits(*key, value.0@, value.1),
        ensures
            final(self)@.wf(),
            final(self)@.reallocated == old(self)@.reallocated,
            old(self)@.insert_outcome(*key, value.0@, value.1, final(self)@, result),
            result is Ok ==> final(self)@.contents() == old(self)@.contents().insert(
                key@,
                (value.0@, value.1),
            ),
            result is Ok && old(self)@.index.capacity_pow2 == final(self)@.index.capacity_pow2
                ==> final(self)@.stats == old(self)@.stats,
            old(self)@.no_leaks() && !old(self)@.drops_cell(key@, value.0@.len())
                ==> final(self)@.no_leaks(),
    {
        let ghost before = self@;
        let (new, refct) = value;
        let ghost bucket = data_bucket(new@.len() as int) as int;
        let ghost sound = before.no_leaks() && !before.drops_cell(key@, new@.len());
        proof {
            before.lemma_underway(*key, new@, refct);
            assert(new.len() <= u64::MAX);
        }
        loop
            invariant
                before == old(self)@,
                new@ == value.0@,
                new@.len() <= u64::MAX,
                refct == value.1,
                bucket == data_bucket(new@.len() as int),
                self@.wf(),
                before.underway(*key, new@, refct, self@),
                sound == (before.no_leaks() && !before.drops_cell(key@, new@.len())),
                sound ==> self@.no_leaks() && !self@.drops_cell(key@, new@.len()),
            decreases self@.headroom(bucket),
        {
            let ghost now = self@;
            let written = self.try_write(key, new, refct);
            let ghost failed = self@;
            let ghost pos = choose|pos: int|
                now.starts(new@.len(), pos) && (failed, written) == #[trigger] now.write(
                    *key,
                    new@,
                    refct,
                    pos,
                );
            match written {
                Ok(()) => {
                    proof {
                        before.lemma_concluded(*key, new@, refct, now, pos);
                    }
                    return Ok(());
                },
                Err(err) => {
                    if !Self::can_grow(&err) {
                        proof {
                            before.lemma_concluded(*key, new@, refct, now, pos);
                        }
                        return Err(err);
                    }
                    proof {
                        before.lemma_may_grow(*key, new@, refct, now, pos, err);
                    }
                    let grown = self.grow(err);
                    let ghost pending = self@;
                    proof {
                        if sound {
                            BucketModel::lemma_same_owners(failed, pending);
                        }
                    }
                    if let Err(exhausted) = grown {
                        proof {
                            before.lemma_given_up(
                                *key,
                                new@,
                                refct,
                                now,
                                pos,
                                err,
                                pending,
                                grown,
                            );
                        }
                        return Err(exhausted);
                    }
                    self.handle_delayed_grows();
                    proof {
                        before.lemma_again(*key, new@, refct, now, pos, err, pending);
                    }
                },
            }
        }
    }

    /// Hands what is kept for `key` to `updatefn`, and keeps what it gives back: a list of slots
    /// and a number of references, or nothing.
    pub fn update<F>(&mut self, key: &Pubkey, updatefn: F) -> (result: Result<(), BucketMapError>)
        where F: Fn(Option<(&[T], RefCount)>) -> Option<(Vec<T>, RefCount)>
        requires
            old(self)@.wf(),
            forall|current: Option<(&[T], RefCount)>| #[trigger]
                old(self)@.shows(key@, current) ==> call_requires(updatefn, (current,)),
            old(self)@.reallocated.idle() || forall|
                current: Option<(&[T], RefCount)>,
                slots: Vec<T>,
                ref_count: RefCount,
            |
                old(self)@.shows(key@, current) && #[trigger] call_ensures(
                    updatefn,
                    (current,),
                    Some((slots, ref_count)),
                ) ==> old(self)@.always_fits(*key, slots@, ref_count),
        ensures
            final(self)@.wf(),
            final(self)@.reallocated == old(self)@.reallocated,
            old(self)@.outgrown_by(final(self)@),
            exists|current: Option<(&[T], RefCount)>, new: Option<(Vec<T>, RefCount)>|
                {
                    &&& old(self)@.shows(key@, current)
                    &&& #[trigger] call_ensures(updatefn, (current,), new)
                    &&& match new {
                        None => {
                            &&& result is Ok
                            &&& final(self)@ == old(self)@.deleted(key@)
                            &&& final(self)@.contents() == old(self)@.contents().remove(key@)
                        },
                        Some((slots, ref_count)) => old(self)@.insert_outcome(
                            *key,
                            slots@,
                            ref_count,
                            final(self)@,
                            result,
                        ),
                    }
                    &&& old(self)@.no_leaks() && (new matches Some((slots, _)) ==> !old(
                        self,
                    )@.drops_cell(key@, slots@.len())) ==> final(self)@.no_leaks()
                },
    {
        let current = self.read_value(key);
        assert(self@.shows(key@, current));
        let new = updatefn(current);
        match new {
            None => {
                self.delete_key(key);
                Ok(())
            },
            Some((new, refct)) => self.insert(key, (new.as_slice(), refct)),
        }
    }

    /// The keys, in the order of their cells.
    pub fn keys(&self) -> (keys: Vec<Pubkey>)
        requires
            self@.wf(),
        ensures
            keys@ == self@.keys_upto(self@.capacity()),
            keys@.map_values(|key: Pubkey| key@).no_duplicates(),
            keys@.map_values(|key: Pubkey| key@).to_set() == self@.contents().dom(),
    {
        proof {
            self@.lemma_keys();
        }
        let mut rv: Vec<Pubkey> = Vec::new();
        let capacity = self.index.capacity();
        let mut i: u64 = 0;
        while i < capacity
            invariant
                self@.wf(),
                i <= capacity,
                capacity == self@.capacity(),
                rv@ == self@.keys_upto(i as int),
            decreases capacity - i,
        {
            let ii: u64 = i;
            i = i + 1;
            if self.index.uid(ii) == UID_UNLOCKED {
                continue;
            }
            proof {
                self@.lemma_entry(ii as int);
            }
            let ix = self.index.get(ii);
            rv.push(ix.key);
        }
        rv
    }

    /// What is kept for each key in `range`, or for each key if there is no range, in the order of
    /// their cells.
    pub fn items_in_range(&self, range: &Option<&KeyRange>) -> (items: Vec<BucketItem<T>>)
        requires
            self@.wf(),
        ensures
            ({
                let bounds = match *range {
                    Some(range) => Some(*range),
                    None => None,
                };
                &&& items@.map_values(|item: BucketItem<T>| item@) == self@.items_upto(
                    self@.capacity(),
                    bounds,
                )
                &&& forall|p: int|
                    0 <= p < items@.len() ==> self@.has_item((#[trigger] items@[p])@) && in_range(
                        bounds,
                        items@[p].pubkey@,
                    )
                &&& forall|key: Seq<u8>|
                    self@.contents().contains_key(key) && in_range(bounds, key) ==> exists|p: int|
                        0 <= p < items@.len() && (#[trigger] items@[p]).pubkey@ == key
                &&& forall|p: int, q: int|
                    0 <= p < q < items@.len() ==> (#[trigger] items@[p]).pubkey@ != (
                    #[trigger] items@[q]).pubkey@
            }),
    {
        let ghost bounds = match *range {
            Some(range) => Some(*range),
            None => None,
        };
        let ghost shown = |item: BucketItem<T>| item@;
        proof {
            self@.index.lemma_capacity();
        }
        let mut result: Vec<BucketItem<T>> = Vec::with_capacity(self.index.used() as usize);
        assert(result@.map_values(shown) =~= Seq::empty());
        let capacity = self.index.capacity();
        let mut i: u64 = 0;
        while i < capacity
            invariant
                self@.wf(),
                i <= capacity,
                capacity == self@.capacity(),
                bounds == (match *range {
                    Some(range) => Some(*range),
                    None => None,
                }),
                shown == (|item: BucketItem<T>| item@),
                result@.map_values(shown) == self@.items_upto(i as int, bounds),
            decreases capacity - i,
        {
            let ii: u64 = i % capacity;
            proof {
                vstd::arithmetic::div_mod::lemma_small_mod(i as nat, capacity as nat);
            }
            i = i + 1;
            if self.index.uid(ii) == UID_UNLOCKED {
                continue;
            }
            proof {
                self@.lemma_entry(ii as int);
            }
            let ix = self.index.get(ii);
            let key = ix.key;
            let inside = match range {
                Some(r) => r.contains(&key),
                None => true,
            };
            if inside {
                let slot_list = match ix.read_value(self) {
                    Some((v, _)) => vstd::slice::slice_to_vec(v),
                    None => Vec::new(),
                };
                let item = BucketItem { pubkey: key, ref_count: ix.ref_count(), slot_list };
                assert(item@ =~= self@.item(ii as int));
                let ghost listed = result@;
                result.push(item);
                assert(result@.map_values(shown) =~= listed.map_values(shown).push(item@));
            }
        }
        proof {
            self@.lemma_items(bounds);
            let listed = self@.items_upto(self@.capacity(), bounds);
            assert(listed == result@.map_values(shown));
            assert forall|p: int| 0 <= p < result@.len() implies listed[p] == (
            #[trigger] result@[p])@ by {}
            assert forall|key: Seq<u8>|
                self@.contents().contains_key(key) && in_range(bounds, key) implies exists|p: int|
                0 <= p < result@.len() && (#[trigger] result@[p]).pubkey@ == key by {
                let p = choose|p: int|
                    0 <= p < listed.len() && (#[trigger] listed[p]).pubkey@ == key;
                assert(result@[p].pubkey@ == key);
            }
            assert forall|p: int, q: int| 0 <= p < q < result@.len() implies (
            #[trigger] result@[p]).pubkey@ != (#[trigger] result@[q]).pubkey@ by {
                assert(listed[p].pubkey@ != listed[q].pubkey@);
            }
        }
        result
    }
}

impl IndexEntry {
    /// The list that the entry refers to, and the number of references.
    pub fn read_value<'a, T: Clone + Copy>(&self, bucket: &'a Bucket<T>) -> (value: Option<
        (&'a [T], RefCount),
    >)
        requires
            bucket@.wf(),
            stored(bucket@.data, *self, key_uid(self.key@)),
        ensures
            value matches Some((slots, ref_count)) && slots@ == slots_of(bucket@.data, *self)
                && ref_count == self.ref_count,
    {
        let data_bucket_ix = self.data_bucket_ix();
        assert(bucket@.data[data_bucket_ix as int].wf());
        let data_bucket = &bucket.data[data_bucket_ix as usize];
        let slice = if self.num_slots > 0 {
            let loc = self.data_loc(data_bucket);
            let slots = data_bucket.get_cell_slice(loc, self.num_slots);
            assert(slots@ =~= slots_of(bucket@.data, *self));
            slots
        } else {
            data_bucket.get_empty_cell_slice()
        };
        Some((slice, self.ref_count))
    }
}

} // verus!
