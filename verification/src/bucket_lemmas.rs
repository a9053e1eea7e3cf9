//! How the operations on a bucket's tables act on the map that the tables stand for.
use crate::bucket_model::{
    apart, data_wf, free_cells, holding, index_wf, index_with, placed, reindexed, room_in,
    slots_of, stored, BucketModel, ReallocatedModel,
};
use crate::bucket_storage::{lemma_spread_at, CellModel, StorageModel, DEFAULT_CAPACITY_POW2};
use crate::byte_order::ByteOrder;
use crate::index_entry::{data_bucket, home, key_uid, lemma_fits_unique, IndexEntry};
use crate::probe::{lemma_probe_found, lemma_probe_missed, visited};
use crate::pubkey::Pubkey;
use vstd::arithmetic::power2::pow2;
use vstd::prelude::*;

verus! {

impl<T> BucketModel<T> {
    /// The search for a key finds its entry where there is one.
    pub proof fn lemma_find(self, key: Seq<u8>)
        requires
            index_wf(self.index, self.random, self.order),
        ensures
            self.find(key) is Some <==> self.has(key),
            self.find(key) matches Some(i) ==> self.holds(i, key) && self.position(key) == i,
    {
        let capacity = self.capacity();
        let start = home(key, self.random, self.order, capacity);
        let steps = self.index.max_search as int;
        let hit = holding(self.index.cells, key);
        self.index.lemma_capacity();
        if self.find(key) is Some {
            lemma_probe_found(capacity, start, steps, hit);
            self.lemma_position(self.find(key)->0, key);
        } else if self.has(key) {
            let i = self.position(key);
            assert(self.holds(i, key));
            assert(placed(self.index, self.random, self.order, i));
            lemma_probe_missed(capacity, start, steps, hit, i);
        }
    }

    /// No key has two entries.
    pub proof fn lemma_position(self, i: int, key: Seq<u8>)
        requires
            index_wf(self.index, self.random, self.order),
            self.holds(i, key),
        ensures
            self.has(key),
            self.position(key) == i,
    {
        let j = self.position(key);
        assert(self.holds(j, key));
        if i != j {
            assert(self.index.cells[i].items[0].key@ != self.index.cells[j].items[0].key@);
        }
    }

    /// What the map says of the key in cell `i`.
    pub proof fn lemma_contents_at(self, i: int)
        requires
            index_wf(self.index, self.random, self.order),
            0 <= i < self.capacity(),
            self.locked(i),
        ensures
            self.contents().contains_key(self.entry(i).key@),
            self.contents()[self.entry(i).key@] == (
                slots_of(self.data, self.entry(i)),
                self.entry(i).ref_count,
            ),
    {
        assert(self.holds(i, self.entry(i).key@));
        self.lemma_position(i, self.entry(i).key@);
    }

    /// The cell in which the index has room for a key is free, and is visited when that key is
    /// searched for.
    pub proof fn lemma_room(self, key: Seq<u8>)
        requires
            self.index.wf(),
            self.room(key) is Some,
        ensures
            0 <= self.room(key)->0 < self.capacity(),
            !self.locked(self.room(key)->0),
            visited(
                self.capacity(),
                home(key, self.random, self.order, self.capacity()),
                self.index.max_search as int,
                self.room(key)->0,
            ),
    {
        self.index.lemma_capacity();
        lemma_probe_found(
            self.capacity(),
            home(key, self.random, self.order, self.capacity()),
            self.index.max_search as int,
            free_cells(self.index.cells),
        );
    }

    /// An entry for `key` written to cell `i`, where there was one or where there was none at all,
    /// gives the key that entry's list and number of references.
    pub proof fn lemma_entry_set(self, next: Self, i: int, key: Seq<u8>, entry: IndexEntry)
        requires
            self.wf(),
            0 <= i < self.capacity(),
            self.holds(i, key) || (!self.locked(i) && !self.has(key)),
            entry.key@ == key,
            next.index.wf(),
            next.index.cells == self.index.cells.update(
                i,
                CellModel { uid: key_uid(key), items: seq![entry] },
            ),
            next.index.max_search == self.index.max_search,
            next.index.drives == next.drives,
            next.random == self.random,
            next.order == self.order,
            visited(
                self.capacity(),
                home(key, self.random, self.order, self.capacity()),
                self.index.max_search as int,
                i,
            ),
            data_wf(next.data),
            next.data.len() == self.data.len(),
            forall|b: int|
                #![trigger next.data[b]]
                0 <= b < self.data.len() ==> next.data[b].capacity_pow2
                    == self.data[b].capacity_pow2,
            stored(next.data, entry, key_uid(key)),
            forall|j: int|
                #![trigger self.index.cells[j]]
                0 <= j < self.capacity() && j != i && self.locked(j) ==> apart(
                    self.data,
                    entry,
                    self.entry(j),
                ),
            forall|j: int|
                #![trigger self.index.cells[j]]
                0 <= j < self.capacity() && j != i && self.locked(j) && self.entry(j).num_slots > 0
                    ==> {
                    let bucket = self.entry(j).bucket();
                    let loc = self.entry(j).loc(self.data[bucket].capacity_pow2);
                    next.data[bucket].cells[loc] == self.data[bucket].cells[loc]
                },
        ensures
            next.wf(),
            next.contents() == self.contents().insert(
                key,
                (slots_of(next.data, entry), entry.ref_count),
            ),
    {
        assert forall|j: int|
            #![trigger next.index.cells[j]]
            0 <= j < next.capacity() && next.locked(j) implies placed(
            next.index,
            next.random,
            next.order,
            j,
        ) && stored(next.data, next.entry(j), next.index.cells[j].uid) by {
            if j != i {
                assert(next.index.cells[j] == self.index.cells[j]);
            }
        }
        assert forall|j: int, k: int|
            #![trigger next.index.cells[j], next.index.cells[k]]
            0 <= j < next.capacity() && 0 <= k < next.capacity() && j != k && next.locked(j)
                && next.locked(k) implies next.entry(j).key@ != next.entry(k).key@ && apart(
            next.data,
            next.entry(j),
            next.entry(k),
        ) by {
            if j != i {
                assert(next.index.cells[j] == self.index.cells[j]);
                assert(self.holds(j, self.entry(j).key@));
            }
            if k != i {
                assert(next.index.cells[k] == self.index.cells[k]);
                assert(self.holds(k, self.entry(k).key@));
            }
        }
        assert(next.wf());
        let expected = self.contents().insert(key, (slots_of(next.data, entry), entry.ref_count));
        assert forall|q: Seq<u8>| #[trigger]
            next.contents().contains_key(q) == expected.contains_key(q) && (expected.contains_key(q)
                ==> next.contents()[q] == expected[q]) by {
            assert(next.holds(i, key));
            next.lemma_position(i, key);
            if q != key {
                if next.has(q) {
                    let j = next.position(q);
                    assert(next.holds(j, q));
                    assert(self.index.cells[j] == next.index.cells[j]);
                    assert(self.holds(j, q));
                    self.lemma_position(j, q);
                }
                if self.has(q) {
                    let j = self.position(q);
                    assert(self.holds(j, q));
                    assert(j != i);
                    assert(self.index.cells[j] == next.index.cells[j]);
                    assert(next.holds(j, q));
                }
            }
        }
        assert(next.contents() =~= expected);
    }

    /// What is known of the entry in a locked cell of the index.
    pub proof fn lemma_entry(self, i: int)
        requires
            self.wf(),
            0 <= i < self.capacity(),
            self.locked(i),
        ensures
            self.index.cells[i].items =~= seq![self.entry(i)],
            self.index.cells[i].uid == key_uid(self.entry(i).key@),
            placed(self.index, self.random, self.order, i),
            stored(self.data, self.entry(i), self.index.cells[i].uid),
            ({
                let storage = self.data[self.entry(i).bucket()];
                &&& storage.wf()
                &&& 0 <= self.entry(i).loc(storage.capacity_pow2) < storage.cells.len()
                &&& self.entry(i).num_slots > 0 ==> storage.locked(
                    self.entry(i).loc(storage.capacity_pow2),
                )
            }),
    {
        let storage = self.data[self.entry(i).bucket()];
        assert(placed(self.index, self.random, self.order, i));
        assert(stored(self.data, self.entry(i), self.index.cells[i].uid));
        assert(storage.wf());
        self.entry(i).lemma_loc(storage.capacity_pow2);
    }

    /// Another number of references changes nothing else.
    pub proof fn lemma_ref_count(self, i: int, ref_count: u64)
        requires
            self.wf(),
            0 <= i < self.capacity(),
            self.locked(i),
        ensures
            self.with_ref_count(i, ref_count).wf(),
            self.with_ref_count(i, ref_count).contents() == self.contents().insert(
                self.entry(i).key@,
                (self.contents()[self.entry(i).key@].0, ref_count),
            ),
    {
        let next = self.with_ref_count(i, ref_count);
        let entry = IndexEntry { ref_count, ..self.entry(i) };
        let key = entry.key@;
        self.lemma_entry(i);
        self.index.lemma_put_wf(i, seq![entry]);
        self.lemma_contents_at(i);
        assert(self.holds(i, key));
        assert forall|j: int|
            #![trigger self.index.cells[j]]
            0 <= j < self.capacity() && j != i && self.locked(j) implies apart(
            self.data,
            entry,
            self.entry(j),
        ) by {
            assert(apart(self.data, self.entry(i), self.entry(j)));
        }
        self.lemma_entry_set(next, i, key, entry);
    }

    /// A new entry has an empty list.
    pub proof fn lemma_new_entry(self, key: Pubkey, ref_count: u64)
        requires
            self.wf(),
            self.data.len() > 0,
            !self.has(key@),
            self.room(key@) is Some,
        ensures
            ({
                let next = self.with_new_entry(self.room(key@)->0, key, ref_count);
                &&& next.wf()
                &&& next.contents() == self.contents().insert(key@, (Seq::empty(), ref_count))
                &&& next.holds(self.room(key@)->0, key@)
            }),
    {
        let i = self.room(key@)->0;
        let next = self.with_new_entry(i, key, ref_count);
        let entry = IndexEntry {
            key,
            ref_count,
            storage_offset: 0,
            storage_capacity_when_created_pow2: 0,
            num_slots: 0,
        };
        self.lemma_room(key@);
        self.index.lemma_allocate_wf(i, key_uid(key@));
        self.index.allocate(i, key_uid(key@)).lemma_put_wf(i, seq![entry]);
        vstd::arithmetic::power2::lemma2_to64();
        lemma_fits_unique(0, 0);
        assert(data_wf(self.data) && self.data[0].wf());
        assert(next.index.cells =~= self.index.cells.update(
            i,
            CellModel { uid: key_uid(key@), items: seq![entry] },
        ));
        self.lemma_entry_set(next, i, key@, entry);
    }

    /// A list that is overwritten where it is.
    pub proof fn lemma_overwritten(self, i: int, items: Seq<T>)
        requires
            self.wf(),
            0 <= i < self.capacity(),
            self.locked(i),
            self.fits_in_place(i, items.len()),
            items.len() <= u64::MAX,
        ensures
            self.overwritten(i, items).wf(),
            self.overwritten(i, items).contents() == self.contents().insert(
                self.entry(i).key@,
                (items, self.entry(i).ref_count),
            ),
    {
        let next = self.overwritten(i, items);
        let old_entry = self.entry(i);
        let entry = IndexEntry { num_slots: items.len() as u64, ..old_entry };
        let key = entry.key@;
        let bucket = old_entry.bucket();
        let storage = self.data[bucket];
        let loc = old_entry.loc(storage.capacity_pow2);
        self.lemma_entry(i);
        self.index.lemma_put_wf(i, seq![entry]);
        storage.lemma_put_wf(loc, items);
        assert(self.holds(i, key));
        assert(entry.bucket() == bucket);
        assert forall|j: int|
            #![trigger self.index.cells[j]]
            0 <= j < self.capacity() && j != i && self.locked(j) implies apart(
            self.data,
            entry,
            self.entry(j),
        ) && (self.entry(j).num_slots > 0 ==> {
            let b = self.entry(j).bucket();
            let l = self.entry(j).loc(self.data[b].capacity_pow2);
            next.data[b].cells[l] == self.data[b].cells[l]
        }) by {
            assert(apart(self.data, old_entry, self.entry(j)));
            self.lemma_entry(j);
        }
        self.lemma_entry_set(next, i, key, entry);
        assert(slots_of(next.data, entry) =~= items);
    }

    /// Giving up the list of the entry in cell `i` leaves the cells of all other lists alone.
    pub proof fn lemma_data_without(self, i: int)
        requires
            self.wf(),
            0 <= i < self.capacity(),
            self.locked(i),
        ensures
            ({
                let freed = self.data_without(self.entry(i));
                &&& data_wf(freed)
                &&& freed.len() == self.data.len()
                &&& forall|b: int|
                    #![trigger freed[b]]
                    0 <= b < freed.len() ==> freed[b].capacity_pow2 == self.data[b].capacity_pow2
                        && freed[b].cells.len() == self.data[b].cells.len()
                &&& forall|b: int, c: int|
                    #![trigger freed[b].cells[c]]
                    0 <= b < freed.len() && 0 <= c < freed[b].cells.len()
                        && !self.data[b].cells[c].locked() ==> freed[b].cells[c]
                        == self.data[b].cells[c]
                &&& forall|j: int|
                    #![trigger self.index.cells[j]]
                    0 <= j < self.capacity() && j != i && self.locked(j)
                        && self.entry(j).num_slots > 0 ==> {
                        let b = self.entry(j).bucket();
                        let l = self.entry(j).loc(self.data[b].capacity_pow2);
                        freed[b].cells[l] == self.data[b].cells[l]
                    }
            }),
    {
        let entry = self.entry(i);
        let freed = self.data_without(entry);
        let storage = self.data[entry.bucket()];
        let loc = entry.loc(storage.capacity_pow2);
        self.lemma_entry(i);
        if entry.num_slots > 0 {
            storage.lemma_free_wf(loc);
        }
        assert forall|j: int|
            #![trigger self.index.cells[j]]
            0 <= j < self.capacity() && j != i && self.locked(j) && self.entry(j).num_slots
                > 0 implies {
            let b = self.entry(j).bucket();
            let l = self.entry(j).loc(self.data[b].capacity_pow2);
            freed[b].cells[l] == self.data[b].cells[l]
        } by {
            assert(apart(self.data, entry, self.entry(j)));
            self.lemma_entry(j);
        }
    }

    /// A list that is given up for one in another cell.
    pub proof fn lemma_relocated(self, i: int, items: Seq<T>, ix: int)
        requires
            self.wf(),
            0 <= i < self.capacity(),
            self.locked(i),
            items.len() <= u64::MAX,
            data_bucket(items.len() as int) < self.data.len(),
            0 <= ix < self.data[data_bucket(items.len() as int) as int].cells.len(),
            !self.data[data_bucket(items.len() as int) as int].locked(ix),
        ensures
            self.relocated(i, items, ix).wf(),
            self.relocated(i, items, ix).contents() == self.contents().insert(
                self.entry(i).key@,
                (items, self.entry(i).ref_count),
            ),
    {
        let next = self.relocated(i, items, ix);
        let old_entry = self.entry(i);
        let key = old_entry.key@;
        let uid = self.index.cells[i].uid;
        let bucket = data_bucket(items.len() as int) as int;
        let storage = self.data[bucket];
        let freed = self.data_without(old_entry);
        let entry = IndexEntry {
            storage_offset: ix as u64,
            storage_capacity_when_created_pow2: storage.capacity_pow2,
            num_slots: items.len() as u64,
            ..old_entry
        };
        self.lemma_entry(i);
        self.lemma_data_without(i);
        self.index.lemma_put_wf(i, seq![entry]);
        assert(storage.wf());
        storage.lemma_capacity();
        assert(freed[bucket].wf());
        assert(freed[bucket].cells[ix] == storage.cells[ix]);
        freed[bucket].lemma_allocate_wf(ix, uid);
        freed[bucket].allocate(ix, uid).lemma_put_wf(ix, items);
        assert(entry.bucket() == bucket);
        vstd::arithmetic::power2::lemma2_to64();
        assert(entry.loc(storage.capacity_pow2) == ix) by {
            assert(ix * pow2(0) == ix) by (nonlinear_arith)
                requires
                    pow2(0) == 1,
            ;
        }
        assert(self.holds(i, key));
        assert forall|j: int|
            #![trigger self.index.cells[j]]
            0 <= j < self.capacity() && j != i && self.locked(j) implies apart(
            self.data,
            entry,
            self.entry(j),
        ) && (self.entry(j).num_slots > 0 ==> {
            let b = self.entry(j).bucket();
            let l = self.entry(j).loc(self.data[b].capacity_pow2);
            next.data[b].cells[l] == self.data[b].cells[l]
        }) by {
            self.lemma_entry(j);
        }
        self.lemma_entry_set(next, i, key, entry);
        assert(slots_of(next.data, entry) =~= items);
    }

    /// Deleting a key takes it, and nothing else, out of the map.
    pub proof fn lemma_deleted(self, key: Seq<u8>)
        requires
            self.wf(),
        ensures
            self.deleted(key).wf(),
            self.deleted(key).contents() == self.contents().remove(key),
    {
        let next = self.deleted(key);
        self.lemma_find(key);
        if self.find(key) is None {
            assert(self.contents().remove(key) =~= self.contents());
        } else {
            let i = self.find(key)->0;
            self.lemma_entry(i);
            self.lemma_data_without(i);
            self.index.lemma_free_wf(i);
            assert forall|j: int|
                #![trigger next.index.cells[j]]
                0 <= j < next.capacity() && next.locked(j) implies j != i && next.index.cells[j]
                == self.index.cells[j] && placed(next.index, next.random, next.order, j) && stored(
                next.data,
                next.entry(j),
                next.index.cells[j].uid,
            ) by {
                self.lemma_entry(j);
            }
            assert forall|j: int, k: int|
                #![trigger next.index.cells[j], next.index.cells[k]]
                0 <= j < next.capacity() && 0 <= k < next.capacity() && j != k && next.locked(j)
                    && next.locked(k) implies next.entry(j).key@ != next.entry(k).key@ && apart(
                next.data,
                next.entry(j),
                next.entry(k),
            ) by {
                assert(next.index.cells[j] == self.index.cells[j]);
                assert(next.index.cells[k] == self.index.cells[k]);
                assert(apart(self.data, self.entry(j), self.entry(k)));
            }
            assert(next.wf());
            let expected = self.contents().remove(key);
            assert forall|q: Seq<u8>| #[trigger]
                next.contents().contains_key(q) == expected.contains_key(q) && (
                expected.contains_key(q) ==> next.contents()[q] == expected[q]) by {
                if next.has(q) {
                    let j = next.position(q);
                    assert(next.holds(j, q));
                    assert(self.holds(j, q));
                    self.lemma_position(j, q);
                    assert(self.index.cells[i].items[0].key@ != self.index.cells[j].items[0].key@);
                }
                if self.has(q) && q != key {
                    let j = self.position(q);
                    assert(self.holds(j, q));
                    assert(next.index.cells[j] == self.index.cells[j]);
                    assert(next.holds(j, q));
                }
            }
            assert(next.contents() =~= expected);
        }
    }

    /// What a write finds when it has made the index ready.
    pub proof fn lemma_entered(self, key: Pubkey, ref_count: u64)
        requires
            self.wf(),
            self.data.len() > 0,
        ensures
            self.entered(key, ref_count) is None <==> !self.has(key@) && self.room(key@) is None,
            self.entered(key, ref_count) matches Some((ready, i)) ==> {
                &&& ready.wf()
                &&& ready.holds(i, key@)
                &&& ready.entry(i).ref_count == ref_count
                &&& ready.contents() == self.touched(key@, ref_count)
            },
    {
        self.lemma_find(key@);
        match self.find(key@) {
            Some(i) => {
                self.lemma_ref_count(i, ref_count);
            },
            None => {
                if self.room(key@) is Some {
                    self.lemma_room(key@);
                    self.lemma_new_entry(key, ref_count);
                }
            },
        }
    }

    /// What a write does to the map.
    pub proof fn lemma_write(self, key: Pubkey, items: Seq<T>, ref_count: u64, pos: int)
        requires
            self.wf(),
            items.len() <= u64::MAX,
        ensures
            ({
                let (next, result) = self.write(key, items, ref_count, pos);
                let bucket = data_bucket(items.len() as int);
                &&& next.wf()
                &&& self.same_shape(next)
                &&& match result {
                    Ok(()) => next.contents() == self.contents().insert(key@, (items, ref_count)),
                    Err(_) => if self.data.len() <= bucket || (!self.has(key@) && self.room(
                        key@,
                    ) is None) {
                        next == self
                    } else {
                        next.contents() == self.touched(key@, ref_count)
                    },
                }
            }),
    {
        let bucket = data_bucket(items.len() as int) as int;
        if bucket < self.data.len() {
            self.lemma_entered(key, ref_count);
            if self.entered(key, ref_count) is Some {
                let (ready, i) = self.entered(key, ref_count)->0;
                if ready.fits_in_place(i, items.len()) {
                    ready.lemma_overwritten(i, items);
                    assert(ready.contents().insert(key@, (items, ref_count))
                        =~= self.contents().insert(key@, (items, ref_count)));
                } else if ready.data_room(bucket, pos) is Some {
                    let cells = ready.data[bucket].cells;
                    assert(ready.data[bucket].wf());
                    ready.data[bucket].lemma_capacity();
                    lemma_probe_found(
                        cells.len() as int,
                        pos,
                        ready.index.max_search as int,
                        free_cells(cells),
                    );
                    ready.lemma_relocated(i, items, ready.data_room(bucket, pos)->0);
                    assert(ready.contents().insert(key@, (items, ref_count))
                        =~= self.contents().insert(key@, (items, ref_count)));
                }
            }
        }
    }

    /// What the index holds after some entries were given cells in it.
    proof fn lemma_reindexed(self, n: int, target: StorageModel<IndexEntry>, random: u64)
        requires
            index_wf(self.index, self.random, self.order),
            0 <= n <= self.capacity(),
            target.wf(),
            forall|i: int| 0 <= i < target.cells.len() ==> !(#[trigger] target.cells[i]).locked(),
        ensures
            reindexed(self.index.cells, n, target, random, self.order) matches Some(index) ==> {
                &&& index_wf(index, random, self.order)
                &&& index == (StorageModel { used: index.used, cells: index.cells, ..target })
                &&& index.cells.len() == target.cells.len()
                &&& forall|i: int|
                    #![trigger index.cells[i]]
                    0 <= i < index.cells.len() && index.cells[i].locked() ==> self.comes_from(
                        n,
                        index.cells[i],
                    )
                &&& forall|j: int|
                    #![trigger self.index.cells[j]]
                    0 <= j < n && self.index.cells[j].locked() ==> index.cells.contains(
                        self.index.cells[j],
                    )
            },
        decreases n,
    {
        if n > 0 {
            self.lemma_reindexed(n - 1, target, random);
            let cell = self.index.cells[n - 1];
            if reindexed(self.index.cells, n - 1, target, random, self.order) is Some {
                let before = reindexed(self.index.cells, n - 1, target, random, self.order)->0;
                if !cell.locked() {
                    assert forall|i: int|
                        #![trigger before.cells[i]]
                        0 <= i < before.cells.len() && before.cells[i].locked() implies self.comes_from(
                        n,
                        before.cells[i],
                    ) by {
                        assert(self.comes_from(n - 1, before.cells[i]));
                    }
                } else if index_with(before, random, self.order, cell) is Some {
                    self.lemma_index_with(n - 1, before, random);
                }
            }
        }
    }

    /// The cell is one of the first `n` of the index.
    pub open spec fn comes_from(self, n: int, cell: CellModel<IndexEntry>) -> bool {
        exists|j: int| 0 <= j < n && #[trigger] self.index.cells[j] == cell
    }

    /// One more entry given a cell in the index `before`.
    proof fn lemma_index_with(self, n: int, before: StorageModel<IndexEntry>, random: u64)
        requires
            index_wf(self.index, self.random, self.order),
            0 <= n < self.capacity(),
            self.index.cells[n].locked(),
            index_wf(before, random, self.order),
            index_with(before, random, self.order, self.index.cells[n]) is Some,
            forall|i: int|
                #![trigger before.cells[i]]
                0 <= i < before.cells.len() && before.cells[i].locked() ==> self.comes_from(
                    n,
                    before.cells[i],
                ),
            forall|j: int|
                #![trigger self.index.cells[j]]
                0 <= j < n && self.index.cells[j].locked() ==> before.cells.contains(
                    self.index.cells[j],
                ),
        ensures
            ({
                let index = index_with(before, random, self.order, self.index.cells[n])->0;
                &&& index_wf(index, random, self.order)
                &&& index == (StorageModel { used: index.used, cells: index.cells, ..before })
                &&& index.cells.len() == before.cells.len()
                &&& forall|i: int|
                    #![trigger index.cells[i]]
                    0 <= i < index.cells.len() && index.cells[i].locked() ==> self.comes_from(
                        n + 1,
                        index.cells[i],
                    )
                &&& forall|j: int|
                    #![trigger self.index.cells[j]]
                    0 <= j < n + 1 && self.index.cells[j].locked() ==> index.cells.contains(
                        self.index.cells[j],
                    )
            }),
    {
        let cell = self.index.cells[n];
        let key = cell.items[0].key@;
        let at = room_in(before, random, self.order, key)->0;
        let index = index_with(before, random, self.order, cell)->0;
        let capacity = before.cells.len() as int;
        assert(placed(self.index, self.random, self.order, n));
        before.lemma_capacity();
        lemma_probe_found(
            capacity,
            home(key, random, self.order, capacity),
            before.max_search as int,
            free_cells(before.cells),
        );
        before.lemma_allocate_wf(at, cell.uid);
        before.allocate(at, cell.uid).lemma_put_wf(at, seq![cell.items[0]]);
        assert(index.cells[at] =~= cell) by {
            assert(seq![cell.items[0]] =~= cell.items);
        }
        assert(index.cells =~= before.cells.update(at, cell));
        assert forall|i: int|
            #![trigger index.cells[i]]
            0 <= i < capacity && index.cells[i].locked() implies placed(
            index,
            random,
            self.order,
            i,
        )
            && self.comes_from(n + 1, index.cells[i]) && (i != at ==> index.cells[i].items[0].key@
            != key) by {
            if i != at {
                assert(index.cells[i] == before.cells[i]);
                assert(placed(before, random, self.order, i));
                assert(self.comes_from(n, before.cells[i]));
                let j = choose|j: int| 0 <= j < n && #[trigger] self.index.cells[j] == before.cells[i];
                assert(self.index.cells[j].items[0].key@ != self.index.cells[n].items[0].key@);
            }
        }
        assert forall|j: int|
            #![trigger self.index.cells[j]]
            0 <= j < n + 1 && self.index.cells[j].locked() implies index.cells.contains(
            self.index.cells[j],
        ) by {
            if j < n {
                let i = choose|i: int|
                    0 <= i < before.cells.len() && before.cells[i] == self.index.cells[j];
                assert(index.cells[i] == self.index.cells[j]);
            } else {
                assert(index.cells[at] == cell);
            }
        }
        assert forall|i: int, j: int|
            #![trigger index.cells[i], index.cells[j]]
            0 <= i < capacity && 0 <= j < capacity && i != j && index.cells[i].locked()
                && index.cells[j].locked() implies index.cells[i].items[0].key@
            != index.cells[j].items[0].key@ by {
            if i != at && j != at {
                assert(before.cells[i].items[0].key@ != before.cells[j].items[0].key@);
            }
        }
    }

    /// A larger index stands for the same map.
    pub proof fn lemma_larger_index(self, capacity_pow2: u8, random: u64)
        requires
            self.wf(),
            capacity_pow2 < usize::BITS,
            self.larger_index(capacity_pow2, random) is Some,
        ensures
            ({
                let index = self.larger_index(capacity_pow2, random)->0;
                let next = self.with_index(random, index);
                &&& next.wf()
                &&& next.contents() == self.contents()
                &&& index.capacity_pow2 == capacity_pow2
                &&& index.max_search == self.index.max_search
                &&& forall|j: int|
                    #![trigger self.index.cells[j]]
                    0 <= j < self.capacity() && self.locked(j) ==> index.cells.contains(
                        self.index.cells[j],
                    )
                &&& index == (StorageModel {
                    used: index.used,
                    cells: index.cells,
                    ..self.fresh_index(capacity_pow2)
                })
            }),
    {
        let target = self.fresh_index(capacity_pow2);
        let index = self.larger_index(capacity_pow2, random)->0;
        let next = self.with_index(random, index);
        let n = self.capacity();
        StorageModel::<IndexEntry>::lemma_fresh_wf(
            target.drives,
            target.num_elems,
            target.elem_size,
            capacity_pow2,
            target.max_search,
        );
        self.lemma_reindexed(n, target, random);
        assert forall|i: int|
            #![trigger next.index.cells[i]]
            0 <= i < next.capacity() && next.locked(i) implies stored(
            next.data,
            next.entry(i),
            next.index.cells[i].uid,
        ) by {
            assert(self.comes_from(n, index.cells[i]));
        }
        assert forall|i: int, j: int|
            #![trigger next.index.cells[i], next.index.cells[j]]
            0 <= i < next.capacity() && 0 <= j < next.capacity() && i != j && next.locked(i)
                && next.locked(j) implies apart(next.data, next.entry(i), next.entry(j)) by {
            assert(self.comes_from(n, index.cells[i]));
            assert(self.comes_from(n, index.cells[j]));
            let a = choose|a: int| 0 <= a < n && #[trigger] self.index.cells[a] == index.cells[i];
            let b = choose|b: int| 0 <= b < n && #[trigger] self.index.cells[b] == index.cells[j];
            assert(index.cells[i].items[0].key@ != index.cells[j].items[0].key@);
            assert(apart(self.data, self.entry(a), self.entry(b)));
        }
        assert(next.wf());
        assert forall|q: Seq<u8>| #[trigger]
            next.contents().contains_key(q) == self.contents().contains_key(q) && (
            self.contents().contains_key(q) ==> next.contents()[q] == self.contents()[q]) by {
            if next.has(q) {
                let i = next.position(q);
                assert(next.holds(i, q));
                assert(self.comes_from(n, index.cells[i]));
                let j = choose|j: int| 0 <= j < n && #[trigger] self.index.cells[j] == index.cells[i];
                assert(self.holds(j, q));
                self.lemma_position(j, q);
            }
            if self.has(q) {
                let j = self.position(q);
                assert(self.holds(j, q));
                assert(index.cells.contains(self.index.cells[j]));
                let i = choose|i: int|
                    0 <= i < index.cells.len() && index.cells[i] == self.index.cells[j];
                assert(next.holds(i, q));
            }
        }
        assert(next.contents() =~= self.contents());
    }

    /// A larger data bucket, or a first one, leaves every list what it was.
    pub proof fn lemma_larger_data(self, bucket: int, capacity_pow2: u8)
        requires
            self.wf(),
            0 <= bucket < 64,
            capacity_pow2 < usize::BITS,
            bucket < self.data.len() ==> self.data[bucket].capacity_pow2 <= capacity_pow2,
        ensures
            self.larger_data(bucket, capacity_pow2).wf(),
            self.with_data(bucket, self.larger_data(bucket, capacity_pow2)).wf(),
            self.with_data(bucket, self.larger_data(bucket, capacity_pow2)).contents()
                == self.contents(),
    {
        let storage = self.larger_data(bucket, capacity_pow2);
        let next = self.with_data(bucket, storage);
        assert forall|b: int| 0 <= b < 64 implies #[trigger] pow2(b as nat) <= u64::MAX by {
            vstd::bits::lemma_u64_pow2_no_overflow(b as nat);
        }
        assert forall|b: int, c: u8| 0 <= b < 64 && c < usize::BITS implies (
        #[trigger] self.fresh_data(b, c)).wf() by {
            let fresh = self.fresh_data(b, c);
            StorageModel::<T>::lemma_fresh_wf(
                fresh.drives,
                fresh.num_elems,
                fresh.elem_size,
                c,
                fresh.max_search,
            );
        }
        assert(self.fresh_data(bucket, capacity_pow2).wf());
        if bucket < self.data.len() {
            assert(self.data[bucket].wf());
            self.fresh_data(bucket, capacity_pow2).lemma_refilled_wf(self.data[bucket]);
        }
        assert forall|b: int|
            #![trigger next.data[b]]
            0 <= b < next.data.len() implies next.data[b].wf() && next.data[b].num_elems == pow2(
            b as nat,
        ) by {
            if b < self.data.len() {
                assert(self.data[b].wf());
            } else if b < bucket {
                assert(self.fresh_data(b, DEFAULT_CAPACITY_POW2).wf());
            }
        }
        assert forall|i: int|
            #![trigger self.index.cells[i]]
            0 <= i < self.capacity() && self.locked(i) implies stored(
            next.data,
            self.entry(i),
            self.index.cells[i].uid,
        ) && slots_of(next.data, self.entry(i)) == slots_of(self.data, self.entry(i)) by {
            self.lemma_entry(i);
            if self.entry(i).bucket() == bucket {
                self.lemma_refilled_loc(i, capacity_pow2);
            }
        }
        assert forall|i: int, j: int|
            #![trigger self.index.cells[i], self.index.cells[j]]
            0 <= i < self.capacity() && 0 <= j < self.capacity() && i != j && self.locked(i)
                && self.locked(j) implies apart(next.data, self.entry(i), self.entry(j)) by {
            self.lemma_entry(i);
            self.lemma_entry(j);
            assert(apart(self.data, self.entry(i), self.entry(j)));
            if self.entry(i).bucket() == bucket && self.entry(j).bucket() == bucket {
                self.lemma_refilled_loc(i, capacity_pow2);
                self.lemma_refilled_loc(j, capacity_pow2);
                let old_pow2 = self.data[bucket].capacity_pow2;
                let a = self.entry(i).loc(old_pow2);
                let b = self.entry(j).loc(old_pow2);
                let step = pow2((capacity_pow2 - old_pow2) as nat) as int;
                vstd::arithmetic::power2::lemma_pow2_pos((capacity_pow2 - old_pow2) as nat);
                if a != b {
                    assert(a * step != b * step) by (nonlinear_arith)
                        requires
                            a != b,
                            0 < step,
                    ;
                }
            }
        }
        assert(next.wf());
        assert forall|q: Seq<u8>| #[trigger]
            next.contents().contains_key(q) == self.contents().contains_key(q) && (
            self.contents().contains_key(q) ==> next.contents()[q] == self.contents()[q]) by {
            if next.has(q) {
                let i = next.position(q);
                assert(next.holds(i, q));
                assert(self.holds(i, q));
                self.lemma_position(i, q);
            }
            if self.has(q) {
                let i = self.position(q);
                assert(self.holds(i, q));
                assert(next.holds(i, q));
            }
        }
        assert(next.contents() =~= self.contents());
    }

    /// Where the list of the entry in cell `i` is after its data bucket was made larger.
    pub proof fn lemma_refilled_loc(self, i: int, capacity_pow2: u8)
        requires
            self.wf(),
            0 <= i < self.capacity(),
            self.locked(i),
            self.data[self.entry(i).bucket()].capacity_pow2 <= capacity_pow2 < usize::BITS,
        ensures
            ({
                let entry = self.entry(i);
                let old = self.data[entry.bucket()];
                let step = pow2((capacity_pow2 - old.capacity_pow2) as nat);
                let storage = self.fresh_data(entry.bucket(), capacity_pow2).refilled(old);
                let loc = entry.loc(capacity_pow2);
                &&& entry.located(capacity_pow2)
                &&& loc == entry.loc(old.capacity_pow2) * step
                &&& 0 <= loc < storage.cells.len()
                &&& storage.cells[loc] == old.cells[entry.loc(old.capacity_pow2)]
            }),
    {
        let entry = self.entry(i);
        let old = self.data[entry.bucket()];
        let by = (capacity_pow2 - old.capacity_pow2) as nat;
        let created = entry.storage_capacity_when_created_pow2 as nat;
        let before = (old.capacity_pow2 - created) as nat;
        self.lemma_entry(i);
        vstd::arithmetic::power2::lemma_pow2_adds(before, by);
        vstd::arithmetic::power2::lemma_pow2_pos(by);
        vstd::arithmetic::mul::lemma_mul_is_associative(
            entry.storage_offset as int,
            pow2(before) as int,
            pow2(by) as int,
        );
        lemma_spread_at(old.cells, pow2(by), entry.loc(old.capacity_pow2));
    }

    /// Where there is no room for one entry, it does not help that there would be for the others.
    pub proof fn lemma_reindexed_stuck(
        cells: Seq<CellModel<IndexEntry>>,
        n: int,
        m: int,
        target: StorageModel<IndexEntry>,
        random: u64,
        order: ByteOrder,
    )
        requires
            n <= m,
            reindexed(cells, n, target, random, order) is None,
        ensures
            reindexed(cells, m, target, random, order) is None,
        decreases m - n,
    {
        if n < m {
            Self::lemma_reindexed_stuck(cells, n, m - 1, target, random, order);
        }
    }

    /// Putting in place what waits does not change the map, if it was made from the tables as they
    /// are.
    pub proof fn lemma_settled(self)
        requires
            self.wf(),
            self.pending_current(),
        ensures
            self.settled().wf(),
            self.settled().contents() == self.contents(),
            self.reallocated.active == 1 ==> self.settled().reallocated.idle(),
    {
        if self.reallocated.active == 1 {
            let rest = BucketModel {
                reallocated: ReallocatedModel { active: 0, index: None, data: None },
                ..self
            };
            match (self.reallocated.index, self.reallocated.data) {
                (Some((random, index)), _) => {
                    let capacity_pow2 = choose|capacity_pow2: u8|
                        capacity_pow2 < usize::BITS && #[trigger] self.larger_index(
                            capacity_pow2,
                            random,
                        ) == Some(index);
                    self.lemma_larger_index(capacity_pow2, random);
                    Self::lemma_same_tables(self.with_index(random, index), self.settled());
                },
                (None, Some((bucket, storage))) => {
                    let capacity_pow2 = choose|capacity_pow2: u8|
                        self.may_grow_data(bucket as int, capacity_pow2 as int) && storage
                            == #[trigger] self.larger_data(bucket as int, capacity_pow2);
                    self.lemma_larger_data(bucket as int, capacity_pow2);
                    assert(rest.with_data(bucket as int, storage).data =~= self.with_data(
                        bucket as int,
                        storage,
                    ).data);
                    Self::lemma_same_tables(
                        self.with_data(bucket as int, storage),
                        self.settled(),
                    );
                },
                (None, None) => {},
            }
        }
    }

    /// The map depends on the tables only.
    pub proof fn lemma_same_tables(a: Self, b: Self)
        requires
            a.wf(),
            a.drives == b.drives,
            a.index == b.index,
            a.random == b.random,
            a.order == b.order,
            a.data == b.data,
        ensures
            b.wf(),
            a.contents() == b.contents(),
    {
        assert forall|key: Seq<u8>, i: int| a.holds(i, key) == b.holds(i, key) by {}
        assert forall|q: Seq<u8>| #[trigger]
            a.contents().contains_key(q) == b.contents().contains_key(q) && (
            b.contents().contains_key(q) ==> a.contents()[q] == b.contents()[q]) by {
            if a.has(q) {
                let i = a.position(q);
                assert(a.holds(i, q));
                assert(b.holds(i, q));
                b.lemma_position(i, q);
            }
            if b.has(q) {
                let i = b.position(q);
                assert(b.holds(i, q));
                assert(a.holds(i, q));
                a.lemma_position(i, q);
            }
        }
        assert(a.contents() =~= b.contents());
    }
}

} // verus!
