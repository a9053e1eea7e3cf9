//! Which entry each cell of a data bucket belongs to.
use crate::bucket_model::{free_cells, BucketModel};
use crate::bucket_storage::{lemma_spread_from, DEFAULT_CAPACITY_POW2};
use crate::index_entry::{data_bucket, lemma_fits, lemma_fits_unique};
use crate::probe::lemma_probe_found;
use crate::pubkey::Pubkey;
use vstd::arithmetic::power2::pow2;
use vstd::prelude::*;

verus! {

impl<T> BucketModel<T> {
    /// The list of the entry in cell `i` of the index is in cell `c` of data bucket `b`.
    pub open spec fn owns(self, i: int, b: int, c: int) -> bool {
        &&& 0 <= i < self.capacity()
        &&& self.locked(i)
        &&& self.entry(i).num_slots > 0
        &&& self.entry(i).bucket() == b
        &&& self.entry(i).loc(self.data[b].capacity_pow2) == c
    }

    /// Cell `c` of data bucket `b` holds the list of some entry.
    pub open spec fn owned(self, b: int, c: int) -> bool {
        exists|i: int| self.owns(i, b, c)
    }

    /// Every locked cell of a data bucket holds the list of some entry.
    pub open spec fn no_leaks(self) -> bool {
        forall|b: int, c: int|
            #![trigger self.data[b].cells[c]]
            0 <= b < self.data.len() && 0 <= c < self.data[b].cells.len() && self.data[b].locked(c)
                ==> self.owned(b, c)
    }

    /// Writing a list of `len` slots for `key` would leave a locked cell without an entry: a list
    /// of one slot gives way to an empty one, which takes no cell.
    pub open spec fn drops_cell(self, key: Seq<u8>, len: nat) -> bool {
        &&& len == 0
        &&& self.contents().contains_key(key)
        &&& self.contents()[key].0.len() == 1
    }

    /// Where the data buckets stay what they are, and who owns a cell goes on owning it, every
    /// locked cell still holds the list of some entry.
    proof fn lemma_owners_kept(self, next: Self)
        requires
            self.no_leaks(),
            next.data == self.data,
            forall|o: int, b: int, c: int| self.owns(o, b, c) ==> #[trigger] next.owns(o, b, c),
        ensures
            next.no_leaks(),
    {
        assert forall|b: int, c: int|
            #![trigger next.data[b].cells[c]]
            0 <= b < next.data.len() && 0 <= c < next.data[b].cells.len() && next.data[b].locked(
                c,
            ) implies next.owned(b, c) by {
            assert(self.data[b].cells[c].locked());
            assert(self.owned(b, c));
            let o = choose|o: int| self.owns(o, b, c);
            assert(next.owns(o, b, c));
        }
    }

    /// Another number of references leaves every cell with its owner.
    pub proof fn lemma_ref_count_owners(self, i: int, ref_count: u64)
        requires
            self.no_leaks(),
            0 <= i < self.capacity(),
            self.locked(i),
        ensures
            self.with_ref_count(i, ref_count).no_leaks(),
    {
        self.lemma_owners_kept(self.with_ref_count(i, ref_count));
    }

    proof fn lemma_new_entry_owners(self, i: int, key: Pubkey, ref_count: u64)
        requires
            self.no_leaks(),
            0 <= i < self.capacity(),
            !self.locked(i),
        ensures
            self.with_new_entry(i, key, ref_count).no_leaks(),
    {
        self.lemma_owners_kept(self.with_new_entry(i, key, ref_count));
    }

    proof fn lemma_overwritten_owners(self, i: int, items: Seq<T>)
        requires
            self.wf(),
            self.no_leaks(),
            0 <= i < self.capacity(),
            self.locked(i),
            self.fits_in_place(i, items.len()),
            0 < items.len() <= u64::MAX,
        ensures
            self.overwritten(i, items).no_leaks(),
    {
        let next = self.overwritten(i, items);
        self.lemma_entry(i);
        assert forall|b: int, c: int|
            #![trigger next.data[b].cells[c]]
            0 <= b < next.data.len() && 0 <= c < next.data[b].cells.len() && next.data[b].locked(
                c,
            ) implies next.owned(b, c) by {
            assert(self.data[b].cells[c].locked());
            assert(self.owned(b, c));
            let o = choose|o: int| self.owns(o, b, c);
            assert(next.data[b].capacity_pow2 == self.data[b].capacity_pow2);
            assert(next.owns(o, b, c));
        }
    }

    /// A cell that is locked after the list of the entry in cell `i` was given up is owned by
    /// another entry.
    proof fn lemma_freed_owner(self, i: int, b: int, c: int) -> (o: int)
        requires
            self.wf(),
            self.no_leaks(),
            0 <= i < self.capacity(),
            self.locked(i),
            0 <= b < self.data.len(),
            0 <= c < self.data[b].cells.len(),
            self.data_without(self.entry(i))[b].locked(c),
        ensures
            o != i,
            self.owns(o, b, c),
    {
        self.lemma_entry(i);
        assert(self.data[b].cells[c].locked());
        assert(self.owned(b, c));
        choose|o: int| self.owns(o, b, c)
    }

    proof fn lemma_relocated_owners(self, i: int, items: Seq<T>, ix: int)
        requires
            self.wf(),
            self.no_leaks(),
            0 <= i < self.capacity(),
            self.locked(i),
            items.len() <= u64::MAX,
            data_bucket(items.len() as int) < self.data.len(),
            0 <= ix < self.data[data_bucket(items.len() as int) as int].cells.len(),
        ensures
            self.relocated(i, items, ix).no_leaks(),
    {
        let next = self.relocated(i, items, ix);
        let bucket = data_bucket(items.len() as int) as int;
        let freed = self.data_without(self.entry(i));
        self.lemma_data_without(i);
        assert(self.data[bucket].wf());
        self.data[bucket].lemma_capacity();
        vstd::arithmetic::power2::lemma2_to64();
        assert forall|b: int, c: int|
            #![trigger next.data[b].cells[c]]
            0 <= b < next.data.len() && 0 <= c < next.data[b].cells.len() && next.data[b].locked(
                c,
            ) implies next.owned(b, c) by {
            assert(freed[b].capacity_pow2 == self.data[b].capacity_pow2);
            assert(next.data[b].capacity_pow2 == self.data[b].capacity_pow2);
            if items.len() > 0 && b == bucket && c == ix {
                assert(ix * pow2(0) == ix) by (nonlinear_arith)
                    requires
                        pow2(0) == 1,
                ;
                assert(next.owns(i, b, c));
            } else {
                assert(freed[b].cells[c].locked());
                let o = self.lemma_freed_owner(i, b, c);
                assert(next.owns(o, b, c));
            }
        }
    }

    /// Deleting a key gives its cell back.
    pub proof fn lemma_deleted_owners(self, key: Seq<u8>)
        requires
            self.wf(),
            self.no_leaks(),
        ensures
            self.deleted(key).no_leaks(),
    {
        let next = self.deleted(key);
        self.lemma_find(key);
        if self.find(key) is Some {
            let i = self.find(key)->0;
            let freed = self.data_without(self.entry(i));
            self.lemma_data_without(i);
            assert forall|b: int, c: int|
                #![trigger next.data[b].cells[c]]
                0 <= b < next.data.len() && 0 <= c < next.data[b].cells.len()
                    && next.data[b].locked(c) implies next.owned(b, c) by {
                assert(freed[b].capacity_pow2 == self.data[b].capacity_pow2);
                let o = self.lemma_freed_owner(i, b, c);
                assert(next.owns(o, b, c));
            }
        }
    }

    /// A write leaves every locked cell with an entry, but where it drops one.
    pub proof fn lemma_write_owners(self, key: Pubkey, items: Seq<T>, ref_count: u64, pos: int)
        requires
            self.wf(),
            self.no_leaks(),
            items.len() <= u64::MAX,
            !self.drops_cell(key@, items.len()),
        ensures
            self.write(key, items, ref_count, pos).0.no_leaks(),
    {
        let bucket = data_bucket(items.len() as int) as int;
        if bucket < self.data.len() && self.entered(key, ref_count) is Some {
            let (ready, i) = self.entered(key, ref_count)->0;
            self.lemma_entered(key, ref_count);
            self.lemma_find(key@);
            match self.find(key@) {
                Some(_) => {
                    self.lemma_ref_count_owners(i, ref_count);
                },
                None => {
                    self.lemma_room(key@);
                    self.lemma_new_entry_owners(i, key, ref_count);
                },
            }
            if ready.fits_in_place(i, items.len()) {
                if items.len() == 0 {
                    vstd::arithmetic::power2::lemma2_to64();
                    lemma_fits_unique(0, 0);
                    ready.lemma_entry(i);
                    self.lemma_entry(i);
                    self.lemma_contents_at(i);
                    lemma_fits(ready.entry(i).num_slots as int);
                    assert(ready.entry(i).num_slots <= pow2(0));
                }
                ready.lemma_overwritten_owners(i, items);
            } else if ready.data_room(bucket, pos) is Some {
                assert(ready.data[bucket].wf());
                ready.data[bucket].lemma_capacity();
                lemma_probe_found(
                    ready.data[bucket].cells.len() as int,
                    pos,
                    ready.index.max_search as int,
                    free_cells(ready.data[bucket].cells),
                );
                ready.lemma_relocated_owners(i, items, ready.data_room(bucket, pos)->0);
            }
        }
    }

    proof fn lemma_larger_index_owners(self, capacity_pow2: u8, random: u64)
        requires
            self.wf(),
            self.no_leaks(),
            capacity_pow2 < usize::BITS,
            self.larger_index(capacity_pow2, random) is Some,
        ensures
            self.with_index(random, self.larger_index(capacity_pow2, random)->0).no_leaks(),
    {
        let index = self.larger_index(capacity_pow2, random)->0;
        let next = self.with_index(random, index);
        self.lemma_larger_index(capacity_pow2, random);
        assert forall|b: int, c: int|
            #![trigger next.data[b].cells[c]]
            0 <= b < next.data.len() && 0 <= c < next.data[b].cells.len() && next.data[b].locked(
                c,
            ) implies next.owned(b, c) by {
            assert(self.data[b].cells[c].locked());
            assert(self.owned(b, c));
            let o = choose|o: int| self.owns(o, b, c);
            assert(self.index.cells[o].locked());
            let i = choose|i: int| 0 <= i < index.cells.len() && index.cells[i] == self.index.cells[o];
            assert(next.owns(i, b, c));
        }
    }

    proof fn lemma_larger_data_owners(self, bucket: int, capacity_pow2: u8)
        requires
            self.wf(),
            self.no_leaks(),
            self.may_grow_data(bucket, capacity_pow2 as int),
        ensures
            self.with_data(bucket, self.larger_data(bucket, capacity_pow2)).no_leaks(),
    {
        let storage = self.larger_data(bucket, capacity_pow2);
        let next = self.with_data(bucket, storage);
        assert forall|b: int, c: int|
            #![trigger next.data[b].cells[c]]
            0 <= b < next.data.len() && 0 <= c < next.data[b].cells.len() && next.data[b].locked(
                c,
            ) implies next.owned(b, c) by {
            if b < self.data.len() && b == bucket {
                let old = self.data[bucket];
                let by = (capacity_pow2 - old.capacity_pow2) as nat;
                vstd::arithmetic::power2::lemma_pow2_pos(by);
                lemma_spread_from(old.cells, pow2(by), c);
                let from = c / (pow2(by) as int);
                assert(old.cells[from].locked());
                assert(self.owned(b, from));
                let o = choose|o: int| self.owns(o, b, from);
                self.lemma_refilled_loc(o, capacity_pow2);
                assert(next.owns(o, b, c));
            } else if b < self.data.len() {
                assert(self.data[b].cells[c].locked());
                assert(self.owned(b, c));
                let o = choose|o: int| self.owns(o, b, c);
                assert(next.owns(o, b, c));
            } else if b < bucket {
                assert(next.data[b] == self.fresh_data(b, DEFAULT_CAPACITY_POW2));
            } else {
                assert(next.data[b] == self.fresh_data(b, capacity_pow2));
            }
        }
    }

    /// Putting in place what waits leaves every locked cell with an entry, if it was made from the
    /// tables as they are.
    pub proof fn lemma_settled_owners(self)
        requires
            self.wf(),
            self.no_leaks(),
            self.pending_current(),
        ensures
            self.settled().no_leaks(),
    {
        if self.reallocated.active == 1 {
            match (self.reallocated.index, self.reallocated.data) {
                (Some((random, index)), _) => {
                    let capacity_pow2 = choose|capacity_pow2: u8|
                        capacity_pow2 < usize::BITS && #[trigger] self.larger_index(
                            capacity_pow2,
                            random,
                        ) == Some(index);
                    self.lemma_larger_index_owners(capacity_pow2, random);
                    Self::lemma_same_owners(self.with_index(random, index), self.settled());
                },
                (None, Some((bucket, storage))) => {
                    let capacity_pow2 = choose|capacity_pow2: u8|
                        self.may_grow_data(bucket as int, capacity_pow2 as int) && storage
                            == #[trigger] self.larger_data(bucket as int, capacity_pow2);
                    self.lemma_larger_data_owners(bucket as int, capacity_pow2);
                    assert(self.settled().data =~= self.with_data(bucket as int, storage).data);
                    Self::lemma_same_owners(
                        self.with_data(bucket as int, storage),
                        self.settled(),
                    );
                },
                (None, None) => {},
            }
        }
    }

    /// Who owns a cell depends on the tables only.
    pub proof fn lemma_same_owners(a: Self, b: Self)
        requires
            a.no_leaks(),
            a.index == b.index,
            a.data == b.data,
        ensures
            b.no_leaks(),
    {
        a.lemma_owners_kept(b);
    }
}

} // verus!
