//! What listing the keys of a bucket says of the map that it stands for.
use crate::bucket_item::BucketItemModel;
use crate::bucket_model::{in_range, index_wf, BucketModel};
use crate::bucket_storage::count_locked;
use crate::pubkey::{KeyRange, Pubkey};
use vstd::prelude::*;

verus! {

impl<T> BucketModel<T> {
    /// One of the first `n` cells of the index holds an entry for `key`.
    spec fn in_first(self, n: int, key: Pubkey) -> bool {
        exists|i: int| 0 <= i < n && #[trigger] self.locked(i) && self.entry(i).key == key
    }

    /// What the keys listed from the first `n` cells are.
    proof fn lemma_keys_upto(self, n: int)
        requires
            index_wf(self.index, self.random, self.order),
            0 <= n <= self.capacity(),
        ensures
            self.keys_upto(n).len() == count_locked(self.index.cells.take(n)),
            forall|p: int|
                0 <= p < self.keys_upto(n).len() ==> self.in_first(
                    n,
                    #[trigger] self.keys_upto(n)[p],
                ),
            forall|i: int|
                0 <= i < n && #[trigger] self.locked(i) ==> self.keys_upto(n).contains(
                    self.entry(i).key,
                ),
            forall|p: int, q: int|
                0 <= p < q < self.keys_upto(n).len() ==> (#[trigger] self.keys_upto(n)[p])@ != (
                #[trigger] self.keys_upto(n)[q])@,
        decreases n,
    {
        let cells = self.index.cells.take(n);
        if n > 0 {
            self.lemma_keys_upto(n - 1);
            let before = self.keys_upto(n - 1);
            let keys = self.keys_upto(n);
            assert(cells.drop_last() =~= self.index.cells.take(n - 1));
            assert(cells.last() == self.index.cells[n - 1]);
            assert forall|p: int| 0 <= p < keys.len() implies self.in_first(
                n,
                #[trigger] keys[p],
            ) by {
                if p < before.len() {
                    assert(keys[p] == before[p]);
                    assert(self.in_first(n - 1, before[p]));
                    let i = choose|i: int|
                        0 <= i < n - 1 && #[trigger] self.locked(i) && self.entry(i).key
                            == before[p];
                    assert(self.locked(i));
                } else {
                    assert(self.locked(n - 1));
                }
            }
            assert forall|i: int| 0 <= i < n && #[trigger] self.locked(i) implies keys.contains(
                self.entry(i).key,
            ) by {
                if i < n - 1 {
                    let p = choose|p: int| 0 <= p < before.len() && before[p] == self.entry(i).key;
                    assert(keys[p] == self.entry(i).key);
                } else {
                    assert(keys[before.len() as int] == self.entry(i).key);
                }
            }
            assert forall|p: int, q: int| 0 <= p < q < keys.len() implies (#[trigger] keys[p])@ != (
            #[trigger] keys[q])@ by {
                assert(keys[p] == before[p]);
                if q < before.len() {
                    assert(keys[q] == before[q]);
                } else {
                    assert(self.in_first(n - 1, before[p]));
                    let i = choose|i: int|
                        0 <= i < n - 1 && #[trigger] self.locked(i) && self.entry(i).key
                            == before[p];
                    assert(self.index.cells[i].items[0].key@ != self.index.cells[n
                        - 1].items[0].key@);
                }
            }
        }
    }

    /// The listed keys are the keys of the map, each once.
    pub proof fn lemma_keys(self)
        requires
            self.wf(),
        ensures
            ({
                let keys = self.keys_upto(self.capacity()).map_values(|key: Pubkey| key@);
                &&& keys.no_duplicates()
                &&& keys.to_set() == self.contents().dom()
                &&& keys.len() == self.index.used
            }),
    {
        let listed = self.keys_upto(self.capacity());
        let keys = listed.map_values(|key: Pubkey| key@);
        self.lemma_keys_upto(self.capacity());
        assert(self.index.cells.take(self.capacity()) =~= self.index.cells);
        assert forall|p: int, q: int| 0 <= p < keys.len() && 0 <= q < keys.len() && p != q implies
            keys[p] != keys[q] by {
            assert(keys[p] == listed[p]@ && keys[q] == listed[q]@);
            if p < q {
                assert(listed[p]@ != listed[q]@);
            } else {
                assert(listed[q]@ != listed[p]@);
            }
        }
        assert forall|key: Seq<u8>| keys.to_set().contains(key) == self.contents().dom().contains(
            key,
        ) by {
            if keys.contains(key) {
                let p = choose|p: int| 0 <= p < keys.len() && keys[p] == key;
                assert(listed[p]@ == key);
                assert(self.in_first(self.capacity(), listed[p]));
                let i = choose|i: int|
                    0 <= i < self.capacity() && #[trigger] self.locked(i) && self.entry(i).key
                        == listed[p];
                assert(self.holds(i, key));
            }
            if self.has(key) {
                let i = self.position(key);
                assert(self.holds(i, key));
                assert(self.locked(i));
                let p = choose|p: int| 0 <= p < listed.len() && listed[p] == self.entry(i).key;
                assert(keys[p] == key);
            }
        }
        assert(keys.to_set() =~= self.contents().dom());
    }

    /// The map has as many keys as the index has locked cells.
    pub proof fn lemma_len(self)
        requires
            self.wf(),
        ensures
            self.contents().dom().finite(),
            self.contents().dom().len() == self.index.used,
    {
        let keys = self.keys_upto(self.capacity()).map_values(|key: Pubkey| key@);
        self.lemma_keys();
        keys.unique_seq_to_set();
    }

    /// `item` is what the map says of its key.
    pub open spec fn has_item(self, item: BucketItemModel<T>) -> bool {
        &&& self.contents().contains_key(item.pubkey@)
        &&& self.contents()[item.pubkey@] == (item.slot_list, item.ref_count)
    }

    /// What the items listed from the first `n` cells are.
    proof fn lemma_items_upto(self, n: int, range: Option<KeyRange>)
        requires
            self.wf(),
            0 <= n <= self.capacity(),
        ensures
            forall|p: int|
                0 <= p < self.items_upto(n, range).len() ==> exists|i: int|
                    0 <= i < n && #[trigger] self.locked(i) && in_range(range, self.entry(i).key@)
                        && self.item(i) == #[trigger] self.items_upto(n, range)[p],
            forall|i: int|
                0 <= i < n && #[trigger] self.locked(i) && in_range(range, self.entry(i).key@)
                    ==> self.items_upto(n, range).contains(self.item(i)),
            forall|p: int, q: int|
                0 <= p < q < self.items_upto(n, range).len() ==> (#[trigger] self.items_upto(
                    n,
                    range,
                )[p]).pubkey@ != (#[trigger] self.items_upto(n, range)[q]).pubkey@,
        decreases n,
    {
        if n > 0 {
            self.lemma_items_upto(n - 1, range);
            let before = self.items_upto(n - 1, range);
            let items = self.items_upto(n, range);
            assert forall|p: int| 0 <= p < items.len() implies exists|i: int|
                0 <= i < n && #[trigger] self.locked(i) && in_range(range, self.entry(i).key@)
                    && self.item(i) == #[trigger] items[p] by {
                if p < before.len() {
                    assert(items[p] == before[p]);
                    let i = choose|i: int|
                        0 <= i < n - 1 && #[trigger] self.locked(i) && in_range(
                            range,
                            self.entry(i).key@,
                        ) && self.item(i) == before[p];
                    assert(self.locked(i));
                } else {
                    assert(self.locked(n - 1));
                }
            }
            assert forall|i: int|
                0 <= i < n && #[trigger] self.locked(i) && in_range(
                    range,
                    self.entry(i).key@,
                ) implies items.contains(self.item(i)) by {
                if i < n - 1 {
                    let p = choose|p: int| 0 <= p < before.len() && before[p] == self.item(i);
                    assert(items[p] == self.item(i));
                } else {
                    assert(items[before.len() as int] == self.item(i));
                }
            }
            assert forall|p: int, q: int| 0 <= p < q < items.len() implies (
            #[trigger] items[p]).pubkey@ != (#[trigger] items[q]).pubkey@ by {
                assert(items[p] == before[p]);
                if q < before.len() {
                    assert(items[q] == before[q]);
                } else {
                    let i = choose|i: int|
                        0 <= i < n - 1 && #[trigger] self.locked(i) && in_range(
                            range,
                            self.entry(i).key@,
                        ) && self.item(i) == before[p];
                    assert(self.index.cells[i].items[0].key@ != self.index.cells[n
                        - 1].items[0].key@);
                }
            }
        }
    }

    /// The listed items are what the map says of the keys in the range, each key once.
    pub proof fn lemma_items(self, range: Option<KeyRange>)
        requires
            self.wf(),
        ensures
            ({
                let items = self.items_upto(self.capacity(), range);
                &&& forall|p: int|
                    0 <= p < items.len() ==> self.has_item(#[trigger] items[p]) && in_range(
                        range,
                        items[p].pubkey@,
                    )
                &&& forall|key: Seq<u8>|
                    self.contents().contains_key(key) && in_range(range, key) ==> exists|p: int|
                        0 <= p < items.len() && (#[trigger] items[p]).pubkey@ == key
                &&& forall|p: int, q: int|
                    0 <= p < q < items.len() ==> (#[trigger] items[p]).pubkey@ != (
                    #[trigger] items[q]).pubkey@
            }),
    {
        let items = self.items_upto(self.capacity(), range);
        self.lemma_items_upto(self.capacity(), range);
        assert forall|p: int| 0 <= p < items.len() implies self.has_item(#[trigger] items[p])
            && in_range(range, items[p].pubkey@) by {
            let i = choose|i: int|
                0 <= i < self.capacity() && #[trigger] self.locked(i) && in_range(
                    range,
                    self.entry(i).key@,
                ) && self.item(i) == items[p];
            self.lemma_contents_at(i);
        }
        assert forall|key: Seq<u8>|
            self.contents().contains_key(key) && in_range(range, key) implies exists|p: int|
            0 <= p < items.len() && (#[trigger] items[p]).pubkey@ == key by {
            let i = self.position(key);
            assert(self.holds(i, key));
            assert(self.locked(i));
            let p = choose|p: int| 0 <= p < items.len() && items[p] == self.item(i);
            assert(items[p].pubkey@ == key);
        }
    }
}

} // verus!
