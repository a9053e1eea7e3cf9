//! What operations on a storage do, cell by cell.
use crate::bucket_storage::{
    count_locked, lemma_count_not_full, lemma_spread_at, spread, CellModel, StorageModel,
    DEFAULT_CAPACITY_POW2,
};
use std::path::PathBuf;
use std::sync::Arc;
use vstd::arithmetic::power2::pow2;
use vstd::prelude::*;

verus! {

/// A cell is locked where its owner is not zero. One that was never used has neither an owner nor
/// anything in it.
pub proof fn law_locked_by_owner<E>(cell: CellModel<E>)
    ensures
        cell.locked() <==> cell.uid != 0,
        CellModel::<E>::fresh().uid == 0,
        CellModel::<E>::fresh().items.len() == 0,
{
}

/// One more cell counts as one more locked cell, if it is locked.
pub proof fn law_locked_cells_are_counted<E>(cells: Seq<CellModel<E>>, cell: CellModel<E>)
    ensures
        count_locked(Seq::<CellModel<E>>::empty()) == 0,
        cell.uid != 0 ==> count_locked(cells.push(cell)) == count_locked(cells) + 1,
        cell.uid == 0 ==> count_locked(cells.push(cell)) == count_locked(cells),
{
    assert(cells.push(cell).drop_last() =~= cells);
}

/// Cells that are spread out are as far apart as `step`, in their order, and the cells between them
/// were never used.
pub proof fn law_spread_cells_are_apart<E>(cells: Seq<CellModel<E>>, step: nat)
    requires
        0 < step,
    ensures
        spread(cells, step).len() == cells.len() * step,
        forall|i: int|
            #![trigger cells[i]]
            0 <= i < cells.len() ==> spread(cells, step)[i * step] == cells[i],
        forall|j: int|
            0 <= j < cells.len() * step && j % (step as int) != 0 ==> (#[trigger] spread(
                cells,
                step,
            )[j]).uid == 0 && spread(cells, step)[j].items.len() == 0,
{
    assert forall|i: int|
        #![trigger cells[i]]
        0 <= i < cells.len() implies spread(cells, step)[i * step] == cells[i] by {
        lemma_spread_at(cells, step, i);
    }
}

/// A storage is sound where it has as many cells as it says, no more than a machine can number, and
/// has counted the locked ones.
pub proof fn law_sound_storage<E>(storage: StorageModel<E>)
    ensures
        storage.wf() <==> {
            &&& storage.capacity_pow2 < usize::BITS
            &&& storage.cells.len() == pow2(storage.capacity_pow2 as nat)
            &&& storage.used == count_locked(storage.cells)
        },
{
}

/// A new storage has the cells that were asked for, none of them used.
pub proof fn law_new_storage<E>(
    drives: Arc<Vec<PathBuf>>,
    num_elems: u64,
    elem_size: u64,
    capacity_pow2: u8,
    max_search: u8,
)
    ensures
        ({
            let storage = StorageModel::<E>::fresh(
                drives,
                num_elems,
                elem_size,
                capacity_pow2,
                max_search,
            );
            &&& storage.drives == drives
            &&& storage.num_elems == num_elems
            &&& storage.elem_size == elem_size
            &&& storage.capacity_pow2 == capacity_pow2
            &&& storage.max_search == max_search
            &&& storage.used == 0
            &&& storage.cells.len() == pow2(capacity_pow2 as nat)
            &&& forall|i: int|
                0 <= i < storage.cells.len() ==> (#[trigger] storage.cells[i]).uid == 0
                    && storage.cells[i].items.len() == 0
        }),
        DEFAULT_CAPACITY_POW2 == 5,
{
}

/// Two storages differ in what their cells hold, and in nothing else.
pub proof fn law_same_shape<E>(a: StorageModel<E>, b: StorageModel<E>)
    ensures
        a.same_shape(b) <==> {
            &&& a.drives == b.drives
            &&& a.num_elems == b.num_elems
            &&& a.elem_size == b.elem_size
            &&& a.capacity_pow2 == b.capacity_pow2
            &&& a.max_search == b.max_search
            &&& a.cells.len() == b.cells.len()
        },
{
}

/// Locking a cell gives it an owner and counts it. Nothing else changes.
pub proof fn law_locking_a_cell<E>(storage: StorageModel<E>, ix: int, uid: u64)
    requires
        storage.wf(),
        0 <= ix < storage.cells.len(),
        storage.cells[ix].uid == 0,
    ensures
        ({
            let after = storage.allocate(ix, uid);
            &&& storage.same_shape(after)
            &&& after.used == storage.used + 1
            &&& after.cells[ix].uid == uid
            &&& after.cells[ix].items == storage.cells[ix].items
            &&& forall|j: int|
                0 <= j < storage.cells.len() && j != ix ==> #[trigger] after.cells[j]
                    == storage.cells[j]
        }),
{
    storage.lemma_capacity();
    lemma_count_not_full(storage.cells, ix);
}

/// Unlocking a cell takes its owner from it and counts it off. Nothing else changes, not even what
/// was written to the cell.
pub proof fn law_unlocking_a_cell<E>(storage: StorageModel<E>, ix: int)
    requires
        storage.wf(),
        0 <= ix < storage.cells.len(),
        storage.cells[ix].uid != 0,
    ensures
        ({
            let after = storage.free(ix);
            &&& storage.same_shape(after)
            &&& after.used == storage.used - 1
            &&& after.cells[ix].uid == 0
            &&& after.cells[ix].items == storage.cells[ix].items
            &&& forall|j: int|
                0 <= j < storage.cells.len() && j != ix ==> #[trigger] after.cells[j]
                    == storage.cells[j]
        }),
{
    storage.lemma_free_wf(ix);
}

/// Writing to a cell leaves it with its owner, and every other cell as it is.
pub proof fn law_writing_a_cell<E>(storage: StorageModel<E>, ix: int, items: Seq<E>)
    requires
        0 <= ix < storage.cells.len(),
    ensures
        ({
            let after = storage.put(ix, items);
            &&& storage.same_shape(after)
            &&& after.used == storage.used
            &&& after.cells[ix].uid == storage.cells[ix].uid
            &&& after.cells[ix].items == items
            &&& forall|j: int|
                0 <= j < storage.cells.len() && j != ix ==> #[trigger] after.cells[j]
                    == storage.cells[j]
        }),
{
}

/// A storage that is filled from a smaller one has each of its cells, as many times further on as it
/// has more of them, and nothing in the others.
pub proof fn law_refilled_storage<E>(storage: StorageModel<E>, old: StorageModel<E>)
    requires
        old.wf(),
        old.capacity_pow2 <= storage.capacity_pow2,
        storage.cells.len() == pow2(storage.capacity_pow2 as nat),
    ensures
        ({
            let step = pow2((storage.capacity_pow2 - old.capacity_pow2) as nat) as int;
            let after = storage.refilled(old);
            &&& storage.same_shape(after)
            &&& after.used == old.used
            &&& forall|i: int|
                #![trigger old.cells[i]]
                0 <= i < old.cells.len() ==> after.cells[i * step] == old.cells[i]
            &&& forall|j: int|
                0 <= j < after.cells.len() && j % step != 0 ==> (#[trigger] after.cells[j]).uid == 0
                    && after.cells[j].items.len() == 0
        }),
{
    let by = (storage.capacity_pow2 - old.capacity_pow2) as nat;
    vstd::arithmetic::power2::lemma_pow2_pos(by);
    vstd::arithmetic::power2::lemma_pow2_adds(old.capacity_pow2 as nat, by);
    law_spread_cells_are_apart(old.cells, pow2(by));
}

} // verus!
