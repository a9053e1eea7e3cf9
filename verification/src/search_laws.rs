//! What the searches of a bucket find, cell by cell: the distance of a cell from the start of a
//! search is counted around the table.
use crate::bucket_model::{
    filled, filled_singly, find_in, free_cells, holding, index_with, reindexed, room_in,
    BucketModel,
};
use crate::bucket_storage::{CellModel, StorageModel};
use crate::byte_order::ByteOrder;
use crate::index_entry::{home, IndexEntry};
use crate::probe::{lemma_probe_nearest, probe};
use vstd::arithmetic::power2::pow2;
use vstd::prelude::*;

verus! {

/// The search for a key finds the nearest entry for it, among the cells that are searched, and
/// fails only if none of these has one.
pub proof fn law_search_finds_nearest_entry(
    index: StorageModel<IndexEntry>,
    random: u64,
    order: ByteOrder,
    key: Seq<u8>,
)
    requires
        0 < index.cells.len(),
    ensures
        ({
            let cells = index.cells;
            let len = cells.len() as int;
            let start = home(key, random, order, len);
            match find_in(index, random, order, key) {
                Some(i) => {
                    &&& 0 <= i < len
                    &&& (i - start) % len < index.max_search
                    &&& cells[i].uid != 0
                    &&& cells[i].items[0].key@ == key
                    &&& forall|j: int|
                        #![trigger cells[j]]
                        0 <= j < len && (j - start) % len < (i - start) % len ==> cells[j].uid == 0
                            || cells[j].items[0].key@ != key
                },
                None => forall|j: int|
                    #![trigger cells[j]]
                    0 <= j < len && (j - start) % len < index.max_search ==> cells[j].uid == 0
                        || cells[j].items[0].key@ != key,
            }
        }),
{
    let len = index.cells.len() as int;
    let start = home(key, random, order, len);
    let hit = holding(index.cells, key);
    lemma_probe_nearest(len, start, index.max_search as int, hit);
    assert forall|j: int|
        #![trigger index.cells[j]]
        0 <= j < len implies hit(j) == (index.cells[j].uid != 0 && index.cells[j].items[0].key@
        == key) by {}
}

/// The search for a free cell in a table finds the nearest one, among the cells that are searched,
/// and fails only if all of these are locked.
pub proof fn law_search_finds_nearest_free_cell<E>(
    cells: Seq<CellModel<E>>,
    start: int,
    steps: int,
)
    requires
        0 < cells.len(),
    ensures
        ({
            let len = cells.len() as int;
            match probe(len, start, steps, free_cells(cells)) {
                Some(i) => {
                    &&& 0 <= i < len
                    &&& (i - start) % len < steps
                    &&& cells[i].uid == 0
                    &&& forall|j: int|
                        #![trigger cells[j]]
                        0 <= j < len && (j - start) % len < (i - start) % len ==> cells[j].uid != 0
                },
                None => forall|j: int|
                    #![trigger cells[j]]
                    0 <= j < len && (j - start) % len < steps ==> cells[j].uid != 0,
            }
        }),
{
    let len = cells.len() as int;
    let hit = free_cells(cells);
    lemma_probe_nearest(len, start, steps, hit);
    assert forall|j: int| #![trigger cells[j]] 0 <= j < len implies hit(j) == (cells[j].uid
        == 0) by {}
}

/// A new key gets the nearest free cell of the index, and none only if all that are searched are
/// locked.
pub proof fn law_new_key_gets_nearest_cell(
    index: StorageModel<IndexEntry>,
    random: u64,
    order: ByteOrder,
    key: Seq<u8>,
)
    requires
        0 < index.cells.len(),
    ensures
        ({
            let cells = index.cells;
            let len = cells.len() as int;
            let start = home(key, random, order, len);
            match room_in(index, random, order, key) {
                Some(i) => {
                    &&& 0 <= i < len
                    &&& (i - start) % len < index.max_search
                    &&& cells[i].uid == 0
                    &&& forall|j: int|
                        #![trigger cells[j]]
                        0 <= j < len && (j - start) % len < (i - start) % len ==> cells[j].uid != 0
                },
                None => forall|j: int|
                    #![trigger cells[j]]
                    0 <= j < len && (j - start) % len < index.max_search ==> cells[j].uid != 0,
            }
        }),
{
    law_search_finds_nearest_free_cell(
        index.cells,
        home(key, random, order, index.cells.len() as int),
        index.max_search as int,
    );
}

/// A list gets the nearest free cell of its data bucket from the position on, and none only if all
/// that are searched are locked.
pub proof fn law_list_gets_nearest_cell<T>(model: BucketModel<T>, bucket: int, pos: int)
    requires
        0 <= bucket < model.data.len(),
        0 < model.data[bucket].cells.len(),
    ensures
        ({
            let cells = model.data[bucket].cells;
            let len = cells.len() as int;
            match model.data_room(bucket, pos) {
                Some(i) => {
                    &&& 0 <= i < len
                    &&& (i - pos) % len < model.index.max_search
                    &&& cells[i].uid == 0
                    &&& forall|j: int|
                        #![trigger cells[j]]
                        0 <= j < len && (j - pos) % len < (i - pos) % len ==> cells[j].uid != 0
                },
                None => forall|j: int|
                    #![trigger cells[j]]
                    0 <= j < len && (j - pos) % len < model.index.max_search ==> cells[j].uid != 0,
            }
        }),
{
    law_search_finds_nearest_free_cell(
        model.data[bucket].cells,
        pos,
        model.index.max_search as int,
    );
}

/// The searches of a bucket are those of its index, with its own random offset and byte order.
pub proof fn law_bucket_searches_its_index<T>(model: BucketModel<T>, key: Seq<u8>)
    ensures
        model.find(key) == find_in(model.index, model.random, model.order, key),
        model.room(key) == room_in(model.index, model.random, model.order, key),
{
}

/// A search may be made in a table in which each locked cell holds something, and an entry may be
/// changed where it holds one thing.
pub proof fn law_searchable_tables(cells: Seq<CellModel<IndexEntry>>)
    ensures
        filled(cells) <==> forall|i: int|
            #![trigger cells[i]]
            0 <= i < cells.len() && cells[i].uid != 0 ==> cells[i].items.len() > 0,
        filled_singly(cells) <==> forall|i: int|
            #![trigger cells[i]]
            0 <= i < cells.len() && cells[i].uid != 0 ==> cells[i].items.len() == 1,
{
}

/// A larger index is filled with the entries of the cells in their order: a cell without an entry
/// changes nothing, an entry takes the cell that its key would get, and where there is none for
/// one entry there is no such index.
pub proof fn law_entries_are_placed_in_order(
    cells: Seq<CellModel<IndexEntry>>,
    n: int,
    target: StorageModel<IndexEntry>,
    random: u64,
    order: ByteOrder,
)
    requires
        0 <= n < cells.len(),
    ensures
        reindexed(cells, 0, target, random, order) == Some(target),
        ({
            let next = reindexed(cells, n + 1, target, random, order);
            match reindexed(cells, n, target, random, order) {
                None => next is None,
                Some(index) => {
                    &&& cells[n].uid == 0 ==> next == Some(index)
                    &&& cells[n].uid != 0 ==> match room_in(
                        index,
                        random,
                        order,
                        cells[n].items[0].key@,
                    ) {
                        None => next is None,
                        Some(at) => {
                            &&& next matches Some(more)
                            &&& more.drives == index.drives
                            &&& more.num_elems == index.num_elems
                            &&& more.elem_size == index.elem_size
                            &&& more.capacity_pow2 == index.capacity_pow2
                            &&& more.max_search == index.max_search
                            &&& index.used < u64::MAX ==> more.used == index.used + 1
                            &&& 0 <= at < index.cells.len() ==> more.cells == index.cells.update(
                                at,
                                (CellModel {
                                    uid: cells[n].uid,
                                    items: seq![cells[n].items[0]],
                                }),
                            )
                        },
                    }
                },
            }
        }),
{
    if reindexed(cells, n, target, random, order) is Some && cells[n].uid != 0 {
        let index = reindexed(cells, n, target, random, order)->0;
        if let Some(at) = room_in(index, random, order, cells[n].items[0].key@) {
            let more = index_with(index, random, order, cells[n])->0;
            if 0 <= at < index.cells.len() {
                assert(more.cells =~= index.cells.update(
                    at,
                    CellModel { uid: cells[n].uid, items: seq![cells[n].items[0]] },
                ));
            }
        }
    }
}

/// A larger index starts from unused cells, of the size that is asked for, and takes the entries of
/// all cells.
pub proof fn law_larger_index_takes_all_cells<T>(
    model: BucketModel<T>,
    capacity_pow2: u8,
    random: u64,
)
    ensures
        model.larger_index(capacity_pow2, random) == reindexed(
            model.index.cells,
            model.index.cells.len() as int,
            StorageModel::fresh(
                model.drives,
                1,
                vstd::layout::size_of::<IndexEntry>() as u64,
                capacity_pow2,
                model.index.max_search,
            ),
            random,
            model.order,
        ),
{
}

/// Which entry is in which cell of `target`, after the entries of the first `n` cells were placed.
proof fn lemma_placement<T>(
    model: BucketModel<T>,
    n: int,
    target: StorageModel<IndexEntry>,
    random: u64,
) -> (owner: Seq<int>)
    requires
        0 <= n <= model.index.cells.len(),
        0 < target.cells.len(),
        target.used == 0,
        target.cells.len() < u64::MAX,
        model.index.cells.len() < u64::MAX,
        forall|at: int| 0 <= at < target.cells.len() ==> (#[trigger] target.cells[at]).uid == 0,
        reindexed(model.index.cells, n, target, random, model.order) is Some,
    ensures
        ({
            let cells = model.index.cells;
            let index = reindexed(cells, n, target, random, model.order)->0;
            let len = index.cells.len() as int;
            &&& target.same_shape(index)
            &&& index.used <= n
            &&& owner.len() == len
            &&& forall|at: int|
                #![trigger owner[at]]
                0 <= at < len ==> (owner[at] >= 0 <==> index.cells[at].uid != 0)
            &&& forall|at: int|
                #![trigger owner[at]]
                0 <= at < len && owner[at] >= 0 ==> {
                    let entry = cells[owner[at]].items[0];
                    &&& owner[at] < n
                    &&& cells[owner[at]].uid != 0
                    &&& (at - home(entry.key@, random, model.order, len)) % len < target.max_search
                    &&& index.cells[at].uid == cells[owner[at]].uid
                    &&& index.cells[at].items == seq![entry]
                }
            &&& forall|at: int, other: int|
                #![trigger owner[at], owner[other]]
                0 <= at < len && 0 <= other < len && at != other && owner[at] >= 0 ==> owner[at]
                    != owner[other]
            &&& forall|j: int|
                #![trigger cells[j]]
                0 <= j < n && cells[j].uid != 0 ==> owner.contains(j)
        }),
    decreases n,
{
    let cells = model.index.cells;
    let len = target.cells.len() as int;
    if n == 0 {
        Seq::new(target.cells.len(), |at: int| -1)
    } else {
        law_entries_are_placed_in_order(cells, n - 1, target, random, model.order);
        let before = lemma_placement(model, n - 1, target, random);
        let index = reindexed(cells, n - 1, target, random, model.order)->0;
        if cells[n - 1].uid == 0 {
            before
        } else {
            let key = cells[n - 1].items[0].key@;
            law_new_key_gets_nearest_cell(index, random, model.order, key);
            let at = room_in(index, random, model.order, key)->0;
            let owner = before.update(at, n - 1);
            assert(before[at] < 0);
            let more = reindexed(cells, n, target, random, model.order)->0;
            assert forall|a: int| #![trigger owner[a]] 0 <= a < len && a != at implies owner[a]
                == before[a] && more.cells[a] == index.cells[a] by {}
            assert forall|j: int| #![trigger cells[j]] 0 <= j < n && cells[j].uid != 0 implies
                owner.contains(j) by {
                if j == n - 1 {
                    assert(owner[at] == j);
                } else {
                    assert(before.contains(j));
                    let a = choose|a: int| 0 <= a < before.len() && before[a] == j;
                    assert(owner[a] == j);
                }
            }
            owner
        }
    }
}

/// A larger index has every entry, once, in a cell that is searched for its key, and nothing else.
/// `owner` says which cell of the old index the entry in each cell is from, and is negative where
/// there is none.
pub proof fn law_larger_index_has_every_entry<T>(
    model: BucketModel<T>,
    capacity_pow2: u8,
    random: u64,
) -> (owner: Seq<int>)
    requires
        model.wf(),
        capacity_pow2 < usize::BITS,
        model.larger_index(capacity_pow2, random) is Some,
    ensures
        ({
            let cells = model.index.cells;
            let index = model.larger_index(capacity_pow2, random)->0;
            let len = index.cells.len() as int;
            &&& index.drives == model.drives
            &&& index.num_elems == 1
            &&& index.elem_size == vstd::layout::size_of::<IndexEntry>() as u64
            &&& index.capacity_pow2 == capacity_pow2
            &&& index.max_search == model.index.max_search
            &&& len == pow2(capacity_pow2 as nat)
            &&& owner.len() == len
            &&& forall|at: int|
                #![trigger owner[at]]
                0 <= at < len ==> (owner[at] >= 0 <==> index.cells[at].uid != 0)
            &&& forall|at: int|
                #![trigger owner[at]]
                0 <= at < len && owner[at] >= 0 ==> {
                    let entry = cells[owner[at]].items[0];
                    &&& owner[at] < cells.len()
                    &&& cells[owner[at]].uid != 0
                    &&& (at - home(entry.key@, random, model.order, len)) % len
                        < model.index.max_search
                    &&& index.cells[at].uid == cells[owner[at]].uid
                    &&& index.cells[at].items == seq![entry]
                }
            &&& forall|at: int, other: int|
                #![trigger owner[at], owner[other]]
                0 <= at < len && 0 <= other < len && at != other && owner[at] >= 0 ==> owner[at]
                    != owner[other]
            &&& forall|j: int|
                #![trigger cells[j]]
                0 <= j < cells.len() && cells[j].uid != 0 ==> owner.contains(j)
        }),
{
    let target = model.fresh_index(capacity_pow2);
    StorageModel::<IndexEntry>::lemma_fresh_wf(
        target.drives,
        target.num_elems,
        target.elem_size,
        capacity_pow2,
        target.max_search,
    );
    target.lemma_capacity();
    model.index.lemma_capacity();
    lemma_placement(model, model.capacity(), target, random)
}

/// A larger index is refused only for a real lack of room: where there is none, all cells that would
/// be searched for some entry are taken by other entries, each in a cell that is searched for it.
/// The entry is the one in cell `lacking.0` of the index, and `lacking.1` says which entry takes a
/// cell of the larger one, negative where none does.
pub proof fn law_larger_index_is_refused_for_lack_of_room<T>(
    model: BucketModel<T>,
    capacity_pow2: u8,
    random: u64,
) -> (lacking: (int, Seq<int>))
    requires
        model.wf(),
        capacity_pow2 < usize::BITS,
        model.larger_index(capacity_pow2, random) is None,
    ensures
        ({
            let cells = model.index.cells;
            let len = pow2(capacity_pow2 as nat) as int;
            let (i, owner) = lacking;
            let start = home(cells[i].items[0].key@, random, model.order, len);
            &&& 0 <= i < cells.len()
            &&& cells[i].uid != 0
            &&& owner.len() == len
            &&& forall|at: int|
                #![trigger owner[at]]
                0 <= at < len && (at - start) % len < model.index.max_search ==> owner[at] >= 0
            &&& forall|at: int|
                #![trigger owner[at]]
                0 <= at < len && owner[at] >= 0 ==> {
                    let entry = cells[owner[at]].items[0];
                    &&& owner[at] < cells.len()
                    &&& owner[at] != i
                    &&& cells[owner[at]].uid != 0
                    &&& (at - home(entry.key@, random, model.order, len)) % len
                        < model.index.max_search
                }
            &&& forall|at: int, other: int|
                #![trigger owner[at], owner[other]]
                0 <= at < len && 0 <= other < len && at != other && owner[at] >= 0 ==> owner[at]
                    != owner[other]
        }),
{
    let target = model.fresh_index(capacity_pow2);
    StorageModel::<IndexEntry>::lemma_fresh_wf(
        target.drives,
        target.num_elems,
        target.elem_size,
        capacity_pow2,
        target.max_search,
    );
    target.lemma_capacity();
    model.index.lemma_capacity();
    lemma_crowded_out(model, model.capacity(), target, random)
}

/// The first of the entries of the first `n` cells that finds no room, and what takes it.
proof fn lemma_crowded_out<T>(
    model: BucketModel<T>,
    n: int,
    target: StorageModel<IndexEntry>,
    random: u64,
) -> (lacking: (int, Seq<int>))
    requires
        0 <= n <= model.index.cells.len(),
        0 < target.cells.len(),
        target.used == 0,
        target.cells.len() < u64::MAX,
        model.index.cells.len() < u64::MAX,
        forall|at: int| 0 <= at < target.cells.len() ==> (#[trigger] target.cells[at]).uid == 0,
        reindexed(model.index.cells, n, target, random, model.order) is None,
    ensures
        ({
            let cells = model.index.cells;
            let len = target.cells.len() as int;
            let (i, owner) = lacking;
            let start = home(cells[i].items[0].key@, random, model.order, len);
            &&& 0 <= i < n
            &&& cells[i].uid != 0
            &&& owner.len() == len
            &&& forall|at: int|
                #![trigger owner[at]]
                0 <= at < len && (at - start) % len < target.max_search ==> owner[at] >= 0
            &&& forall|at: int|
                #![trigger owner[at]]
                0 <= at < len && owner[at] >= 0 ==> {
                    let entry = cells[owner[at]].items[0];
                    &&& owner[at] < n
                    &&& owner[at] != i
                    &&& cells[owner[at]].uid != 0
                    &&& (at - home(entry.key@, random, model.order, len)) % len < target.max_search
                }
            &&& forall|at: int, other: int|
                #![trigger owner[at], owner[other]]
                0 <= at < len && 0 <= other < len && at != other && owner[at] >= 0 ==> owner[at]
                    != owner[other]
        }),
    decreases n,
{
    let cells = model.index.cells;
    if n == 0 {
        (0, Seq::empty())
    } else {
        law_entries_are_placed_in_order(cells, n - 1, target, random, model.order);
        if reindexed(cells, n - 1, target, random, model.order) is None {
            lemma_crowded_out(model, n - 1, target, random)
        } else {
            let owner = lemma_placement(model, n - 1, target, random);
            let index = reindexed(cells, n - 1, target, random, model.order)->0;
            let key = cells[n - 1].items[0].key@;
            law_new_key_gets_nearest_cell(index, random, model.order, key);
            let len = target.cells.len() as int;
            let start = home(key, random, model.order, len);
            assert forall|at: int|
                #![trigger owner[at]]
                0 <= at < len && (at - start) % len < target.max_search implies owner[at] >= 0 by {
                assert(index.cells[at].uid != 0);
            }
            (n - 1, owner)
        }
    }
}

/// Where the entries are searched for from different cells on, and any cell is searched at all, the
/// larger index is not refused, and has each entry in the cell from which it is searched for.
pub proof fn law_entries_apart_have_room<T>(
    model: BucketModel<T>,
    capacity_pow2: u8,
    random: u64,
)
    requires
        model.wf(),
        capacity_pow2 < usize::BITS,
        model.index.max_search > 0,
        forall|i: int, j: int|
            #![trigger model.index.cells[i], model.index.cells[j]]
            0 <= i < model.index.cells.len() && 0 <= j < model.index.cells.len() && i != j
                && model.index.cells[i].uid != 0 && model.index.cells[j].uid != 0 ==> home(
                model.index.cells[i].items[0].key@,
                random,
                model.order,
                pow2(capacity_pow2 as nat) as int,
            ) != home(
                model.index.cells[j].items[0].key@,
                random,
                model.order,
                pow2(capacity_pow2 as nat) as int,
            ),
    ensures
        ({
            let cells = model.index.cells;
            let len = pow2(capacity_pow2 as nat) as int;
            &&& model.larger_index(capacity_pow2, random) matches Some(index)
            &&& forall|i: int|
                #![trigger cells[i]]
                0 <= i < cells.len() && cells[i].uid != 0 ==> {
                    let entry = cells[i].items[0];
                    let at = home(entry.key@, random, model.order, len);
                    &&& index.cells[at].uid == cells[i].uid
                    &&& index.cells[at].items == seq![entry]
                }
        }),
{
    let target = model.fresh_index(capacity_pow2);
    StorageModel::<IndexEntry>::lemma_fresh_wf(
        target.drives,
        target.num_elems,
        target.elem_size,
        capacity_pow2,
        target.max_search,
    );
    target.lemma_capacity();
    lemma_placed_at_start(model, model.capacity(), target, random);
}

/// Where the entries of the first `n` cells are, if they are searched for from different cells on.
proof fn lemma_placed_at_start<T>(
    model: BucketModel<T>,
    n: int,
    target: StorageModel<IndexEntry>,
    random: u64,
)
    requires
        0 <= n <= model.index.cells.len(),
        0 < target.cells.len(),
        0 < target.max_search,
        forall|at: int| 0 <= at < target.cells.len() ==> (#[trigger] target.cells[at]).uid == 0,
        forall|i: int, j: int|
            #![trigger model.index.cells[i], model.index.cells[j]]
            0 <= i < model.index.cells.len() && 0 <= j < model.index.cells.len() && i != j
                && model.index.cells[i].uid != 0 && model.index.cells[j].uid != 0 ==> home(
                model.index.cells[i].items[0].key@,
                random,
                model.order,
                target.cells.len() as int,
            ) != home(
                model.index.cells[j].items[0].key@,
                random,
                model.order,
                target.cells.len() as int,
            ),
    ensures
        ({
            let cells = model.index.cells;
            let len = target.cells.len() as int;
            &&& reindexed(cells, n, target, random, model.order) matches Some(index)
            &&& index.cells.len() == len
            &&& index.max_search == target.max_search
            &&& forall|i: int|
                #![trigger cells[i]]
                0 <= i < n && cells[i].uid != 0 ==> {
                    let entry = cells[i].items[0];
                    let at = home(entry.key@, random, model.order, len);
                    &&& index.cells[at].uid == cells[i].uid
                    &&& index.cells[at].items == seq![entry]
                }
            &&& forall|at: int|
                #![trigger index.cells[at]]
                0 <= at < len && index.cells[at].uid != 0 ==> exists|i: int|
                    0 <= i < n && #[trigger] cells[i].uid != 0 && at == home(
                        cells[i].items[0].key@,
                        random,
                        model.order,
                        len,
                    )
        }),
    decreases n,
{
    let cells = model.index.cells;
    let len = target.cells.len() as int;
    if n > 0 {
        law_entries_are_placed_in_order(cells, n - 1, target, random, model.order);
        lemma_placed_at_start(model, n - 1, target, random);
        let index = reindexed(cells, n - 1, target, random, model.order)->0;
        if cells[n - 1].uid != 0 {
            let key = cells[n - 1].items[0].key@;
            let at = home(key, random, model.order, len);
            vstd::arithmetic::div_mod::lemma_small_mod(0, len as nat);
            law_new_key_gets_nearest_cell(index, random, model.order, key);
            if index.cells[at].uid != 0 {
                let i = choose|i: int|
                    0 <= i < n - 1 && #[trigger] cells[i].uid != 0 && at == home(
                        cells[i].items[0].key@,
                        random,
                        model.order,
                        len,
                    );
                assert(cells[i].uid != 0 && cells[n - 1].uid != 0);
                assert(false);
            }
            let found = room_in(index, random, model.order, key);
            assert((at - at) % len == 0);
            assert(found is Some);
            let got = found->0;
            vstd::arithmetic::div_mod::lemma_mod_bound(got - at, len);
            assert((got - at) % len == 0);
            lemma_no_distance(len, at, got);
            let more = reindexed(cells, n, target, random, model.order)->0;
            assert forall|a: int|
                #![trigger more.cells[a]]
                0 <= a < len && more.cells[a].uid != 0 implies exists|i: int|
                0 <= i < n && #[trigger] cells[i].uid != 0 && a == home(
                    cells[i].items[0].key@,
                    random,
                    model.order,
                    len,
                ) by {
                if a == at {
                    assert(cells[n - 1].uid != 0);
                } else {
                    assert(index.cells[a].uid != 0);
                }
            }
            assert forall|i: int| #![trigger cells[i]] 0 <= i < n && cells[i].uid != 0 implies {
                let entry = cells[i].items[0];
                let to = home(entry.key@, random, model.order, len);
                &&& more.cells[to].uid == cells[i].uid
                &&& more.cells[to].items == seq![entry]
            } by {
                if i < n - 1 {
                    assert(cells[i].uid != 0 && cells[n - 1].uid != 0);
                }
            }
        }
    }
}

/// Cells of a table at no distance from each other are one.
proof fn lemma_no_distance(len: int, a: int, b: int)
    requires
        0 <= a < len,
        0 <= b < len,
        (b - a) % len == 0,
    ensures
        a == b,
{
    vstd::arithmetic::div_mod::lemma_fundamental_div_mod(b - a, len);
    let q = (b - a) / len;
    assert(q == 0) by (nonlinear_arith)
        requires
            b - a == len * q,
            -len < b - a < len,
            0 < len,
    ;
}

} // verus!
