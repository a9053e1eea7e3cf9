//! Storage for one table of a bucket: a power of two of cells, each locked by an owner or free.
use std::path::PathBuf;
use std::sync::Arc;
use vstd::arithmetic::power2::pow2;
use vstd::prelude::*;

verus! {

/// Identifies the owner of a locked cell.
pub type Uid = u64;

/// How many cells are searched, at most, for a key or for a free cell.
pub type MaxSearch = u8;

/// The owner of a cell that nobody has locked.
pub const UID_UNLOCKED: u64 = 0;

/// The number of cells, as a power of two, of a storage for which none is asked.
pub const DEFAULT_CAPACITY_POW2: u8 = 5;

/// A cell: its owner and what was last written to it.
#[verifier::ext_equal]
pub struct CellModel<E> {
    pub uid: u64,
    pub items: Seq<E>,
}

impl<E> CellModel<E> {
    /// A cell that was never used.
    pub open spec fn fresh() -> Self {
        CellModel { uid: UID_UNLOCKED, items: Seq::empty() }
    }

    pub open spec fn locked(self) -> bool {
        self.uid != UID_UNLOCKED
    }
}

/// How many of the cells are locked.
pub open spec fn count_locked<E>(cells: Seq<CellModel<E>>) -> nat
    decreases cells.len(),
{
    if cells.len() == 0 {
        0
    } else {
        count_locked(cells.drop_last()) + if cells.last().locked() {
            1nat
        } else {
            0nat
        }
    }
}

/// The cells, spread out over `step` times as many: cell `i` becomes cell `i * step`.
pub open spec fn spread<E>(cells: Seq<CellModel<E>>, step: nat) -> Seq<CellModel<E>> {
    Seq::new(
        cells.len() * step,
        |i: int|
            if i % (step as int) == 0 {
                cells[i / (step as int)]
            } else {
                CellModel::fresh()
            },
    )
}

/// What a storage holds.
#[verifier::ext_equal]
pub struct StorageModel<E> {
    pub drives: Arc<Vec<PathBuf>>,
    pub num_elems: u64,
    pub elem_size: u64,
    pub capacity_pow2: u8,
    pub max_search: u8,
    pub used: u64,
    pub cells: Seq<CellModel<E>>,
}

impl<E> StorageModel<E> {
    /// The storage has as many cells as it says, and has counted the locked ones.
    pub open spec fn wf(self) -> bool {
        &&& self.capacity_pow2 < usize::BITS
        &&& self.cells.len() == pow2(self.capacity_pow2 as nat)
        &&& self.used == count_locked(self.cells)
    }

    /// A storage whose cells were never used.
    pub open spec fn fresh(
        drives: Arc<Vec<PathBuf>>,
        num_elems: u64,
        elem_size: u64,
        capacity_pow2: u8,
        max_search: u8,
    ) -> Self {
        StorageModel {
            drives,
            num_elems,
            elem_size,
            capacity_pow2,
            max_search,
            used: 0,
            cells: Seq::new(pow2(capacity_pow2 as nat), |i: int| CellModel::fresh()),
        }
    }

    pub open spec fn locked(self, ix: int) -> bool {
        self.cells[ix].locked()
    }

    /// Cell `ix` locked by `uid`.
    pub open spec fn allocate(self, ix: int, uid: u64) -> Self {
        StorageModel {
            used: (self.used + 1) as u64,
            cells: self.cells.update(ix, CellModel { uid, ..self.cells[ix] }),
            ..self
        }
    }

    /// Cell `ix` unlocked.
    pub open spec fn free(self, ix: int) -> Self {
        StorageModel {
            used: (self.used - 1) as u64,
            cells: self.cells.update(ix, CellModel { uid: UID_UNLOCKED, ..self.cells[ix] }),
            ..self
        }
    }

    /// `items` written to cell `ix`.
    pub open spec fn put(self, ix: int, items: Seq<E>) -> Self {
        StorageModel {
            cells: self.cells.update(ix, CellModel { items, ..self.cells[ix] }),
            ..self
        }
    }

    /// `next` differs from this storage in nothing but what its cells hold.
    pub open spec fn same_shape(self, next: Self) -> bool {
        &&& next == (StorageModel { used: next.used, cells: next.cells, ..self })
        &&& next.cells.len() == self.cells.len()
    }

    /// The storage with the cells of the smaller `old` spread out over its own.
    pub open spec fn refilled(self, old: Self) -> Self {
        StorageModel {
            used: old.used,
            cells: spread(old.cells, pow2((self.capacity_pow2 - old.capacity_pow2) as nat)),
            ..self
        }
    }
}

pub proof fn lemma_count_bounded<E>(cells: Seq<CellModel<E>>)
    ensures
        count_locked(cells) <= cells.len(),
    decreases cells.len(),
{
    if cells.len() > 0 {
        lemma_count_bounded(cells.drop_last());
    }
}

pub proof fn lemma_count_update<E>(cells: Seq<CellModel<E>>, ix: int, cell: CellModel<E>)
    requires
        0 <= ix < cells.len(),
    ensures
        count_locked(cells.update(ix, cell)) == count_locked(cells) - (if cells[ix].locked() {
            1int
        } else {
            0
        }) + (if cell.locked() {
            1int
        } else {
            0
        }),
    decreases cells.len(),
{
    let updated = cells.update(ix, cell);
    if ix == cells.len() - 1 {
        assert(updated.drop_last() =~= cells.drop_last());
    } else {
        assert(updated.drop_last() =~= cells.drop_last().update(ix, cell));
        lemma_count_update(cells.drop_last(), ix, cell);
    }
}

/// Where a cell is free, not all cells are locked.
pub proof fn lemma_count_not_full<E>(cells: Seq<CellModel<E>>, ix: int)
    requires
        0 <= ix < cells.len(),
        !cells[ix].locked(),
    ensures
        count_locked(cells) < cells.len(),
{
    lemma_count_bounded(cells.update(ix, CellModel { uid: 1, items: Seq::empty() }));
    lemma_count_update(cells, ix, CellModel { uid: 1, items: Seq::empty() });
}

pub proof fn lemma_count_none<E>(cells: Seq<CellModel<E>>)
    requires
        forall|i: int| 0 <= i < cells.len() ==> !(#[trigger] cells[i]).locked(),
    ensures
        count_locked(cells) == 0,
    decreases cells.len(),
{
    if cells.len() > 0 {
        lemma_count_none(cells.drop_last());
    }
}

pub proof fn lemma_count_concat<E>(a: Seq<CellModel<E>>, b: Seq<CellModel<E>>)
    ensures
        count_locked(a + b) == count_locked(a) + count_locked(b),
    decreases b.len(),
{
    if b.len() == 0 {
        assert(a + b =~= a);
    } else {
        assert((a + b).drop_last() =~= a + b.drop_last());
        lemma_count_concat(a, b.drop_last());
    }
}

/// Where cell `i` is after the cells have been spread out.
pub proof fn lemma_spread_at<E>(cells: Seq<CellModel<E>>, step: nat, i: int)
    requires
        0 < step,
        0 <= i < cells.len(),
    ensures
        0 <= i * step < cells.len() * step,
        spread(cells, step)[i * step] == cells[i],
{
    assert(0 <= i * step < cells.len() * step) by (nonlinear_arith)
        requires
            0 <= i < cells.len(),
            0 < step,
    ;
    vstd::arithmetic::div_mod::lemma_mod_multiples_basic(i, step as int);
    vstd::arithmetic::div_mod::lemma_div_multiples_vanish(i, step as int);
    assert(step * i == i * step) by (nonlinear_arith);
}

/// Where a locked cell was before the cells were spread out.
pub proof fn lemma_spread_from<E>(cells: Seq<CellModel<E>>, step: nat, i: int)
    requires
        0 < step,
        0 <= i < cells.len() * step,
        spread(cells, step)[i].locked(),
    ensures
        0 <= i / (step as int) < cells.len(),
        i == (i / (step as int)) * step,
        spread(cells, step)[i] == cells[i / (step as int)],
{
    vstd::arithmetic::div_mod::lemma_fundamental_div_mod(i, step as int);
    let q = i / (step as int);
    assert(step * q == q * step) by (nonlinear_arith);
    assert(0 <= q < cells.len()) by (nonlinear_arith)
        requires
            0 <= q * step < cells.len() * step,
            0 < step,
    ;
}

/// Cells spread out twice are spread out by both steps together.
pub proof fn lemma_spread_twice<E>(cells: Seq<CellModel<E>>, a: nat, b: nat)
    requires
        0 < a,
        0 < b,
    ensures
        spread(spread(cells, a), b) == spread(cells, a * b),
{
    let once = spread(cells, a);
    let twice = spread(once, b);
    let both = spread(cells, a * b);
    vstd::arithmetic::mul::lemma_mul_is_associative(cells.len() as int, a as int, b as int);
    vstd::arithmetic::mul::lemma_mul_is_commutative(a as int, b as int);
    vstd::arithmetic::mul::lemma_mul_strictly_positive(a as int, b as int);
    assert forall|i: int| 0 <= i < twice.len() implies #[trigger] twice[i] == both[i] by {
        vstd::arithmetic::div_mod::lemma_fundamental_div_mod(i, b as int);
        vstd::arithmetic::div_mod::lemma_breakdown(i, b as int, a as int);
        vstd::arithmetic::div_mod::lemma_div_denominator(i, b as int, a as int);
        let q = i / (b as int);
        let r = q % (a as int);
        assert(0 <= q < once.len()) by (nonlinear_arith)
            requires
                i == b * q + i % (b as int),
                0 <= i % (b as int) < b,
                0 <= i < once.len() * b,
                0 < b,
        ;
        assert(b * r + i % (b as int) == 0 <==> r == 0 && i % (b as int) == 0) by (nonlinear_arith)
            requires
                0 <= r,
                0 <= i % (b as int),
                0 < b,
        ;
    }
    assert(twice =~= both);
}

/// Cells spread out over as many are the same cells.
pub proof fn lemma_spread_once<E>(cells: Seq<CellModel<E>>)
    ensures
        spread(cells, 1) == cells,
{
    assert(spread(cells, 1) =~= cells);
}

/// Spreading cells out does not change how many of them are locked.
pub proof fn lemma_spread_count<E>(cells: Seq<CellModel<E>>, step: nat)
    requires
        0 < step,
    ensures
        count_locked(spread(cells, step)) == count_locked(cells),
    decreases cells.len(),
{
    if cells.len() == 0 {
        assert(spread(cells, step).len() == 0) by (nonlinear_arith)
            requires
                spread(cells, step).len() == cells.len() * step,
                cells.len() == 0,
        ;
    } else {
        let init = cells.drop_last();
        let n = init.len() as int;
        let whole = spread(cells, step);
        let rest = whole.skip(n * step);
        assert(n * step + step == cells.len() * step && n * step >= 0) by (nonlinear_arith)
            requires
                n + 1 == cells.len(),
                n >= 0,
        ;
        lemma_spread_at(cells, step, n);
        assert(whole.take(n * step) =~= spread(init, step)) by {
            assert forall|i: int| 0 <= i < n * step implies #[trigger] whole[i] == spread(
                init,
                step,
            )[i] by {
                if i % (step as int) == 0 {
                    vstd::arithmetic::div_mod::lemma_fundamental_div_mod(i, step as int);
                    let q = i / (step as int);
                    assert(0 <= q < n) by (nonlinear_arith)
                        requires
                            i == step * q,
                            0 <= i < n * step,
                            0 < step,
                    ;
                }
            }
        }
        assert(whole =~= whole.take(n * step) + rest);
        lemma_count_concat(whole.take(n * step), rest);
        assert(rest[0] == cells[n]);
        assert(rest =~= seq![cells[n]] + rest.skip(1));
        lemma_count_concat(seq![cells[n]], rest.skip(1));
        assert forall|i: int| 0 <= i < rest.skip(1).len() implies !(#[trigger] rest.skip(
            1,
        )[i]).locked() by {
            let j = n * step + 1 + i;
            assert(whole[j] == rest.skip(1)[i]);
            if whole[j].locked() {
                lemma_spread_from(cells, step, j);
                let q = j / (step as int);
                assert(false) by (nonlinear_arith)
                    requires
                        j == q * step,
                        n * step < j < n * step + step,
                ;
            }
        }
        lemma_count_none(rest.skip(1));
        assert(seq![cells[n]].drop_last() =~= Seq::<CellModel<E>>::empty());
        assert(count_locked(seq![cells[n]].drop_last()) == 0);
        lemma_spread_count(init, step);
    }
}

impl<E> StorageModel<E> {
    pub proof fn lemma_fresh_wf(
        drives: Arc<Vec<PathBuf>>,
        num_elems: u64,
        elem_size: u64,
        capacity_pow2: u8,
        max_search: u8,
    )
        requires
            capacity_pow2 < usize::BITS,
        ensures
            Self::fresh(drives, num_elems, elem_size, capacity_pow2, max_search).wf(),
    {
        lemma_count_none(
            Self::fresh(drives, num_elems, elem_size, capacity_pow2, max_search).cells,
        );
    }

    pub proof fn lemma_capacity(self)
        requires
            self.wf(),
        ensures
            0 < self.cells.len() <= usize::MAX,
            self.cells.len() <= 0x8000_0000_0000_0000,
            self.used <= self.cells.len(),
    {
        vstd::bits::lemma_usize_pow2_no_overflow(self.capacity_pow2 as nat);
        vstd::arithmetic::power2::lemma2_to64_rest();
        if self.capacity_pow2 < 63 {
            vstd::arithmetic::power2::lemma_pow2_strictly_increases(
                self.capacity_pow2 as nat,
                63,
            );
        }
        lemma_count_bounded(self.cells);
    }

    pub proof fn lemma_allocate_wf(self, ix: int, uid: u64)
        requires
            self.wf(),
            0 <= ix < self.cells.len(),
            !self.locked(ix),
            uid != UID_UNLOCKED,
        ensures
            self.allocate(ix, uid).wf(),
            self.used + 1 <= self.cells.len(),
    {
        self.lemma_capacity();
        lemma_count_not_full(self.cells, ix);
        lemma_count_update(self.cells, ix, CellModel { uid, ..self.cells[ix] });
    }

    pub proof fn lemma_free_wf(self, ix: int)
        requires
            self.wf(),
            0 <= ix < self.cells.len(),
            self.locked(ix),
        ensures
            self.free(ix).wf(),
            0 < self.used,
    {
        lemma_count_update(self.cells, ix, CellModel { uid: UID_UNLOCKED, ..self.cells[ix] });
    }

    pub proof fn lemma_put_wf(self, ix: int, items: Seq<E>)
        requires
            self.wf(),
            0 <= ix < self.cells.len(),
        ensures
            self.put(ix, items).wf(),
    {
        lemma_count_update(self.cells, ix, CellModel { items, ..self.cells[ix] });
    }

    pub proof fn lemma_refilled_wf(self, old: Self)
        requires
            old.wf(),
            old.capacity_pow2 <= self.capacity_pow2 < usize::BITS,
        ensures
            self.refilled(old).wf(),
    {
        let by = (self.capacity_pow2 - old.capacity_pow2) as nat;
        vstd::arithmetic::power2::lemma_pow2_pos(by);
        vstd::arithmetic::power2::lemma_pow2_adds(old.capacity_pow2 as nat, by);
        lemma_spread_count(old.cells, pow2(by));
    }
}

/// A cell: its owner and what was last written to it.
pub struct Cell<E> {
    uid: Uid,
    items: Vec<E>,
}

impl<E> View for Cell<E> {
    type V = CellModel<E>;

    closed spec fn view(&self) -> CellModel<E> {
        CellModel { uid: self.uid, items: self.items@ }
    }
}

/// Why a cell could not be allocated.
#[derive(Debug)]
pub enum BucketStorageError {
    AlreadyAllocated,
}

/// A storage of `2^capacity_pow2` cells, each with room for `num_elems` elements of `elem_size`
/// bytes. The cells are kept in memory; `drives` is carried along for whoever puts them on disk.
pub struct BucketStorage<E> {
    drives: Arc<Vec<PathBuf>>,
    num_elems: u64,
    elem_size: u64,
    capacity_pow2: u8,
    max_search: MaxSearch,
    used: u64,
    cells: Vec<Cell<E>>,
}

impl<E> View for BucketStorage<E> {
    type V = StorageModel<E>;

    closed spec fn view(&self) -> StorageModel<E> {
        StorageModel {
            drives: self.drives,
            num_elems: self.num_elems,
            elem_size: self.elem_size,
            capacity_pow2: self.capacity_pow2,
            max_search: self.max_search,
            used: self.used,
            cells: Seq::new(self.cells@.len(), |i: int| self.cells@[i]@),
        }
    }
}

impl<E: Copy> BucketStorage<E> {
    /// A storage of `2^capacity_pow2` unused cells.
    pub fn new_with_capacity(
        drives: Arc<Vec<PathBuf>>,
        num_elems: u64,
        elem_size: u64,
        capacity_pow2: u8,
        max_search: MaxSearch,
    ) -> (storage: Self)
        requires
            capacity_pow2 < usize::BITS,
        ensures
            storage@ == StorageModel::<E>::fresh(
                drives,
                num_elems,
                elem_size,
                capacity_pow2,
                max_search,
            ),
            storage@.wf(),
    {
        proof {
            vstd::bits::lemma_usize_pow2_no_overflow(capacity_pow2 as nat);
            StorageModel::<E>::lemma_fresh_wf(
                drives,
                num_elems,
                elem_size,
                capacity_pow2,
                max_search,
            );
        }
        let capacity: usize = 1usize << (capacity_pow2 as usize);
        proof {
            vstd::bits::lemma_usize_shl_is_mul(1, capacity_pow2 as usize);
        }
        let mut cells: Vec<Cell<E>> = Vec::with_capacity(capacity);
        while cells.len() < capacity
            invariant
                cells@.len() <= capacity,
                forall|i: int| 0 <= i < cells@.len() ==> (#[trigger] cells@[i])@ == CellModel::<
                    E,
                >::fresh(),
            decreases capacity - cells@.len(),
        {
            let cell = Cell { uid: UID_UNLOCKED, items: Vec::new() };
            assert(cell@ =~= CellModel::<E>::fresh());
            cells.push(cell);
        }
        let storage = BucketStorage {
            drives,
            num_elems,
            elem_size,
            capacity_pow2,
            max_search,
            used: 0,
            cells,
        };
        assert(storage@ =~= StorageModel::<E>::fresh(
            drives,
            num_elems,
            elem_size,
            capacity_pow2,
            max_search,
        ));
        storage
    }

    /// A storage of `2^DEFAULT_CAPACITY_POW2` unused cells.
    pub fn new(
        drives: Arc<Vec<PathBuf>>,
        num_elems: u64,
        elem_size: u64,
        max_search: MaxSearch,
    ) -> (storage: Self)
        ensures
            storage@ == StorageModel::<E>::fresh(
                drives,
                num_elems,
                elem_size,
                DEFAULT_CAPACITY_POW2,
                max_search,
            ),
            storage@.wf(),
    {
        Self::new_with_capacity(drives, num_elems, elem_size, DEFAULT_CAPACITY_POW2, max_search)
    }

    /// How many cells are searched, at most, for a key or for a free cell.
    pub fn max_search(&self) -> (max_search: u64)
        ensures
            max_search == self@.max_search,
    {
        self.max_search as u64
    }

    /// The limit that `max_search` gives, as it was set.
    pub fn search_limit(&self) -> (limit: MaxSearch)
        ensures
            limit == self@.max_search,
    {
        self.max_search
    }

    /// The number of cells, as a power of two.
    pub fn capacity_pow2(&self) -> (capacity_pow2: u8)
        ensures
            capacity_pow2 == self@.capacity_pow2,
    {
        self.capacity_pow2
    }

    /// The number of cells.
    pub fn capacity(&self) -> (capacity: u64)
        requires
            self@.wf(),
        ensures
            capacity == self@.cells.len(),
            capacity == pow2(self@.capacity_pow2 as nat),
    {
        proof {
            self@.lemma_capacity();
            vstd::bits::lemma_u64_pow2_no_overflow(self.capacity_pow2 as nat);
            vstd::bits::lemma_u64_shl_is_mul(1, self.capacity_pow2 as u64);
        }
        1u64 << (self.capacity_pow2 as u64)
    }

    /// The number of locked cells.
    pub fn used(&self) -> (used: u64)
        requires
            self@.wf(),
        ensures
            used == self@.used,
            used == count_locked(self@.cells),
    {
        self.used
    }

    /// The owner of cell `ix`.
    pub fn uid(&self, ix: u64) -> (uid: Uid)
        requires
            self@.wf(),
            ix < self@.cells.len(),
        ensures
            uid == self@.cells[ix as int].uid,
    {
        proof {
            self@.lemma_capacity();
        }
        self.cells[ix as usize].uid
    }

    /// Locks cell `ix` for `uid`, unless it is locked.
    pub fn allocate(&mut self, ix: u64, uid: Uid) -> (result: Result<(), BucketStorageError>)
        requires
            old(self)@.wf(),
            ix < old(self)@.cells.len(),
            uid != UID_UNLOCKED,
        ensures
            final(self)@.wf(),
            result is Err <==> old(self)@.locked(ix as int),
            match result {
                Ok(()) => final(self)@ == old(self)@.allocate(ix as int, uid),
                Err(_) => final(self)@ == old(self)@,
            },
    {
        proof {
            self@.lemma_capacity();
        }
        if self.cells[ix as usize].uid != UID_UNLOCKED {
            return Err(BucketStorageError::AlreadyAllocated);
        }
        proof {
            self@.lemma_allocate_wf(ix as int, uid);
        }
        self.cells[ix as usize].uid = uid;
        self.used = self.used + 1;
        assert(self@ =~= old(self)@.allocate(ix as int, uid));
        Ok(())
    }

    /// Unlocks cell `ix`, which `uid` has locked.
    pub fn free(&mut self, ix: u64, uid: Uid)
        requires
            old(self)@.wf(),
            ix < old(self)@.cells.len(),
            uid != UID_UNLOCKED,
            old(self)@.cells[ix as int].uid == uid,
        ensures
            final(self)@.wf(),
            final(self)@ == old(self)@.free(ix as int),
    {
        proof {
            self@.lemma_capacity();
            self@.lemma_free_wf(ix as int);
        }
        self.cells[ix as usize].uid = UID_UNLOCKED;
        self.used = self.used - 1;
        assert(self@ =~= old(self)@.free(ix as int));
    }

    /// The first element of cell `ix`.
    pub fn get(&self, ix: u64) -> (elem: &E)
        requires
            self@.wf(),
            ix < self@.cells.len(),
            self@.cells[ix as int].items.len() > 0,
        ensures
            *elem == self@.cells[ix as int].items[0],
    {
        proof {
            self@.lemma_capacity();
        }
        &self.cells[ix as usize].items[0]
    }

    /// The only element of cell `ix`, to be changed.
    pub fn get_mut(&mut self, ix: u64) -> (elem: &mut E)
        requires
            old(self)@.wf(),
            ix < old(self)@.cells.len(),
            old(self)@.cells[ix as int].items.len() == 1,
        ensures
            *elem == old(self)@.cells[ix as int].items[0],
            final(self)@.wf(),
            final(self)@ == old(self)@.put(ix as int, seq![*final(elem)]),
    {
        proof {
            self@.lemma_capacity();
        }
        let elem = &mut self.cells[ix as usize].items[0];
        proof {
            assert(after_borrow(self)@ =~~= old(self)@.put(ix as int, seq![*final(elem)]));
            old(self)@.lemma_put_wf(ix as int, seq![*final(elem)]);
        }
        elem
    }

    /// Writes `elem` to cell `ix`, in place of what was there.
    pub fn put(&mut self, ix: u64, elem: E)
        requires
            old(self)@.wf(),
            ix < old(self)@.cells.len(),
        ensures
            final(self)@.wf(),
            final(self)@ == old(self)@.put(ix as int, seq![elem]),
    {
        proof {
            self@.lemma_capacity();
            self@.lemma_put_wf(ix as int, seq![elem]);
        }
        let mut items: Vec<E> = Vec::new();
        items.push(elem);
        assert(items@ =~= seq![elem]);
        self.cells[ix as usize].items = items;
        assert(self@ =~= old(self)@.put(ix as int, seq![elem]));
    }

    /// The first `len` elements of cell `ix`.
    pub fn get_cell_slice(&self, ix: u64, len: u64) -> (slice: &[E])
        requires
            self@.wf(),
            ix < self@.cells.len(),
            len <= self@.cells[ix as int].items.len(),
        ensures
            slice@ == self@.cells[ix as int].items.take(len as int),
    {
        proof {
            self@.lemma_capacity();
        }
        let items = &self.cells[ix as usize].items;
        assert(items.len() == items@.len());
        vstd::slice::slice_subrange(items.as_slice(), 0, len as usize)
    }

    /// No elements.
    pub fn get_empty_cell_slice(&self) -> (slice: &[E])
        requires
            self@.wf(),
        ensures
            slice@ == Seq::<E>::empty(),
    {
        proof {
            self@.lemma_capacity();
        }
        let slice = vstd::slice::slice_subrange(self.cells[0].items.as_slice(), 0, 0);
        assert(slice@ =~= Seq::<E>::empty());
        slice
    }

    /// Writes `elems` to cell `ix`, in place of what was there.
    pub fn put_cell_slice(&mut self, ix: u64, elems: &[E])
        requires
            old(self)@.wf(),
            ix < old(self)@.cells.len(),
        ensures
            final(self)@.wf(),
            final(self)@ == old(self)@.put(ix as int, elems@),
    {
        proof {
            self@.lemma_capacity();
            self@.lemma_put_wf(ix as int, elems@);
        }
        self.cells[ix as usize].items = vstd::slice::slice_to_vec(elems);
        assert(self@ =~= old(self)@.put(ix as int, elems@));
    }

    /// Fills the storage, whose cells were never used, with the cells of the smaller `old_bucket`:
    /// cell `i` becomes cell `i << increment`, `increment` being how much larger this one is as a
    /// power of two.
    fn copy_contents(&mut self, old_bucket: &Self)
        requires
            old_bucket@.wf(),
            old(self)@.wf(),
            old_bucket@.capacity_pow2 <= old(self)@.capacity_pow2,
            forall|i: int|
                0 <= i < old(self)@.cells.len() ==> old(self)@.cells[i] == CellModel::<E>::fresh(),
        ensures
            final(self)@.wf(),
            final(self)@ == old(self)@.refilled(old_bucket@),
    {
        let ghost fresh = self@;
        let ghost by = (self.capacity_pow2 - old_bucket.capacity_pow2) as nat;
        let ghost step = pow2(by);
        proof {
            fresh.lemma_capacity();
            old_bucket@.lemma_capacity();
            fresh.lemma_refilled_wf(old_bucket@);
            vstd::bits::lemma_usize_pow2_no_overflow(by);
            vstd::arithmetic::power2::lemma_pow2_adds(old_bucket.capacity_pow2 as nat, by);
        }
        let increment: usize = (self.capacity_pow2 - old_bucket.capacity_pow2) as usize;
        let index_grow: usize = 1usize << increment;
        proof {
            vstd::bits::lemma_usize_shl_is_mul(1, increment);
        }
        let old_cap: usize = old_bucket.cells.len();
        let mut i: usize = 0;
        while i < old_cap
            invariant
                i <= old_cap,
                old_cap == old_bucket@.cells.len(),
                old_cap == old_bucket.cells@.len(),
                index_grow == step,
                0 < step,
                fresh.cells.len() <= usize::MAX,
                fresh.cells.len() == old_cap * step,
                forall|j: int|
                    0 <= j < fresh.cells.len() ==> fresh.cells[j] == CellModel::<E>::fresh(),
                self@ == (StorageModel { cells: self@.cells, ..fresh }),
                self@.cells.len() == fresh.cells.len(),
                self.cells@.len() == fresh.cells.len(),
                forall|j: int|
                    0 <= j < fresh.cells.len() ==> #[trigger] self@.cells[j] == if j / (step as int)
                        < i {
                        spread(old_bucket@.cells, step)[j]
                    } else {
                        CellModel::<E>::fresh()
                    },
            decreases old_cap - i,
        {
            let ghost before = self@.cells;
            proof {
                lemma_spread_at(old_bucket@.cells, step, i as int);
                vstd::arithmetic::div_mod::lemma_div_multiples_vanish(i as int, step as int);
                assert(step * i == i * step) by (nonlinear_arith);
            }
            let to: usize = i * index_grow;
            let copied = Cell {
                uid: old_bucket.cells[i].uid,
                items: vstd::slice::slice_to_vec(old_bucket.cells[i].items.as_slice()),
            };
            assert(copied@ =~= old_bucket@.cells[i as int]);
            self.cells[to] = copied;
            proof {
                assert(self@.cells =~= before.update(to as int, old_bucket@.cells[i as int]));
                assert forall|j: int| 0 <= j < fresh.cells.len() implies #[trigger] self@.cells[j]
                    == if j / (step as int) < i + 1 {
                    spread(old_bucket@.cells, step)[j]
                } else {
                    CellModel::<E>::fresh()
                } by {
                    if j != to && j / (step as int) == i {
                        vstd::arithmetic::div_mod::lemma_fundamental_div_mod(j, step as int);
                        assert(j % (step as int) != 0);
                    }
                }
            }
            i = i + 1;
        }
        self.used = old_bucket.used;
        proof {
            assert forall|j: int| 0 <= j < fresh.cells.len() implies #[trigger] self@.cells[j]
                == spread(old_bucket@.cells, step)[j] by {
                assert(j / (step as int) < old_cap) by (nonlinear_arith)
                    requires
                        0 <= j < old_cap * step,
                        0 < step,
                ;
            }
            assert(self@ =~= fresh.refilled(old_bucket@));
        }
    }

    /// A storage of `2^capacity_pow2` cells on the same drives and with the same search limit as
    /// this one, filled with the cells of `bucket` if there is one.
    pub fn grow<D: Copy>(
        &self,
        bucket: Option<&BucketStorage<D>>,
        capacity_pow2: u8,
        num_elems: u64,
        elem_size: u64,
    ) -> (new_bucket: BucketStorage<D>)
        requires
            capacity_pow2 < usize::BITS,
            bucket matches Some(old_bucket) ==> old_bucket@.wf() && old_bucket@.capacity_pow2
                <= capacity_pow2,
        ensures
            new_bucket@.wf(),
            ({
                let fresh = StorageModel::<D>::fresh(
                    self@.drives,
                    num_elems,
                    elem_size,
                    capacity_pow2,
                    self@.max_search,
                );
                new_bucket@ == match bucket {
                    Some(old_bucket) => fresh.refilled(old_bucket@),
                    None => fresh,
                }
            }),
    {
        let mut new_bucket = BucketStorage::<D>::new_with_capacity(
            Arc::clone(&self.drives),
            num_elems,
            elem_size,
            capacity_pow2,
            self.max_search,
        );
        if let Some(old_bucket) = bucket {
            new_bucket.copy_contents(old_bucket);
        }
        new_bucket
    }
}

} // verus!
