//! How far the tables of a bucket are made larger: which sizes have room whatever the random
//! numbers, and what a write that makes room for itself comes to.
use crate::bucket_error::BucketMapError;
use crate::bucket_model::{free_cells, reindexed, room_in, BucketModel};
use crate::bucket_storage::{
    count_locked, lemma_count_bounded, lemma_count_concat, lemma_count_none, lemma_count_update,
    lemma_spread_once, lemma_spread_twice, spread, CellModel, StorageModel, DEFAULT_CAPACITY_POW2,
};
use crate::index_entry::{data_bucket, home, key_uid, lemma_fits, IndexEntry};
use crate::probe::{lemma_probe_found, lemma_probe_missed, probe, ring, visited};
use crate::pubkey::Pubkey;
use vstd::arithmetic::power2::pow2;
use vstd::prelude::*;

verus! {

/// Different steps over fewer cells than the ring has lead to different cells.
proof fn lemma_ring_apart(cells: int, start: int, a: int, b: int)
    requires
        0 <= a < b < cells,
    ensures
        ring(cells, start, a) != ring(cells, start, b),
{
    let x = start + a;
    let y = start + b;
    vstd::arithmetic::div_mod::lemma_fundamental_div_mod(x, cells);
    vstd::arithmetic::div_mod::lemma_fundamental_div_mod(y, cells);
    if x % cells == y % cells {
        let p = x / cells;
        let q = y / cells;
        assert(false) by (nonlinear_arith)
            requires
                0 < cells * q - cells * p < cells,
        ;
    }
}

/// Where the `n` cells from `start` on are locked, at least so many are.
proof fn lemma_run_locked<E>(cells: Seq<CellModel<E>>, start: int, n: int)
    requires
        0 <= n <= cells.len(),
        forall|step: int|
            0 <= step < n ==> cells[#[trigger] ring(cells.len() as int, start, step)].locked(),
    ensures
        n <= count_locked(cells),
    decreases n,
{
    if n > 0 {
        let len = cells.len() as int;
        let at = ring(len, start, n - 1);
        vstd::arithmetic::div_mod::lemma_mod_bound(start + n - 1, len);
        let fewer = cells.update(at, CellModel::fresh());
        lemma_count_update(cells, at, CellModel::fresh());
        assert forall|step: int| 0 <= step < n - 1 implies fewer[#[trigger] ring(
            len,
            start,
            step,
        )].locked() by {
            lemma_ring_apart(len, start, step, n - 1);
            vstd::arithmetic::div_mod::lemma_mod_bound(start + step, len);
        }
        lemma_run_locked(fewer, start, n - 1);
    }
}

/// Where fewer cells are locked than there are, and fewer than are visited, a free one is found.
pub proof fn lemma_free_found<E>(cells: Seq<CellModel<E>>, start: int, steps: int)
    requires
        count_locked(cells) < cells.len(),
        count_locked(cells) < steps,
    ensures
        probe(cells.len() as int, start, steps, free_cells(cells)) is Some,
{
    let len = cells.len() as int;
    if probe(len, start, steps, free_cells(cells)) is None {
        let n: int = if steps < len {
            steps
        } else {
            len
        };
        assert forall|step: int| 0 <= step < n implies cells[#[trigger] ring(
            len,
            start,
            step,
        )].locked() by {
            let at = ring(len, start, step);
            assert(visited(len, start, steps, at));
            lemma_probe_missed(len, start, steps, free_cells(cells), at);
        }
        lemma_run_locked(cells, start, n);
    }
}

/// Where cells have been spread out, one of two that follow each other is free.
pub proof fn lemma_spread_found<E>(cells: Seq<CellModel<E>>, step: nat, start: int, steps: int)
    requires
        0 < cells.len(),
        2 <= step,
        2 <= steps,
    ensures
        probe(
            spread(cells, step).len() as int,
            start,
            steps,
            free_cells(spread(cells, step)),
        ) is Some,
{
    let wide = spread(cells, step);
    let len = wide.len() as int;
    let s = step as int;
    assert(0 < len && cells.len() * step == len) by (nonlinear_arith)
        requires
            len == cells.len() * step,
            0 < cells.len(),
            2 <= step,
    ;
    if probe(len, start, steps, free_cells(wide)) is None {
        let p = ring(len, start, 0);
        assert(visited(len, start, steps, p));
        lemma_probe_missed(len, start, steps, free_cells(wide), p);
        vstd::arithmetic::div_mod::lemma_mod_bound(start, len);
        assert(wide[p].locked());
        assert(p % s == 0);
        vstd::arithmetic::div_mod::lemma_fundamental_div_mod(p, s);
        let q = p / s;
        assert(p + s <= len) by (nonlinear_arith)
            requires
                p == s * q + 0,
                0 <= p < len,
                len == cells.len() * s,
                2 <= s,
        ;
        let next = ring(len, start, 1);
        assert(visited(len, start, steps, next));
        lemma_probe_missed(len, start, steps, free_cells(wide), next);
        vstd::arithmetic::div_mod::lemma_fundamental_div_mod(start, len);
        vstd::arithmetic::mul::lemma_mul_is_commutative(len, start / len);
        vstd::arithmetic::mul::lemma_mul_is_commutative(s, q);
        vstd::arithmetic::div_mod::lemma_fundamental_div_mod_converse(
            start + 1,
            len,
            start / len,
            p + 1,
        );
        assert(next == p + 1);
        vstd::arithmetic::div_mod::lemma_fundamental_div_mod_converse(p + 1, s, q, 1);
        assert(wide[next].locked());
    }
}

/// Whether the table that had no room can be made larger: a data bucket cannot where it has the most
/// cells that there can be, or where it would be one too many.
pub open spec fn growable(err: BucketMapError) -> bool {
    match err {
        BucketMapError::DataNoSpace((bucket, capacity_pow2)) => bucket < 64 && capacity_pow2 + 1
            < usize::BITS,
        BucketMapError::IndexNoSpace(_) => true,
    }
}

/// No more cells are locked among the first `n` than in all.
proof fn lemma_count_prefix<E>(cells: Seq<CellModel<E>>, n: int)
    requires
        0 <= n <= cells.len(),
    ensures
        count_locked(cells.take(n)) <= count_locked(cells),
{
    assert(cells =~= cells.take(n) + cells.skip(n));
    lemma_count_concat(cells.take(n), cells.skip(n));
}

/// The number of a data bucket is no larger than that of the bits of a length.
pub proof fn lemma_bucket_bound(len: int)
    requires
        len <= u64::MAX,
    ensures
        data_bucket(len) <= 64,
{
    let bucket = data_bucket(len);
    lemma_fits(len);
    if bucket > 64 {
        vstd::arithmetic::power2::lemma2_to64();
        if bucket > 65 {
            vstd::arithmetic::power2::lemma_pow2_strictly_increases(64, (bucket - 1) as nat);
        }
    }
}

impl<T> BucketModel<T> {
    /// The free cell that a search from `pos` on finds in data bucket `bucket`, once that has
    /// `2^capacity_pow2` cells.
    pub open spec fn room_at(self, bucket: int, capacity_pow2: u8, pos: int) -> Option<int> {
        let cells = self.larger_data(bucket, capacity_pow2).cells;
        probe(cells.len() as int, pos, self.index.max_search as int, free_cells(cells))
    }

    /// Data bucket `bucket` may turn out to have no room when it has `2^capacity_pow2` cells: a
    /// search that starts in some cell finds none that is free.
    pub open spec fn may_fill(self, bucket: int, capacity_pow2: u8) -> bool {
        exists|pos: int|
            0 <= pos < pow2(capacity_pow2 as nat) && #[trigger] self.room_at(
                bucket,
                capacity_pow2,
                pos,
            ) is None
    }

    /// The size of data bucket `bucket` that a write tries first.
    pub open spec fn first_size(self, bucket: int) -> u8 {
        if bucket < self.data.len() {
            self.data[bucket].capacity_pow2
        } else {
            1
        }
    }

    /// Each size that data bucket `bucket` can be given may turn out to have no room.
    pub open spec fn data_exhausted(self, bucket: int) -> bool {
        forall|size: u8|
            self.first_size(bucket) <= size < usize::BITS ==> #[trigger] self.may_fill(bucket, size)
    }

    /// `next` has the data buckets of this bucket, each with as many cells, but for data bucket
    /// `bucket`, which may be larger, and for the ones before it that there were not. A size is
    /// passed over only if it may turn out to have no room.
    pub open spec fn data_grown(self, bucket: int, next: Self) -> bool {
        &&& next.data.len() == self.data.len() || (self.data.len() <= bucket && next.data.len()
            == bucket + 1)
        &&& forall|b: int|
            #![trigger next.data[b]]
            0 <= b < self.data.len() && b != bucket ==> self.data[b].same_shape(next.data[b])
        &&& forall|b: int|
            #![trigger next.data[b]]
            self.data.len() <= b < next.data.len() && b != bucket ==> self.fresh_data(
                b,
                DEFAULT_CAPACITY_POW2,
            ).same_shape(next.data[b])
        &&& bucket < next.data.len() ==> {
            let size = next.data[bucket].capacity_pow2;
            &&& self.first_size(bucket) <= size
            &&& bucket < self.data.len() && size == self.first_size(bucket)
                ==> self.data[bucket].same_shape(next.data[bucket])
            &&& bucket >= self.data.len() || size > self.first_size(bucket)
                ==> self.larger_data(bucket, size).same_shape(next.data[bucket])
            &&& forall|smaller: u8|
                self.first_size(bucket) <= smaller < size ==> #[trigger] self.may_fill(
                    bucket,
                    smaller,
                )
        }
    }

    /// The index of `next` is this bucket's but for one cell, the one of `key`: its entry is
    /// another one for that key, or, where there was none, a new one.
    pub open spec fn index_kept(
        self,
        key: Pubkey,
        next: Self,
        result: Result<(), BucketMapError>,
    ) -> bool {
        &&& next.random == self.random
        &&& next.order == self.order
        &&& next.stats == self.stats
        &&& match self.find(key@) {
            Some(i) => {
                &&& next.index == self.index.put(i, seq![next.entry(i)])
                &&& next.entry(i).key == self.entry(i).key
            },
            None => {
                ||| result is Err && next.index == self.index
                ||| {
                    &&& self.room(key@) matches Some(i)
                    &&& next.index == self.index.allocate(i, key_uid(key@)).put(
                        i,
                        seq![next.entry(i)],
                    )
                    &&& next.entry(i).key == key
                }
            },
        }
    }

    /// `next` is this bucket with the table of `err` made larger, and waiting to be put in place, or
    /// what is left where that cannot be.
    pub open spec fn grows(
        self,
        err: BucketMapError,
        next: Self,
        result: Result<(), BucketMapError>,
    ) -> bool {
        match err {
            BucketMapError::DataNoSpace((bucket, capacity_pow2)) => {
                &&& result is Ok
                &&& next == self.with_pending_data(bucket, (capacity_pow2 + 1) as u8)
            },
            BucketMapError::IndexNoSpace(capacity_pow2) => self.grows_index(
                capacity_pow2,
                next,
                result,
            ),
        }
    }

    /// `next` is what this bucket becomes by a write that finds no room and by making the table
    /// larger that had none.
    pub open spec fn widened(
        self,
        key: Pubkey,
        items: Seq<T>,
        ref_count: u64,
        next: Self,
    ) -> bool {
        exists|pos: int, grown: Self|
            #![trigger self.write(key, items, ref_count, pos), grown.settled()]
            {
                &&& self.starts(items.len(), pos)
                &&& next == grown.settled()
                &&& match self.write(key, items, ref_count, pos) {
                    (tried, Err(err)) => growable(err) && tried.grows(err, grown, Ok(())),
                    (_, Ok(())) => false,
                }
            }
    }

    /// `next` and `result` are what comes of a write after which no table is made larger: it finds
    /// room, or the table that has none cannot be made larger.
    pub open spec fn concluded(
        self,
        key: Pubkey,
        items: Seq<T>,
        ref_count: u64,
        next: Self,
        result: Result<(), BucketMapError>,
    ) -> bool {
        exists|pos: int|
            {
                &&& self.starts(items.len(), pos)
                &&& match #[trigger] self.write(key, items, ref_count, pos) {
                    (tried, Ok(())) => next == tried && result == Ok::<(), BucketMapError>(()),
                    (tried, Err(err)) => if growable(err) {
                        result is Err && tried.grows(err, next, result)
                    } else {
                        next == tried && result == Err::<(), BucketMapError>(err)
                    },
                }
            }
    }

    /// State `n` comes of an attempt to write in the state before it.
    pub open spec fn follows(
        key: Pubkey,
        items: Seq<T>,
        ref_count: u64,
        states: Seq<Self>,
        n: int,
    ) -> bool {
        states[n - 1].widened(key, items, ref_count, states[n])
    }

    /// `states` are the states of a bucket between the attempts to write, this one first.
    pub open spec fn attempts(
        self,
        key: Pubkey,
        items: Seq<T>,
        ref_count: u64,
        states: Seq<Self>,
    ) -> bool {
        &&& states.len() > 0
        &&& states[0] == self
        &&& forall|n: int|
            0 < n < states.len() ==> #[trigger] Self::follows(key, items, ref_count, states, n)
    }

    /// `next` and `result` are what comes of attempts to write, a table being made larger after
    /// each but the last.
    #[verifier::opaque]
    pub open spec fn inserted(
        self,
        key: Pubkey,
        items: Seq<T>,
        ref_count: u64,
        next: Self,
        result: Result<(), BucketMapError>,
    ) -> bool {
        exists|states: Seq<Self>| #[trigger]
            self.attempts(key, items, ref_count, states) && states.last().concluded(
                key,
                items,
                ref_count,
                next,
                result,
            )
    }

    /// The index has been made larger `times` times.
    pub open spec fn resized(self, next: Self, times: nat) -> bool {
        &&& times <= next.index.capacity_pow2 - self.index.capacity_pow2
        &&& self.index.capacity_pow2 < next.index.capacity_pow2 ==> times > 0
        &&& next.stats.index.resizes == (self.stats.index.resizes + times) % (u64::MAX + 1)
    }

    /// There is an entry for `key`, or room for one.
    pub open spec fn has_place(self, key: Seq<u8>) -> bool {
        self.contents().contains_key(key) || self.room(key) is Some
    }

    /// A list of `len` slots for `key` finds room, whatever the random numbers, once its data
    /// bucket has been made or made larger: an unused one has room where any cell is searched, and
    /// one that has been made larger where two are.
    pub open spec fn makes_room(self, key: Seq<u8>, len: nat) -> bool {
        let bucket = data_bucket(len as int) as int;
        &&& self.has_place(key)
        &&& bucket < 64
        &&& if bucket < self.data.len() {
            self.index.max_search >= 2 && self.data[bucket].capacity_pow2 + 1 < usize::BITS
        } else {
            self.index.max_search > 0
        }
    }

    /// `next` and `result` are what comes of writing `slots` and `ref_count` for `key` while tables
    /// are made larger as it needs: what becomes of the map, and how far the tables grow.
    pub open spec fn insert_outcome(
        self,
        key: Pubkey,
        slots: Seq<T>,
        ref_count: u64,
        next: Self,
        result: Result<(), BucketMapError>,
    ) -> bool {
        let bucket = data_bucket(slots.len() as int) as int;
        &&& self.inserts(key@, slots, ref_count, next, result)
        &&& self.inserted(key, slots, ref_count, next, result)
        &&& self.outgrown_by(next)
        &&& self.data_grown(bucket, next)
        &&& result matches Err(BucketMapError::DataNoSpace(_)) ==> bucket >= 64
            || self.data_exhausted(bucket)
        &&& result is Ok ==> {
            &&& bucket < next.data.len()
            &&& exists|times: nat| self.resized(next, times)
        }
        &&& self.has_place(key@) ==> {
            &&& self.index_kept(key, next, result)
            &&& !(result matches Err(BucketMapError::IndexNoSpace(_)))
        }
        &&& self.makes_room(key@, slots.len()) ==> {
            &&& result is Ok
            &&& next.data[bucket].capacity_pow2 <= self.first_size(bucket) + if bucket
                < self.data.len() {
                1int
            } else {
                0
            }
        }
        &&& self.always_fits(key, slots, ref_count) ==> {
            &&& result is Ok
            &&& self.same_shape(next)
            &&& exists|pos: int|
                self.starts(slots.len(), pos) && (next, result) == #[trigger] self.write(
                    key,
                    slots,
                    ref_count,
                    pos,
                )
        }
    }

    /// An index with fewer entries than cells, and than cells that are searched, has room.
    pub proof fn lemma_room_left(self, key: Seq<u8>)
        requires
            self.index.wf(),
            self.index.used < self.index.max_search,
            self.index.used < self.capacity(),
        ensures
            self.room(key) is Some,
    {
        lemma_free_found(
            self.index.cells,
            home(key, self.random, self.order, self.capacity()),
            self.index.max_search as int,
        );
    }

    /// A data bucket with fewer lists than cells, and than cells that are searched, has room.
    pub proof fn lemma_data_room_left(self, bucket: int, pos: int)
        requires
            self.data[bucket].wf(),
            self.data[bucket].used < self.index.max_search,
            self.data[bucket].used < self.data[bucket].cells.len(),
        ensures
            self.data_room(bucket, pos) is Some,
    {
        lemma_free_found(self.data[bucket].cells, pos, self.index.max_search as int);
    }

    /// A data bucket of the size that it has is what it is.
    proof fn lemma_same_size(self, bucket: int)
        requires
            self.wf(),
            0 <= bucket < self.data.len(),
        ensures
            self.larger_data(bucket, self.data[bucket].capacity_pow2).cells
                == self.data[bucket].cells,
    {
        vstd::arithmetic::power2::lemma_pow2(0);
        vstd::arithmetic::power::lemma_pow0(2);
        lemma_spread_once(self.data[bucket].cells);
    }

    /// An unused data bucket has room where any cell is searched.
    pub proof fn lemma_new_has_room(self, bucket: int, capacity_pow2: u8)
        requires
            self.data.len() <= bucket,
            self.index.max_search > 0,
        ensures
            !self.may_fill(bucket, capacity_pow2),
    {
        let cells = self.larger_data(bucket, capacity_pow2).cells;
        assert forall|pos: int| 0 <= pos < pow2(capacity_pow2 as nat) implies #[trigger]
            self.room_at(bucket, capacity_pow2, pos) is Some by {
            lemma_count_none(cells);
            vstd::arithmetic::power2::lemma_pow2_pos(capacity_pow2 as nat);
            lemma_free_found(cells, pos, self.index.max_search as int);
        }
    }

    /// A data bucket that has been made larger has room where two cells are searched.
    pub proof fn lemma_larger_has_room(self, bucket: int, capacity_pow2: u8)
        requires
            self.wf(),
            0 <= bucket < self.data.len(),
            self.data[bucket].capacity_pow2 < capacity_pow2,
            self.index.max_search >= 2,
        ensures
            !self.may_fill(bucket, capacity_pow2),
    {
        let storage = self.data[bucket];
        let by = (capacity_pow2 - storage.capacity_pow2) as nat;
        assert(storage.wf());
        storage.lemma_capacity();
        vstd::arithmetic::power2::lemma_pow2_strictly_increases(0, by);
        vstd::arithmetic::power2::lemma_pow2(0);
        vstd::arithmetic::power::lemma_pow0(2);
        assert forall|pos: int| 0 <= pos < pow2(capacity_pow2 as nat) implies #[trigger]
            self.room_at(bucket, capacity_pow2, pos) is Some by {
            lemma_spread_found(storage.cells, pow2(by), pos, self.index.max_search as int);
        }
    }

    /// Entries find room in an unused index that has a cell for each, if as many cells are
    /// searched.
    proof fn lemma_reindexed_fits(self, n: int, target: StorageModel<IndexEntry>, random: u64)
        requires
            0 <= n <= self.capacity(),
            target.cells.len() > 0,
            count_locked(target.cells) == 0,
            count_locked(self.index.cells) <= target.cells.len(),
            count_locked(self.index.cells) <= target.max_search,
        ensures
            reindexed(self.index.cells, n, target, random, self.order) matches Some(index) && {
                &&& count_locked(index.cells) == count_locked(self.index.cells.take(n))
                &&& index.cells.len() == target.cells.len()
                &&& index.max_search == target.max_search
            },
        decreases n,
    {
        let cells = self.index.cells;
        if n == 0 {
            assert(cells.take(0).len() == 0);
        } else {
            self.lemma_reindexed_fits(n - 1, target, random);
            let index = reindexed(cells, n - 1, target, random, self.order)->0;
            assert(cells.take(n).drop_last() =~= cells.take(n - 1));
            lemma_count_prefix(cells, n);
            if cells[n - 1].locked() {
                let key = cells[n - 1].items[0].key@;
                let len = index.cells.len() as int;
                let start = home(key, random, self.order, len);
                lemma_free_found(index.cells, start, index.max_search as int);
                lemma_probe_found(len, start, index.max_search as int, free_cells(index.cells));
                let i = room_in(index, random, self.order, key)->0;
                let used = CellModel { uid: cells[n - 1].uid, ..index.cells[i] };
                lemma_count_update(index.cells, i, used);
                lemma_count_update(
                    index.cells.update(i, used),
                    i,
                    CellModel { items: seq![cells[n - 1].items[0]], ..used },
                );
            }
        }
    }

    /// An index that has no more entries than cells are searched has room for them in any larger
    /// size.
    pub proof fn lemma_no_overflow(self, capacity_pow2: u8)
        requires
            self.index.wf(),
            self.index.used <= self.index.max_search,
            self.index.capacity_pow2 <= capacity_pow2,
        ensures
            !self.may_overflow(capacity_pow2),
    {
        let target = self.fresh_index(capacity_pow2);
        lemma_count_none(target.cells);
        lemma_count_bounded(self.index.cells);
        vstd::arithmetic::power2::lemma_pow2_pos(capacity_pow2 as nat);
        if self.index.capacity_pow2 < capacity_pow2 {
            vstd::arithmetic::power2::lemma_pow2_strictly_increases(
                self.index.capacity_pow2 as nat,
                capacity_pow2 as nat,
            );
        }
        assert forall|random: u64| #[trigger] self.larger_index(capacity_pow2, random) is Some by {
            self.lemma_reindexed_fits(self.capacity(), target, random);
        }
    }

    /// The data buckets once data bucket `bucket` has been given `size`, if any.
    pub open spec fn data_at(self, bucket: int, size: Option<u8>) -> Seq<StorageModel<T>> {
        match size {
            None => self.data,
            Some(size) => self.with_data(bucket, self.larger_data(bucket, size)).data,
        }
    }

    /// `next` has the data buckets of this bucket, data bucket `bucket` having been given `size`,
    /// if any, after each smaller one may have turned out to have no room.
    pub open spec fn widened_to(self, bucket: int, size: Option<u8>, next: Self) -> bool {
        &&& next.drives == self.drives
        &&& next.index.max_search == self.index.max_search
        &&& next.data == self.data_at(bucket, size)
        &&& size matches Some(size) ==> {
            &&& self.may_grow_data(bucket, size as int)
            &&& self.first_size(bucket) <= size
            &&& bucket < self.data.len() ==> self.first_size(bucket) < size
            &&& forall|smaller: u8|
                self.first_size(bucket) <= smaller < size ==> #[trigger] self.may_fill(
                    bucket,
                    smaller,
                )
        }
    }

    /// Making a data bucket larger twice comes to the same as once.
    proof fn lemma_larger_twice(self, bucket: int, size: Option<u8>, next: Self, larger_size: u8)
        requires
            self.wf(),
            0 <= bucket,
            self.widened_to(bucket, size, next),
            size matches Some(size) ==> size <= larger_size,
            self.may_grow_data(bucket, larger_size as int),
        ensures
            next.larger_data(bucket, larger_size) == self.larger_data(bucket, larger_size),
            next.with_data(bucket, next.larger_data(bucket, larger_size)).data == self.data_at(
                bucket,
                Some(larger_size),
            ),
    {
        if size is Some {
            let p = size->0;
            let by = (larger_size - p) as nat;
            let middle = self.larger_data(bucket, p);
            vstd::arithmetic::power2::lemma_pow2_pos(by);
            assert(next.data[bucket] == middle);
            if bucket < self.data.len() {
                let storage = self.data[bucket];
                let first = (p - storage.capacity_pow2) as nat;
                vstd::arithmetic::power2::lemma_pow2_pos(first);
                vstd::arithmetic::power2::lemma_pow2_adds(first, by);
                lemma_spread_twice(storage.cells, pow2(first), pow2(by));
            } else {
                vstd::arithmetic::power2::lemma_pow2_adds(p as nat, by);
                assert(spread(middle.cells, pow2(by)) =~= self.larger_data(
                    bucket,
                    larger_size,
                ).cells) by {
                    assert forall|i: int| 0 <= i < pow2(p as nat) * pow2(by) implies #[trigger]
                        spread(middle.cells, pow2(by))[i] == CellModel::<T>::fresh() by {
                        if i % (pow2(by) as int) == 0 {
                            vstd::arithmetic::div_mod::lemma_fundamental_div_mod(
                                i,
                                pow2(by) as int,
                            );
                            let q = i / (pow2(by) as int);
                            assert(0 <= q < pow2(p as nat)) by (nonlinear_arith)
                                requires
                                    i == pow2(by) * q,
                                    0 <= i < pow2(p as nat) * pow2(by),
                                    0 < pow2(by),
                            ;
                        }
                    }
                }
            }
            assert(next.larger_data(bucket, larger_size) =~= self.larger_data(
                bucket,
                larger_size,
            ));
        }
        assert(next.with_data(bucket, next.larger_data(bucket, larger_size)).data
            =~= self.data_at(bucket, Some(larger_size)));
    }

    /// A write that finds no free cell in the data bucket for its list shows that the size of that
    /// bucket may turn out to have no room.
    proof fn lemma_shown_full(
        self,
        size: Option<u8>,
        next: Self,
        key: Pubkey,
        items: Seq<T>,
        ref_count: u64,
        pos: int,
    )
        requires
            self.wf(),
            self.widened_to(data_bucket(items.len() as int) as int, size, next),
            data_bucket(items.len() as int) < next.data.len(),
            next.starts(items.len(), pos),
            next.write(key, items, ref_count, pos).1 matches Err(err) && err is DataNoSpace,
        ensures
            self.may_fill(
                data_bucket(items.len() as int) as int,
                next.data[data_bucket(items.len() as int) as int].capacity_pow2,
            ),
    {
        let bucket = data_bucket(items.len() as int) as int;
        let present = next.data[bucket];
        match size {
            None => {
                assert(self.data[bucket].wf());
                self.lemma_same_size(bucket);
            },
            Some(size) => {
                self.lemma_larger_data(bucket, size);
            },
        }
        assert(self.larger_data(bucket, present.capacity_pow2).cells == present.cells);
        assert(self.room_at(bucket, present.capacity_pow2, pos) is None);
    }

    /// The data buckets after a write that found no room in one of them, and after that one was
    /// made larger.
    pub proof fn lemma_wider(
        self,
        size: Option<u8>,
        tried: Self,
        key: Pubkey,
        items: Seq<T>,
        ref_count: u64,
        pos: int,
        err: (u64, u8),
        next: Self,
    )
        requires
            self.wf(),
            items.len() <= u64::MAX,
            self.widened_to(data_bucket(items.len() as int) as int, size, tried),
            tried.reallocated.idle(),
            tried.starts(items.len(), pos),
            tried.write(key, items, ref_count, pos).1 == Err::<(), BucketMapError>(
                BucketMapError::DataNoSpace(err),
            ),
            growable(BucketMapError::DataNoSpace(err)),
            next == tried.write(key, items, ref_count, pos).0.with_pending_data(
                err.0,
                (err.1 + 1) as u8,
            ).settled(),
        ensures
            self.widened_to(
                data_bucket(items.len() as int) as int,
                Some((err.1 + 1) as u8),
                next,
            ),
    {
        let bucket = data_bucket(items.len() as int) as int;
        lemma_bucket_bound(items.len() as int);
        let failed = tried.write(key, items, ref_count, pos).0;
        assert(failed.data == tried.data);
        let first = self.first_size(bucket);
        if bucket < tried.data.len() {
            self.lemma_shown_full(size, tried, key, items, ref_count, pos);
            assert(err.1 == tried.data[bucket].capacity_pow2);
        } else {
            assert(size is None);
        }
        assert(self.may_grow_data(bucket, err.1 + 1));
        assert(self.widened_to(bucket, size, failed));
        self.lemma_larger_twice(bucket, size, failed, (err.1 + 1) as u8);
    }

    /// How far the data buckets have grown when the last attempt to write has been made.
    pub proof fn lemma_grown(self, bucket: int, size: Option<u8>, tried: Self, next: Self)
        requires
            self.wf(),
            0 <= bucket,
            self.widened_to(bucket, size, tried),
            next.data.len() == tried.data.len(),
            forall|b: int|
                #![trigger next.data[b]]
                0 <= b < tried.data.len() ==> tried.data[b].same_shape(next.data[b]),
        ensures
            self.data_grown(bucket, next),
    {
        assert forall|b: int|
            #![trigger next.data[b]]
            0 <= b < next.data.len() && b != bucket implies if b < self.data.len() {
            self.data[b].same_shape(next.data[b])
        } else {
            self.fresh_data(b, DEFAULT_CAPACITY_POW2).same_shape(next.data[b])
        } by {
            assert(tried.data[b].same_shape(next.data[b]));
        }
        if bucket < next.data.len() {
            assert(tried.data[bucket].same_shape(next.data[bucket]));
        }
    }

    /// A write that finds no room in a data bucket of the largest size shows that no size is sure to
    /// have room.
    pub proof fn lemma_exhausted(
        self,
        size: Option<u8>,
        tried: Self,
        key: Pubkey,
        items: Seq<T>,
        ref_count: u64,
        pos: int,
        err: (u64, u8),
    )
        requires
            self.wf(),
            items.len() <= u64::MAX,
            self.widened_to(data_bucket(items.len() as int) as int, size, tried),
            tried.starts(items.len(), pos),
            tried.write(key, items, ref_count, pos).1 == Err::<(), BucketMapError>(
                BucketMapError::DataNoSpace(err),
            ),
            !growable(BucketMapError::DataNoSpace(err)),
        ensures
            data_bucket(items.len() as int) >= 64 || self.data_exhausted(
                data_bucket(items.len() as int) as int,
            ),
    {
        let bucket = data_bucket(items.len() as int) as int;
        lemma_bucket_bound(items.len() as int);
        if bucket < 64 {
            assert(bucket < tried.data.len());
            self.lemma_shown_full(size, tried, key, items, ref_count, pos);
            if size is None {
                assert(self.data[bucket].wf());
            }
        }
    }

    /// Where a larger data bucket is sure to have room, it does not grow further.
    pub proof fn lemma_room_made(
        self,
        key: Seq<u8>,
        len: nat,
        next: Self,
        result: Result<(), BucketMapError>,
    )
        requires
            self.wf(),
            self.makes_room(key, len),
            self.data_grown(data_bucket(len as int) as int, next),
            result is Ok ==> data_bucket(len as int) < next.data.len(),
            result is Err ==> self.data_exhausted(data_bucket(len as int) as int),
        ensures
            result is Ok,
            next.data[data_bucket(len as int) as int].capacity_pow2 <= self.first_size(
                data_bucket(len as int) as int,
            ) + if data_bucket(len as int) < self.data.len() {
                1int
            } else {
                0
            },
    {
        let bucket = data_bucket(len as int) as int;
        let first = self.first_size(bucket);
        let enough: u8 = if bucket < self.data.len() {
            assert(self.data[bucket].wf());
            (first + 1) as u8
        } else {
            first
        };
        if bucket < self.data.len() {
            self.lemma_larger_has_room(bucket, enough);
        } else {
            self.lemma_new_has_room(bucket, enough);
        }
        if result is Err {
            assert(self.may_fill(bucket, enough));
        } else if next.data[bucket].capacity_pow2 > enough {
            assert(self.may_fill(bucket, enough));
        }
    }

    /// The index with an entry for `key` that has `ref_count`.
    pub open spec fn entered_index(self, key: Pubkey, ref_count: u64) -> StorageModel<IndexEntry> {
        match self.entered(key, ref_count) {
            Some((ready, _)) => ready.index,
            None => self.index,
        }
    }

    /// `next` has the index of this bucket, as it was or made ready for a write.
    pub open spec fn place_kept(self, key: Pubkey, ref_count: u64, next: Self) -> bool {
        &&& next.random == self.random
        &&& next.order == self.order
        &&& next.stats == self.stats
        &&& next.index == self.index || next.index == self.entered_index(key, ref_count)
    }

    /// Making an index ready for a write again changes nothing.
    proof fn lemma_entered_again(self, key: Pubkey, ref_count: u64, next: Self)
        requires
            self.wf(),
            next.wf(),
            self.has_place(key@),
            self.place_kept(key, ref_count, next),
        ensures
            self.entered(key, ref_count) is Some,
            next.entered(key, ref_count) matches Some((ready, i)) && {
                &&& ready.index == self.entered_index(key, ref_count)
                &&& ready == (BucketModel { index: ready.index, ..next })
                &&& self.entered(key, ref_count) matches Some((_, j)) && i == j
                &&& 0 <= i < self.capacity()
            },
    {
        self.lemma_find(key@);
        if self.find(key@) is None {
            self.lemma_room(key@);
        }
        assert(self.entered(key, ref_count) is Some);
        let (_, i) = self.entered(key, ref_count)->0;
        if next.index != self.index {
            assert(next.holds(i, key@));
            next.lemma_position(i, key@);
            next.lemma_find(key@);
            assert(next.index.put(
                i,
                seq![IndexEntry { ref_count, ..next.entry(i) }],
            ) =~~= next.index);
        }
    }

    /// A write for a key that has a place keeps that place.
    pub proof fn lemma_place_kept(
        self,
        key: Pubkey,
        items: Seq<T>,
        ref_count: u64,
        next: Self,
        pos: int,
    )
        requires
            self.wf(),
            next.wf(),
            self.has_place(key@),
            self.place_kept(key, ref_count, next),
        ensures
            ({
                let (after, result) = next.write(key, items, ref_count, pos);
                &&& self.index_kept(key, after, result)
                &&& result matches Err(err) ==> {
                    &&& err is DataNoSpace
                    &&& self.place_kept(key, ref_count, after)
                }
            }),
    {
        let (after, result) = next.write(key, items, ref_count, pos);
        self.lemma_find(key@);
        self.lemma_entered_again(key, ref_count, next);
        let (ready, i) = next.entered(key, ref_count)->0;
        if self.find(key@) is Some {
            self.lemma_entry(i);
        }
        match self.find(key@) {
            Some(_) => {
                assert(after.index =~~= self.index.put(i, seq![after.entry(i)]));
            },
            None => {
                if after.index != self.index || result is Ok {
                    assert(after.index =~~= self.index.allocate(i, key_uid(key@)).put(
                        i,
                        seq![after.entry(i)],
                    ));
                }
            },
        }
    }

    /// `now` is a state of a bucket between attempts to write: `states` are the ones up to it,
    /// `size` is what the data bucket for the list has been given, if any, and `times` is how often
    /// the index has been made larger.
    closed spec fn underway_by(
        self,
        key: Pubkey,
        items: Seq<T>,
        ref_count: u64,
        now: Self,
        states: Seq<Self>,
        size: Option<u8>,
        times: nat,
    ) -> bool {
        &&& self.attempts(key, items, ref_count, states)
        &&& states.last() == now
        &&& self.widened_to(data_bucket(items.len() as int) as int, size, now)
        &&& self.resized(now, times)
    }

    /// `now` is a state of a bucket between attempts to write.
    pub closed spec fn underway(
        self,
        key: Pubkey,
        items: Seq<T>,
        ref_count: u64,
        now: Self,
    ) -> bool {
        &&& self.wf()
        &&& now.wf()
        &&& self.reallocated.idle() || self.always_fits(key, items, ref_count)
        &&& now.reallocated == self.reallocated
        &&& self.always_fits(key, items, ref_count) ==> now == self
        &&& self.outgrown_by(now)
        &&& self.index.capacity_pow2 == now.index.capacity_pow2 ==> now.stats == self.stats
        &&& now.contents() == self.contents() || now.contents() == self.touched(key@, ref_count)
        &&& self.has_place(key@) ==> self.place_kept(key, ref_count, now)
        &&& exists|states: Seq<Self>, size: Option<u8>, times: nat|
            self.underway_by(key, items, ref_count, now, states, size, times)
    }

    pub proof fn lemma_underway(self, key: Pubkey, items: Seq<T>, ref_count: u64)
        requires
            self.wf(),
            self.reallocated.idle() || self.always_fits(key, items, ref_count),
        ensures
            self.underway(key, items, ref_count, self),
    {
        assert(self.underway_by(key, items, ref_count, self, seq![self], None, 0));
    }

    /// After an attempt that finds no room, nothing waits, and the table that has none may be made
    /// larger if that can be.
    pub proof fn lemma_may_grow(
        self,
        key: Pubkey,
        items: Seq<T>,
        ref_count: u64,
        now: Self,
        pos: int,
        err: BucketMapError,
    )
        requires
            items.len() <= u64::MAX,
            self.underway(key, items, ref_count, now),
            now.starts(items.len(), pos),
            now.write(key, items, ref_count, pos).1 == Err::<(), BucketMapError>(err),
        ensures
            ({
                let failed = now.write(key, items, ref_count, pos).0;
                &&& failed.reallocated.idle()
                &&& growable(err) ==> match err {
                    BucketMapError::DataNoSpace((bucket, capacity_pow2)) => failed.may_grow_data(
                        bucket as int,
                        capacity_pow2 + 1,
                    ),
                    BucketMapError::IndexNoSpace(_) => failed == now,
                }
            }),
    {
        lemma_bucket_bound(items.len() as int);
    }

    /// The last attempt: it finds room, or the table that has none cannot be made larger.
    pub proof fn lemma_concluded(
        self,
        key: Pubkey,
        items: Seq<T>,
        ref_count: u64,
        now: Self,
        pos: int,
    )
        requires
            items.len() <= u64::MAX,
            self.underway(key, items, ref_count, now),
            now.starts(items.len(), pos),
            now.write(key, items, ref_count, pos).1 matches Err(err) ==> !growable(err),
        ensures
            ({
                let (next, result) = now.write(key, items, ref_count, pos);
                &&& self.insert_outcome(key, items, ref_count, next, result)
                &&& next.reallocated == self.reallocated
                &&& self.index.capacity_pow2 == next.index.capacity_pow2 ==> next.stats
                    == self.stats
            }),
    {
        let bucket = data_bucket(items.len() as int) as int;
        let (next, result) = now.write(key, items, ref_count, pos);
        let (states, size, times) = choose|states: Seq<Self>, size: Option<u8>, times: nat|
            self.underway_by(key, items, ref_count, now, states, size, times);
        lemma_bucket_bound(items.len() as int);
        now.lemma_find(key@);
        now.lemma_write(key, items, ref_count, pos);
        assert(now.contents().contains_key(key@) == now.has(key@));
        assert(now.touched(key@, ref_count) =~= self.touched(key@, ref_count));
        assert(now.contents().insert(key@, (items, ref_count)) =~= self.contents().insert(
            key@,
            (items, ref_count),
        ));
        assert(now.concluded(key, items, ref_count, next, result));
        assert(self.inserted(key, items, ref_count, next, result)) by {
            reveal(BucketModel::inserted);
        }
        assert(self.resized(next, times));
        self.lemma_grown(bucket, size, now, next);
        if self.has_place(key@) {
            self.lemma_place_kept(key, items, ref_count, now, pos);
        }
        if result is Err {
            self.lemma_exhausted(
                size,
                now,
                key,
                items,
                ref_count,
                pos,
                result->Err_0->DataNoSpace_0,
            );
        }
        if self.makes_room(key@, items.len()) {
            self.lemma_room_made(key@, items.len(), next, result);
        }
    }

    /// The last attempt, where the index has no room and no larger one is found.
    pub proof fn lemma_given_up(
        self,
        key: Pubkey,
        items: Seq<T>,
        ref_count: u64,
        now: Self,
        pos: int,
        err: BucketMapError,
        next: Self,
        result: Result<(), BucketMapError>,
    )
        requires
            items.len() <= u64::MAX,
            self.underway(key, items, ref_count, now),
            now.starts(items.len(), pos),
            now.write(key, items, ref_count, pos).1 == Err::<(), BucketMapError>(err),
            growable(err),
            now.write(key, items, ref_count, pos).0.grows(err, next, result),
            result is Err,
        ensures
            self.insert_outcome(key, items, ref_count, next, result),
            next.reallocated == self.reallocated,
    {
        let bucket = data_bucket(items.len() as int) as int;
        let (states, size, times) = choose|states: Seq<Self>, size: Option<u8>, times: nat|
            self.underway_by(key, items, ref_count, now, states, size, times);
        now.lemma_find(key@);
        assert(now.write(key, items, ref_count, pos).0 == now);
        assert(now.concluded(key, items, ref_count, next, result));
        assert(self.inserted(key, items, ref_count, next, result)) by {
            reveal(BucketModel::inserted);
        }
        self.lemma_grown(bucket, size, now, next);
        if self.has_place(key@) {
            self.lemma_place_kept(key, items, ref_count, now, pos);
        }
        Self::lemma_same_tables(now, next);
        assert forall|larger: u8|
            next.index.capacity_pow2 < larger < usize::BITS implies #[trigger] next.may_overflow(
            larger,
        ) by {
            assert(now.may_overflow(larger));
            let random = choose|random: u64| #[trigger] now.larger_index(larger, random) is None;
            assert(next.larger_index(larger, random) is None);
        }
    }

    /// One more state between attempts.
    proof fn lemma_attempted(
        self,
        key: Pubkey,
        items: Seq<T>,
        ref_count: u64,
        states: Seq<Self>,
        pos: int,
        err: BucketMapError,
        grown: Self,
    )
        requires
            self.attempts(key, items, ref_count, states),
            states.last().starts(items.len(), pos),
            states.last().write(key, items, ref_count, pos).1 == Err::<(), BucketMapError>(err),
            growable(err),
            states.last().write(key, items, ref_count, pos).0.grows(err, grown, Ok(())),
        ensures
            self.attempts(key, items, ref_count, states.push(grown.settled())),
    {
        let next = grown.settled();
        let longer = states.push(next);
        assert(states.last().widened(key, items, ref_count, next));
        assert forall|n: int| 0 < n < longer.len() implies #[trigger] Self::follows(
            key,
            items,
            ref_count,
            longer,
            n,
        ) by {
            assert(longer[n - 1] == states[n - 1]);
            if n < states.len() {
                assert(Self::follows(key, items, ref_count, states, n));
                assert(longer[n] == states[n]);
            }
        }
    }

    /// The map between attempts is the one that there was, or that with the key touched.
    proof fn lemma_touched(
        self,
        key: Pubkey,
        items: Seq<T>,
        ref_count: u64,
        now: Self,
        pos: int,
    )
        requires
            items.len() <= u64::MAX,
            now.wf(),
            now.contents() == self.contents() || now.contents() == self.touched(key@, ref_count),
            now.write(key, items, ref_count, pos).1 is Err,
        ensures
            ({
                let failed = now.write(key, items, ref_count, pos).0;
                failed.contents() == self.contents() || failed.contents() == self.touched(
                    key@,
                    ref_count,
                )
            }),
    {
        now.lemma_write(key, items, ref_count, pos);
        assert(now.touched(key@, ref_count) =~= self.touched(key@, ref_count));
    }

    /// An attempt that finds no room in a data bucket, and the state after that has been made
    /// larger.
    proof fn lemma_again_data(
        self,
        key: Pubkey,
        items: Seq<T>,
        ref_count: u64,
        now: Self,
        pos: int,
        place: (u64, u8),
        grown: Self,
    )
        requires
            items.len() <= u64::MAX,
            self.underway(key, items, ref_count, now),
            now.starts(items.len(), pos),
            now.write(key, items, ref_count, pos).1 == Err::<(), BucketMapError>(
                BucketMapError::DataNoSpace(place),
            ),
            growable(BucketMapError::DataNoSpace(place)),
            now.write(key, items, ref_count, pos).0.grows(
                BucketMapError::DataNoSpace(place),
                grown,
                Ok(()),
            ),
            grown.settled().wf(),
            grown.settled().contents() == now.write(key, items, ref_count, pos).0.contents(),
        ensures
            self.underway(key, items, ref_count, grown.settled()),
            0 <= grown.settled().headroom(data_bucket(items.len() as int) as int) < now.headroom(
                data_bucket(items.len() as int) as int,
            ),
    {
        let bucket = data_bucket(items.len() as int) as int;
        let err = BucketMapError::DataNoSpace(place);
        let failed = now.write(key, items, ref_count, pos).0;
        let next = grown.settled();
        let (states, size, times) = choose|states: Seq<Self>, size: Option<u8>, times: nat|
            self.underway_by(key, items, ref_count, now, states, size, times);
        let wider = (place.1 + 1) as u8;
        lemma_bucket_bound(items.len() as int);
        self.lemma_may_grow(key, items, ref_count, now, pos, err);
        self.lemma_touched(key, items, ref_count, now, pos);
        self.lemma_attempted(key, items, ref_count, states, pos, err, grown);
        self.lemma_wider(size, now, key, items, ref_count, pos, place, next);
        if self.has_place(key@) {
            self.lemma_place_kept(key, items, ref_count, now, pos);
        }
        now.lemma_write(key, items, ref_count, pos);
        assert(next.data[bucket] == failed.larger_data(bucket, wider));
        assert(next.index == failed.index);
        assert(self.underway_by(
            key,
            items,
            ref_count,
            next,
            states.push(next),
            Some(wider),
            times,
        ));
        assert(next.data[bucket].wf());
    }

    /// An attempt that finds no room in the index, and the state after that has been made larger.
    proof fn lemma_again_index(
        self,
        key: Pubkey,
        items: Seq<T>,
        ref_count: u64,
        now: Self,
        pos: int,
        current_capacity: u8,
        grown: Self,
    )
        requires
            items.len() <= u64::MAX,
            self.underway(key, items, ref_count, now),
            now.starts(items.len(), pos),
            now.write(key, items, ref_count, pos).1 == Err::<(), BucketMapError>(
                BucketMapError::IndexNoSpace(current_capacity),
            ),
            growable(BucketMapError::IndexNoSpace(current_capacity)),
            now.write(key, items, ref_count, pos).0.grows(
                BucketMapError::IndexNoSpace(current_capacity),
                grown,
                Ok(()),
            ),
            grown.settled().wf(),
            grown.settled().contents() == now.write(key, items, ref_count, pos).0.contents(),
        ensures
            self.underway(key, items, ref_count, grown.settled()),
            0 <= grown.settled().headroom(data_bucket(items.len() as int) as int) < now.headroom(
                data_bucket(items.len() as int) as int,
            ),
    {
        let bucket = data_bucket(items.len() as int) as int;
        let err = BucketMapError::IndexNoSpace(current_capacity);
        let next = grown.settled();
        let (states, size, times) = choose|states: Seq<Self>, size: Option<u8>, times: nat|
            self.underway_by(key, items, ref_count, now, states, size, times);
        self.lemma_may_grow(key, items, ref_count, now, pos, err);
        self.lemma_touched(key, items, ref_count, now, pos);
        self.lemma_attempted(key, items, ref_count, states, pos, err, grown);
        if self.has_place(key@) {
            self.lemma_place_kept(key, items, ref_count, now, pos);
        }
        let (capacity_pow2, random, us) = choose|capacity_pow2: u8, random: u64, us: u64|
            {
                &&& now.takes_index(capacity_pow2, random)
                &&& grown == #[trigger] now.with_pending_index(capacity_pow2, random, us)
            };
        now.lemma_larger_index(capacity_pow2, random);
        next.index.lemma_capacity();
        vstd::arithmetic::power2::lemma_pow2_strictly_increases(
            current_capacity as nat,
            capacity_pow2 as nat,
        );
        assert(next.data == now.data);
        assert(self.resized(next, times + 1));
        assert(self.underway_by(
            key,
            items,
            ref_count,
            next,
            states.push(next),
            size,
            times + 1,
        ));
        if bucket < next.data.len() {
            assert(next.data[bucket].wf());
        }
    }

    /// An attempt that finds no room, and the state after the table that had none has been made
    /// larger.
    pub proof fn lemma_again(
        self,
        key: Pubkey,
        items: Seq<T>,
        ref_count: u64,
        now: Self,
        pos: int,
        err: BucketMapError,
        grown: Self,
    )
        requires
            items.len() <= u64::MAX,
            self.underway(key, items, ref_count, now),
            now.starts(items.len(), pos),
            now.write(key, items, ref_count, pos).1 == Err::<(), BucketMapError>(err),
            growable(err),
            now.write(key, items, ref_count, pos).0.grows(err, grown, Ok(())),
            grown.settled().wf(),
            grown.settled().contents() == now.write(key, items, ref_count, pos).0.contents(),
        ensures
            self.underway(key, items, ref_count, grown.settled()),
            0 <= grown.settled().headroom(data_bucket(items.len() as int) as int) < now.headroom(
                data_bucket(items.len() as int) as int,
            ),
    {
        match err {
            BucketMapError::DataNoSpace(place) => {
                self.lemma_again_data(key, items, ref_count, now, pos, place, grown);
            },
            BucketMapError::IndexNoSpace(capacity_pow2) => {
                self.lemma_again_index(key, items, ref_count, now, pos, capacity_pow2, grown);
            },
        }
    }
}

} // verus!
