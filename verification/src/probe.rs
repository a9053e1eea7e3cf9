//! Probing: visiting a bounded number of cells of a ring, one after the other.
use vstd::prelude::*;

verus! {

/// The cell that is visited `step` steps after cell `start` of a ring of `cells` cells.
pub open spec fn ring(cells: int, start: int, step: int) -> int {
    (start + step) % cells
}

/// Whether cell `at` is among the `steps` cells of the ring that are visited from `start` on.
pub open spec fn visited(cells: int, start: int, steps: int, at: int) -> bool {
    exists|step: int| 0 <= step < steps && #[trigger] ring(cells, start, step) == at
}

/// The first of the `steps` cells visited from `start` on that satisfies `hit`.
pub open spec fn probe(cells: int, start: int, steps: int, hit: spec_fn(int) -> bool) -> Option<int>
    decreases steps,
{
    if steps <= 0 {
        None
    } else if hit(start % cells) {
        Some(start % cells)
    } else {
        probe(cells, start + 1, steps - 1, hit)
    }
}

/// What a probe finds is a visited cell of the ring that satisfies `hit`.
pub proof fn lemma_probe_found(cells: int, start: int, steps: int, hit: spec_fn(int) -> bool)
    requires
        0 < cells,
        probe(cells, start, steps, hit) is Some,
    ensures
        ({
            let at = probe(cells, start, steps, hit)->0;
            &&& 0 <= at < cells
            &&& hit(at)
            &&& visited(cells, start, steps, at)
        }),
    decreases steps,
{
    let at = probe(cells, start, steps, hit)->0;
    if hit(start % cells) {
        assert(ring(cells, start, 0) == at);
    } else {
        lemma_probe_found(cells, start + 1, steps - 1, hit);
        let step = choose|step: int|
            0 <= step < steps - 1 && #[trigger] ring(cells, start + 1, step) == at;
        assert(ring(cells, start, step + 1) == at);
    }
}

/// A probe that finds nothing has visited no cell that satisfies `hit`.
pub proof fn lemma_probe_missed(
    cells: int,
    start: int,
    steps: int,
    hit: spec_fn(int) -> bool,
    at: int,
)
    requires
        probe(cells, start, steps, hit) is None,
        visited(cells, start, steps, at),
    ensures
        !hit(at),
    decreases steps,
{
    let step = choose|step: int| 0 <= step < steps && #[trigger] ring(cells, start, step) == at;
    if step > 0 {
        assert(ring(cells, start + 1, step - 1) == at);
        lemma_probe_missed(cells, start + 1, steps - 1, hit, at);
    }
}

/// What a probe finds depends on the cells of the ring only.
pub proof fn lemma_probe_same(
    cells: int,
    start: int,
    steps: int,
    a: spec_fn(int) -> bool,
    b: spec_fn(int) -> bool,
)
    requires
        0 < cells,
        forall|i: int| 0 <= i < cells ==> #[trigger] a(i) == b(i),
    ensures
        probe(cells, start, steps, a) == probe(cells, start, steps, b),
    decreases steps,
{
    if steps > 0 {
        vstd::arithmetic::div_mod::lemma_mod_bound(start, cells);
        assert(a(start % cells) == b(start % cells));
        lemma_probe_same(cells, start + 1, steps - 1, a, b);
    }
}

/// How far cell `at` of the ring is from `start`, moved on by one.
proof fn lemma_one_nearer(cells: int, start: int, at: int)
    requires
        0 < cells,
        0 <= at < cells,
    ensures
        0 <= (at - start) % cells < cells,
        at == start % cells <==> (at - start) % cells == 0,
        at != start % cells ==> (at - (start + 1)) % cells == (at - start) % cells - 1,
        at == start % cells ==> (at - (start + 1)) % cells == cells - 1,
{
    let far = (at - start) % cells;
    let q = (at - start) / cells;
    vstd::arithmetic::div_mod::lemma_fundamental_div_mod(at - start, cells);
    vstd::arithmetic::div_mod::lemma_mod_bound(at - start, cells);
    vstd::arithmetic::mul::lemma_mul_is_commutative(cells, q);
    if far == 0 {
        vstd::arithmetic::mul::lemma_mul_unary_negation(q, cells);
        vstd::arithmetic::div_mod::lemma_fundamental_div_mod_converse(start, cells, -q, at);
        assert((q - 1) * cells == q * cells - cells) by (nonlinear_arith);
        vstd::arithmetic::div_mod::lemma_fundamental_div_mod_converse(
            at - (start + 1),
            cells,
            q - 1,
            cells - 1,
        );
    } else {
        vstd::arithmetic::div_mod::lemma_fundamental_div_mod_converse(
            at - (start + 1),
            cells,
            q,
            far - 1,
        );
        if at == start % cells {
            vstd::arithmetic::div_mod::lemma_fundamental_div_mod(start, cells);
            let p = start / cells;
            vstd::arithmetic::mul::lemma_mul_is_commutative(cells, p);
            vstd::arithmetic::mul::lemma_mul_unary_negation(p, cells);
            vstd::arithmetic::div_mod::lemma_fundamental_div_mod_converse(
                at - start,
                cells,
                -p,
                0,
            );
        }
    }
}

/// A probe finds the nearest cell that satisfies `hit`, if one of the first `steps` cells does.
pub proof fn lemma_probe_nearest(cells: int, start: int, steps: int, hit: spec_fn(int) -> bool)
    requires
        0 < cells,
    ensures
        match probe(cells, start, steps, hit) {
            Some(at) => {
                &&& 0 <= at < cells
                &&& hit(at)
                &&& (at - start) % cells < steps
                &&& forall|j: int|
                    0 <= j < cells && (j - start) % cells < (at - start) % cells
                        ==> !#[trigger] hit(j)
            },
            None => forall|j: int|
                0 <= j < cells && (j - start) % cells < steps ==> !#[trigger] hit(j),
        },
    decreases steps,
{
    vstd::arithmetic::div_mod::lemma_mod_bound(start, cells);
    let here = start % cells;
    lemma_one_nearer(cells, start, here);
    if steps > 0 && !hit(here) {
        lemma_probe_nearest(cells, start + 1, steps - 1, hit);
        match probe(cells, start + 1, steps - 1, hit) {
            Some(at) => {
                lemma_one_nearer(cells, start, at);
                assert forall|j: int|
                    0 <= j < cells && (j - start) % cells < (at - start) % cells implies
                    !#[trigger] hit(j) by {
                    lemma_one_nearer(cells, start, j);
                }
            },
            None => {
                assert forall|j: int| 0 <= j < cells && (j - start) % cells < steps implies
                    !#[trigger] hit(j) by {
                    lemma_one_nearer(cells, start, j);
                }
            },
        }
    } else {
        assert forall|j: int| 0 <= j < cells && (j - start) % cells < 0 implies !#[trigger] hit(
            j,
        ) by {
            lemma_one_nearer(cells, start, j);
        }
        if steps <= 0 {
            assert forall|j: int| 0 <= j < cells && (j - start) % cells < steps implies
                !#[trigger] hit(j) by {
                lemma_one_nearer(cells, start, j);
            }
        }
    }
}

/// The visited cells are those that are fewer than `steps` cells away from `start`.
pub proof fn lemma_visited_near(cells: int, start: int, steps: int, at: int)
    requires
        0 <= at < cells,
    ensures
        visited(cells, start, steps, at) <==> (at - start) % cells < steps,
{
    let far = (at - start) % cells;
    vstd::arithmetic::div_mod::lemma_mod_bound(at - start, cells);
    vstd::arithmetic::div_mod::lemma_fundamental_div_mod(at - start, cells);
    let q = (at - start) / cells;
    vstd::arithmetic::mul::lemma_mul_is_commutative(cells, q);
    vstd::arithmetic::mul::lemma_mul_unary_negation(q, cells);
    vstd::arithmetic::div_mod::lemma_fundamental_div_mod_converse(start + far, cells, -q, at);
    assert(ring(cells, start, far) == at);
    if visited(cells, start, steps, at) {
        let step = choose|step: int| 0 <= step < steps && #[trigger] ring(cells, start, step) == at;
        vstd::arithmetic::div_mod::lemma_fundamental_div_mod(start + step, cells);
        let p = (start + step) / cells;
        assert(at - start == step - cells * p);
        vstd::arithmetic::mul::lemma_mul_unary_negation(p, cells);
        vstd::arithmetic::mul::lemma_mul_is_commutative(cells, p);
        vstd::arithmetic::div_mod::lemma_mod_multiples_vanish(-p, step, cells);
        vstd::arithmetic::mul::lemma_mul_is_commutative(cells, -p);
        assert(far == step % cells);
        if step < cells {
            vstd::arithmetic::div_mod::lemma_small_mod(step as nat, cells as nat);
        }
    }
}

} // verus!
