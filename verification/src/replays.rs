//! When a refinement has stagnated, when a replayed residual agrees with a stored one, and what the
//! products of a reduction are.

use crate::assembly::points_for;
use crate::bounds::lemma_nonnegative;
use crate::closeness::{
    lemma_integer_is_near, lemma_precision_is_near, lemma_stands, lemma_stands_plus, ranged, stands,
};
use crate::components::mirror_difference;
use crate::config::RootSolver;
use crate::form_values::lemma_tight_gap;
use crate::formulas::{lemma_tight_over, lemma_tight_times, reach, room, tight};
use crate::margins::{lemma_fine_unit, lemma_within_rounded, within};
use crate::matrix::{accumulate, largest, row_abs_sum, row_magnitudes};
use crate::monotone::law_order_is_that_of_numbers;
use crate::reals::{real_of, size, two_to, unit};
use crate::refine::{correction, improves, refinement, search, SearchOutcome, SearchState};
use crate::roots::{replay_agrees, roundoff_units};
use crate::rounding::{hp_int, hp_pow2, hp_word, HpValue};
use crate::secular::{pole_distance, secular_magnitudes};
use crate::tolerances::{lemma_magnitude, lemma_power_of_two};
use crate::totals::{adds_up, countable, law_largest_bounds_all, law_terms_add_up};
use crate::tridiagonal::{
    basis_times_tridiagonal, basis_tolerance, replay_products, row_sums, similarity_residual,
    similarity_tolerance, TridiagonalView,
};
use vstd::arithmetic::power2::*;
use vstd::prelude::*;

verus! {

/// A point came from another by one step.
pub open spec fn stepped(
    to: HpValue,
    from: HpValue,
    method: RootSolver,
    xi: Seq<HpValue>,
    n: int,
    spacing: HpValue,
    p: nat,
) -> bool {
    correction(method, xi, n, spacing, from, p) is Some && to == from.minus(
        correction(method, xi, n, spacing, from, p)->0,
    )
}

/// A point stands still: the step that led to it did not move, or it took back the step before.
pub open spec fn stands_still(
    x: HpValue,
    method: RootSolver,
    xi: Seq<HpValue>,
    n: int,
    spacing: HpValue,
    p: nat,
) -> bool {
    exists|from: HpValue|
        #[trigger] stepped(x, from, method, xi, n, spacing, p) && (x.eqv(from) || exists|before: HpValue|
            #[trigger] stepped(from, before, method, xi, n, spacing, p) && before.eqv(x))
}

proof fn lemma_stagnation(
    method: RootSolver,
    xi: Seq<HpValue>,
    n: int,
    spacing: HpValue,
    p: nat,
    state: SearchState,
    done: nat,
    left: nat,
)
    requires
        state.stalled <= done,
        state.before is Some ==> stepped(state.z, state.before->0, method, xi, n, spacing, p),
    ensures
        search(method, xi, n, spacing, p, state, done, left) matches SearchOutcome::Point(x)
            ==> x.status is Stagnated && x.iterations < 128 ==> stands_still(
            x.value,
            method,
            xi,
            n,
            spacing,
            p,
        ),
    decreases left,
{
    if left > 0 {
        if let Some(dz) = correction(method, xi, n, spacing, state.z, p) {
            let z = state.z.minus(dz);
            let a = dz.abs();
            let stalled: nat = if improves(state.best, a) {
                0
            } else {
                state.stalled + 1
            };
            let next = SearchState {
                z,
                before: Some(state.z),
                last: a,
                best: if improves(state.best, a) {
                    Some(a)
                } else {
                    state.best
                },
                stalled,
            };
            assert(stepped(z, state.z, method, xi, n, spacing, p));
            if state.before is Some {
                assert(stepped(state.z, state.before->0, method, xi, n, spacing, p));
            }
            lemma_stagnation(method, xi, n, spacing, p, next, done + 1, (left - 1) as nat);
        }
    }
}

/// A refinement that stagnates before its 128th step stands still: its last step did not move, or
/// took back the one before.
pub proof fn law_early_stagnation_stands_still(
    method: RootSolver,
    xi: Seq<HpValue>,
    n: int,
    spacing: HpValue,
    seed: HpValue,
    p: nat,
    steps: nat,
)
    ensures
        refinement(method, xi, n, spacing, seed, p, steps) matches SearchOutcome::Point(x)
            ==> x.status is Stagnated && x.iterations < 128 ==> stands_still(
            x.value,
            method,
            xi,
            n,
            spacing,
            p,
        ),
{
    if steps > 0 {
        lemma_stagnation(
            method,
            xi,
            n,
            spacing,
            p,
            SearchState { z: seed, before: None, last: hp_int(p, 0), best: None, stalled: 0 },
            0,
            steps,
        );
    }
}

/// What a replayed residual may differ by: eight units of `2^(4 - p)` of the scale for each term,
/// within 6 units of rounding. Two residuals that agree differ by no more, but for the roundoff of
/// their difference, and two that clearly differ by less agree.
pub proof fn law_replay_on_reals(
    stored: HpValue,
    residual: HpValue,
    scale: HpValue,
    terms: nat,
    p: nat,
    r: int,
)
    requires
        room(p, r),
        ranged(stored, p, r),
        ranged(residual, p, r),
        ranged(scale, p, r),
        real_of(stored) >= 0 as real,
        real_of(residual) >= 0 as real,
        real_of(scale) >= 0 as real,
        1 <= terms < 0x1000,
    ensures
        ({
            let u = unit(p);
            let bound = (two_to(4 - p) * real_of(scale)) * ((8 * terms) as real);
            let d = size(real_of(stored) - real_of(residual));
            let e = 3 as real * (u * (real_of(stored) + real_of(residual)));
            let agrees = replay_agrees(stored, Some((residual, scale)), terms, p);
            &&& agrees ==> d <= bound + 6 as real * (u * bound) + e
            &&& d + e + 6 as real * (u * bound) <= bound ==> agrees
        }),
{
    let g = reach(p, r);
    let u = unit(p);
    lemma_fine_unit(p);
    lemma2_to64();
    let a = real_of(stored);
    let b = real_of(residual);
    let s = real_of(scale);
    law_order_is_that_of_numbers(stored, hp_word(0));
    law_order_is_that_of_numbers(residual, hp_word(0));
    law_order_is_that_of_numbers(scale, hp_word(0));
    law_order_is_that_of_numbers(stored, residual);
    lemma_power_of_two(p, 4 - p);
    let w = hp_pow2(p, 4 - p);
    let k = roundoff_units(terms);
    assert(k == 8 * terms);
    lemma_stands(w, p, 2 * g, u);
    lemma_stands(scale, p, g, u);
    crate::closeness::lemma_stands_word(k, u);
    lemma_tight_times(w, p, 2 * g, two_to(4 - p), 0 as real, scale, p, g, s, 0 as real, u, g);
    lemma_tight_times(
        w.times(scale),
        p,
        4 * g,
        two_to(4 - p) * s,
        3 as real,
        hp_word(k),
        64,
        g,
        k as real,
        0 as real,
        u,
        g,
    );
    let limit = w.times(scale).times(hp_word(k));
    lemma_nonnegative(two_to(4 - p), s);
    lemma_nonnegative(two_to(4 - p) * s, k as real);
    lemma_precision_is_near(stored, p, r, p);
    let t = u * size(a);
    assert((1 as real) * t == t);
    assert(tight(stored.at(p), p, 2 * g, a, 1 as real, u));
    lemma_stands(residual, p, 2 * g, u);
    lemma_stands_plus(
        stored.at(p),
        p,
        2 * g,
        a,
        1 as real,
        size(a),
        residual,
        p,
        b,
        0 as real,
        size(b),
        u,
    );
    let gap = stored.at(p).minus(residual);
    lemma_magnitude(gap, p, 3 * g);
    law_order_is_that_of_numbers(gap.abs(), limit);
    lemma_nonnegative(u, a + b);
    lemma_nonnegative(u, (two_to(4 - p) * s) * (k as real));
}

/// A term of the scale of a residual is the magnitude of the weight over the distance to its pole,
/// within 5 units of rounding.
pub proof fn law_scale_term_on_reals(
    xi: Seq<HpValue>,
    n: int,
    spacing: HpValue,
    z: HpValue,
    p: nat,
    r: int,
    i: int,
)
    requires
        room(p, r),
        ranged(xi[i], p, r),
        ranged(pole_distance(n, spacing, z, p, i), p, r),
        real_of(pole_distance(n, spacing, z, p, i)) != 0 as real,
    ensures
        ({
            let v = size(real_of(xi[i]) / real_of(pole_distance(n, spacing, z, p, i)));
            within(
                real_of(secular_magnitudes(xi, n, spacing, z, p)(i)),
                v,
                5 as real,
                v,
                unit(p),
            )
        }),
{
    let g = reach(p, r);
    let u = unit(p);
    let d = pole_distance(n, spacing, z, p, i);
    lemma_fine_unit(p);
    lemma_stands(xi[i], p, g, u);
    lemma_stands(d, p, g, u);
    lemma_tight_over(
        xi[i],
        p,
        g,
        real_of(xi[i]),
        0 as real,
        d,
        p,
        g,
        real_of(d),
        0 as real,
        u,
        g,
    );
    let q = xi[i].over(d);
    let v = real_of(xi[i]) / real_of(d);
    lemma_precision_is_near(q, p, 4 * g, p);
    lemma_within_rounded(real_of(q.at(p)), real_of(q), v, 3 as real, size(v), u);
    lemma_magnitude(q.at(p), p, 5 * g);
}

/// An entry of the basis times a tridiagonal matrix, away from its edges, is the sum of the three
/// products of a column and its neighbours, within 7 units of rounding at the scale of the three.
pub proof fn law_basis_product_on_reals(
    q: Seq<HpValue>,
    t: TridiagonalView,
    dim: int,
    row: int,
    column: int,
    p: nat,
    r: int,
)
    requires
        room(p, r),
        0 < column < dim - 1,
        ranged(q[row * dim + column], p, r),
        ranged(q[row * dim + (column - 1)], p, r),
        ranged(q[row * dim + (column + 1)], p, r),
        ranged(t.diagonal[column], p, r),
        ranged(t.off_diagonal[column - 1], p, r),
        ranged(t.off_diagonal[column], p, r),
    ensures
        ({
            let a = real_of(q[row * dim + column]) * real_of(t.diagonal[column]);
            let b = real_of(q[row * dim + (column - 1)]) * real_of(t.off_diagonal[column - 1]);
            let c = real_of(q[row * dim + (column + 1)]) * real_of(t.off_diagonal[column]);
            within(
                real_of(basis_times_tridiagonal(q, t, dim, row, column)),
                a + b + c,
                7 as real,
                size(a) + size(b) + size(c),
                unit(p),
            )
        }),
{
    let g = reach(p, r);
    let u = unit(p);
    lemma_fine_unit(p);
    let x = q[row * dim + column];
    let y = q[row * dim + (column - 1)];
    let z = q[row * dim + (column + 1)];
    let d = t.diagonal[column];
    let e = t.off_diagonal[column - 1];
    let f = t.off_diagonal[column];
    let a = real_of(x) * real_of(d);
    let b = real_of(y) * real_of(e);
    let c = real_of(z) * real_of(f);
    lemma_product_of_two(x, d, p, r);
    lemma_product_of_two(y, e, p, r);
    lemma_product_of_two(z, f, p, r);
    lemma_stands_plus(
        x.times(d),
        p,
        3 * g,
        a,
        3 as real,
        size(a),
        y.times(e),
        p,
        b,
        3 as real,
        size(b),
        u,
    );
    lemma_stands_plus(
        x.times(d).plus(y.times(e)),
        p,
        4 * g,
        a + b,
        5 as real,
        size(a) + size(b),
        z.times(f),
        p,
        c,
        3 as real,
        size(c),
        u,
    );
}

/// An entry of the basis times a tridiagonal matrix at an edge has no neighbour beyond it: in the
/// first column it is the sum of two products, with the column and the next one; in the last one the
/// sum of two, with the column and the one before; and where there is only one column, one product.
pub proof fn law_edge_product_on_reals(
    q: Seq<HpValue>,
    t: TridiagonalView,
    dim: int,
    row: int,
    column: int,
    near: int,
    p: nat,
    r: int,
)
    requires
        room(p, r),
        dim >= 1,
        column == 0 || column == dim - 1,
        dim >= 2 ==> near == if column == 0 {
            1int
        } else {
            dim - 2
        },
        ranged(q[row * dim + column], p, r),
        ranged(t.diagonal[column], p, r),
        dim >= 2 ==> ranged(q[row * dim + near], p, r),
        dim >= 2 ==> ranged(
            t.off_diagonal[if column == 0 {
                0int
            } else {
                dim - 2
            }],
            p,
            r,
        ),
    ensures
        ({
            let a = real_of(q[row * dim + column]) * real_of(t.diagonal[column]);
            let b = real_of(q[row * dim + near]) * real_of(
                t.off_diagonal[if column == 0 {
                    0int
                } else {
                    dim - 2
                }],
            );
            let v = real_of(basis_times_tridiagonal(q, t, dim, row, column));
            &&& dim == 1 ==> within(v, a, 3 as real, size(a), unit(p))
            &&& dim >= 2 ==> within(v, a + b, 5 as real, size(a) + size(b), unit(p))
        }),
{
    let g = reach(p, r);
    let u = unit(p);
    lemma_fine_unit(p);
    let x = q[row * dim + column];
    let d = t.diagonal[column];
    lemma_product_of_two(x, d, p, r);
    if dim >= 2 {
        let y = q[row * dim + near];
        let e = t.off_diagonal[if column == 0 {
            0int
        } else {
            dim - 2
        }];
        let a = real_of(x) * real_of(d);
        let b = real_of(y) * real_of(e);
        lemma_product_of_two(y, e, p, r);
        lemma_stands_plus(
            x.times(d),
            p,
            3 * g,
            a,
            3 as real,
            size(a),
            y.times(e),
            p,
            b,
            3 as real,
            size(b),
            u,
        );
    }
}

/// The residual of `A Q = Q T` at an entry is the distance of the two sides: the left one adds up the
/// products of a row of the form and a column of the basis, over all inner positions.
pub proof fn law_similarity_residual_on_reals(
    m: Seq<HpValue>,
    q: Seq<HpValue>,
    t: TridiagonalView,
    dim: nat,
    row: int,
    column: int,
    inner: int,
    p: nat,
    r: int,
)
    requires
        room(p, r),
        countable(0 as real, dim, p, 3 * reach(p, r)),
        0 <= inner < dim,
        forall|i: int|
            0 <= i < dim ==> ranged(#[trigger] m[row * dim + i], p, r) && ranged(
                q[i * dim + column],
                p,
                r,
            ),
        ranged(
            accumulate(hp_int(p, 0), replay_products(m, q, dim as int, row, column), dim),
            p,
            r,
        ),
        ranged(basis_times_tridiagonal(q, t, dim as int, row, column), p, r),
    ensures
        ({
            let f = replay_products(m, q, dim as int, row, column);
            let left = accumulate(hp_int(p, 0), f, dim);
            let right = basis_times_tridiagonal(q, t, dim as int, row, column);
            &&& tight(
                f(inner),
                p,
                3 * reach(p, r),
                real_of(m[row * dim + inner]) * real_of(q[inner * dim + column]),
                3 as real,
                unit(p),
            )
            &&& adds_up(left, f, dim, p)
            &&& tight(
                similarity_residual(m, q, t, dim as int, row, column, p),
                p,
                2 * reach(p, r),
                size(real_of(left) - real_of(right)),
                1 as real,
                unit(p),
            )
        }),
{
    let g = reach(p, r);
    let f = replay_products(m, q, dim as int, row, column);
    assert forall|i: int| 0 <= i < dim implies ranged(#[trigger] f(i), p, 3 * g) && tight(
        f(i),
        p,
        3 * g,
        real_of(m[row * dim + i]) * real_of(q[i * dim + column]),
        3 as real,
        unit(p),
    ) by {
        assert(ranged(m[row * dim + i], p, r));
        lemma_product_of_two(m[row * dim + i], q[i * dim + column], p, r);
    }
    assert(ranged(f(inner), p, 3 * g));
    law_terms_add_up(f, dim, p, p, 3 * g);
    let left = accumulate(hp_int(p, 0), f, dim);
    let right = basis_times_tridiagonal(q, t, dim as int, row, column);
    lemma_tight_gap(left, right, p, p, g);
    lemma_magnitude(left.minus(right), p, 2 * g);
}

/// A row sum adds up the magnitudes of the entries of its row.
pub proof fn law_row_sum_on_reals(m: Seq<HpValue>, dim: nat, row: int, j: int, p: nat, r: int)
    requires
        countable(0 as real, dim, p, r),
        0 <= j < dim,
        forall|i: int| 0 <= i < dim ==> ranged(#[trigger] m[row * dim + i], p, r),
    ensures
        adds_up(row_abs_sum(m, dim as int, row, p), row_magnitudes(m, dim as int, row), dim, p),
        real_of(row_magnitudes(m, dim as int, row)(j)) == size(real_of(m[row * dim + j])),
{
    let f = row_magnitudes(m, dim as int, row);
    assert forall|i: int| 0 <= i < dim implies ranged(#[trigger] f(i), p, r) by {
        lemma_magnitude(m[row * dim + i], p, r);
    }
    assert(ranged(m[row * dim + j], p, r));
    lemma_magnitude(m[row * dim + j], p, r);
    law_terms_add_up(f, dim, p, p, r);
}

/// A value stands for the tolerance of a basis, `2^(64 - p)`, times a scale.
pub open spec fn scaled_tolerance(x: HpValue, p: nat, r: int, scale: real) -> bool {
    tight(x, p, 3 * reach(p, r), two_to(64 - p) * scale, 3 as real, unit(p))
}

/// The tolerance of the similarity is that of the basis times a scale, which is the least number
/// that is below neither one nor any row sum.
pub proof fn law_similarity_tolerance_on_reals(
    m: Seq<HpValue>,
    dim: nat,
    row: int,
    p: nat,
    r: int,
)
    requires
        room(p, r),
        r >= 2 * p + 2,
        p > 64,
        0 <= row < dim,
        forall|i: int|
            0 <= i < dim ==> ranged(#[trigger] row_sums(m, dim as int, p)(i), p, r),
    ensures
        exists|scale: real|
            {
                &&& #[trigger] scaled_tolerance(similarity_tolerance(m, dim as int, p), p, r, scale)
                &&& scale >= 1 as real
                &&& scale >= real_of(row_abs_sum(m, dim as int, row, p))
                &&& scale == 1 as real || exists|i: int|
                    0 <= i < dim && scale == real_of(#[trigger] row_sums(m, dim as int, p)(i))
            },
{
    let f = row_sums(m, dim as int, p);
    let one = hp_int(p, 1);
    lemma2_to64();
    lemma_integer_is_near(p, 1, 1);
    lemma_power_of_two(p, 64 - p);
    assert forall|j: int| 0 <= j < dim implies (#[trigger] f(j)).wf() && f(j).is_finite() by {
        assert(ranged(f(j), p, r));
    }
    law_largest_bounds_all(one, f, dim, row);
    let top = largest(one, f, dim);
    assert(ranged(top, p, r));
    assert(real_of(f(row)) == real_of(row_abs_sum(m, dim as int, row, p)));
    lemma_product_of_two(basis_tolerance(p), top, p, r);
    assert(scaled_tolerance(similarity_tolerance(m, dim as int, p), p, r, real_of(top)));
}

/// The difference of two mirrored entries is their distance, within one unit of rounding.
pub proof fn law_mirror_difference_on_reals(
    m: Seq<HpValue>,
    dim: int,
    row: int,
    column: int,
    p: nat,
    r: int,
)
    requires
        room(p, r),
        ranged(m[row * dim + column], p, r),
        ranged(m[column * dim + row], p, r),
    ensures
        tight(
            mirror_difference(m, dim, row, column),
            p,
            2 * reach(p, r),
            size(real_of(m[row * dim + column]) - real_of(m[column * dim + row])),
            1 as real,
            unit(p),
        ),
{
    let g = reach(p, r);
    let x = m[row * dim + column];
    let y = m[column * dim + row];
    lemma_tight_gap(x, y, p, p, g);
    lemma_magnitude(x.minus(y), p, 2 * g);
}

proof fn lemma_product_of_two(x: HpValue, y: HpValue, p: nat, r: int)
    requires
        room(p, r),
        ranged(x, p, r),
        ranged(y, p, r),
    ensures
        tight(x.times(y), p, 3 * reach(p, r), real_of(x) * real_of(y), 3 as real, unit(p)),
{
    let g = reach(p, r);
    let u = unit(p);
    lemma_fine_unit(p);
    lemma_stands(x, p, g, u);
    lemma_stands(y, p, g, u);
    lemma_tight_times(x, p, g, real_of(x), 0 as real, y, p, g, real_of(y), 0 as real, u, g);
}

/// The number of quadrature points of a mode is the least that reaches both the configured number and
/// three for each oscillation with the extra ones.
pub proof fn law_points_reach_both(base: int, extra: int, n: int)
    ensures
        points_for(base, extra, n) >= base,
        points_for(base, extra, n) >= 3 * n + extra,
        points_for(base, extra, n) == base || points_for(base, extra, n) == 3 * n + extra,
{
}

} // verus!
