//! What the quantities that judge a reduction, a basis, a factorization and a shifted form stand for.

use crate::closeness::{
    lemma_integer_is_near, lemma_stands, lemma_stands_mode, lemma_stands_plus, lemma_stands_word,
    lemma_total_is_near, ranged, stands,
};
use crate::concentration::{deflation_terms, shifted_form};
use crate::factorization::{backward_error, ramp, solve_residuals};
use crate::float::HpFloat;
use crate::form_values::lemma_tight_gap;
use crate::formulas::{lemma_tight_over, lemma_tight_plus, lemma_tight_times, reach, room, tight};
use crate::margins::{lemma_fine_unit, lemma_within_sum, within};
use crate::matrix::{accumulate, entry_squares, largest, magnitude_of, row_dot};
use crate::projection::total;
use crate::reals::{real_of, size, unit};
use crate::rounding::{hp_int, hp_word, magnitude, HpValue};
use crate::sums::{lemma_rounded_once_more, sum_reach};
use crate::tolerances::lemma_magnitude;
use crate::totals::{adds_up, countable, law_terms_add_up, magnitudes, numbers};
use crate::tridiagonal::{
    adjacent_error, column_dot, column_products, diagonal_entries, doubled_squares, norm_error,
    row_sums, square_sum, trace,
};
use vstd::arithmetic::power2::*;
use vstd::prelude::*;

verus! {

/// A sum onto a first value stands for that value and the sum of the terms, with two units of rounding
/// for each term.
pub proof fn law_sum_onto_on_reals(
    first: HpValue,
    f: spec_fn(int) -> HpValue,
    n: nat,
    p: nat,
    r: int,
)
    requires
        countable(0 as real, n, p, r),
        ranged(first, p, r),
        forall|i: int| 0 <= i < n ==> ranged(#[trigger] f(i), p, r),
    ensures
        stands(
            accumulate(first, f, n),
            p,
            sum_reach(p, r, n),
            real_of(first) + total(numbers(f), n),
            2 as real * (n as int as real),
            size(real_of(first)) + total(magnitudes(f), n),
            unit(p),
        ),
    decreases n,
{
    let u = unit(p);
    lemma_fine_unit(p);
    if n == 0 {
        lemma_stands(first, p, r, u);
    } else {
        let m = (n - 1) as nat;
        let k = m as int as real;
        assert((m as int + 1) * (p + 2) == m * (p + 2) + (p + 2)) by (nonlinear_arith);
        assert(m * (p + 2) >= 0) by (nonlinear_arith);
        crate::bounds::lemma_grows(2 as real * k, 2 as real * (k + 1 as real), u);
        law_sum_onto_on_reals(first, f, m, p, r);
        let before = accumulate(first, f, m);
        let last = f(m as int);
        assert(ranged(f(m as int), p, r));
        lemma_stands(last, p, r, u);
        lemma_total_is_near(before, last, p, p, sum_reach(p, r, m));
        lemma_within_sum(
            real_of(before),
            real_of(first) + total(numbers(f), m),
            2 as real * k,
            size(real_of(first)) + total(magnitudes(f), m),
            real_of(last),
            real_of(last),
            0 as real,
            size(real_of(last)),
            u,
        );
        lemma_rounded_once_more(
            real_of(before.plus(last)),
            real_of(before) + real_of(last),
            real_of(first) + total(numbers(f), n),
            2 as real * k,
            size(real_of(first)) + total(magnitudes(f), n),
            u,
        );
    }
}

/// The trace is the sum of all diagonal entries.
pub proof fn law_trace_adds_up(m: Seq<HpValue>, dim: nat, p: nat, r: int)
    requires
        countable(0 as real, dim, p, r),
        forall|i: int| 0 <= i < dim ==> ranged(#[trigger] diagonal_entries(m, dim as int)(i), p, r),
    ensures
        adds_up(trace(m, dim as int, p), |row: int| m[row * dim + row], dim, p),
{
    let f = |row: int| m[row * dim + row];
    assert(f =~= diagonal_entries(m, dim as int));
    law_terms_add_up(diagonal_entries(m, dim as int), dim, p, p, r);
}

/// The sum of squares is the sum over all entries, and its terms are their squares; the off-diagonal
/// entries of a tridiagonal matrix count twice.
pub proof fn law_square_terms_on_reals(m: Seq<HpValue>, i: int, p: nat, r: int)
    requires
        room(p, r),
        0 <= i < m.len(),
        ranged(m[i], p, r),
    ensures
        tight(
            entry_squares(m)(i),
            p,
            3 * reach(p, r),
            real_of(m[i]) * real_of(m[i]),
            3 as real,
            unit(p),
        ),
        tight(
            doubled_squares(m)(i),
            p,
            5 * reach(p, r),
            (real_of(m[i]) * real_of(m[i])) * 2 as real,
            6 as real,
            unit(p),
        ),
{
    let g = reach(p, r);
    let u = unit(p);
    let x = real_of(m[i]);
    lemma_fine_unit(p);
    lemma_stands(m[i], p, g, u);
    lemma_stands_word(2, u);
    lemma_tight_times(m[i], p, g, x, 0 as real, m[i], p, g, x, 0 as real, u, g);
    lemma_tight_times(
        m[i].times(m[i]),
        p,
        3 * g,
        x * x,
        3 as real,
        hp_word(2),
        64,
        g,
        2 as real,
        0 as real,
        u,
        g,
    );
}

/// The sum of squares adds up.
pub proof fn law_square_sum_adds_up(m: Seq<HpValue>, p: nat, r: int)
    requires
        countable(0 as real, m.len(), p, r),
        forall|i: int| 0 <= i < m.len() ==> ranged(#[trigger] entry_squares(m)(i), p, r),
    ensures
        adds_up(square_sum(m, p), entry_squares(m), m.len(), p),
{
    law_terms_add_up(entry_squares(m), m.len(), p, p, r);
}

/// The inner product of two columns adds up over all rows, its terms are the products of their
/// entries, and the departures from unit length and from orthogonality are its distances from one and
/// from zero.
pub proof fn law_column_products_on_reals(
    q: Seq<HpValue>,
    dim: nat,
    a: int,
    b: int,
    row: int,
    p: nat,
    r: int,
)
    requires
        room(p, r),
        countable(0 as real, dim, p, 3 * reach(p, r)),
        0 <= row < dim,
        forall|i: int|
            0 <= i < dim ==> ranged(#[trigger] q[i * dim + a], p, r) && ranged(
                q[i * dim + b],
                p,
                r,
            ),
        ranged(column_dot(q, dim as int, a, b, p), p, r),
    ensures
        tight(
            column_products(q, dim as int, a, b)(row),
            p,
            3 * reach(p, r),
            real_of(q[row * dim + a]) * real_of(q[row * dim + b]),
            3 as real,
            unit(p),
        ),
        adds_up(column_dot(q, dim as int, a, b, p), column_products(q, dim as int, a, b), dim, p),
        a == b ==> tight(
            norm_error(q, dim as int, a, p),
            p,
            2 * reach(p, r),
            size(real_of(column_dot(q, dim as int, a, a, p)) - 1 as real),
            1 as real,
            unit(p),
        ),
        b == a + 1 ==> real_of(adjacent_error(q, dim as int, a, p)) == size(
            real_of(column_dot(q, dim as int, a, b, p)),
        ),
{
    let g = reach(p, r);
    let u = unit(p);
    let f = column_products(q, dim as int, a, b);
    lemma_fine_unit(p);
    lemma2_to64();
    assert forall|i: int| 0 <= i < dim implies ranged(#[trigger] f(i), p, 3 * g) && tight(
        f(i),
        p,
        3 * g,
        real_of(q[i * dim + a]) * real_of(q[i * dim + b]),
        3 as real,
        u,
    ) by {
        let x = q[i * dim + a];
        let y = q[i * dim + b];
        assert(ranged(x, p, r));
        lemma_stands(x, p, g, u);
        lemma_stands(y, p, g, u);
        lemma_tight_times(x, p, g, real_of(x), 0 as real, y, p, g, real_of(y), 0 as real, u, g);
    }
    assert(ranged(f(row), p, 3 * g));
    law_terms_add_up(f, dim, p, p, 3 * g);
    let dot = column_dot(q, dim as int, a, b, p);
    lemma_magnitude(dot, p, r);
    lemma_integer_is_near(64, 1, 16);
    lemma_tight_gap(dot, hp_word(1), p, 64, g);
    lemma_magnitude(dot.minus(hp_word(1)), p, 2 * g);
}

/// The residual of a row of a solution is its distance from the right-hand side `row + 1`, within 3
/// units of rounding at the scale of the two.
pub proof fn law_solve_residual_on_reals(
    m: Seq<HpValue>,
    x: Seq<HpValue>,
    dim: nat,
    row: int,
    p: nat,
    r: int,
)
    requires
        room(p, r),
        0 <= row < dim,
        dim < pow2(64),
        ranged(row_dot(m, x, dim as int, row, p), p, r),
    ensures
        ({
            let a = real_of(row_dot(m, x, dim as int, row, p));
            let b = (row + 1) as real;
            stands(
                solve_residuals(m, x, dim as int, p)(row),
                p,
                2 * reach(p, r),
                size(a - b),
                3 as real,
                size(a) + b,
                unit(p),
            )
        }),
{
    let g = reach(p, r);
    let u = unit(p);
    lemma_fine_unit(p);
    let image = row_dot(m, x, dim as int, row, p);
    let a = real_of(image);
    let b = (row + 1) as real;
    lemma_stands(image, p, g, u);
    lemma_stands_mode(p, row + 1);
    let goal = hp_int(p, row + 1);
    assert(stands(goal, p, g, b, 1 as real, size(b), u));
    lemma_stands_plus(image, p, g, a, 0 as real, size(a), goal, p, b, 1 as real, b, u);
    lemma_magnitude(image.minus(goal), p, 2 * g);
}

/// The backward error is the largest residual over the scale of the system: the largest absolute row
/// sum times the largest magnitude of the solution, and the largest magnitude of the right-hand side.
pub proof fn law_backward_error_on_reals(
    m: Seq<HpValue>,
    x: Seq<HpValue>,
    dim: nat,
    p: nat,
    r: int,
)
    requires
        room(p, r),
        ranged(largest(hp_int(p, 0), row_sums(m, dim as int, p), dim), p, r),
        ranged(magnitude_of(x, p), p, r),
        ranged(magnitude_of(ramp(dim as int, p), p), p, r),
        ranged(largest(hp_int(p, 0), solve_residuals(m, x, dim as int, p), dim), p, r),
        real_of(largest(hp_int(p, 0), row_sums(m, dim as int, p), dim)) >= 0 as real,
        real_of(magnitude_of(x, p)) >= 0 as real,
        real_of(magnitude_of(ramp(dim as int, p), p)) > 0 as real,
    ensures
        ({
            let a = real_of(largest(hp_int(p, 0), row_sums(m, dim as int, p), dim));
            let b = real_of(magnitude_of(x, p));
            let c = real_of(magnitude_of(ramp(dim as int, p), p));
            let worst = real_of(largest(hp_int(p, 0), solve_residuals(m, x, dim as int, p), dim));
            backward_error(m, x, dim as int, p) matches Some(e) && tight(
                e,
                p,
                7 * reach(p, r),
                worst / (a * b + c),
                8 as real,
                unit(p),
            )
        }),
{
    let g = reach(p, r);
    let u = unit(p);
    lemma_fine_unit(p);
    let av = largest(hp_int(p, 0), row_sums(m, dim as int, p), dim);
    let bv = magnitude_of(x, p);
    let cv = magnitude_of(ramp(dim as int, p), p);
    let worst = largest(hp_int(p, 0), solve_residuals(m, x, dim as int, p), dim);
    let a = real_of(av);
    let b = real_of(bv);
    let c = real_of(cv);
    lemma_stands(av, p, g, u);
    lemma_stands(bv, p, g, u);
    lemma_stands(cv, p, 3 * g, u);
    lemma_stands(worst, p, g, u);
    lemma_tight_times(av, p, g, a, 0 as real, bv, p, g, b, 0 as real, u, g);
    crate::bounds::lemma_nonnegative(a, b);
    lemma_tight_plus(av.times(bv), p, 3 * g, a * b, 3 as real, cv, p, c, 0 as real, u, g);
    let scale = av.times(bv).plus(cv);
    crate::formulas::lemma_tight_nonzero(scale, p, 4 * g, a * b + c, 5 as real, u);
    lemma_tight_over(
        worst,
        p,
        g,
        real_of(worst),
        0 as real,
        scale,
        p,
        4 * g,
        a * b + c,
        5 as real,
        u,
        g,
    );
}

/// An entry of a shifted form is the entry of the form and the sum of what all shifted modes add.
pub proof fn law_shifted_entry_adds_up(
    m: Seq<HpValue>,
    v: Seq<Vec<HpFloat>>,
    sigma: HpValue,
    dim: int,
    row: int,
    column: int,
    p: nat,
    r: int,
)
    requires
        0 <= row < dim,
        0 <= column < dim,
        countable(0 as real, v.len(), p, r),
        ranged(m[row * dim + column], p, r),
        forall|k: int|
            0 <= k < v.len() ==> ranged(
                #[trigger] deflation_terms(v, sigma, row, column)(k),
                p,
                r,
            ),
    ensures
        within(
            real_of(shifted_form(m, v, sigma, dim)[row * dim + column]),
            real_of(m[row * dim + column]) + total(
                numbers(deflation_terms(v, sigma, row, column)),
                v.len(),
            ),
            2 as real * (v.len() as int as real),
            size(real_of(m[row * dim + column])) + total(
                magnitudes(deflation_terms(v, sigma, row, column)),
                v.len(),
            ),
            unit(p),
        ),
{
    crate::matrix::lemma_cell(dim, row, column);
    law_sum_onto_on_reals(
        m[row * dim + column],
        deflation_terms(v, sigma, row, column),
        v.len(),
        p,
        r,
    );
}

} // verus!
