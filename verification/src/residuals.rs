//! What residuals, Rayleigh quotients, depths and shifts stand for on exact real numbers.

use crate::bounds::lemma_grows;
use crate::closeness::{
    lemma_gap_is_near, lemma_integer_is_near, lemma_precision_is_near, lemma_stands,
    lemma_stands_plus, lemma_stands_times, lemma_stands_word, ranged, stands,
};
use crate::concentration::{deflation_shift, first_positive};
use crate::eigenpair::{applied, applied_products};
use crate::eigvec_cache::{pair_residuals, relative_residual};
use crate::formulas::{lemma_tight_over, lemma_tight_plus, lemma_tight_times, reach, room, tight};
use crate::margins::{lemma_fine_unit, lemma_within_rounded, within};
use crate::matrix::{accumulate, entry_magnitudes, largest, magnitude_of, row_dot};
use crate::monotone::law_order_is_that_of_numbers;
use crate::outcome::{digit_ceiling, digits_worth, relative};
use crate::reals::{lemma_negative, real_of, size, unit};
use crate::rounding::{hp_int, hp_word, magnitude, HpValue};
use crate::run::lies_nearer;
use crate::spectrum::{gap, residual_norm, residual_squares, transform_terms, SpectrumView};
use crate::square_roots::law_root_squares_back;
use crate::state::{
    applied_terms, component_value_holds, paired_terms, quotient, CcmFormComponentMatrixHp,
    CcmFormComponentValueHp, RayleighSums,
};
use crate::tolerances::lemma_magnitude;
use crate::totals::{adds_up, countable, law_largest_bounds_all, law_terms_add_up};
use crate::tridiagonal::row_sums;
use vstd::arithmetic::power2::*;
use vstd::prelude::*;

verus! {

/// The residual of a row, `(A v)_row - x v_row`, within 5 units of rounding at the scale of the two
/// terms, and its square, within 13 at the square of that scale.
pub proof fn law_residual_square_on_reals(
    m: Seq<HpValue>,
    dim: int,
    x: HpValue,
    v: Seq<HpValue>,
    row: int,
    p: nat,
    r: int,
)
    requires
        room(p, r),
        ranged(row_dot(m, v, dim, row, p), p, r),
        ranged(v[row], p, r),
        ranged(x, p, r),
    ensures
        ({
            let a = real_of(row_dot(m, v, dim, row, p));
            let b = real_of(v[row]) * real_of(x);
            let s = size(a) + size(b);
            within(
                real_of(residual_squares(m, dim, x, v, p)(row)),
                (a - b) * (a - b),
                13 as real,
                s * s,
                unit(p),
            )
        }),
{
    let g = reach(p, r);
    let u = unit(p);
    lemma_fine_unit(p);
    let image = row_dot(m, v, dim, row, p);
    let a = real_of(image);
    let b = real_of(v[row]) * real_of(x);
    let s = size(a) + size(b);
    lemma_stands(image, p, 3 * g, u);
    lemma_stands(v[row], p, g, u);
    lemma_stands(x, p, g, u);
    lemma_tight_times(v[row], p, g, real_of(v[row]), 0 as real, x, p, g, real_of(x), 0 as real, u, g);
    lemma_stands_plus(image, p, 3 * g, a, 0 as real, size(a), v[row].times(x), p, b, 3 as real, size(b), u);
    let d = image.minus(v[row].times(x));
    lemma_stands_times(d, p, 4 * g, a - b, 5 as real, s, d, p, 4 * g, a - b, 5 as real, s, u);
}

/// The square of a residual norm is the sum of the squared residuals, within 3 units of rounding.
pub proof fn law_residual_norm_squares_back(
    m: Seq<HpValue>,
    dim: nat,
    x: HpValue,
    v: Seq<HpValue>,
    p: nat,
    r: int,
)
    requires
        room(p, r),
        ranged(accumulate(hp_int(p, 0), residual_squares(m, dim as int, x, v, p), dim), p, r),
        real_of(accumulate(hp_int(p, 0), residual_squares(m, dim as int, x, v, p), dim))
            >= 0 as real,
    ensures
        ({
            let n = real_of(residual_norm(m, dim as int, x, v, p));
            let s = real_of(
                accumulate(hp_int(p, 0), residual_squares(m, dim as int, x, v, p), dim),
            );
            within(n * n, s, 3 as real, s, unit(p)) && n >= 0 as real
        }),
{
    law_root_squares_back(
        accumulate(hp_int(p, 0), residual_squares(m, dim as int, x, v, p), dim),
        p,
        r,
    );
}

/// The residual of a row of a cached pair is the magnitude of `(A v)_row - x v_row`, within 5 units
/// of rounding at the scale of the two terms.
pub proof fn law_pair_residual_on_reals(
    m: Seq<HpValue>,
    dim: int,
    v: Seq<HpValue>,
    x: HpValue,
    row: int,
    p: nat,
    r: int,
)
    requires
        room(p, r),
        ranged(row_dot(m, v, dim, row, p), p, r),
        ranged(v[row], p, r),
        ranged(x, p, r),
    ensures
        ({
            let a = real_of(row_dot(m, v, dim, row, p));
            let b = real_of(x) * real_of(v[row]);
            stands(
                pair_residuals(m, dim, v, x, p)(row),
                p,
                4 * reach(p, r),
                size(a - b),
                5 as real,
                size(a) + size(b),
                unit(p),
            )
        }),
{
    let g = reach(p, r);
    let u = unit(p);
    lemma_fine_unit(p);
    let image = row_dot(m, v, dim, row, p);
    let a = real_of(image);
    let b = real_of(x) * real_of(v[row]);
    lemma_stands(image, p, 3 * g, u);
    lemma_stands(v[row], p, g, u);
    lemma_stands(x, p, g, u);
    lemma_tight_times(x, p, g, real_of(x), 0 as real, v[row], p, g, real_of(v[row]), 0 as real, u, g);
    lemma_stands_plus(image, p, 3 * g, a, 0 as real, size(a), x.times(v[row]), p, b, 3 as real, size(b), u);
    lemma_magnitude(image.minus(x.times(v[row])), p, 4 * g);
}

/// The relative residual of a pair is its largest residual over its largest magnitude, within 3 units
/// of rounding; the first is no smaller than the residual of any row, the second no smaller than the
/// magnitude of any entry.
pub proof fn law_relative_residual_on_reals(
    m: Seq<HpValue>,
    dim: nat,
    v: Seq<HpValue>,
    x: HpValue,
    row: int,
    p: nat,
    r: int,
)
    requires
        room(p, r),
        v.len() == dim,
        m.len() == dim * dim,
        0 <= row < dim,
        forall|i: int| 0 <= i < dim ==> ranged(#[trigger] v[i], p, r),
        forall|i: int|
            0 <= i < dim ==> ranged(#[trigger] pair_residuals(m, dim as int, v, x, p)(i), p, r),
        ranged(largest(hp_int(p, 0), pair_residuals(m, dim as int, v, x, p), dim), p, r),
        ranged(magnitude_of(v, p), p, r),
        !magnitude_of(v, p).is_zero(),
    ensures
        ({
            let worst = real_of(largest(hp_int(p, 0), pair_residuals(m, dim as int, v, x, p), dim));
            let scale = real_of(magnitude_of(v, p));
            &&& relative_residual(m, dim as int, v, x, p) matches Some(s) && tight(
                s,
                p,
                4 * reach(p, r),
                worst / scale,
                3 as real,
                unit(p),
            )
            &&& real_of(pair_residuals(m, dim as int, v, x, p)(row)) <= worst
            &&& size(real_of(v[row])) <= scale
            &&& scale > 0 as real
        }),
{
    let g = reach(p, r);
    let u = unit(p);
    lemma_fine_unit(p);
    let f = pair_residuals(m, dim as int, v, x, p);
    let h = entry_magnitudes(v);
    assert forall|i: int| 0 <= i < dim implies (#[trigger] h(i)).wf() && h(i).is_finite() by {
        assert(ranged(v[i], p, r));
        lemma_magnitude(v[i], p, r);
    }
    law_largest_bounds_all(hp_int(p, 0), f, dim, row);
    law_largest_bounds_all(hp_int(p, 0), h, dim, row);
    lemma_magnitude(v[row], p, r);
    let worst = largest(hp_int(p, 0), f, dim);
    let scale = magnitude_of(v, p);
    lemma_stands(worst, p, g, u);
    lemma_stands(scale, p, g, u);
    crate::formulas::lemma_number_nonzero(scale, p, g);
    lemma_tight_over(
        worst,
        p,
        g,
        real_of(worst),
        0 as real,
        scale,
        p,
        g,
        real_of(scale),
        0 as real,
        u,
        g,
    );
}

/// A Rayleigh quotient is the one sum over the other, within 5 units of rounding.
pub proof fn law_rayleigh_quotient_on_reals(
    numerator: HpValue,
    denominator: HpValue,
    p: nat,
    r: int,
)
    requires
        room(p, r),
        ranged(numerator, p, r),
        ranged(denominator, p, r),
    ensures
        quotient(numerator, denominator, p) is Some <==> real_of(denominator) > 0 as real,
        quotient(numerator, denominator, p) matches Some(q) ==> tight(
            q,
            p,
            5 * reach(p, r),
            real_of(numerator) / real_of(denominator),
            5 as real,
            unit(p),
        ),
{
    let g = reach(p, r);
    let u = unit(p);
    lemma_fine_unit(p);
    law_order_is_that_of_numbers(denominator, hp_word(0));
    if real_of(denominator) > 0 as real {
        lemma_stands(numerator, p, g, u);
        lemma_stands(denominator, p, g, u);
        lemma_tight_over(
            numerator,
            p,
            g,
            real_of(numerator),
            0 as real,
            denominator,
            p,
            g,
            real_of(denominator),
            0 as real,
            u,
            g,
        );
        let q = numerator.over(denominator);
        let v = real_of(numerator) / real_of(denominator);
        lemma_precision_is_near(q, p, 4 * g, p);
        lemma_within_rounded(real_of(q.at(p)), real_of(q), v, 3 as real, size(v), u);
    }
}

/// The contribution of a component is its Rayleigh value times its coefficient, within 4 units of
/// rounding.
pub proof fn law_contribution_on_reals(
    x: CcmFormComponentValueHp,
    c: CcmFormComponentMatrixHp,
    s: RayleighSums,
    p: nat,
    r: int,
)
    requires
        room(p, r),
        component_value_holds(x, c, s, p),
        ranged(x.rayleigh_value@, p, r),
        magnitude(c.signed_coefficient as int) < 0x1_0000,
    ensures
        tight(
            x.signed_contribution@,
            p,
            4 * reach(p, r),
            real_of(x.rayleigh_value@) * (c.signed_coefficient as int as real),
            4 as real,
            unit(p),
        ),
{
    let g = reach(p, r);
    let u = unit(p);
    lemma_fine_unit(p);
    let v = x.rayleigh_value@;
    let k = c.signed_coefficient as int;
    lemma_precision_is_near(v, p, r, p);
    let d = u * size(real_of(v));
    assert((1 as real) * d == d);
    assert(tight(v.at(p), p, 2 * g, real_of(v), 1 as real, u));
    lemma_stands_word(k, u);
    lemma_tight_times(v.at(p), p, 2 * g, real_of(v), 1 as real, hp_word(k), 64, g, k as real, 0 as real, u, g);
}

/// The terms of inner products and of matrices applied to vectors: products of two entries.
pub proof fn law_inner_terms_on_reals(
    a: Seq<HpValue>,
    b: Seq<HpValue>,
    i: int,
    p: nat,
    r: int,
)
    requires
        room(p, r),
        0 <= i < a.len(),
        ranged(a[i], p, r),
        ranged(b[i], p, r),
    ensures
        tight(
            paired_terms(a, b, p)[i],
            p,
            4 * reach(p, r),
            real_of(a[i]) * real_of(b[i]),
            4 as real,
            unit(p),
        ),
{
    lemma_taken_product(a[i], b[i], p, r);
}

proof fn lemma_taken_product(a: HpValue, b: HpValue, p: nat, r: int)
    requires
        room(p, r),
        ranged(a, p, r),
        ranged(b, p, r),
    ensures
        tight(a.at(p).times(b), p, 4 * reach(p, r), real_of(a) * real_of(b), 4 as real, unit(p)),
{
    let g = reach(p, r);
    let u = unit(p);
    lemma_fine_unit(p);
    lemma_precision_is_near(a, p, r, p);
    let d = u * size(real_of(a));
    assert((1 as real) * d == d);
    assert(tight(a.at(p), p, 2 * g, real_of(a), 1 as real, u));
    lemma_stands(b, p, g, u);
    lemma_tight_times(a.at(p), p, 2 * g, real_of(a), 1 as real, b, p, g, real_of(b), 0 as real, u, g);
}

/// A term of a row of a matrix applied to a vector.
pub proof fn law_applied_term_on_reals(
    m: Seq<HpValue>,
    v: Seq<HpValue>,
    row: int,
    column: int,
    p: nat,
    r: int,
)
    requires
        room(p, r),
        0 <= column < v.len(),
        ranged(m[row * v.len() + column], p, r),
        ranged(v[column], p, r),
    ensures
        tight(
            applied_terms(m, v, row, p)[column],
            p,
            4 * reach(p, r),
            real_of(m[row * v.len() + column]) * real_of(v[column]),
            4 as real,
            unit(p),
        ),
{
    lemma_taken_product(m[row * v.len() + column], v[column], p, r);
}

/// The depths of a gap: each is the negative of the logarithm it came with, within a unit of rounding,
/// and the logarithmic gap is the even depth less the odd one.
pub proof fn law_gap_depths_on_reals(
    even: SpectrumView,
    odd: SpectrumView,
    log_even: HpValue,
    log_odd: HpValue,
    log_difference: HpValue,
    p: nat,
    r: int,
)
    requires
        room(p, r),
        ranged(log_even, p, r),
        ranged(log_odd, p, r),
        ranged(log_difference, p, r),
    ensures
        gap(even, odd, log_even, log_odd, log_difference, p) matches Ok(g) ==> {
            &&& tight(g.d_even, p, 2 * reach(p, r), -real_of(log_even), 1 as real, unit(p))
            &&& tight(g.d_odd, p, 2 * reach(p, r), -real_of(log_odd), 1 as real, unit(p))
            &&& tight(
                g.difference_depth,
                p,
                2 * reach(p, r),
                -real_of(log_difference),
                1 as real,
                unit(p),
            )
            &&& within(
                real_of(g.gap_log),
                real_of(log_odd) - real_of(log_even),
                3 as real,
                size(real_of(log_odd)) + size(real_of(log_even)),
                unit(p),
            )
        },
{
    let k = reach(p, r);
    let u = unit(p);
    lemma_fine_unit(p);
    lemma_depth(log_even, p, r);
    lemma_depth(log_odd, p, r);
    lemma_depth(log_difference, p, r);
    lemma_stands_plus(
        log_even.negated().at(p),
        p,
        2 * k,
        -real_of(log_even),
        1 as real,
        size(-real_of(log_even)),
        log_odd.negated().at(p),
        p,
        -real_of(log_odd),
        1 as real,
        size(-real_of(log_odd)),
        u,
    );
}

proof fn lemma_depth(x: HpValue, p: nat, r: int)
    requires
        room(p, r),
        ranged(x, p, r),
    ensures
        tight(x.negated().at(p), p, 2 * reach(p, r), -real_of(x), 1 as real, unit(p)),
{
    lemma_negative(x);
    lemma_precision_is_near(x.negated(), p, r, p);
    let d = unit(p) * size(-real_of(x));
    assert((1 as real) * d == d);
}

/// The shift of a mode lies above every absolute row sum of the form, and is at least one half.
pub proof fn law_shift_lies_above_the_form(m: Seq<HpValue>, dim: nat, row: int, p: nat, r: int)
    requires
        room(p, r),
        0 <= row < dim,
        forall|i: int|
            0 <= i < dim ==> ranged(#[trigger] row_sums(m, dim as int, p)(i), p, r),
        ranged(largest(hp_int(p, 0), row_sums(m, dim as int, p), dim), p, r),
    ensures
        ({
            let worst = real_of(largest(hp_int(p, 0), row_sums(m, dim as int, p), dim));
            let shift = deflation_shift(m, dim as int, p);
            &&& tight(
                shift,
                p,
                4 * reach(p, r),
                worst * 10 as real + 1 as real,
                5 as real,
                unit(p),
            )
            &&& real_of(row_sums(m, dim as int, p)(row)) <= worst
            &&& real_of(row_sums(m, dim as int, p)(row)) < real_of(shift)
        }),
{
    let g = reach(p, r);
    let u = unit(p);
    lemma_fine_unit(p);
    lemma2_to64();
    law_largest_bounds_all(hp_int(p, 0), row_sums(m, dim as int, p), dim, row);
    let top = largest(hp_int(p, 0), row_sums(m, dim as int, p), dim);
    let w = real_of(top);
    lemma_stands(top, p, g, u);
    lemma_stands_word(10, u);
    lemma_stands_word(1, u);
    lemma_tight_times(top, p, g, w, 0 as real, hp_word(10), 64, g, 10 as real, 0 as real, u, g);
    lemma_tight_plus(
        top.times(hp_word(10)),
        p,
        3 * g,
        w * 10 as real,
        3 as real,
        hp_word(1),
        64,
        1 as real,
        0 as real,
        u,
        g,
    );
    let v = w * 10 as real + 1 as real;
    lemma_grows(65536 as real * u, 1 as real, v);
    assert((65536 as real * u) * v == 65536 as real * (u * v)) by (nonlinear_arith);
}

/// The first positive value is positive, is one of the values, and none before it is positive.
pub proof fn law_first_positive_comes_first(s: Seq<HpValue>, from: int)
    requires
        0 <= from <= s.len(),
        forall|i: int| 0 <= i < s.len() ==> (#[trigger] s[i]).wf() && s[i].is_finite(),
    ensures
        match first_positive(s, from) {
            Some(v) => real_of(v) > 0 as real && exists|i: int|
                from <= i < s.len() && v == #[trigger] s[i] && forall|j: int|
                    from <= j < i ==> real_of(#[trigger] s[j]) <= 0 as real,
            None => forall|j: int| from <= j < s.len() ==> real_of(#[trigger] s[j]) <= 0 as real,
        },
    decreases s.len() - from,
{
    if from < s.len() {
        assert(s[from].wf());
        law_order_is_that_of_numbers(hp_word(0), s[from]);
        if !hp_word(0).lt(s[from]) {
            law_first_positive_comes_first(s, from + 1);
            if let Some(v) = first_positive(s, from + 1) {
                let i = choose|i: int|
                    from + 1 <= i < s.len() && v == #[trigger] s[i] && forall|j: int|
                        from + 1 <= j < i ==> real_of(#[trigger] s[j]) <= 0 as real;
                assert(v == s[i]);
                assert forall|j: int| from <= j < i implies real_of(#[trigger] s[j])
                    <= 0 as real by {
                    if j == from {
                    }
                }
            }
        } else {
            assert(first_positive(s, from) == Some(s[from]));
        }
    }
}

/// Whether a root lies nearer to another seed is decided by the distances themselves, but for two
/// units of rounding of them.
pub proof fn law_nearer_seed_on_reals(
    value: HpValue,
    seeds: Seq<HpValue>,
    own: int,
    other: int,
    p: nat,
    r: int,
)
    requires
        room(p, r),
        own != other,
        ranged(value, p, r),
        ranged(seeds[own], p, r),
        ranged(seeds[other], p, r),
    ensures
        ({
            let a = size(real_of(value) - real_of(seeds[other]));
            let b = size(real_of(value) - real_of(seeds[own]));
            let e = unit(p) * (a + b);
            &&& a + e < b ==> lies_nearer(value, seeds, own, other)
            &&& lies_nearer(value, seeds, own, other) ==> a < b + e
        }),
{
    let g = reach(p, r);
    let u = unit(p);
    lemma_fine_unit(p);
    let x = value.minus(seeds[other]);
    let y = value.minus(seeds[own]);
    lemma_gap_is_near(value, seeds[other], p, p, r);
    lemma_gap_is_near(value, seeds[own], p, p, r);
    lemma_magnitude(x, p, 2 * g);
    lemma_magnitude(y, p, 2 * g);
    law_order_is_that_of_numbers(x.abs(), y.abs());
    let a = size(real_of(value) - real_of(seeds[other]));
    let b = size(real_of(value) - real_of(seeds[own]));
    assert(u * (a + b) == u * a + u * b) by (nonlinear_arith);
}

/// The digits that a correction is worth: all of the ceiling for no correction, none for one as large
/// as its point, and else the smaller of the ceiling and the negative logarithm.
pub proof fn law_digits_worth_on_reals(
    value: HpValue,
    correction: HpValue,
    log10_two: HpValue,
    log10_relative: HpValue,
    p: nat,
    r: int,
)
    requires
        room(p, r),
        p >= 65,
        p < 0x1_0000,
        ranged(relative(value, correction, p), p, r),
        ranged(log10_two, p, r),
        ranged(log10_relative, p, r),
    ensures
        ({
            let ceiling = real_of(digit_ceiling(log10_two, p));
            let d = real_of(digits_worth(value, correction, log10_two, log10_relative, p));
            let l = -real_of(log10_relative);
            let x = real_of(relative(value, correction, p));
            &&& tight(
                digit_ceiling(log10_two, p),
                p,
                3 * reach(p, r),
                real_of(log10_two) * ((p - 64) as real),
                3 as real,
                unit(p),
            )
            &&& correction.is_zero() ==> d == ceiling
            &&& !correction.is_zero() && x >= 1 as real ==> d == 0 as real
            &&& !correction.is_zero() && x < 1 as real && ceiling < l ==> d == ceiling
            &&& !correction.is_zero() && x < 1 as real && ceiling >= l ==> d == l
        }),
{
    let g = reach(p, r);
    let u = unit(p);
    lemma_fine_unit(p);
    lemma2_to64();
    lemma_stands(log10_two, p, g, u);
    lemma_stands_word(p - 64, u);
    lemma_tight_times(
        log10_two,
        p,
        g,
        real_of(log10_two),
        0 as real,
        hp_word(p - 64),
        64,
        g,
        (p - 64) as real,
        0 as real,
        u,
        g,
    );
    lemma_integer_is_near(64, 1, 16);
    law_order_is_that_of_numbers(hp_word(1), relative(value, correction, p));
    lemma_negative(log10_relative);
    law_order_is_that_of_numbers(digit_ceiling(log10_two, p), log10_relative.negated());
}

/// A term of a vector taken back to its own basis is the product of the two entries, within 3 units of
/// rounding.
pub proof fn law_transform_term_on_reals(
    q: Seq<HpValue>,
    v: Seq<HpValue>,
    dim: int,
    row: int,
    column: int,
    p: nat,
    r: int,
)
    requires
        room(p, r),
        0 <= column < dim,
        ranged(q[row * dim + column], p, r),
        ranged(v[column], p, r),
    ensures
        transform_terms(q, v, dim, row).len() == dim,
        tight(
            transform_terms(q, v, dim, row)[column],
            p,
            3 * reach(p, r),
            real_of(q[row * dim + column]) * real_of(v[column]),
            3 as real,
            unit(p),
        ),
{
    let g = reach(p, r);
    let u = unit(p);
    lemma_fine_unit(p);
    let a = q[row * dim + column];
    let b = v[column];
    lemma_stands(a, p, g, u);
    lemma_stands(b, p, g, u);
    lemma_tight_times(a, p, g, real_of(a), 0 as real, b, p, g, real_of(b), 0 as real, u, g);
}

/// An entry of a matrix applied to a vector adds up over all columns, and its terms are the products
/// of the entries, within 4 units of rounding.
pub proof fn law_applied_entry_on_reals(
    m: Seq<HpValue>,
    v: Seq<HpValue>,
    dim: nat,
    row: int,
    column: int,
    p: nat,
    r: int,
)
    requires
        room(p, r),
        countable(0 as real, dim, p, 4 * reach(p, r)),
        0 <= row < dim,
        0 <= column < dim,
        forall|j: int|
            0 <= j < dim ==> ranged(#[trigger] v[j], p, r) && ranged(m[row * dim + j], p, r),
    ensures
        tight(
            applied_products(m, v, dim as int, row, p)(column),
            p,
            4 * reach(p, r),
            real_of(m[row * dim + column]) * real_of(v[column]),
            4 as real,
            unit(p),
        ),
        adds_up(
            applied(m, v, dim as int, p)[row],
            applied_products(m, v, dim as int, row, p),
            dim,
            p,
        ),
{
    let f = applied_products(m, v, dim as int, row, p);
    assert forall|j: int| 0 <= j < dim implies ranged(#[trigger] f(j), p, 4 * reach(p, r)) && tight(
        f(j),
        p,
        4 * reach(p, r),
        real_of(m[row * dim + j]) * real_of(v[j]),
        4 as real,
        unit(p),
    ) by {
        assert(ranged(v[j], p, r));
        lemma_taken_product(m[row * dim + j], v[j], p, r);
    }
    assert(ranged(f(column), p, 4 * reach(p, r)));
    law_terms_add_up(f, dim, p, p, 4 * reach(p, r));
}

} // verus!
