//! What sums over nodes, poles, primes and rows stand for, and the terms of the secular function
//! and of a concentration matrix.

use crate::bounds::{lemma_grows, lemma_nonnegative};
use crate::closeness::{
    lemma_integer_is_near, lemma_stands, lemma_stands_mode, lemma_stands_plus, lemma_stands_times,
    lemma_stands_word, lemma_total_is_near, ranged, stands,
};
use crate::concentration::{
    band_argument, band_terms, deflation_terms, sinc, BandView, SINC_GUARD_PLACES,
};
use crate::float::HpFloat;
use crate::form_values::law_frequency_on_reals;
use crate::formulas::{lemma_tight_nonzero, lemma_tight_over, lemma_tight_times, reach, room, tight};
use crate::margins::{lemma_fine_unit, lemma_within_sum, within};
use crate::matrix::{accumulate, vals};
use crate::projection::total;
use crate::reals::{lemma_negative, near, real_of, size, unit};
use crate::refine::{correction, curve_terms, secular_curve, secular_slope, slope_terms, spacing_of};
use crate::config::RootSolver;
use crate::rounding::{hp_int, hp_word, magnitude, HpValue, EXPONENT_LIMIT};
use crate::secular::{pole, pole_distance, secular_sum, secular_terms};
use vstd::arithmetic::power2::*;
use vstd::prelude::*;

verus! {

/// Rounding adds two units, where the units so far stay below one.
pub proof fn lemma_rounded_once_more(z: real, x: real, y: real, c: real, s: real, u: real)
    requires
        near(z, x, u),
        within(x, y, c, s, u),
        u > 0 as real,
        c >= 0 as real,
        c * u <= 1 as real,
    ensures
        within(z, y, c + 2 as real, s, u),
{
    let t = u * s;
    lemma_nonnegative(u, s);
    lemma_grows(c * u, 1 as real, s);
    assert((c * u) * s == c * (u * s)) by (nonlinear_arith);
    lemma_grows(size(x), 2 as real * s, u);
    assert(u * (2 as real * s) == 2 as real * (u * s)) by (nonlinear_arith);
    assert((c + 2 as real) * t == c * t + 2 as real * t) by (nonlinear_arith);
}

/// The range that a sum of `n` terms keeps.
pub open spec fn sum_reach(p: nat, r: int, n: nat) -> int {
    r + n * (p + 2)
}

/// A sum of terms stands for the sum of what they stand for, with two units more for each term, at
/// the sum of their scales.
pub proof fn law_sum_on_reals(
    f: spec_fn(int) -> HpValue,
    y: spec_fn(int) -> real,
    s: spec_fn(int) -> real,
    c: real,
    n: nat,
    p: nat,
    q: nat,
    r: int,
)
    requires
        p >= 16,
        r >= 1,
        c >= 0 as real,
        (c + 2 as real * (n as int as real)) * unit(p) <= 1 as real,
        sum_reach(p, r, n) + 2 <= EXPONENT_LIMIT,
        forall|i: int|
            0 <= i < n ==> stands(#[trigger] f(i), q, r, y(i), c, s(i), unit(p)),
    ensures
        stands(
            accumulate(hp_int(p, 0), f, n),
            p,
            sum_reach(p, r, n),
            total(y, n),
            c + 2 as real * (n as int as real),
            total(s, n),
            unit(p),
        ),
    decreases n,
{
    let u = unit(p);
    lemma_fine_unit(p);
    if n == 0 {
        assert(u * (0 as real) == 0 as real) by (nonlinear_arith);
        assert((c + 2 as real * (0 as real)) * (0 as real) == 0 as real) by (nonlinear_arith);
    } else {
        let m = (n - 1) as nat;
        let k = m as int as real;
        assert((m as int + 1) * (p + 2) == m * (p + 2) + (p + 2)) by (nonlinear_arith);
        assert(m * (p + 2) >= 0) by (nonlinear_arith);
        lemma_grows(c + 2 as real * k, c + 2 as real * (k + 1 as real), u);
        law_sum_on_reals(f, y, s, c, m, p, q, r);
        let before = accumulate(hp_int(p, 0), f, m);
        let last = f(m as int);
        assert(stands(f(m as int), q, r, y(m as int), c, s(m as int), u));
        lemma_total_is_near(before, last, p, q, sum_reach(p, r, m));
        lemma_within_sum(
            real_of(before),
            total(y, m),
            c + 2 as real * k,
            total(s, m),
            real_of(last),
            y(m as int),
            c,
            s(m as int),
            u,
        );
        lemma_rounded_once_more(
            real_of(before.plus(last)),
            real_of(before) + real_of(last),
            total(y, n),
            c + 2 as real * k,
            total(s, n),
            u,
        );
    }
}

/// The distance to a pole is `z - spacing k`, within 6 units of rounding at the scale of the two.
pub proof fn law_pole_distance_on_reals(
    n: int,
    spacing: HpValue,
    z: HpValue,
    p: nat,
    r: int,
    i: int,
)
    requires
        room(p, r),
        ranged(spacing, p, r),
        ranged(z, p, r),
        magnitude(i - n) < pow2(64),
    ensures
        tight(
            pole(spacing, p, i - n),
            p,
            3 * reach(p, r),
            real_of(spacing) * ((i - n) as real),
            4 as real,
            unit(p),
        ),
        stands(
            pole_distance(n, spacing, z, p, i),
            p,
            4 * reach(p, r),
            real_of(z) - real_of(spacing) * ((i - n) as real),
            6 as real,
            size(real_of(z)) + size(real_of(spacing) * ((i - n) as real)),
            unit(p),
        ),
{
    let g = reach(p, r);
    let u = unit(p);
    let k = (i - n) as real;
    lemma_fine_unit(p);
    lemma_stands(spacing, p, g, u);
    lemma_stands(z, p, 3 * g, u);
    lemma_stands_mode(p, i - n);
    lemma_tight_times(
        spacing,
        p,
        g,
        real_of(spacing),
        0 as real,
        hp_int(p, i - n),
        p,
        g,
        k,
        1 as real,
        u,
        g,
    );
    lemma_stands_plus(
        z,
        p,
        3 * g,
        real_of(z),
        0 as real,
        size(real_of(z)),
        pole(spacing, p, i - n),
        p,
        real_of(spacing) * k,
        4 as real,
        size(real_of(spacing) * k),
        u,
    );
}

/// The terms of the secular function and its first two derivatives at a pole, where `d` is the
/// computed distance to it: `xi / d`, `-xi / d^2` and `2 xi / d^3`.
pub proof fn law_secular_terms_on_reals(
    xi: Seq<HpValue>,
    n: int,
    spacing: HpValue,
    z: HpValue,
    p: nat,
    r: int,
    i: int,
)
    requires
        room(p, r),
        ranged(xi[i], p, r),
        ranged(pole_distance(n, spacing, z, p, i), p, r),
        real_of(pole_distance(n, spacing, z, p, i)) != 0 as real,
    ensures
        ({
            let g = reach(p, r);
            let d = real_of(pole_distance(n, spacing, z, p, i));
            let x = real_of(xi[i]);
            &&& tight(secular_terms(xi, n, spacing, z, p)(i), p, 4 * g, x / d, 3 as real, unit(p))
            &&& tight(
                slope_terms(xi, n, spacing, z, p)(i),
                p,
                6 * g,
                -(x / (d * d)),
                6 as real,
                unit(p),
            )
            &&& tight(
                curve_terms(xi, n, spacing, z, p)(i),
                p,
                10 * g,
                (x / ((d * d) * d)) * 2 as real,
                12 as real,
                unit(p),
            )
        }),
{
    let g = reach(p, r);
    let u = unit(p);
    let t = pole_distance(n, spacing, z, p, i);
    let d = real_of(t);
    let x = real_of(xi[i]);
    lemma_fine_unit(p);
    lemma_stands(t, p, g, u);
    lemma_stands(xi[i], p, g, u);
    lemma_stands_word(2, u);
    lemma_tight_over(xi[i], p, g, x, 0 as real, t, p, g, d, 0 as real, u, g);
    lemma_tight_times(t, p, g, d, 0 as real, t, p, g, d, 0 as real, u, g);
    assert(d * d != 0 as real) by (nonlinear_arith)
        requires
            d != 0 as real,
    ;
    let dd = d * d;
    assert(dd * d != 0 as real) by (nonlinear_arith)
        requires
            d != 0 as real,
            dd != 0 as real,
    ;
    lemma_tight_over(xi[i], p, g, x, 0 as real, t.times(t), p, 3 * g, dd, 3 as real, u, g);
    lemma_negative(xi[i].over(t.times(t)));
    lemma_tight_times(t.times(t), p, 3 * g, dd, 3 as real, t, p, g, d, 0 as real, u, g);
    lemma_tight_over(
        xi[i],
        p,
        g,
        x,
        0 as real,
        t.times(t).times(t),
        p,
        5 * g,
        dd * d,
        6 as real,
        u,
        g,
    );
    lemma_tight_times(
        xi[i].over(t.times(t).times(t)),
        p,
        8 * g,
        x / (dd * d),
        9 as real,
        hp_word(2),
        64,
        g,
        2 as real,
        0 as real,
        u,
        g,
    );
}

/// The correction of a step, from the computed values `f`, `f'` and `f''`: Newton's is `f / f'`,
/// within 3 units of rounding. Halley's, times `2 f'^2 - f f''`, is `2 f f'`, within 33, where
/// `f f''` is no larger than `f'^2`.
pub proof fn law_correction_on_reals(
    xi: Seq<HpValue>,
    n: int,
    spacing: HpValue,
    z: HpValue,
    p: nat,
    r: int,
)
    requires
        room(p, r),
        ranged(secular_sum(xi, n, spacing, z, p), p, r),
        ranged(secular_slope(xi, n, spacing, z, p), p, r),
        ranged(secular_curve(xi, n, spacing, z, p), p, r),
        real_of(secular_slope(xi, n, spacing, z, p)) != 0 as real,
    ensures
        ({
            let f = real_of(secular_sum(xi, n, spacing, z, p));
            let a = real_of(secular_slope(xi, n, spacing, z, p));
            let b = real_of(secular_curve(xi, n, spacing, z, p));
            let newton = correction(RootSolver::Newton, xi, n, spacing, z, p);
            let halley = correction(RootSolver::Halley, xi, n, spacing, z, p);
            &&& newton matches Some(c) && tight(c, p, 4 * reach(p, r), f / a, 3 as real, unit(p))
            &&& size(f * b) <= a * a ==> (halley matches Some(c) && within(
                real_of(c) * ((a * a) * 2 as real - f * b),
                (f * a) * 2 as real,
                33 as real,
                size((f * a) * 2 as real),
                unit(p),
            ))
        }),
{
    let g = reach(p, r);
    let u = unit(p);
    let fv = secular_sum(xi, n, spacing, z, p);
    let av = secular_slope(xi, n, spacing, z, p);
    let bv = secular_curve(xi, n, spacing, z, p);
    let f = real_of(fv);
    let a = real_of(av);
    let b = real_of(bv);
    lemma_fine_unit(p);
    lemma_stands(fv, p, g, u);
    lemma_stands(av, p, g, u);
    lemma_stands(bv, p, g, u);
    lemma_stands_word(2, u);
    lemma_tight_nonzero(av, p, g, a, 0 as real, u);
    lemma_tight_over(fv, p, g, f, 0 as real, av, p, g, a, 0 as real, u, g);
    if size(f * b) <= a * a {
        let square = av.times(av).times(hp_word(2));
        let cross = fv.times(bv);
        let below = square.minus(cross);
        lemma_tight_times(av, p, g, a, 0 as real, av, p, g, a, 0 as real, u, g);
        lemma_tight_times(av.times(av), p, 3 * g, a * a, 3 as real, hp_word(2), 64, g, 2 as real, 0 as real, u, g);
        lemma_tight_times(fv, p, g, f, 0 as real, bv, p, g, b, 0 as real, u, g);
        let aa = a * a;
        assert(aa > 0 as real) by (nonlinear_arith)
            requires
                aa == a * a,
                a != 0 as real,
        ;
        lemma_stands_plus(
            square,
            p,
            5 * g,
            aa * 2 as real,
            6 as real,
            size(aa * 2 as real),
            cross,
            p,
            f * b,
            3 as real,
            size(f * b),
            u,
        );
        let w = aa * 2 as real - f * b;
        // The two terms together are at most three times their difference.
        let k = size(aa * 2 as real) + size(f * b);
        assert(k <= 3 as real * w);
        lemma_grows(k, 3 as real * w, u);
        assert(u * (3 as real * w) == 3 as real * (u * w)) by (nonlinear_arith);
        assert(tight(below, p, 6 * g, w, 24 as real, u));
        lemma_tight_nonzero(below, p, 6 * g, w, 24 as real, u);
        lemma_tight_times(fv, p, g, f, 0 as real, av, p, g, a, 0 as real, u, g);
        lemma_tight_times(fv.times(av), p, 3 * g, f * a, 3 as real, hp_word(2), 64, g, 2 as real, 0 as real, u, g);
        crate::closeness::lemma_stands_over(
            fv.times(av).times(hp_word(2)),
            p,
            5 * g,
            (f * a) * 2 as real,
            6 as real,
            size((f * a) * 2 as real),
            below,
            p,
            6 * g,
            w,
            24 as real,
            u,
        );
    }
}

/// The distance between neighbouring poles is `2 pi / l`, within 6 units of rounding.
pub proof fn law_spacing_on_reals(pi: HpValue, l: HpValue, p: nat, r: int)
    requires
        room(p, r),
        ranged(pi, p, r),
        ranged(l, p, r),
        real_of(l) != 0 as real,
    ensures
        tight(
            spacing_of(pi, l),
            p,
            6 * reach(p, r),
            (real_of(pi) * 2 as real) / real_of(l),
            6 as real,
            unit(p),
        ),
{
    let g = reach(p, r);
    let u = unit(p);
    lemma_fine_unit(p);
    lemma_stands(pi, p, g, u);
    lemma_stands(l, p, g, u);
    lemma_stands_word(2, u);
    lemma_tight_times(pi, p, g, real_of(pi), 0 as real, hp_word(2), 64, g, 2 as real, 0 as real, u, g);
    lemma_tight_over(
        pi.times(hp_word(2)),
        p,
        3 * g,
        real_of(pi) * 2 as real,
        3 as real,
        l,
        p,
        g,
        real_of(l),
        0 as real,
        u,
        g,
    );
}

/// The argument of a cardinal sine is `(2 pi n / l - node omega) l / 2`, within 18 units of rounding
/// at the scale of its two terms.
pub proof fn law_band_argument_on_reals(
    pi: HpValue,
    l: HpValue,
    omega: HpValue,
    node: HpValue,
    mode: int,
    p: nat,
    r: int,
)
    requires
        room(p, r),
        ranged(pi, p, r),
        ranged(l, p, r),
        ranged(omega, p, r),
        ranged(node, p, r),
        real_of(l) != 0 as real,
        magnitude(mode) < pow2(64),
    ensures
        ({
            let f = ((real_of(pi) * 2 as real) * (mode as real)) / real_of(l);
            let t = real_of(node) * real_of(omega);
            let half = real_of(l) / 2 as real;
            within(
                real_of(band_argument(pi, l, omega, node, mode, p)),
                (f - t) * half,
                18 as real,
                (size(f) + size(t)) * size(half),
                unit(p),
            )
        }),
{
    let g = reach(p, r);
    let u = unit(p);
    let f = ((real_of(pi) * 2 as real) * (mode as real)) / real_of(l);
    let t = real_of(node) * real_of(omega);
    let half = real_of(l) / 2 as real;
    lemma_fine_unit(p);
    law_frequency_on_reals(pi, l, mode, p, r);
    lemma_stands(node, p, g, u);
    lemma_stands(omega, p, g, u);
    lemma_stands(l, p, g, u);
    lemma_stands_word(2, u);
    lemma_tight_times(
        node,
        p,
        g,
        real_of(node),
        0 as real,
        omega,
        p,
        g,
        real_of(omega),
        0 as real,
        u,
        g,
    );
    let fv = crate::assembly::mode_frequency(pi, l, mode, p);
    lemma_stands_plus(
        fv,
        p,
        8 * g,
        f,
        10 as real,
        size(f),
        node.times(omega),
        p,
        t,
        3 as real,
        size(t),
        u,
    );
    lemma_tight_over(l, p, g, real_of(l), 0 as real, hp_word(2), 64, g, 2 as real, 0 as real, u, g);
    lemma_stands_times(
        fv.minus(node.times(omega)),
        p,
        9 * g,
        f - t,
        12 as real,
        size(f) + size(t),
        l.over(hp_word(2)),
        p,
        4 * g,
        half,
        3 as real,
        size(half),
        u,
    );
}

/// The cardinal sine is the sine over its argument, within 3 units of rounding, and one where the
/// argument is below the guard.
pub proof fn law_cardinal_sine_on_reals(t: HpValue, sine: HpValue, p: nat, r: int)
    requires
        room(p, r),
        ranged(t, p, r),
        ranged(sine, p, r),
        real_of(t) != 0 as real,
    ensures
        tight(
            sinc(t, sine, p),
            p,
            4 * reach(p, r),
            real_of(sine) / real_of(t),
            3 as real,
            unit(p),
        ) || (real_of(sinc(t, sine, p)) == 1 as real && t.lt_abs(
            crate::decimal::hp_decimal(
                p,
                crate::decimal::DecimalValue {
                    neg: false,
                    digits: 1,
                    exponent: -(SINC_GUARD_PLACES as int),
                },
            ),
        )),
{
    let g = reach(p, r);
    let u = unit(p);
    lemma_fine_unit(p);
    lemma2_to64();
    lemma_integer_is_near(p, 1, 16);
    lemma_stands(t, p, g, u);
    lemma_stands(sine, p, g, u);
    lemma_tight_over(sine, p, g, real_of(sine), 0 as real, t, p, g, real_of(t), 0 as real, u, g);
}

/// A node's contribution to an entry of the concentration matrix is its weight times the two
/// cardinal sines, within 6 units of rounding.
pub proof fn law_band_term_on_reals(b: BandView, low: int, high: int, q: int, p: nat, r: int)
    requires
        room(p, r),
        ranged(b.weights[q], p, r),
        ranged(b.sincs[q][low], p, r),
        ranged(b.sincs[q][high], p, r),
    ensures
        tight(
            band_terms(b, low, high)(q),
            p,
            5 * reach(p, r),
            (real_of(b.sincs[q][low]) * real_of(b.weights[q])) * real_of(b.sincs[q][high]),
            6 as real,
            unit(p),
        ),
{
    let g = reach(p, r);
    let u = unit(p);
    let x = real_of(b.sincs[q][low]);
    let w = real_of(b.weights[q]);
    let y = real_of(b.sincs[q][high]);
    lemma_fine_unit(p);
    lemma_stands(b.sincs[q][low], p, g, u);
    lemma_stands(b.weights[q], p, g, u);
    lemma_stands(b.sincs[q][high], p, g, u);
    lemma_tight_times(b.sincs[q][low], p, g, x, 0 as real, b.weights[q], p, g, w, 0 as real, u, g);
    lemma_tight_times(
        b.sincs[q][low].times(b.weights[q]),
        p,
        3 * g,
        x * w,
        3 as real,
        b.sincs[q][high],
        p,
        g,
        y,
        0 as real,
        u,
        g,
    );
}

/// A shifted mode adds the shift times the product of its two entries, within 6 units of rounding.
pub proof fn law_deflation_term_on_reals(
    v: Seq<Vec<HpFloat>>,
    sigma: HpValue,
    row: int,
    column: int,
    k: int,
    p: nat,
    r: int,
)
    requires
        room(p, r),
        ranged(vals(v[k]@)[row], p, r),
        ranged(vals(v[k]@)[column], p, r),
        ranged(sigma, p, r),
    ensures
        tight(
            deflation_terms(v, sigma, row, column)(k),
            p,
            5 * reach(p, r),
            (real_of(vals(v[k]@)[row]) * real_of(sigma)) * real_of(vals(v[k]@)[column]),
            6 as real,
            unit(p),
        ),
{
    let g = reach(p, r);
    let u = unit(p);
    let a = vals(v[k]@)[row];
    let b = vals(v[k]@)[column];
    lemma_fine_unit(p);
    lemma_stands(a, p, g, u);
    lemma_stands(b, p, g, u);
    lemma_stands(sigma, p, g, u);
    lemma_tight_times(a, p, g, real_of(a), 0 as real, sigma, p, g, real_of(sigma), 0 as real, u, g);
    lemma_tight_times(
        a.times(sigma),
        p,
        3 * g,
        real_of(a) * real_of(sigma),
        3 as real,
        b,
        p,
        g,
        real_of(b),
        0 as real,
        u,
        g,
    );
}

} // verus!
