//! What the terms and entries of the archimedean and the prime component, and of the form, stand
//! for on exact real numbers.

use crate::assembly::{
    alpha_terms, alpha_value, archimedean_cell, beta_terms, beta_value, combined_form, gamma_terms,
    gamma_value, kappa_product, mapped_node, mode_frequency, phases, prime_term, rho, signed_entry,
    singularity_guard, full_size, IntegralsView, KernelView, NodeView,
};
use crate::closeness::{
    lemma_gap_is_near, lemma_integer_is_near, lemma_precision_is_near, lemma_stands,
    lemma_stands_mode, lemma_stands_over, lemma_stands_plus, lemma_stands_times, lemma_stands_word,
    lemma_total_is_near, ranged, stands,
};
use crate::formulas::{lemma_tight_over, lemma_tight_times, reach, room, tight};
use crate::limbs::lemma_pow2_64;
use crate::margins::{lemma_fine_unit, within};
use crate::matrix::accumulate;
use crate::reals::{lemma_negative, real_of, size, unit};
use crate::rounding::{hp_int, hp_word, magnitude, HpValue, EXPONENT_LIMIT};
use vstd::arithmetic::power2::*;
use vstd::prelude::*;

verus! {

/// A difference of two values stands for the difference of their numbers, within a unit.
pub proof fn lemma_tight_gap(x: HpValue, y: HpValue, p: nat, q: nat, r: int)
    requires
        ranged(x, p, r),
        ranged(y, q, r),
        r + 2 <= EXPONENT_LIMIT,
    ensures
        tight(x.minus(y), p, r + p + 2, real_of(x) - real_of(y), 1 as real, unit(p)),
        tight(x.plus(y), p, r + p + 2, real_of(x) + real_of(y), 1 as real, unit(p)),
{
    lemma_gap_is_near(x, y, p, q, r);
    lemma_total_is_near(x, y, p, q, r);
    let a = unit(p) * size(real_of(x) - real_of(y));
    let b = unit(p) * size(real_of(x) + real_of(y));
    assert((1 as real) * a == a);
    assert((1 as real) * b == b);
}

/// The frequency of a mode is `2 pi n / l`, within 10 units of rounding.
pub proof fn law_frequency_on_reals(pi: HpValue, l: HpValue, n: int, p: nat, r: int)
    requires
        room(p, r),
        ranged(pi, p, r),
        ranged(l, p, r),
        real_of(l) != 0 as real,
        magnitude(n) < pow2(64),
    ensures
        tight(
            mode_frequency(pi, l, n, p),
            p,
            8 * reach(p, r),
            ((real_of(pi) * 2 as real) * (n as real)) / real_of(l),
            10 as real,
            unit(p),
        ),
{
    let g = reach(p, r);
    let u = unit(p);
    let pr = real_of(pi);
    lemma_fine_unit(p);
    lemma_stands(pi, p, g, u);
    lemma_stands(l, p, g, u);
    lemma_stands_word(2, u);
    lemma_stands_mode(p, n);
    let twice = pi.times(hp_word(2));
    let many = twice.times(hp_int(p, n));
    lemma_tight_times(pi, p, g, pr, 0 as real, hp_word(2), 64, g, 2 as real, 0 as real, u, g);
    lemma_tight_times(
        twice,
        p,
        3 * g,
        pr * 2 as real,
        3 as real,
        hp_int(p, n),
        p,
        g,
        n as real,
        1 as real,
        u,
        g,
    );
    lemma_tight_over(
        many,
        p,
        5 * g,
        (pr * 2 as real) * (n as real),
        7 as real,
        l,
        p,
        g,
        real_of(l),
        0 as real,
        u,
        g,
    );
}

/// The phase of a mode for a prime power is its frequency times the logarithm of the power.
pub proof fn law_phase_on_reals(
    pi: HpValue,
    l: HpValue,
    log_power: HpValue,
    n_modes: int,
    i: int,
    p: nat,
    r: int,
)
    requires
        room(p, r),
        ranged(pi, p, r),
        ranged(l, p, r),
        ranged(log_power, p, r),
        real_of(l) != 0 as real,
        0 <= i < full_size(n_modes),
        n_modes < pow2(64),
    ensures
        tight(
            phases(pi, l, log_power, n_modes, p)[i],
            p,
            10 * reach(p, r),
            (((real_of(pi) * 2 as real) * ((i - n_modes) as real)) / real_of(l)) * real_of(
                log_power,
            ),
            13 as real,
            unit(p),
        ),
{
    let g = reach(p, r);
    let u = unit(p);
    lemma_fine_unit(p);
    law_frequency_on_reals(pi, l, i - n_modes, p, r);
    lemma_stands(log_power, p, g, u);
    lemma_tight_times(
        mode_frequency(pi, l, i - n_modes, p),
        p,
        8 * g,
        ((real_of(pi) * 2 as real) * ((i - n_modes) as real)) / real_of(l),
        10 as real,
        log_power,
        p,
        g,
        real_of(log_power),
        0 as real,
        u,
        g,
    );
}

/// A node taken to `[0, l]` is `(node + 1) l / 2`, within 4 units of rounding.
pub proof fn law_mapped_node_on_reals(node: HpValue, half_l: HpValue, p: nat, r: int)
    requires
        room(p, r),
        ranged(node, p, r),
        ranged(half_l, p, r),
    ensures
        tight(
            mapped_node(node, half_l),
            p,
            4 * reach(p, r),
            (real_of(node) + 1 as real) * real_of(half_l),
            4 as real,
            unit(p),
        ),
{
    let g = reach(p, r);
    let u = unit(p);
    lemma_fine_unit(p);
    lemma_pow2_64();
    lemma2_to64();
    lemma_integer_is_near(64, 1, 16);
    lemma_tight_gap(node, hp_word(1), p, 64, g);
    lemma_stands(half_l, p, g, u);
    lemma_tight_times(
        node.plus(hp_word(1)),
        p,
        2 * g,
        real_of(node) + 1 as real,
        1 as real,
        half_l,
        p,
        g,
        real_of(half_l),
        0 as real,
        u,
        g,
    );
}

/// Away from zero the kernel is `exp(x/2) / (2 sinh x)`, within 6 units of rounding; close to zero
/// it is `1 / (2 x) + 1 / 4`, within 8 units at the scale of the two terms.
pub proof fn law_kernel_on_reals(x: HpValue, exp_half: HpValue, sinh: HpValue, p: nat, r: int)
    requires
        room(p, r),
        ranged(x, p, r),
        ranged(exp_half, p, r),
        ranged(sinh, p, r),
        real_of(x) != 0 as real,
        real_of(sinh) != 0 as real,
    ensures
        !x.lt_abs(singularity_guard(p)) ==> tight(
            rho(x, exp_half, sinh, p),
            p,
            6 * reach(p, r),
            real_of(exp_half) / (real_of(sinh) * 2 as real),
            6 as real,
            unit(p),
        ),
        x.lt_abs(singularity_guard(p)) ==> stands(
            rho(x, exp_half, sinh, p),
            p,
            8 * reach(p, r),
            ((1 as real) / real_of(x)) / 2 as real + (1 as real) / 4 as real,
            8 as real,
            size(((1 as real) / real_of(x)) / 2 as real) + (1 as real) / 4 as real,
            unit(p),
        ),
{
    let g = reach(p, r);
    let u = unit(p);
    lemma_fine_unit(p);
    lemma_stands(x, p, g, u);
    lemma_stands(exp_half, p, g, u);
    lemma_stands(sinh, p, g, u);
    lemma_stands_word(2, u);
    lemma_stands_word(4, u);
    let sr = real_of(sinh);
    if x.lt_abs(singularity_guard(p)) {
        lemma2_to64();
        lemma_integer_is_near(p, 1, 16);
        lemma_stands(hp_int(p, 1), p, g, u);
        let one = hp_int(p, 1);
        let v = (1 as real) / real_of(x);
        lemma_tight_over(one, p, g, 1 as real, 0 as real, x, p, g, real_of(x), 0 as real, u, g);
        lemma_tight_over(one.over(x), p, 4 * g, v, 3 as real, hp_word(2), 64, g, 2 as real, 0 as real, u, g);
        lemma_tight_over(one, p, g, 1 as real, 0 as real, hp_word(4), 64, g, 4 as real, 0 as real, u, g);
        lemma_stands_plus(
            one.over(x).over(hp_word(2)),
            p,
            7 * g,
            v / 2 as real,
            6 as real,
            size(v / 2 as real),
            one.over(hp_word(4)),
            p,
            (1 as real) / 4 as real,
            3 as real,
            (1 as real) / 4 as real,
            u,
        );
    } else {
        lemma_tight_times(sinh, p, g, sr, 0 as real, hp_word(2), 64, g, 2 as real, 0 as real, u, g);
        lemma_tight_over(
            exp_half,
            p,
            g,
            real_of(exp_half),
            0 as real,
            sinh.times(hp_word(2)),
            p,
            3 * g,
            sr * 2 as real,
            3 as real,
            u,
            g,
        );
    }
}

/// The values that one node contributes.
pub open spec fn node_ranged(t: NodeView, p: nat, r: int) -> bool {
    &&& ranged(t.x, p, r)
    &&& ranged(t.weight, p, r)
    &&& ranged(t.sine, p, r)
    &&& ranged(t.cosine, p, r)
    &&& ranged(t.exp_negative_half, p, r)
    &&& ranged(t.kernel(p), p, r)
}

/// The terms of the three integrals at a node: weight times sine times kernel, weight times
/// position times cosine times kernel, and weight times `cos - exp(-x/2)` times kernel.
pub proof fn law_integral_terms_on_reals(s: Seq<NodeView>, q: int, p: nat, r: int)
    requires
        room(p, r),
        0 <= q < s.len(),
        node_ranged(s[q], p, r),
    ensures
        ({
            let t = s[q];
            let w = real_of(t.weight);
            let k = real_of(t.kernel(p));
            let g = reach(p, r);
            &&& tight(alpha_terms(s, p)(q), p, 5 * g, w * (real_of(t.sine) * k), 6 as real, unit(p))
            &&& tight(
                beta_terms(s, p)(q),
                p,
                7 * g,
                w * ((real_of(t.x) * real_of(t.cosine)) * k),
                9 as real,
                unit(p),
            )
            &&& tight(
                gamma_terms(s, p)(q),
                p,
                6 * g,
                w * ((real_of(t.cosine) - real_of(t.exp_negative_half)) * k),
                7 as real,
                unit(p),
            )
        }),
{
    let g = reach(p, r);
    let u = unit(p);
    let t = s[q];
    let kernel = t.kernel(p);
    let k = real_of(kernel);
    let w = real_of(t.weight);
    lemma_fine_unit(p);
    lemma_stands(t.x, p, g, u);
    lemma_stands(t.weight, p, g, u);
    lemma_stands(t.sine, p, g, u);
    lemma_stands(t.cosine, p, g, u);
    lemma_stands(kernel, p, g, u);
    lemma_tight_times(t.sine, p, g, real_of(t.sine), 0 as real, kernel, p, g, k, 0 as real, u, g);
    lemma_tight_times(
        t.weight,
        p,
        g,
        w,
        0 as real,
        t.sine.times(kernel),
        p,
        3 * g,
        real_of(t.sine) * k,
        3 as real,
        u,
        g,
    );
    let m = real_of(t.x) * real_of(t.cosine);
    lemma_tight_times(
        t.x,
        p,
        g,
        real_of(t.x),
        0 as real,
        t.cosine,
        p,
        g,
        real_of(t.cosine),
        0 as real,
        u,
        g,
    );
    lemma_tight_times(t.x.times(t.cosine), p, 3 * g, m, 3 as real, kernel, p, g, k, 0 as real, u, g);
    lemma_tight_times(
        t.weight,
        p,
        g,
        w,
        0 as real,
        t.x.times(t.cosine).times(kernel),
        p,
        5 * g,
        m * k,
        6 as real,
        u,
        g,
    );
    let d = real_of(t.cosine) - real_of(t.exp_negative_half);
    let gap = t.cosine.minus(t.exp_negative_half);
    lemma_tight_gap(t.cosine, t.exp_negative_half, p, p, r);
    lemma_tight_times(gap, p, 2 * g, d, 1 as real, kernel, p, g, k, 0 as real, u, g);
    lemma_tight_times(
        t.weight,
        p,
        g,
        w,
        0 as real,
        gap.times(kernel),
        p,
        4 * g,
        d * k,
        4 as real,
        u,
        g,
    );
}

/// The three integrals of a mode, from the sums over their nodes: `(l / 2) sum / pi`,
/// `(l / 2) sum / l`, and `(l / 2) sum` with the constant added.
pub proof fn law_integrals_on_reals(
    s: Seq<NodeView>,
    n: int,
    pi: HpValue,
    l: HpValue,
    kappa_half: HpValue,
    p: nat,
    r: int,
)
    requires
        room(p, r),
        ranged(pi, p, r),
        ranged(l, p, r),
        ranged(kappa_half, p, r),
        real_of(pi) != 0 as real,
        real_of(l) != 0 as real,
        ranged(accumulate(hp_int(p, 0), alpha_terms(s, p), s.len()), p, r),
        ranged(accumulate(hp_int(p, 0), beta_terms(s, p), s.len()), p, r),
        ranged(accumulate(hp_int(p, 0), gamma_terms(s, p), s.len()), p, r),
    ensures
        ({
            let g = reach(p, r);
            let half = real_of(l) / 2 as real;
            let a = real_of(accumulate(hp_int(p, 0), alpha_terms(s, p), s.len()));
            let b = real_of(accumulate(hp_int(p, 0), beta_terms(s, p), s.len()));
            let c = real_of(accumulate(hp_int(p, 0), gamma_terms(s, p), s.len()));
            &&& n != 0 ==> tight(
                alpha_value(s, n, pi, l, p),
                p,
                9 * g,
                (a * half) / real_of(pi),
                9 as real,
                unit(p),
            )
            &&& n == 0 ==> real_of(alpha_value(s, n, pi, l, p)) == 0 as real
            &&& tight(beta_value(s, l, p), p, 9 * g, (b * half) / real_of(l), 9 as real, unit(p))
            &&& stands(
                gamma_value(s, l, kappa_half, p),
                p,
                7 * g,
                c * half + real_of(kappa_half),
                8 as real,
                size(c * half) + size(real_of(kappa_half)),
                unit(p),
            )
        }),
{
    let g = reach(p, r);
    let u = unit(p);
    let lr = real_of(l);
    let hr = lr / 2 as real;
    lemma_fine_unit(p);
    lemma_stands(pi, p, g, u);
    lemma_stands(l, p, g, u);
    lemma_stands(kappa_half, p, 6 * g, u);
    lemma_stands_word(2, u);
    let half = l.over(hp_word(2));
    lemma_tight_over(l, p, g, lr, 0 as real, hp_word(2), 64, g, 2 as real, 0 as real, u, g);
    let a = accumulate(hp_int(p, 0), alpha_terms(s, p), s.len());
    let b = accumulate(hp_int(p, 0), beta_terms(s, p), s.len());
    let c = accumulate(hp_int(p, 0), gamma_terms(s, p), s.len());
    lemma_stands(a, p, g, u);
    lemma_stands(b, p, g, u);
    lemma_stands(c, p, g, u);
    lemma_tight_times(a, p, g, real_of(a), 0 as real, half, p, 4 * g, hr, 3 as real, u, g);
    lemma_tight_times(b, p, g, real_of(b), 0 as real, half, p, 4 * g, hr, 3 as real, u, g);
    lemma_tight_times(c, p, g, real_of(c), 0 as real, half, p, 4 * g, hr, 3 as real, u, g);
    lemma_tight_over(
        a.times(half),
        p,
        6 * g,
        real_of(a) * hr,
        6 as real,
        pi,
        p,
        g,
        real_of(pi),
        0 as real,
        u,
        g,
    );
    lemma_tight_over(b.times(half), p, 6 * g, real_of(b) * hr, 6 as real, l, p, g, lr, 0 as real, u, g);
    lemma_stands_plus(
        c.times(half),
        p,
        6 * g,
        real_of(c) * hr,
        6 as real,
        size(real_of(c) * hr),
        kappa_half,
        p,
        real_of(kappa_half),
        0 as real,
        size(real_of(kappa_half)),
        u,
    );
    if n == 0 {
        reveal(crate::rounding::mul_class);
        reveal(crate::rounding::div_class);
    }
}

/// The argument of the logarithm is `(exp l - 1) / (exp l + 1)` times `4 pi`, within 11 units of
/// rounding.
pub proof fn law_kappa_argument_on_reals(exp_l: HpValue, pi: HpValue, p: nat, r: int)
    requires
        room(p, r),
        ranged(exp_l, p, r),
        ranged(pi, p, r),
        real_of(exp_l) + 1 as real != 0 as real,
    ensures
        tight(
            kappa_product(exp_l, pi),
            p,
            10 * reach(p, r),
            ((real_of(exp_l) - 1 as real) / (real_of(exp_l) + 1 as real)) * (real_of(pi)
                * 4 as real),
            11 as real,
            unit(p),
        ),
{
    let g = reach(p, r);
    let u = unit(p);
    let x = real_of(exp_l);
    lemma_fine_unit(p);
    lemma2_to64();
    lemma_integer_is_near(64, 1, 16);
    lemma_tight_gap(exp_l, hp_word(1), p, 64, g);
    lemma_stands(pi, p, g, u);
    lemma_stands_word(4, u);
    let less = exp_l.minus(hp_word(1));
    let more = exp_l.plus(hp_word(1));
    lemma_tight_over(
        less,
        p,
        2 * g,
        x - 1 as real,
        1 as real,
        more,
        p,
        2 * g,
        x + 1 as real,
        1 as real,
        u,
        g,
    );
    lemma_tight_times(pi, p, g, real_of(pi), 0 as real, hp_word(4), 64, g, 4 as real, 0 as real, u, g);
    lemma_tight_times(
        less.over(more),
        p,
        6 * g,
        (x - 1 as real) / (x + 1 as real),
        5 as real,
        pi.times(hp_word(4)),
        p,
        3 * g,
        real_of(pi) * 4 as real,
        3 as real,
        u,
        g,
    );
}

/// The sine integral of a mode and that of its negative are opposite numbers.
pub proof fn law_sine_integral_is_odd(table: Seq<HpValue>, n: int, p: nat)
    requires
        table.len() > 0,
        real_of(table[0]) == 0 as real,
    ensures
        real_of(signed_entry(table, -n, p)) == -real_of(signed_entry(table, n, p)),
        0 <= n < table.len() ==> signed_entry(table, n, p) == table[n],
{
    if 0 <= n < table.len() {
        lemma_negative(table[n]);
    }
    if 0 < -n < table.len() {
        lemma_negative(table[-n]);
    }
}

/// What an entry of the archimedean component is: `2 (gamma - beta)` on the diagonal, within 4 units
/// of rounding, and `(alpha_m - alpha_n) / (n - m)` off it, within 5.
pub proof fn law_archimedean_entry_on_reals(t: IntegralsView, n: int, m: int, p: nat, r: int)
    requires
        room(p, r),
        magnitude(n) < 0x1_0000_0000_0000,
        magnitude(m) < 0x1_0000_0000_0000,
        n == m ==> ranged(t.gamma[crate::assembly::magnitude(n)], p, r) && ranged(
            t.beta[crate::assembly::magnitude(n)],
            p,
            r,
        ),
        ranged(signed_entry(t.alpha, m, p), p, r),
        ranged(signed_entry(t.alpha, n, p), p, r),
    ensures
        ({
            let k = crate::assembly::magnitude(n);
            let a = real_of(signed_entry(t.alpha, m, p));
            let b = real_of(signed_entry(t.alpha, n, p));
            &&& n == m ==> tight(
                archimedean_cell(t, n, m, p),
                p,
                4 * reach(p, r),
                (real_of(t.gamma[k]) - real_of(t.beta[k])) * 2 as real,
                4 as real,
                unit(p),
            )
            &&& n != m ==> tight(
                archimedean_cell(t, n, m, p),
                p,
                5 * reach(p, r),
                (a - b) / ((n - m) as real),
                5 as real,
                unit(p),
            )
        }),
{
    let g = reach(p, r);
    let u = unit(p);
    lemma_fine_unit(p);
    lemma2_to64();
    if n == m {
        let k = crate::assembly::magnitude(n);
        lemma_tight_gap(t.gamma[k], t.beta[k], p, p, r);
        lemma_stands_word(2, u);
        lemma_tight_times(
            t.gamma[k].minus(t.beta[k]),
            p,
            2 * g,
            real_of(t.gamma[k]) - real_of(t.beta[k]),
            1 as real,
            hp_word(2),
            64,
            g,
            2 as real,
            0 as real,
            u,
            g,
        );
    } else {
        let a = signed_entry(t.alpha, m, p);
        let b = signed_entry(t.alpha, n, p);
        lemma_tight_gap(a, b, p, p, r);
        lemma_stands_mode(p, n - m);
        lemma_tight_over(
            a.minus(b),
            p,
            2 * g,
            real_of(a) - real_of(b),
            1 as real,
            hp_int(p, n - m),
            p,
            g,
            (n - m) as real,
            1 as real,
            u,
            g,
        );
    }
}

/// The values of a prime power that an entry needs.
pub open spec fn kernel_ranged(t: KernelView, row: int, column: int, p: nat, r: int) -> bool {
    &&& ranged(t.log_power, p, r)
    &&& ranged(t.log_prime, p, r)
    &&& ranged(t.sqrt_power, p, r)
    &&& real_of(t.sqrt_power) != 0 as real
    &&& ranged(t.cosines[row], p, r)
    &&& ranged(t.sines[row], p, r)
    &&& ranged(t.sines[column], p, r)
}

/// What a prime power contributes off the diagonal: `(sin_c - sin_r) / (pi (r - c))` times its
/// prime's logarithm over its root, within 14 units of rounding.
pub proof fn law_prime_term_off_diagonal(
    t: KernelView,
    pi: HpValue,
    l: HpValue,
    row: int,
    column: int,
    p: nat,
    r: int,
)
    requires
        room(p, r),
        kernel_ranged(t, row, column, p, r),
        ranged(pi, p, r),
        real_of(pi) != 0 as real,
        row != column,
        magnitude(row - column) < pow2(64),
    ensures
        tight(
            prime_term(t, pi, l, row, column, p),
            p,
            12 * reach(p, r),
            (((real_of(t.sines[column]) - real_of(t.sines[row])) / (real_of(pi) * ((row
                - column) as real))) * real_of(t.log_prime)) / real_of(t.sqrt_power),
            14 as real,
            unit(p),
        ),
{
    let g = reach(p, r);
    let u = unit(p);
    let k = (row - column) as real;
    let pr = real_of(pi);
    let d = real_of(t.sines[column]) - real_of(t.sines[row]);
    lemma_fine_unit(p);
    lemma_stands(pi, p, g, u);
    lemma_stands(t.log_prime, p, g, u);
    lemma_stands(t.sqrt_power, p, g, u);
    lemma_stands_mode(p, row - column);
    lemma_tight_gap(t.sines[column], t.sines[row], p, p, r);
    let gap = t.sines[column].minus(t.sines[row]);
    let below = pi.times(hp_int(p, row - column));
    lemma_tight_times(pi, p, g, pr, 0 as real, hp_int(p, row - column), p, g, k, 1 as real, u, g);
    assert(pr * k != 0 as real) by (nonlinear_arith)
        requires
            pr != 0 as real,
            k != 0 as real,
    ;
    lemma_tight_over(gap, p, 2 * g, d, 1 as real, below, p, 3 * g, pr * k, 4 as real, u, g);
    let kernel = gap.over(below);
    lemma_tight_times(
        kernel,
        p,
        7 * g,
        d / (pr * k),
        8 as real,
        t.log_prime,
        p,
        g,
        real_of(t.log_prime),
        0 as real,
        u,
        g,
    );
    lemma_tight_over(
        kernel.times(t.log_prime),
        p,
        9 * g,
        (d / (pr * k)) * real_of(t.log_prime),
        11 as real,
        t.sqrt_power,
        p,
        g,
        real_of(t.sqrt_power),
        0 as real,
        u,
        g,
    );
}

/// What a prime power contributes on the diagonal: times its root, it is `2 (1 - log q / l) cos`
/// times its prime's logarithm, within 17 units of rounding at the scale of the two terms of the
/// difference.
pub proof fn law_prime_term_on_diagonal(
    t: KernelView,
    pi: HpValue,
    l: HpValue,
    row: int,
    p: nat,
    r: int,
)
    requires
        room(p, r),
        kernel_ranged(t, row, row, p, r),
        ranged(l, p, r),
        real_of(l) != 0 as real,
    ensures
        ({
            let q = real_of(t.log_power) / real_of(l);
            let c = real_of(t.cosines[row]);
            let e = real_of(t.log_prime);
            within(
                real_of(prime_term(t, pi, l, row, row, p)) * real_of(t.sqrt_power),
                (((1 as real - q) * 2 as real) * c) * e,
                17 as real,
                (((1 as real + size(q)) * 2 as real) * size(c)) * size(e),
                unit(p),
            )
        }),
{
    let g = reach(p, r);
    let u = unit(p);
    lemma_fine_unit(p);
    lemma2_to64();
    lemma_integer_is_near(p, 1, 16);
    let one = hp_int(p, 1);
    let q = real_of(t.log_power) / real_of(l);
    let c = real_of(t.cosines[row]);
    let e = real_of(t.log_prime);
    lemma_stands(one, p, 4 * g, u);
    lemma_stands(l, p, g, u);
    lemma_stands(t.log_power, p, g, u);
    lemma_stands(t.log_prime, p, g, u);
    lemma_stands(t.sqrt_power, p, g, u);
    lemma_stands(t.cosines[row], p, g, u);
    lemma_stands_word(2, u);
    lemma_tight_over(
        t.log_power,
        p,
        g,
        real_of(t.log_power),
        0 as real,
        l,
        p,
        g,
        real_of(l),
        0 as real,
        u,
        g,
    );
    let share = t.log_power.over(l);
    let s = 1 as real + size(q);
    lemma_stands_plus(one, p, 4 * g, 1 as real, 0 as real, 1 as real, share, p, q, 3 as real, size(q), u);
    let rest = one.minus(share);
    lemma_stands_times(
        rest,
        p,
        5 * g,
        1 as real - q,
        5 as real,
        s,
        hp_word(2),
        64,
        g,
        2 as real,
        0 as real,
        2 as real,
        u,
    );
    lemma_stands_times(
        rest.times(hp_word(2)),
        p,
        7 * g,
        (1 as real - q) * 2 as real,
        8 as real,
        s * 2 as real,
        t.cosines[row],
        p,
        g,
        c,
        0 as real,
        size(c),
        u,
    );
    lemma_stands_times(
        rest.times(hp_word(2)).times(t.cosines[row]),
        p,
        9 * g,
        ((1 as real - q) * 2 as real) * c,
        11 as real,
        (s * 2 as real) * size(c),
        t.log_prime,
        p,
        g,
        e,
        0 as real,
        size(e),
        u,
    );
    crate::formulas::lemma_tight_nonzero(
        t.sqrt_power,
        p,
        g,
        real_of(t.sqrt_power),
        0 as real,
        u,
    );
    lemma_stands_over(
        rest.times(hp_word(2)).times(t.cosines[row]).times(t.log_prime),
        p,
        11 * g,
        (((1 as real - q) * 2 as real) * c) * e,
        14 as real,
        ((s * 2 as real) * size(c)) * size(e),
        t.sqrt_power,
        p,
        g,
        real_of(t.sqrt_power),
        0 as real,
        u,
    );
}

/// An entry of the form is that of the pole component less those of the archimedean and the prime
/// component, within 5 units of rounding at the scale of the three.
pub proof fn law_form_entry_on_reals(
    pole: Seq<HpValue>,
    archimedean: Seq<HpValue>,
    prime: Seq<HpValue>,
    k: int,
    p: nat,
    r: int,
)
    requires
        room(p, r),
        0 <= k < pole.len(),
        ranged(pole[k], p, r),
        ranged(archimedean[k], p, r),
        ranged(prime[k], p, r),
    ensures
        stands(
            combined_form(pole, archimedean, prime, p)[k],
            p,
            4 * reach(p, r),
            real_of(pole[k]) - real_of(archimedean[k]) - real_of(prime[k]),
            5 as real,
            size(real_of(pole[k])) + size(real_of(archimedean[k])) + size(real_of(prime[k])),
            unit(p),
        ),
{
    let g = reach(p, r);
    let u = unit(p);
    lemma_fine_unit(p);
    lemma_precision_is_near(pole[k], p, r, p);
    let d = u * size(real_of(pole[k]));
    assert((1 as real) * d == d);
    assert(tight(pole[k].at(p), p, 2 * g, real_of(pole[k]), 1 as real, u));
    lemma_stands(archimedean[k], p, 2 * g, u);
    lemma_stands(prime[k], p, 3 * g, u);
    lemma_stands_plus(
        pole[k].at(p),
        p,
        2 * g,
        real_of(pole[k]),
        1 as real,
        size(real_of(pole[k])),
        archimedean[k],
        p,
        real_of(archimedean[k]),
        0 as real,
        size(real_of(archimedean[k])),
        u,
    );
    lemma_stands_plus(
        pole[k].at(p).minus(archimedean[k]),
        p,
        3 * g,
        real_of(pole[k]) - real_of(archimedean[k]),
        3 as real,
        size(real_of(pole[k])) + size(real_of(archimedean[k])),
        prime[k],
        p,
        real_of(prime[k]),
        0 as real,
        size(real_of(prime[k])),
        u,
    );
}

} // verus!
