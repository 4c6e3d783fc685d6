//! What a step of a refinement does to its point, what guards and means are, and where the entries of
//! an expanded vector come from.

use crate::assembly::singularity_guard;
use crate::bounds::lemma_grows;
use crate::closeness::{
    lemma_precision_is_near, lemma_stands, lemma_stands_plus, lemma_stands_word, ranged,
};
use crate::config::RootSolver;
use crate::decimal::{hp_decimal, lemma_pow10_bound, pow10, DecimalValue};
use crate::float::lemma_ratio_bits;
use crate::form_values::lemma_tight_gap;
use crate::formulas::{lemma_tight_over, reach, room, tight};
use crate::limbs::{bit_len, lemma_bit_len};
use crate::margins::{lemma_fine_unit, within};
use crate::matrix::{lemma_cell, symmetrized};
use crate::reals::{
    lemma_quotient_between, lemma_quotient_exact, lemma_root_of_two, lemma_rounded_is_near,
    lemma_short, near, real_of, size, two_to, unit,
};
use crate::refine::{correction, refinement, search, PointOutcome, SearchOutcome, SearchState};
use crate::rounding::{hp_int, hp_word, HpValue};
use crate::sector::{continuation_seed, even_expansion, odd_expansion, sqrt_two};
use crate::tolerances::lemma_smaller_magnitude;
use vstd::arithmetic::div_mod::*;
use vstd::arithmetic::power2::*;
use vstd::prelude::*;

verus! {

/// A point is one step from another: the other less its correction, whose magnitude is the last
/// correction.
pub open spec fn is_step_from(
    x: PointOutcome,
    from: HpValue,
    method: RootSolver,
    xi: Seq<HpValue>,
    n: int,
    spacing: HpValue,
    p: nat,
) -> bool {
    &&& correction(method, xi, n, spacing, from, p) is Some
    &&& x.value == from.minus(correction(method, xi, n, spacing, from, p)->0)
    &&& x.final_correction == correction(method, xi, n, spacing, from, p)->0.abs()
}

proof fn lemma_search_steps(
    method: RootSolver,
    xi: Seq<HpValue>,
    n: int,
    spacing: HpValue,
    p: nat,
    state: SearchState,
    done: nat,
    left: nat,
)
    requires
        left == 0 ==> state.before is Some && correction(method, xi, n, spacing, state.before->0, p)
            is Some && state.z == state.before->0.minus(
            correction(method, xi, n, spacing, state.before->0, p)->0,
        ) && state.last == correction(method, xi, n, spacing, state.before->0, p)->0.abs(),
    ensures
        search(method, xi, n, spacing, p, state, done, left) matches SearchOutcome::Point(x)
            ==> exists|from: HpValue| is_step_from(x, from, method, xi, n, spacing, p),
    decreases left,
{
    if left == 0 {
        if let SearchOutcome::Point(x) = search(method, xi, n, spacing, p, state, done, left) {
            assert(is_step_from(x, state.before->0, method, xi, n, spacing, p));
        }
    } else if let Some(dz) = correction(method, xi, n, spacing, state.z, p) {
        let z = state.z.minus(dz);
        let a = dz.abs();
        let stalled = if crate::refine::improves(state.best, a) {
            0
        } else {
            state.stalled + 1
        };
        let next = SearchState {
            z,
            before: Some(state.z),
            last: a,
            best: if crate::refine::improves(state.best, a) {
                Some(a)
            } else {
                state.best
            },
            stalled,
        };
        lemma_search_steps(method, xi, n, spacing, p, next, done + 1, (left - 1) as nat);
        if let SearchOutcome::Point(x) = search(method, xi, n, spacing, p, state, done, left) {
            if !is_step_from(x, state.z, method, xi, n, spacing, p) {
                assert(search(method, xi, n, spacing, p, state, done, left) == search(
                    method,
                    xi,
                    n,
                    spacing,
                    p,
                    next,
                    done + 1,
                    (left - 1) as nat,
                ));
            }
        }
    }
}

/// A refined point is the last point before it less the correction computed there, and its last
/// correction is the magnitude of that.
pub proof fn law_point_is_a_step_from_another(
    method: RootSolver,
    xi: Seq<HpValue>,
    n: int,
    spacing: HpValue,
    seed: HpValue,
    p: nat,
    steps: nat,
)
    ensures
        refinement(method, xi, n, spacing, seed, p, steps) matches SearchOutcome::Point(x)
            ==> exists|from: HpValue| is_step_from(x, from, method, xi, n, spacing, p),
        steps == 1 ==> (refinement(method, xi, n, spacing, seed, p, steps)
            matches SearchOutcome::Point(x) ==> is_step_from(x, seed, method, xi, n, spacing, p)),
{
    if steps > 0 {
        let start = SearchState {
            z: seed,
            before: None,
            last: hp_int(p, 0),
            best: None,
            stalled: 0,
        };
        lemma_search_steps(method, xi, n, spacing, p, start, 0, steps);
        if steps == 1 {
            reveal_with_fuel(search, 2);
        }
    }
}

/// A guard of `k` decimal places is `10^-k`, within a unit of rounding.
pub proof fn law_guard_on_reals(p: nat, k: nat)
    requires
        16 <= p <= 0x80_0000,
        1 <= k <= 0x1_0000,
    ensures
        ({
            let x = hp_decimal(p, DecimalValue { neg: false, digits: 1, exponent: -(k as int) });
            let t = pow10(k) as int as real;
            &&& near(real_of(x) * t, 1 as real, unit(p))
            &&& real_of(x) > 0 as real
            &&& ranged(x, p, p as int + 4 * k + 20)
            &&& t > 0 as real
        }),
{
    let b = pow10(k);
    lemma_pow10_bound(k);
    lemma_bit_len(b);
    lemma_pow2_unfold((4 * k + 1) as nat);
    lemma_short(b, (4 * k + 1) as nat);
    let len = bit_len(b);
    let kk = p + 2 + len;
    let n = 1 * pow2(kk);
    let q = n / b;
    lemma_ratio_bits(p, 1, b);
    lemma_pow2_pos(kk);
    lemma_fundamental_div_mod(n as int, b as int);
    lemma_mod_bound(n as int, b as int);
    lemma_pow2_unfold((kk + 1) as nat);
    assert(q <= n) by (nonlinear_arith)
        requires
            n == b * q + n % b,
            b >= 1,
            q >= 0,
            n % b >= 0,
    ;
    lemma_short(q, (kk + 1) as nat);
    lemma_bit_len(q);
    let t = b as int as real;
    assert(two_to(0) == 1 as real) by {
        lemma2_to64();
    }
    let v = ((1 as int as real) * two_to(0)) / (t * two_to(0));
    lemma_quotient_between(1, 0, b, 0, kk, q, v);
    if n % b == 0 {
        lemma_quotient_exact(1, 0, b, 0, kk, q, v);
    }
    lemma_rounded_is_near(p, false, q, -(kk as int), n % b != 0, v);
    let x = hp_decimal(p, DecimalValue { neg: false, digits: 1, exponent: -(k as int) });
    assert(v * t == 1 as real) by (nonlinear_arith)
        requires
            v == ((1 as int as real) * (1 as real)) / (t * (1 as real)),
            t > 0 as real,
    ;
    crate::reals::lemma_scaled_near(real_of(x), v, unit(p), t);
    lemma_fine_unit(p);
    lemma_grows(65536 as real * unit(p), 1 as real, v);
    let u = unit(p);
    assert((65536 as real * u) * v == 65536 as real * (u * v)) by (nonlinear_arith);
}

/// The kernel is replaced by its expansion only below `2 * 10^-30`, and always below half of `10^-30`;
/// the cardinal sine is taken as one only below `2 * 10^-40`, and always below half of `10^-40`.
pub proof fn law_guards_on_reals(x: HpValue, p: nat, r: int)
    requires
        room(p, r),
        ranged(x, p, r),
    ensures
        ({
            let t = size(real_of(x)) * (pow10(30) as int as real);
            &&& t >= 2 as real ==> !x.lt_abs(singularity_guard(p))
            &&& 2 as real * t <= 1 as real ==> x.lt_abs(singularity_guard(p))
        }),
        ({
            let t = size(real_of(x)) * (pow10(40) as int as real);
            let guard = hp_decimal(
                p,
                DecimalValue {
                    neg: false,
                    digits: 1,
                    exponent: -(crate::concentration::SINC_GUARD_PLACES as int),
                },
            );
            &&& t >= 2 as real ==> !x.lt_abs(guard)
            &&& 2 as real * t <= 1 as real ==> x.lt_abs(guard)
        }),
{
    lemma_guard_compared(x, p, r, 30);
    lemma_guard_compared(x, p, r, 40);
}

proof fn lemma_guard_compared(x: HpValue, p: nat, r: int, k: nat)
    requires
        room(p, r),
        ranged(x, p, r),
        1 <= k <= 0x1_0000,
    ensures
        ({
            let t = size(real_of(x)) * (pow10(k) as int as real);
            let guard = hp_decimal(
                p,
                DecimalValue { neg: false, digits: 1, exponent: -(k as int) },
            );
            &&& t >= 2 as real ==> !x.lt_abs(guard)
            &&& 2 as real * t <= 1 as real ==> x.lt_abs(guard)
        }),
{
    let guard = hp_decimal(p, DecimalValue { neg: false, digits: 1, exponent: -(k as int) });
    let b = pow10(k) as int as real;
    law_guard_on_reals(p, k);
    lemma_fine_unit(p);
    lemma_smaller_magnitude(x, guard, p, p, r + p + 4 * k + 20);
    let a = size(real_of(x));
    let y = real_of(guard);
    assert(unit(p) * (1 as real) == unit(p)) by (nonlinear_arith);
    if a < y {
        lemma_grows(a, y, b);
    } else {
        lemma_grows(y, a, b);
    }
}

/// An averaged entry is half of the sum of the two entries, within 4 units of rounding; the diagonal
/// keeps its entries.
pub proof fn law_averaged_entry_on_reals(
    m: Seq<HpValue>,
    dim: int,
    i: int,
    j: int,
    p: nat,
    r: int,
)
    requires
        room(p, r),
        0 <= i <= j < dim,
        ranged(m[i * dim + j], p, r),
        ranged(m[j * dim + i], p, r),
    ensures
        i == j ==> symmetrized(m, dim)[i * dim + j] == m[i * dim + j],
        i < j ==> tight(
            symmetrized(m, dim)[i * dim + j],
            p,
            5 * reach(p, r),
            (real_of(m[i * dim + j]) + real_of(m[j * dim + i])) / 2 as real,
            4 as real,
            unit(p),
        ),
        symmetrized(m, dim)[j * dim + i] == symmetrized(m, dim)[i * dim + j],
{
    let g = reach(p, r);
    let u = unit(p);
    lemma_fine_unit(p);
    lemma_cell(dim, i, j);
    lemma_cell(dim, j, i);
    lemma_stands_word(2, u);
    let a = m[i * dim + j];
    let b = m[j * dim + i];
    lemma_tight_gap(a, b, p, p, r);
    lemma_tight_over(
        a.plus(b),
        p,
        2 * g,
        real_of(a) + real_of(b),
        1 as real,
        hp_word(2),
        64,
        g,
        2 as real,
        0 as real,
        u,
        g,
    );
}

/// Where the entries of an expanded vector come from: the middle of an even one is the first entry,
/// and both entries `k` away from it the entry `k` over the root of two; of an odd one the middle is
/// zero, and the entries `k` away are the entry `k - 1` over the root of two and its negative.
pub proof fn law_expanded_entries_on_reals(
    even: Seq<HpValue>,
    odd: Seq<HpValue>,
    n: int,
    k: int,
    p: nat,
    r: int,
)
    requires
        room(p, r),
        1 <= k <= n,
        even.len() == n + 1,
        odd.len() == n,
        ranged(even[k], p, r),
        ranged(odd[k - 1], p, r),
    ensures
        ({
            let g = reach(p, r);
            let u = unit(p);
            let root = real_of(sqrt_two(p));
            let e = even_expansion(even, n, p);
            let o = odd_expansion(odd, n, p);
            &&& e[n] == even[0]
            &&& tight(e[n + k], p, 4 * g, real_of(even[k]) / root, 3 as real, u)
            &&& e[n - k] == e[n + k]
            &&& o[n].is_zero()
            &&& tight(o[n + k], p, 4 * g, real_of(odd[k - 1]) / root, 3 as real, u)
            &&& o[n - k] == o[n + k].negated()
            &&& root > 0 as real
            &&& 2 as real * ((1 as real - u) * (1 as real - u)) <= root * root <= 2 as real * ((
            1 as real + u) * (1 as real + u))
        }),
{
    let g = reach(p, r);
    let u = unit(p);
    lemma_fine_unit(p);
    lemma_root_of_two(p);
    let root = sqrt_two(p);
    assert(ranged(root, p, g));
    lemma_stands(root, p, g, u);
    lemma_stands(even[k], p, g, u);
    lemma_stands(odd[k - 1], p, g, u);
    lemma_tight_over(
        even[k],
        p,
        g,
        real_of(even[k]),
        0 as real,
        root,
        p,
        g,
        real_of(root),
        0 as real,
        u,
        g,
    );
    lemma_tight_over(
        odd[k - 1],
        p,
        g,
        real_of(odd[k - 1]),
        0 as real,
        root,
        p,
        g,
        real_of(root),
        0 as real,
        u,
        g,
    );
}

/// A continuation seed holds the even coordinates of a state: the middle entry, the sums of mirrored
/// entries over the root of two, within 6 units of rounding, and zeros beyond the state.
pub proof fn law_continuation_seed_on_reals(
    full: Seq<HpValue>,
    source: int,
    target: int,
    m: int,
    p: nat,
    r: int,
)
    requires
        room(p, r),
        0 <= m <= target,
        0 <= source,
        full.len() == 2 * source + 1,
        m <= source ==> ranged(full[source - m], p, r) && ranged(full[source + m], p, r),
    ensures
        ({
            let s = continuation_seed(full, source, target, p);
            let root = real_of(sqrt_two(p));
            &&& m == 0 ==> near(real_of(s[m]), real_of(full[source]), unit(p))
            &&& 1 <= m <= source ==> within(
                real_of(s[m]) * root,
                real_of(full[source - m]) + real_of(full[source + m]),
                6 as real,
                size(real_of(full[source - m])) + size(real_of(full[source + m])),
                unit(p),
            )
            &&& m > source ==> s[m].is_zero()
        }),
{
    let g = reach(p, r);
    let u = unit(p);
    lemma_fine_unit(p);
    if m <= source {
        let a = full[source - m];
        let b = full[source + m];
        lemma_precision_is_near(a, p, r, p);
        let d = u * size(real_of(a));
        assert((1 as real) * d == d);
        assert(tight(a.at(p), p, 2 * g, real_of(a), 1 as real, u));
        lemma_stands(b, p, 2 * g, u);
        lemma_stands_plus(
            a.at(p),
            p,
            2 * g,
            real_of(a),
            1 as real,
            size(real_of(a)),
            b,
            p,
            real_of(b),
            0 as real,
            size(real_of(b)),
            u,
        );
        lemma_root_of_two(p);
        let root = sqrt_two(p);
        assert(ranged(root, p, g));
        lemma_stands(root, p, g, u);
        crate::closeness::lemma_stands_over(
            a.at(p).plus(b),
            p,
            3 * g,
            real_of(a) + real_of(b),
            3 as real,
            size(real_of(a)) + size(real_of(b)),
            root,
            p,
            g,
            real_of(root),
            0 as real,
            u,
        );
    }
}

} // verus!
