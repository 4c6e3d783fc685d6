//! What the tolerances are, as powers of two, and what meeting one says of the numbers themselves.

use crate::closeness::{
    lemma_integer_is_near, lemma_number_positive, lemma_signed_real, lemma_stands, ranged, stands,
};
use crate::components::symmetry_tolerance;
use crate::eigenvalues::enclosure_width;
use crate::eigvec_cache::{relative_residual, residual_holds};
use crate::factorization::factorization_tolerance;
use crate::formulas::{lemma_tight_over, lemma_tight_times, reach, room, tight};
use crate::limbs::lemma_bit_len_unique;
use crate::margins::{lemma_fine_unit, within};
use crate::monotone::law_order_is_that_of_numbers;
use crate::outcome::relative;
use crate::reals::{lemma_real_at, lemma_two_to_pos, real_of, size, two_to, unit};
use crate::refine::correction_tolerance;
use crate::rounding::{hp_int, hp_pow2, hp_word, nearest, rounded, Class, HpValue, EXPONENT_LIMIT};
use crate::spectrum::pair_tolerance;
use crate::tridiagonal::basis_tolerance;
use vstd::arithmetic::power2::*;
use vstd::prelude::*;

verus! {

/// A power of two stands for itself.
pub proof fn lemma_power_of_two(p: nat, k: int)
    requires
        p >= 1,
        -EXPONENT_LIMIT <= k + 1 <= EXPONENT_LIMIT,
    ensures
        real_of(hp_pow2(p, k)) == two_to(k),
        hp_pow2(p, k).wf(),
        hp_pow2(p, k).is_finite(),
        hp_pow2(p, k).prec == p,
        hp_pow2(p, k).class matches Class::Num { neg, exp, .. } && !neg && exp == k - (p - 1),
        two_to(k) > 0 as real,
{
    reveal(rounded);
    reveal(nearest);
    lemma2_to64();
    lemma_bit_len_unique(1, 1);
    lemma_two_to_pos(k);
    let j = (p - 1) as nat;
    assert(1 * pow2(j) == pow2(j));
    lemma_pow2_unfold(p);
    lemma_pow2_pos(j);
    lemma_real_at(false, 1, k, k - j);
    let w = two_to(k);
    assert((1 as real) * w == w);
}

/// The tolerances, as powers of two: of symmetry `2^(8 - p)`, of a factorization `2^-(p/4)`, of an
/// eigenpair `2^-(p/4)` and at most `2^-8`, of a basis `2^(64 - p)`, and of an enclosure `2^(32 - p)`.
pub proof fn law_tolerances_on_reals(p: nat)
    requires
        1 <= p <= 0x80_0000,
    ensures
        real_of(symmetry_tolerance(p)) == two_to(8 - p),
        real_of(factorization_tolerance(p)) == two_to(-((p / 4) as int)),
        p >= 32 ==> real_of(pair_tolerance(p)) == two_to(-((p / 4) as int)),
        p < 32 ==> real_of(pair_tolerance(p)) == two_to(-8),
        p > 64 ==> real_of(basis_tolerance(p)) == two_to(64 - p),
        p <= 64 ==> real_of(basis_tolerance(p)) == two_to(-1),
        p > 32 ==> real_of(enclosure_width(p)) == two_to(32 - p),
        p <= 32 ==> real_of(enclosure_width(p)) == two_to(0),
{
    lemma_power_of_two(p, 8 - p);
    lemma_power_of_two(p, -((p / 4) as int));
    lemma_power_of_two(p, -8);
    lemma_power_of_two(p, 64 - p);
    lemma_power_of_two(p, -1);
    lemma_power_of_two(p, 32 - p);
    lemma_power_of_two(p, 0);
}

/// The magnitude of a value stands for the magnitude of its number.
pub proof fn lemma_magnitude(x: HpValue, p: nat, r: int)
    requires
        ranged(x, p, r),
    ensures
        ranged(x.abs(), p, r),
        real_of(x.abs()) == size(real_of(x)),
{
    if let Class::Num { neg, man, exp } = x.class {
        lemma_pow2_pos((p - 1) as nat);
        lemma_number_positive(man, exp);
        lemma_signed_real(neg, man, two_to(exp));
        lemma_signed_real(false, man, two_to(exp));
    }
}

/// The larger of one and a magnitude.
pub open spec fn at_least_one(x: real) -> real {
    if size(x) < 1 as real {
        1 as real
    } else {
        size(x)
    }
}

/// A scale of at least one, for a point.
proof fn lemma_scale_of_point(value: HpValue, p: nat, r: int)
    requires
        p >= 16,
        ranged(value, p, r),
        r >= p + 17,
    ensures
        ({
            let scale = if value.abs().lt(hp_word(1)) {
                hp_int(p, 1)
            } else {
                value.abs()
            };
            &&& ranged(scale, p, r)
            &&& real_of(scale) == at_least_one(real_of(value))
        }),
{
    lemma2_to64();
    lemma_magnitude(value, p, r);
    lemma_integer_is_near(64, 1, 16);
    lemma_integer_is_near(p, 1, 16);
    law_order_is_that_of_numbers(value.abs(), hp_word(1));
}

/// The correction that counts as converged is `2^(64 - p)` times the larger of one and the magnitude
/// of the point, within 3 units of rounding.
pub proof fn law_correction_tolerance_on_reals(value: HpValue, p: nat, r: int)
    requires
        room(p, r),
        p >= 66,
        ranged(value, p, r),
    ensures
        tight(
            correction_tolerance(value, p),
            p,
            4 * reach(p, r),
            two_to(64 - p) * at_least_one(real_of(value)),
            3 as real,
            unit(p),
        ),
{
    let g = reach(p, r);
    let u = unit(p);
    lemma_fine_unit(p);
    lemma_power_of_two(p, 64 - p);
    lemma_scale_of_point(value, p, g);
    let scale = if value.abs().lt(hp_word(1)) {
        hp_int(p, 1)
    } else {
        value.abs()
    };
    let bound = hp_pow2(p, 64 - p);
    lemma_stands(scale, p, g, u);
    lemma_stands(bound, p, 2 * g, u);
    lemma_tight_times(
        bound,
        p,
        2 * g,
        two_to(64 - p),
        0 as real,
        scale,
        p,
        g,
        at_least_one(real_of(value)),
        0 as real,
        u,
        g,
    );
}

/// A relative correction is its magnitude over the larger of one and the magnitude of the point,
/// within 3 units of rounding.
pub proof fn law_relative_correction_on_reals(value: HpValue, correction: HpValue, p: nat, r: int)
    requires
        room(p, r),
        ranged(value, p, r),
        ranged(correction, p, r),
    ensures
        tight(
            relative(value, correction, p),
            p,
            4 * reach(p, r),
            size(real_of(correction)) / at_least_one(real_of(value)),
            3 as real,
            unit(p),
        ),
{
    let g = reach(p, r);
    let u = unit(p);
    lemma_fine_unit(p);
    lemma_scale_of_point(value, p, g);
    lemma_magnitude(correction, p, g);
    let scale = if value.abs().lt(hp_word(1)) {
        hp_int(p, 1)
    } else {
        value.abs()
    };
    lemma_stands(scale, p, g, u);
    lemma_stands(correction.abs(), p, g, u);
    lemma_tight_over(
        correction.abs(),
        p,
        g,
        size(real_of(correction)),
        0 as real,
        scale,
        p,
        g,
        at_least_one(real_of(value)),
        0 as real,
        u,
        g,
    );
}

/// Comparing magnitudes compares the magnitudes of numbers.
pub proof fn lemma_smaller_magnitude(x: HpValue, y: HpValue, p: nat, q: nat, r: int)
    requires
        ranged(x, p, r),
        ranged(y, q, r),
    ensures
        x.lt_abs(y) <==> size(real_of(x)) < size(real_of(y)),
{
    lemma_magnitude(x, p, r);
    lemma_magnitude(y, q, r);
    law_order_is_that_of_numbers(x.abs(), y.abs());
}

/// A cached pair is accepted exactly where its relative residual is less than `2^(32 - p)`.
pub proof fn law_accepted_residual_is_small(
    m: Seq<HpValue>,
    dim: int,
    v: Seq<HpValue>,
    x: HpValue,
    p: nat,
    r: int,
)
    requires
        room(p, r),
        relative_residual(m, dim, v, x, p) matches Some(s) ==> ranged(s, p, r),
    ensures
        residual_holds(m, dim, v, x, p) <==> (relative_residual(m, dim, v, x, p) matches Some(s)
            && size(real_of(s)) < two_to(32 - p)),
{
    lemma_power_of_two(p, 32 - p);
    if let Some(s) = relative_residual(m, dim, v, x, p) {
        lemma_smaller_magnitude(s, hp_pow2(p, 32 - p), p, p, r + 2 * p + 40);
    }
}

} // verus!
