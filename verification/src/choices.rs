//! What is picked out of several values: extremes, enclosures, seeds and roots that belong together;
//! and the small quantities that go with them.

use crate::assembly::{kappa_half, mode_frequency, node_halves, node_phase};
use crate::closeness::{
    lemma_integer_is_near, lemma_precision_is_near, lemma_stands, lemma_stands_plus,
    lemma_stands_word, ranged, stands,
};
use crate::concentration::prime_part;
use crate::eigenvalues::{cross_checked, escapes, first_escape, midpoints, EnclosureView};
use crate::form_values::{law_frequency_on_reals, lemma_tight_gap};
use crate::formulas::{lemma_tight_over, lemma_tight_times, reach, room, tight};
use crate::margins::{lemma_fine_unit, within};
use crate::monotone::{law_midpoint_lies_between, law_order_is_that_of_numbers};
use crate::outcome::RefinementView;
use crate::reals::{real_of, size, two_to, unit};
use crate::roots::{greatest_digits, greatest_iterations, least_digits};
use crate::rounding::{hp_pow2, hp_word, magnitude, HpValue};
use crate::run::{crossed_seed, lies_nearer};
use crate::secular::mirrored_height;
use crate::sector::close;
use crate::state::cancellation;
use crate::tolerances::{lemma_magnitude, lemma_power_of_two};
use vstd::arithmetic::power2::*;
use vstd::prelude::*;

verus! {

/// Finite numbers of achieved digits.
pub open spec fn digits_finite(s: Seq<RefinementView>) -> bool {
    forall|i: int|
        0 <= i < s.len() ==> (#[trigger] s[i]).achieved_decimal_digits.wf()
            && s[i].achieved_decimal_digits.is_finite()
}

/// The least and the greatest number of achieved digits bound all of them and are among them, and so
/// does the greatest number of iterations.
pub proof fn law_extremes_bound_all(s: Seq<RefinementView>, n: nat, i: int)
    requires
        digits_finite(s),
        1 <= n <= s.len(),
        0 <= i < n,
    ensures
        real_of(least_digits(s, n)) <= real_of(s[i].achieved_decimal_digits) <= real_of(
            greatest_digits(s, n),
        ),
        exists|k: int| 0 <= k < n && least_digits(s, n) == #[trigger] s[k].achieved_decimal_digits,
        exists|k: int|
            0 <= k < n && greatest_digits(s, n) == #[trigger] s[k].achieved_decimal_digits,
        s[i].iterations <= greatest_iterations(s, n),
        greatest_iterations(s, n) == 0 || exists|k: int|
            0 <= k < n && greatest_iterations(s, n) == #[trigger] s[k].iterations,
    decreases n,
{
    let m = (n - 1) as nat;
    assert(s[n - 1].achieved_decimal_digits.wf());
    if n == 1 {
        assert(least_digits(s, n) == s[0].achieved_decimal_digits);
        assert(greatest_iterations(s, 0) == 0);
        assert(s[0].iterations <= greatest_iterations(s, n));
    } else {
        law_extremes_bound_all(s, m, if i < m { i } else { 0 });
        let a = choose|k: int|
            0 <= k < m && least_digits(s, m) == #[trigger] s[k].achieved_decimal_digits;
        let b = choose|k: int|
            0 <= k < m && greatest_digits(s, m) == #[trigger] s[k].achieved_decimal_digits;
        assert(s[a].achieved_decimal_digits.wf());
        assert(s[b].achieved_decimal_digits.wf());
        law_order_is_that_of_numbers(s[n - 1].achieved_decimal_digits, s[a].achieved_decimal_digits);
        law_order_is_that_of_numbers(s[b].achieved_decimal_digits, s[n - 1].achieved_decimal_digits);
    }
}

/// An eigenvalue taken from an enclosure lies in it.
pub proof fn law_midpoint_lies_in_its_enclosure(s: Seq<EnclosureView>, i: int, p: nat, r: int)
    requires
        room(p, r),
        0 <= i < s.len(),
        ranged(s[i].lower, p, r),
        ranged(s[i].upper, p, r),
        real_of(s[i].lower) <= real_of(s[i].upper),
    ensures
        midpoints(s).len() == s.len(),
        real_of(s[i].lower) <= real_of(midpoints(s)[i]) <= real_of(s[i].upper),
{
    law_midpoint_lies_between(s[i].lower, s[i].upper, p, r);
}

proof fn lemma_no_escape(values: Seq<HpValue>, s: Seq<EnclosureView>, from: int, i: int)
    requires
        0 <= from <= i < s.len(),
        first_escape(values, s, from) is None,
    ensures
        !escapes(values[s[i].index as int], s[i].lower, s[i].upper),
    decreases i - from,
{
    if from < i {
        lemma_no_escape(values, s, from + 1, i);
    }
}

/// A cross-checked spectrum is complete, and each of its values that has an enclosure lies in it.
pub proof fn law_cross_checked_values_lie_in_their_enclosures(
    values: Seq<HpValue>,
    s: Seq<EnclosureView>,
    dimension: int,
    i: int,
)
    requires
        0 <= i < s.len(),
        s[i].index < dimension,
        values[s[i].index as int].wf(),
        values[s[i].index as int].is_finite(),
        s[i].lower.wf() && s[i].lower.is_finite(),
        s[i].upper.wf() && s[i].upper.is_finite(),
    ensures
        cross_checked(values, s, dimension) matches Ok(v) ==> {
            &&& v.values == values
            &&& values.len() == dimension
            &&& real_of(s[i].lower) <= real_of(values[s[i].index as int]) <= real_of(s[i].upper)
        },
{
    if cross_checked(values, s, dimension) is Ok {
        lemma_no_escape(values, s, 0, i);
        let x = values[s[i].index as int];
        law_order_is_that_of_numbers(x, s[i].lower);
        law_order_is_that_of_numbers(s[i].upper, x);
    }
}

/// The seed that a root crossed to is one to which it lies nearer, and the first such; without one it
/// lies nearer to none.
pub proof fn law_crossed_seed_is_the_first(
    value: HpValue,
    seeds: Seq<HpValue>,
    own: int,
    from: int,
    j: int,
)
    requires
        0 <= from <= j < seeds.len(),
    ensures
        match crossed_seed(value, seeds, own, from) {
            Some(k) => {
                &&& from <= k < seeds.len()
                &&& k != own
                &&& value.minus(seeds[k]).abs().lt(value.minus(seeds[own]).abs())
                &&& j < k ==> !lies_nearer(value, seeds, own, j)
            },
            None => !lies_nearer(value, seeds, own, j),
        },
    decreases seeds.len() - from,
{
    assert(crossed_seed(value, seeds, own, seeds.len() as int) is None);
    if !lies_nearer(value, seeds, own, from) && from + 1 < seeds.len() {
        law_crossed_seed_is_the_first(
            value,
            seeds,
            own,
            from + 1,
            if j > from {
                j
            } else {
                from + 1
            },
        );
    }
}

/// Two invariants count as close where their distance is clearly within `2^-b` of one more than the
/// larger magnitude, with `b` a quarter of the precision and at least 8; and only where it is not
/// clearly beyond.
pub proof fn law_close_on_reals(left: HpValue, right: HpValue, p: nat, r: int)
    requires
        room(p, r),
        ranged(left, p, r),
        ranged(right, p, r),
    ensures
        ({
            let a = size(real_of(left));
            let b = size(real_of(right));
            let bits = if p / 4 > 8 {
                p / 4
            } else {
                8
            };
            let bound = ((if a < b {
                b
            } else {
                a
            }) + 1 as real) * two_to(-(bits as int));
            let d = size(real_of(left) - real_of(right));
            let u = unit(p);
            &&& d + u * d + 4 as real * (u * bound) <= bound ==> close(left, right, p)
            &&& close(left, right, p) ==> d <= bound + u * d + 4 as real * (u * bound)
        }),
{
    let g = reach(p, r);
    let u = unit(p);
    lemma_fine_unit(p);
    lemma2_to64();
    lemma_magnitude(left, p, g);
    lemma_magnitude(right, p, g);
    law_order_is_that_of_numbers(left.abs(), right.abs());
    let scale = if left.abs().lt(right.abs()) {
        right.abs()
    } else {
        left.abs()
    };
    let s = real_of(scale);
    let bits: nat = if p / 4 > 8 {
        p / 4
    } else {
        8
    };
    let w = two_to(-(bits as int));
    lemma_integer_is_near(64, 1, 16);
    lemma_tight_gap(scale, hp_word(1), p, 64, g);
    lemma_power_of_two(p, -(bits as int));
    let small = hp_pow2(p, -(bits as int));
    lemma_stands(small, p, 2 * g, u);
    lemma_tight_times(
        scale.plus(hp_word(1)),
        p,
        2 * g,
        s + 1 as real,
        1 as real,
        small,
        p,
        2 * g,
        w,
        0 as real,
        u,
        g,
    );
    let bound = scale.plus(hp_word(1)).times(small);
    crate::bounds::lemma_nonnegative(s + 1 as real, w);
    crate::closeness::lemma_gap_is_near(left, right, p, p, g);
    lemma_magnitude(left.minus(right), p, 2 * g);
    law_order_is_that_of_numbers(left.minus(right).abs(), bound);
}

/// The phase at a point is the frequency of the mode times the point, within 13 units of rounding; the
/// arguments of the exponentials are half of the point and its negative, within 3.
pub proof fn law_node_arguments_on_reals(
    pi: HpValue,
    l: HpValue,
    n: int,
    x: HpValue,
    p: nat,
    r: int,
)
    requires
        room(p, r),
        ranged(pi, p, r),
        ranged(l, p, r),
        ranged(x, p, r),
        real_of(l) != 0 as real,
        magnitude(n) < pow2(64),
    ensures
        ({
            let g = reach(p, r);
            let u = unit(p);
            &&& tight(
                node_phase(pi, l, n, x, p),
                p,
                10 * g,
                (((real_of(pi) * 2 as real) * (n as real)) / real_of(l)) * real_of(x),
                13 as real,
                u,
            )
            &&& tight(node_halves(x).0, p, 4 * g, real_of(x) / 2 as real, 3 as real, u)
            &&& tight(node_halves(x).1, p, 4 * g, real_of(x) / -(2 as real), 3 as real, u)
        }),
{
    let g = reach(p, r);
    let u = unit(p);
    lemma_fine_unit(p);
    law_frequency_on_reals(pi, l, n, p, r);
    lemma_stands(x, p, g, u);
    lemma_stands_word(2, u);
    lemma_stands_word(-2, u);
    lemma_tight_times(
        mode_frequency(pi, l, n, p),
        p,
        8 * g,
        ((real_of(pi) * 2 as real) * (n as real)) / real_of(l),
        10 as real,
        x,
        p,
        g,
        real_of(x),
        0 as real,
        u,
        g,
    );
    lemma_tight_over(x, p, g, real_of(x), 0 as real, hp_word(2), 64, g, 2 as real, 0 as real, u, g);
    lemma_tight_over(
        x,
        p,
        g,
        real_of(x),
        0 as real,
        hp_word(-2),
        64,
        g,
        -(2 as real),
        0 as real,
        u,
        g,
    );
}

/// The constant of the cosine integral is half of the sum of the two, within 4 units of rounding.
pub proof fn law_kappa_half_on_reals(log_argument: HpValue, euler: HpValue, p: nat, r: int)
    requires
        room(p, r),
        ranged(log_argument, p, r),
        ranged(euler, p, r),
    ensures
        tight(
            kappa_half(log_argument, euler),
            p,
            5 * reach(p, r),
            (real_of(log_argument) + real_of(euler)) / 2 as real,
            4 as real,
            unit(p),
        ),
{
    let g = reach(p, r);
    let u = unit(p);
    lemma_fine_unit(p);
    lemma_tight_gap(log_argument, euler, p, p, r);
    lemma_stands_word(2, u);
    lemma_tight_over(
        log_argument.plus(euler),
        p,
        2 * g,
        real_of(log_argument) + real_of(euler),
        1 as real,
        hp_word(2),
        64,
        g,
        2 as real,
        0 as real,
        u,
        g,
    );
}

/// A value taken to the working precision, less another.
proof fn lemma_taken_less(x: HpValue, y: HpValue, p: nat, r: int)
    requires
        room(p, r),
        ranged(x, p, r),
        ranged(y, p, r),
    ensures
        stands(
            x.at(p).minus(y),
            p,
            3 * reach(p, r),
            real_of(x) - real_of(y),
            3 as real,
            size(real_of(x)) + size(real_of(y)),
            unit(p),
        ),
{
    let g = reach(p, r);
    let u = unit(p);
    lemma_fine_unit(p);
    lemma_precision_is_near(x, p, r, p);
    let d = u * size(real_of(x));
    assert((1 as real) * d == d);
    assert(tight(x.at(p), p, 2 * g, real_of(x), 1 as real, u));
    lemma_stands(y, p, 2 * g, u);
    lemma_stands_plus(
        x.at(p),
        p,
        2 * g,
        real_of(x),
        1 as real,
        size(real_of(x)),
        y,
        p,
        real_of(y),
        0 as real,
        size(real_of(y)),
        u,
    );
}

/// The prime part of a split is the archimedean quotient less the full one, and the cancellation of a
/// decomposition the distance of the total from the sum of the contributions, each within 3 units of
/// rounding at the scale of the two.
pub proof fn law_parts_on_reals(x: HpValue, y: HpValue, p: nat, r: int)
    requires
        room(p, r),
        ranged(x, p, r),
        ranged(y, p, r),
    ensures
        within(
            real_of(prime_part(x, y, p)),
            real_of(y) - real_of(x),
            3 as real,
            size(real_of(y)) + size(real_of(x)),
            unit(p),
        ),
        within(
            real_of(cancellation(x, y, p)),
            size(real_of(x) - real_of(y)),
            3 as real,
            size(real_of(x)) + size(real_of(y)),
            unit(p),
        ),
{
    lemma_taken_less(x, y, p, r);
    lemma_taken_less(y, x, p, r);
    lemma_magnitude(x.at(p).minus(y), p, 3 * reach(p, r));
}

/// The lower limit of a scan on both sides of zero is the negative of its height, within 4 units of
/// rounding.
pub proof fn law_mirrored_height_on_reals(height: HpValue, p: nat, r: int)
    requires
        room(p, r),
        ranged(height, p, r),
    ensures
        tight(
            mirrored_height(height, p),
            p,
            4 * reach(p, r),
            real_of(height) * -(1 as real),
            4 as real,
            unit(p),
        ),
{
    let g = reach(p, r);
    let u = unit(p);
    lemma_fine_unit(p);
    lemma_precision_is_near(height, p, r, p);
    let d = u * size(real_of(height));
    assert((1 as real) * d == d);
    assert(tight(height.at(p), p, 2 * g, real_of(height), 1 as real, u));
    lemma_stands_word(-1, u);
    lemma_tight_times(
        height.at(p),
        p,
        2 * g,
        real_of(height),
        1 as real,
        hp_word(-1),
        64,
        g,
        -(1 as real),
        0 as real,
        u,
        g,
    );
}

} // verus!
