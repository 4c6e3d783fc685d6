//! What a scan for roots owes: between any two neighbouring sample points where the function has
//! opposite signs, the roots that come out hold a value.

use crate::accuracy::law_sums_and_products_commute;
use crate::bounds::{lemma_grows, lemma_nonnegative};
use crate::closeness::{
    lemma_gap_is_near, lemma_stands, lemma_stands_plus, lemma_stands_word, lemma_total_is_near,
    ranged,
};
use crate::form_values::lemma_tight_gap;
use crate::formulas::{lemma_tight_over, lemma_tight_times, reach, room, tight};
use crate::margins::{fine_unit, lemma_fine_unit, within};
use crate::monotone::{law_midpoint_lies_between, law_order_is_that_of_numbers, law_sum_rises};
use crate::reals::{lemma_kept, real_of, size, two_to, unit};
use crate::rounding::{add_class, hp_int, hp_pow2, hp_word, HpValue, EXPONENT_LIMIT};
use crate::secular::{
    bisection, changes_sign, discovered, interval_roots, merge_rising, midpoint, pole,
    poles_between, push_rising, rising, sample_point, scan_boundaries, scan_intervals, scan_samples,
    secular_fn, BISECTION_STEPS, SUBDIVISIONS,
};
use crate::tolerances::lemma_power_of_two;
use vstd::prelude::*;

verus! {

/// Precisions and exponents with room for a scan.
pub open spec fn scan_room(p: nat, r: int) -> bool {
    p >= 16 && r >= 0 && r + p <= 0x40_0000
}

/// The range that sample points keep.
pub open spec fn sample_reach(p: nat, r: int) -> int {
    r + 6 * p + 300
}

/// The range that halving a bracket keeps.
pub open spec fn halved_reach(p: nat, r: int, steps: nat) -> int {
    r + steps * (p + 3)
}

/// Every bracket of a bisection, and with it the result, lies between the ends it began with.
pub proof fn law_bisection_stays_inside(
    f: spec_fn(HpValue) -> Option<HpValue>,
    lo: HpValue,
    hi: HpValue,
    at_lo: HpValue,
    steps: nat,
    p: nat,
    r: int,
)
    requires
        p >= 1,
        r >= 0,
        ranged(lo, p, r),
        ranged(hi, p, r),
        real_of(lo) <= real_of(hi),
        halved_reach(p, r, steps) + 2 * p + 80 <= EXPONENT_LIMIT,
    ensures
        bisection(f, lo, hi, at_lo, steps) matches Some(b) ==> {
            &&& real_of(lo) <= real_of(b.0) <= real_of(b.1) <= real_of(hi)
            &&& ranged(b.0, p, halved_reach(p, r, steps))
            &&& ranged(b.1, p, halved_reach(p, r, steps))
        },
    decreases steps,
{
    assert(steps * (p + 3) >= 0) by (nonlinear_arith);
    if steps > 0 {
        let fewer = (steps - 1) as nat;
        assert(fewer * (p + 3) + (p + 3) == steps * (p + 3)) by (nonlinear_arith)
            requires
                fewer + 1 == steps,
        ;
        assert(fewer * (p + 3) >= 0) by (nonlinear_arith);
        law_midpoint_lies_between(lo, hi, p, r);
        let mid = midpoint(lo, hi);
        match f(mid) {
            None => {},
            Some(v) => if v.is_zero() {
            } else if at_lo.is_sign_negative() != v.is_sign_negative() {
                law_bisection_stays_inside(f, lo, mid, at_lo, fewer, p, r + p + 3);
            } else {
                law_bisection_stays_inside(f, mid, hi, v, fewer, p, r + p + 3);
            },
        }
    }
}

/// The points of a scan, from the left end on.
pub open spec fn scan_point(left: HpValue, right: HpValue, k: int) -> HpValue {
    if k == 0 {
        left
    } else {
        sample_point(left, right, k)
    }
}

/// What is added to the left end at a sample point.
spec fn offset(left: HpValue, right: HpValue, k: int) -> HpValue {
    right.minus(left).times(hp_word(k)).over(hp_word(SUBDIVISIONS as int))
}

proof fn lemma_sixteenths(y: real, k: real)
    ensures
        (y * k) / 16 as real == k * (y / 16 as real),
{
    assert((y * k) / 16 as real == k * (y / 16 as real)) by (nonlinear_arith);
}

/// The offset of a sample point lies within half a step of `k` steps.
proof fn lemma_offset(left: HpValue, right: HpValue, k: int, p: nat, r: int)
    requires
        scan_room(p, r),
        ranged(left, p, r),
        ranged(right, p, r),
        real_of(left) <= real_of(right),
        1 <= k <= 16,
    ensures
        ({
            let y = real_of(right.minus(left));
            let h = y / 16 as real;
            let t = offset(left, right, k);
            &&& y >= 0 as real
            &&& h >= 0 as real
            &&& tight(t, p, r + 5 * p + 280, (y * (k as real)) / 16 as real, 6 as real, unit(p))
            &&& (k as real) * h - h <= 2 as real * real_of(t) - (k as real) * h <= (k as real) * h + h
        }),
{
    let u = unit(p);
    let w = right.minus(left);
    let y = real_of(w);
    let kr = k as real;
    let h = y / 16 as real;
    lemma_fine_unit(p);
    lemma_gap_is_near(right, left, p, p, r);
    let gap = real_of(right) - real_of(left);
    lemma_near_sign(y, gap, u);
    lemma_stands(w, p, r + p + 2, u);
    lemma_stands_word(k, u);
    lemma_stands_word(16, u);
    let g = p + 1;
    lemma_tight_times(w, p, r + p + 2, y, 0 as real, hp_word(k), 64, 81, kr, 0 as real, u, g as int);
    lemma_tight_over(
        w.times(hp_word(k)),
        p,
        r + p + 2 + 81 + g,
        y * kr,
        3 as real,
        hp_word(16),
        64,
        81,
        16 as real,
        0 as real,
        u,
        g as int,
    );
    lemma_sixteenths(y, kr);
    assert(h >= 0 as real);
    let v = kr * h;
    lemma_nonnegative(kr, h);
    lemma_grows(kr, 16 as real, h);
    lemma_grows(v, 16 as real * h, u);
    lemma_nonnegative(u, v);
    lemma_grows(65536 as real * u, 1 as real, h);
    assert((65536 as real * u) * h == 65536 as real * (u * h)) by (nonlinear_arith);
    assert(u * (16 as real * h) == 16 as real * (u * h)) by (nonlinear_arith);
}

proof fn lemma_near_sign(x: real, y: real, u: real)
    requires
        crate::reals::near(x, y, u),
        fine_unit(u),
        y >= 0 as real,
    ensures
        x >= 0 as real,
{
    lemma_grows(u, 1 as real, y);
}

/// A value and a zero of its precision.
proof fn lemma_nothing_added(x: HpValue, p: nat, r: int)
    requires
        ranged(x, p, r),
    ensures
        real_of(x.plus(hp_int(p, 0))) == real_of(x),
{
    reveal(add_class);
    if x.class is Num {
        lemma_kept(x);
    }
}

/// The points of a scan never fall, from the left end on.
pub proof fn law_scan_points_rise(left: HpValue, right: HpValue, k: int, p: nat, r: int)
    requires
        scan_room(p, r),
        ranged(left, p, r),
        ranged(right, p, r),
        real_of(left) <= real_of(right),
        1 <= k <= SUBDIVISIONS,
    ensures
        real_of(scan_point(left, right, k - 1)) <= real_of(scan_point(left, right, k)),
        ranged(scan_point(left, right, k - 1), p, sample_reach(p, r)),
        ranged(scan_point(left, right, k), p, sample_reach(p, r)),
        real_of(left) <= real_of(scan_point(left, right, k)),
{
    let m = r + 5 * p + 280;
    let t = offset(left, right, k);
    let zero = hp_int(p, 0);
    lemma_offset(left, right, k, p, r);
    lemma_total_is_near(t, left, p, p, m);
    law_sums_and_products_commute(t, left);
    lemma_nothing_added(left, p, r);
    lemma_nonnegative((k - 1) as real, real_of(right.minus(left)) / 16 as real);
    lemma_steps_apart(k, real_of(right.minus(left)) / 16 as real);
    law_sum_rises(left, zero, t, p, p, m);
    if k > 1 {
        let s = offset(left, right, k - 1);
        lemma_offset(left, right, k - 1, p, r);
        lemma_total_is_near(s, left, p, p, m);
        law_sums_and_products_commute(s, left);
        law_sum_rises(left, s, t, p, p, m);
    }
}

proof fn lemma_steps_apart(k: int, h: real)
    ensures
        (k as real) * h == ((k - 1) as real) * h + h,
{
    let x = (k - 1) as real;
    assert((x + 1 as real) * h == x * h + h) by (nonlinear_arith);
}

/// A sample point is `left + k (right - left) / 16`, within 10 units of rounding at the scale of the
/// two terms.
pub proof fn law_sample_point_on_reals(left: HpValue, right: HpValue, k: int, p: nat, r: int)
    requires
        scan_room(p, r),
        ranged(left, p, r),
        ranged(right, p, r),
        real_of(left) <= real_of(right),
        1 <= k <= 16,
    ensures
        ({
            let y = real_of(right) - real_of(left);
            let v = (y * (k as real)) / 16 as real;
            within(
                real_of(sample_point(left, right, k)),
                v + real_of(left),
                10 as real,
                v + size(real_of(left)),
                unit(p),
            )
        }),
{
    let u = unit(p);
    let w = right.minus(left);
    let y = real_of(right) - real_of(left);
    let kr = k as real;
    let g = p + 1;
    lemma_fine_unit(p);
    lemma_gap_is_near(right, left, p, p, r);
    let d = u * size(y);
    assert((1 as real) * d == d);
    assert(tight(w, p, r + p + 2, y, 1 as real, u));
    lemma_stands_word(k, u);
    lemma_stands_word(16, u);
    lemma_tight_times(w, p, r + p + 2, y, 1 as real, hp_word(k), 64, 81, kr, 0 as real, u, g as int);
    let a = r + p + 2 + 81 + g;
    lemma_tight_over(
        w.times(hp_word(k)),
        p,
        a,
        y * kr,
        4 as real,
        hp_word(16),
        64,
        81,
        16 as real,
        0 as real,
        u,
        g as int,
    );
    let b = a + 81 + 2 * g;
    let v = (y * kr) / 16 as real;
    lemma_sixteenths(y, kr);
    lemma_nonnegative(kr, y / 16 as real);
    lemma_stands(left, p, b, u);
    lemma_stands_plus(
        offset(left, right, k),
        p,
        b,
        v,
        7 as real,
        v,
        left,
        p,
        real_of(left),
        0 as real,
        size(real_of(left)),
        u,
    );
    crate::margins::lemma_within_more(
        real_of(sample_point(left, right, k)),
        v + real_of(left),
        9 as real,
        10 as real,
        v + size(real_of(left)),
        v + size(real_of(left)),
        u,
    );
}

/// The function has strictly opposite signs at two points.
pub open spec fn crosses(f: spec_fn(HpValue) -> Option<HpValue>, a: HpValue, b: HpValue) -> bool {
    &&& f(a) is Some
    &&& f(b) is Some
    &&& !f(a)->0.is_zero()
    &&& !f(b)->0.is_zero()
    &&& f(a)->0.is_sign_negative() != f(b)->0.is_sign_negative()
}

/// Some value of a sequence lies between two points.
pub open spec fn holds_between(s: Seq<HpValue>, a: HpValue, b: HpValue) -> bool {
    exists|i: int| 0 <= i < s.len() && real_of(a) <= real_of(#[trigger] s[i]) <= real_of(b)
}

/// Values that are finite, and none above a point.
spec fn settled(s: Seq<HpValue>, p: nat, m: int, at: HpValue) -> bool {
    &&& forall|i: int| 0 <= i < s.len() ==> ranged(#[trigger] s[i], p, m)
    &&& s.len() > 0 ==> real_of(s.last()) <= real_of(at)
}

proof fn lemma_pushed(s: Seq<HpValue>, x: HpValue, a: HpValue, b: HpValue, p: nat, m: int)
    requires
        p >= 1,
        settled(s, p, m, a),
        ranged(x, p, m),
        real_of(a) <= real_of(x) <= real_of(b),
    ensures
        settled(push_rising(s, x), p, m, b),
        holds_between(push_rising(s, x), a, b),
        push_rising(s, x).len() >= s.len(),
        forall|i: int| 0 <= i < s.len() ==> push_rising(s, x)[i] == s[i],
{
    let t = push_rising(s, x);
    if s.len() > 0 {
        assert(ranged(s[s.len() - 1], p, m));
        law_order_is_that_of_numbers(s.last(), x);
    }
    if s.len() == 0 || s.last().lt(x) {
        assert(t[t.len() - 1] == x);
    } else {
        assert(real_of(t[t.len() - 1]) == real_of(x));
    }
}

proof fn lemma_scan_keeps(
    f: spec_fn(HpValue) -> Option<HpValue>,
    left: HpValue,
    right: HpValue,
    k: int,
    found: Seq<HpValue>,
    j: int,
    p: nat,
    r: int,
)
    requires
        scan_room(p, r),
        ranged(left, p, r),
        ranged(right, p, r),
        real_of(left) <= real_of(right),
        1 <= k <= SUBDIVISIONS + 1,
        f(scan_point(left, right, k - 1)) is Some,
        settled(found, p, root_reach(p, r), scan_point(left, right, k - 1)),
    ensures
        scan_samples(
            f,
            left,
            right,
            k,
            scan_point(left, right, k - 1),
            f(scan_point(left, right, k - 1))->0,
            found,
        ) matches Some(s) ==> {
            &&& s.len() >= found.len()
            &&& forall|i: int| 0 <= i < found.len() ==> s[i] == found[i]
            &&& forall|i: int| 0 <= i < s.len() ==> ranged(#[trigger] s[i], p, root_reach(p, r))
            &&& k <= j <= SUBDIVISIONS && crosses(
                f,
                scan_point(left, right, j - 1),
                scan_point(left, right, j),
            ) ==> holds_between(s, scan_point(left, right, j - 1), scan_point(left, right, j))
        },
    decreases SUBDIVISIONS + 1 - k,
{
    let at = scan_point(left, right, k - 1);
    let value = f(at)->0;
    if k <= SUBDIVISIONS {
        let next = scan_point(left, right, k);
        law_scan_points_rise(left, right, k, p, r);
        if f(next) is Some {
            let v = f(next)->0;
            if changes_sign(value, v) {
                let m = sample_reach(p, r);
                law_bisection_stays_inside(f, at, next, value, BISECTION_STEPS as nat, p, m);
                if let Some(b) = bisection(f, at, next, value, BISECTION_STEPS as nat) {
                    let h = halved_reach(p, m, BISECTION_STEPS as nat);
                    law_midpoint_lies_between(b.0, b.1, p, h);
                    let x = midpoint(b.0, b.1);
                    let more = push_rising(found, x);
                    lemma_pushed(found, x, at, next, p, root_reach(p, r));
                    lemma_scan_keeps(f, left, right, k + 1, more, j, p, r);
                    if let Some(s) = scan_samples(f, left, right, k + 1, next, v, more) {
                        if j == k {
                            let i = choose|i: int|
                                0 <= i < more.len() && real_of(at) <= real_of(#[trigger] more[i])
                                    <= real_of(next);
                            assert(s[i] == more[i]);
                        }
                    }
                }
            } else {
                assert(settled(found, p, root_reach(p, r), next));
                lemma_scan_keeps(f, left, right, k + 1, found, j, p, r);
            }
        }
    }
}

/// The range that found roots keep.
pub open spec fn root_reach(p: nat, r: int) -> int {
    halved_reach(p, sample_reach(p, r), BISECTION_STEPS as nat) + p + 3
}

/// Completeness of the scan of an interval: wherever the function has strictly opposite signs at
/// two neighbouring points of the scan, the roots of the interval hold a value between the two.
pub proof fn law_interval_holds_every_crossing(
    f: spec_fn(HpValue) -> Option<HpValue>,
    from: HpValue,
    to: HpValue,
    margin_fraction: HpValue,
    k: int,
    p: nat,
    r: int,
)
    requires
        scan_room(p, r),
        1 <= k <= SUBDIVISIONS,
        ({
            let margin = to.minus(from).times(margin_fraction);
            let left = from.plus(margin);
            let right = to.minus(margin);
            &&& ranged(left, p, r)
            &&& ranged(right, p, r)
            &&& !to.minus(from).le(hp_word(0))
            &&& left.lt(right)
        }),
    ensures
        ({
            let margin = to.minus(from).times(margin_fraction);
            let left = from.plus(margin);
            let right = to.minus(margin);
            let a = scan_point(left, right, k - 1);
            let b = scan_point(left, right, k);
            interval_roots(f, from, to, margin_fraction) matches Some(roots) ==> {
                &&& crosses(f, a, b) ==> holds_between(roots, a, b)
                &&& forall|i: int|
                    0 <= i < roots.len() ==> ranged(#[trigger] roots[i], p, root_reach(p, r))
            }
        }),
{
    let margin = to.minus(from).times(margin_fraction);
    let left = from.plus(margin);
    let right = to.minus(margin);
    law_order_is_that_of_numbers(left, right);
    law_order_is_that_of_numbers(right, left);
    if f(left) is Some {
        lemma_scan_keeps(f, left, right, 1, Seq::<HpValue>::empty(), k, p, r);
    }
}

/// The boundaries of a scan are its limits and, between them, exactly the poles that lie strictly
/// inside: every such pole is a boundary, and every inner boundary is such a pole.
pub proof fn law_boundaries_are_the_poles(
    n: nat,
    spacing: HpValue,
    p: nat,
    lower: HpValue,
    upper: HpValue,
    mode: int,
    i: int,
)
    ensures
        ({
            let b = scan_boundaries(n as int, spacing, p, lower, upper);
            let q = pole(spacing, p, mode);
            &&& b.len() >= 2
            &&& b[0] == lower
            &&& b.last() == upper
            &&& -n <= mode <= n && lower.lt(q) && q.lt(upper) ==> exists|k: int|
                1 <= k < b.len() - 1 && #[trigger] b[k] == q
            &&& 1 <= i < b.len() - 1 ==> exists|m: int|
                -n <= m <= n && #[trigger] pole(spacing, p, m) == b[i] && lower.lt(b[i]) && b[i].lt(
                    upper,
                )
        }),
{
    let count = 2 * n + 1;
    let s = poles_between(n as int, spacing, p, lower, upper, count);
    let b = scan_boundaries(n as int, spacing, p, lower, upper);
    let q = pole(spacing, p, mode);
    lemma_poles_between(n as int, spacing, p, lower, upper, count, mode, i - 1);
    if -n <= mode <= n && lower.lt(q) && q.lt(upper) {
        let k = choose|k: int| 0 <= k < s.len() && #[trigger] s[k] == q;
        assert(b[k + 1] == q);
    }
    if 1 <= i < b.len() - 1 {
        assert(b[i] == s[i - 1]);
        let m = choose|m: int|
            -n <= m < count - n && #[trigger] pole(spacing, p, m) == s[i - 1] && lower.lt(s[i - 1])
                && s[i - 1].lt(upper);
        assert(pole(spacing, p, m) == b[i]);
    }
}

proof fn lemma_poles_between(
    n: int,
    spacing: HpValue,
    p: nat,
    lower: HpValue,
    upper: HpValue,
    count: nat,
    mode: int,
    i: int,
)
    ensures
        ({
            let s = poles_between(n, spacing, p, lower, upper, count);
            let q = pole(spacing, p, mode);
            &&& -n <= mode < count - n && lower.lt(q) && q.lt(upper) ==> exists|k: int|
                0 <= k < s.len() && #[trigger] s[k] == q
            &&& 0 <= i < s.len() ==> exists|m: int|
                -n <= m < count - n && #[trigger] pole(spacing, p, m) == s[i] && lower.lt(s[i])
                    && s[i].lt(upper)
        }),
    decreases count,
{
    if count > 0 {
        let less = (count - 1) as nat;
        lemma_poles_between(n, spacing, p, lower, upper, less, mode, i);
        let before = poles_between(n, spacing, p, lower, upper, less);
        let s = poles_between(n, spacing, p, lower, upper, count);
        let q = pole(spacing, p, mode);
        let last = pole(spacing, p, count - 1 - n);
        if -n <= mode < count - n && lower.lt(q) && q.lt(upper) {
            if mode == count - 1 - n {
                assert(s[before.len() as int] == q);
            } else {
                let k = choose|k: int| 0 <= k < before.len() && #[trigger] before[k] == q;
                assert(s[k] == q);
            }
        }
        if 0 <= i < s.len() {
            if i < before.len() {
                let m = choose|m: int|
                    -n <= m < less - n && #[trigger] pole(spacing, p, m) == before[i] && lower.lt(
                        before[i],
                    ) && before[i].lt(upper);
                assert(pole(spacing, p, m) == s[i]);
            } else {
                assert(pole(spacing, p, count - 1 - n) == s[i]);
            }
        }
    }
}

/// Finite values that never fall.
pub open spec fn never_falls(s: Seq<HpValue>) -> bool {
    &&& forall|i: int| 0 <= i < s.len() ==> (#[trigger] s[i]).wf() && s[i].is_finite()
    &&& forall|i: int| 0 <= i < s.len() - 1 ==> real_of(#[trigger] s[i]) <= real_of(s[i + 1])
}

/// A sequence holds a value of the same number.
pub open spec fn holds_number_of(s: Seq<HpValue>, x: HpValue) -> bool {
    exists|i: int| 0 <= i < s.len() && real_of(#[trigger] s[i]) == real_of(x)
}

proof fn lemma_merged(
    found: Seq<HpValue>,
    more: Seq<HpValue>,
    lower: HpValue,
    upper: HpValue,
    count: nat,
    i: int,
)
    requires
        never_falls(more),
        forall|k: int| 0 <= k < found.len() ==> (#[trigger] found[k]).wf() && found[k].is_finite(),
        found.len() > 0 && more.len() > 0 ==> real_of(found.last()) <= real_of(more[0]),
        count <= more.len(),
        0 <= i < more.len(),
        lower.lt(more[i]),
        more[i].lt(upper),
    ensures
        ({
            let t = merge_rising(found, more, lower, upper, count);
            &&& t.len() >= found.len()
            &&& forall|k: int| 0 <= k < found.len() ==> t[k] == found[k]
            &&& forall|k: int| 0 <= k < t.len() ==> (#[trigger] t[k]).wf() && t[k].is_finite()
            &&& t.len() > 0 && count < more.len() ==> real_of(t.last()) <= real_of(
                more[count as int],
            )
            &&& i < count ==> holds_number_of(t, more[i])
        }),
    decreases count,
{
    if count > 0 {
        let less = (count - 1) as nat;
        lemma_merged(found, more, lower, upper, less, i);
        let before = merge_rising(found, more, lower, upper, less);
        let x = more[count - 1];
        let t = merge_rising(found, more, lower, upper, count);
        assert(more[count - 1].wf());
        if before.len() > 0 {
            assert(before[before.len() - 1].wf());
            law_order_is_that_of_numbers(before.last(), x);
        }
        if i < less {
            let k = choose|k: int|
                0 <= k < before.len() && real_of(#[trigger] before[k]) == real_of(more[i]);
            assert(t[k] == before[k]);
        } else if i == less {
            assert(real_of(t[t.len() - 1]) == real_of(x));
        }
        if count < more.len() {
            assert(real_of(more[count - 1]) <= real_of(more[count - 1 + 1]));
        }
    }
}

/// Merging the roots of an interval keeps each of them that lies strictly inside the limits, and all
/// that were found before, where none of these exceeds the first of the interval.
pub proof fn law_merging_keeps_every_root(
    found: Seq<HpValue>,
    more: Seq<HpValue>,
    lower: HpValue,
    upper: HpValue,
    i: int,
)
    requires
        never_falls(more),
        forall|k: int| 0 <= k < found.len() ==> (#[trigger] found[k]).wf() && found[k].is_finite(),
        found.len() > 0 && more.len() > 0 ==> real_of(found.last()) <= real_of(more[0]),
        0 <= i < more.len(),
        lower.lt(more[i]),
        more[i].lt(upper),
    ensures
        holds_number_of(merge_rising(found, more, lower, upper, more.len()), more[i]),
        merge_rising(found, more, lower, upper, more.len()).len() >= found.len(),
        forall|k: int|
            0 <= k < found.len() ==> merge_rising(found, more, lower, upper, more.len())[k]
                == found[k],
{
    lemma_merged(found, more, lower, upper, more.len(), i);
}

proof fn lemma_scan_rises(
    f: spec_fn(HpValue) -> Option<HpValue>,
    left: HpValue,
    right: HpValue,
    k: int,
    at: HpValue,
    value: HpValue,
    found: Seq<HpValue>,
)
    requires
        rising(found),
    ensures
        scan_samples(f, left, right, k, at, value, found) matches Some(s) ==> rising(s),
    decreases SUBDIVISIONS + 1 - k,
{
    if 1 <= k <= SUBDIVISIONS {
        let next = sample_point(left, right, k);
        if let Some(v) = f(next) {
            if changes_sign(value, v) {
                if let Some(b) = bisection(f, at, next, value, BISECTION_STEPS as nat) {
                    let x = midpoint(b.0, b.1);
                    let t = push_rising(found, x);
                    assert forall|i: int| 0 <= i < t.len() - 1 implies (#[trigger] t[i]).lt(
                        t[i + 1],
                    ) by {
                        if i < found.len() - 1 {
                            assert(found[i].lt(found[i + 1]));
                        }
                    }
                    lemma_scan_rises(f, left, right, k + 1, next, v, t);
                }
            } else {
                lemma_scan_rises(f, left, right, k + 1, next, v, found);
            }
        }
    }
}

/// The roots of an interval rise strictly.
pub proof fn law_interval_roots_rise(
    f: spec_fn(HpValue) -> Option<HpValue>,
    from: HpValue,
    to: HpValue,
    margin_fraction: HpValue,
)
    ensures
        interval_roots(f, from, to, margin_fraction) matches Some(s) ==> rising(s),
{
    let margin = to.minus(from).times(margin_fraction);
    let left = from.plus(margin);
    let right = to.minus(margin);
    if f(left) is Some {
        lemma_scan_rises(f, left, right, 1, left, f(left)->0, Seq::<HpValue>::empty());
    }
}

/// Merging only appends.
proof fn lemma_merging_appends(
    found: Seq<HpValue>,
    more: Seq<HpValue>,
    lower: HpValue,
    upper: HpValue,
    count: nat,
)
    ensures
        merge_rising(found, more, lower, upper, count).len() >= found.len(),
        forall|k: int|
            0 <= k < found.len() ==> merge_rising(found, more, lower, upper, count)[k] == found[k],
    decreases count,
{
    if count > 0 {
        lemma_merging_appends(found, more, lower, upper, (count - 1) as nat);
    }
}

/// A scan keeps every root of each of its intervals: a root of interval `j` that lies strictly inside
/// the limits is among the discovered ones, where the roots of the intervals before it do not exceed
/// the first of its own.
pub proof fn law_scan_keeps_interval_roots(
    f: spec_fn(HpValue) -> Option<HpValue>,
    boundaries: Seq<HpValue>,
    margin_fraction: HpValue,
    lower: HpValue,
    upper: HpValue,
    j: nat,
    count: nat,
    i: int,
)
    requires
        j < count,
        ({
            let before = scan_intervals(f, boundaries, margin_fraction, lower, upper, j);
            let more = interval_roots(
                f,
                boundaries[j as int],
                boundaries[j as int + 1],
                margin_fraction,
            );
            &&& before is Some
            &&& more is Some
            &&& never_falls(more->0)
            &&& forall|k: int|
                0 <= k < before->0.len() ==> (#[trigger] before->0[k]).wf()
                    && before->0[k].is_finite()
            &&& 0 <= i < more->0.len()
            &&& before->0.len() > 0 ==> real_of(before->0.last()) <= real_of(more->0[0])
            &&& lower.lt(more->0[i]) && more->0[i].lt(upper)
        }),
    ensures
        scan_intervals(f, boundaries, margin_fraction, lower, upper, count) matches Some(s)
            ==> holds_number_of(
            s,
            interval_roots(f, boundaries[j as int], boundaries[j as int + 1], margin_fraction)->0[i],
        ),
    decreases count,
{
    let more = interval_roots(f, boundaries[j as int], boundaries[j as int + 1], margin_fraction)->0;
    let less = (count - 1) as nat;
    let before = scan_intervals(f, boundaries, margin_fraction, lower, upper, less);
    if j == less {
        law_merging_keeps_every_root(before->0, more, lower, upper, i);
    } else {
        law_scan_keeps_interval_roots(
            f,
            boundaries,
            margin_fraction,
            lower,
            upper,
            j,
            less,
            i,
        );
        if before is Some {
            let now = interval_roots(f, boundaries[less as int], boundaries[less as int + 1], margin_fraction);
            if now is Some {
                lemma_merging_appends(before->0, now->0, lower, upper, now->0.len());
                let s = merge_rising(before->0, now->0, lower, upper, now->0.len());
                let k = choose|k: int|
                    0 <= k < before->0.len() && real_of(#[trigger] before->0[k]) == real_of(more[i]);
                assert(s[k] == before->0[k]);
            }
        }
    }
}

/// A discovery scans every interval between neighbouring boundaries, and keeps off the poles by a
/// margin of `2^-64` of the interval.
pub proof fn law_discovery_scans_every_interval(
    xi: Seq<HpValue>,
    n: int,
    spacing: HpValue,
    lower: HpValue,
    upper: HpValue,
    p: nat,
)
    requires
        p >= 1,
    ensures
        ({
            let b = scan_boundaries(n, spacing, p, lower, upper);
            exists|m: HpValue|
                real_of(m) == two_to(-64) && discovered(xi, n, spacing, lower, upper, p)
                    == #[trigger] scan_intervals(
                    secular_fn(xi, n, spacing, p),
                    b,
                    m,
                    lower,
                    upper,
                    (b.len() - 1) as nat,
                )
        }),
{
    let b = scan_boundaries(n, spacing, p, lower, upper);
    lemma_power_of_two(p, -64);
    let m = hp_pow2(p, -64);
    assert(discovered(xi, n, spacing, lower, upper, p) == scan_intervals(
        secular_fn(xi, n, spacing, p),
        b,
        m,
        lower,
        upper,
        (b.len() - 1) as nat,
    ));
}

/// The ends of the scan of an interval: the width's share `m` inside both of its ends, within 6 units
/// of rounding at the scale of the terms.
pub proof fn law_interval_ends_on_reals(
    from: HpValue,
    to: HpValue,
    margin_fraction: HpValue,
    p: nat,
    r: int,
)
    requires
        room(p, r),
        ranged(from, p, r),
        ranged(to, p, r),
        ranged(margin_fraction, p, r),
    ensures
        ({
            let margin = to.minus(from).times(margin_fraction);
            let t = (real_of(to) - real_of(from)) * real_of(margin_fraction);
            &&& within(
                real_of(from.plus(margin)),
                real_of(from) + t,
                6 as real,
                size(real_of(from)) + size(t),
                unit(p),
            )
            &&& within(
                real_of(to.minus(margin)),
                real_of(to) - t,
                6 as real,
                size(real_of(to)) + size(t),
                unit(p),
            )
        }),
{
    let g = reach(p, r);
    let u = unit(p);
    let w = real_of(to) - real_of(from);
    let m = real_of(margin_fraction);
    lemma_fine_unit(p);
    lemma_tight_gap(to, from, p, p, r);
    lemma_stands(margin_fraction, p, g, u);
    lemma_tight_times(to.minus(from), p, 2 * g, w, 1 as real, margin_fraction, p, g, m, 0 as real, u, g);
    let margin = to.minus(from).times(margin_fraction);
    lemma_stands(from, p, 4 * g, u);
    lemma_stands(to, p, 4 * g, u);
    lemma_stands_plus(
        from,
        p,
        4 * g,
        real_of(from),
        0 as real,
        size(real_of(from)),
        margin,
        p,
        w * m,
        4 as real,
        size(w * m),
        u,
    );
    lemma_stands_plus(
        to,
        p,
        4 * g,
        real_of(to),
        0 as real,
        size(real_of(to)),
        margin,
        p,
        w * m,
        4 as real,
        size(w * m),
        u,
    );
}

} // verus!
