//! The secular function `R(z) = sum xi_j / (z - 2 pi j / L)`: its values, the brackets of
//! its roots, and their refinement by Newton's or Halley's method.

use crate::error::CcmError;
use crate::float::HpFloat;
use crate::matrix::{accumulate, vals};
use crate::rounding::{hp_int, hp_pow2, hp_word, HpValue};
use vstd::prelude::*;

verus! {

/// Subdivisions of a pole-free interval.
pub const SUBDIVISIONS: u64 = 16;

/// Halvings of a bracket.
pub const BISECTION_STEPS: u64 = 128;

/// The pole of mode `mode`.
pub open spec fn pole(spacing: HpValue, p: nat, mode: int) -> HpValue {
    spacing.times(hp_int(p, mode))
}

/// Distance of a point to the pole at position `i` of the weights.
pub open spec fn pole_distance(n: int, spacing: HpValue, z: HpValue, p: nat, i: int) -> HpValue {
    z.minus(pole(spacing, p, i - n))
}

/// Whether the point is a pole.
pub open spec fn on_pole(n: int, spacing: HpValue, z: HpValue, p: nat) -> bool {
    exists|i: int| 0 <= i < 2 * n + 1 && (#[trigger] pole_distance(n, spacing, z, p, i)).is_zero()
}

/// The terms `xi_j / (z - pole_j)`.
pub open spec fn secular_terms(xi: Seq<HpValue>, n: int, spacing: HpValue, z: HpValue, p: nat) -> spec_fn(
    int,
) -> HpValue {
    |i: int| xi[i].over(pole_distance(n, spacing, z, p, i))
}

/// Magnitudes of the terms.
pub open spec fn secular_magnitudes(
    xi: Seq<HpValue>,
    n: int,
    spacing: HpValue,
    z: HpValue,
    p: nat,
) -> spec_fn(int) -> HpValue {
    |i: int| xi[i].over(pole_distance(n, spacing, z, p, i)).at(p).abs()
}

/// The sum over all poles, in order of mode.
pub open spec fn secular_sum(xi: Seq<HpValue>, n: int, spacing: HpValue, z: HpValue, p: nat) -> HpValue {
    accumulate(hp_int(p, 0), secular_terms(xi, n, spacing, z, p), (2 * n + 1) as nat)
}

/// The secular function; undefined on a pole.
pub open spec fn secular_value(xi: Seq<HpValue>, n: int, spacing: HpValue, z: HpValue, p: nat) -> Option<
    HpValue,
> {
    if on_pole(n, spacing, z, p) {
        None
    } else {
        Some(secular_sum(xi, n, spacing, z, p))
    }
}

/// The secular function of a point alone.
pub open spec fn secular_fn(xi: Seq<HpValue>, n: int, spacing: HpValue, p: nat) -> spec_fn(
    HpValue,
) -> Option<HpValue> {
    |z: HpValue| secular_value(xi, n, spacing, z, p)
}

/// The weights fit the mode count, and modes fit a machine integer.
pub open spec fn weights_fit(len: nat, n: nat) -> bool {
    len == 2 * n + 1 && n <= 0x3fff_ffff_ffff_ffff
}

/// Distance of a point to the pole at position `i` of the weights.
fn distance(n_modes: usize, spacing: &HpFloat, z: &HpFloat, p: u32, i: usize) -> (r: HpFloat)
    requires
        p >= 1,
        n_modes <= 0x3fff_ffff_ffff_ffff,
        i <= 2 * n_modes,
    ensures
        r@ == pole_distance(n_modes as int, spacing@, z@, p as nat, i as int),
{
    let mode: i64 = i as i64 - n_modes as i64;
    z.minus(&spacing.times(&HpFloat::from_i64(p, mode)))
}

/// The residual `|R(z)|` and the sum of the magnitudes of its terms; `None` on a pole.
pub fn secular_residual_and_scale_at(
    xi: &Vec<HpFloat>,
    n_max: usize,
    two_pi_over_l: &HpFloat,
    z: &HpFloat,
    prec: u32,
) -> (r: Option<(HpFloat, HpFloat)>)
    requires
        prec >= 1,
        weights_fit(xi@.len(), n_max as nat),
    ensures
        r is None == on_pole(n_max as int, two_pi_over_l@, z@, prec as nat),
        r matches Some(v) ==> v.0@ == secular_sum(
            vals(xi@),
            n_max as int,
            two_pi_over_l@,
            z@,
            prec as nat,
        ).abs() && v.1@ == accumulate(
            hp_int(prec as nat, 0),
            secular_magnitudes(vals(xi@), n_max as int, two_pi_over_l@, z@, prec as nat),
            xi@.len(),
        ),
{
    let ghost f = secular_terms(vals(xi@), n_max as int, two_pi_over_l@, z@, prec as nat);
    let ghost g = secular_magnitudes(vals(xi@), n_max as int, two_pi_over_l@, z@, prec as nat);
    let mut residual: HpFloat = HpFloat::zero(prec);
    let mut term_scale: HpFloat = HpFloat::zero(prec);
    let mut i: usize = 0;
    while i < xi.len()
        invariant
            i <= xi.len(),
            prec >= 1,
            weights_fit(xi@.len(), n_max as nat),
            f == secular_terms(vals(xi@), n_max as int, two_pi_over_l@, z@, prec as nat),
            g == secular_magnitudes(vals(xi@), n_max as int, two_pi_over_l@, z@, prec as nat),
            residual@ == accumulate(hp_int(prec as nat, 0), f, i as nat),
            term_scale@ == accumulate(hp_int(prec as nat, 0), g, i as nat),
            forall|k: int|
                0 <= k < i ==> !(#[trigger] pole_distance(
                    n_max as int,
                    two_pi_over_l@,
                    z@,
                    prec as nat,
                    k,
                )).is_zero(),
        decreases xi.len() - i,
    {
        let denominator: HpFloat = distance(n_max, two_pi_over_l, z, prec, i);
        if denominator.is_zero() {
            return None;
        }
        let term: HpFloat = xi[i].over(&denominator);
        term_scale = term_scale.plus(&term.at(prec).abs());
        residual = residual.plus(&term);
        i = i + 1;
    }
    Some((residual.abs(), term_scale))
}

/// The residual `|R(z)|`; `None` on a pole.
pub fn secular_residual_at(
    xi: &Vec<HpFloat>,
    n_max: usize,
    two_pi_over_l: &HpFloat,
    z: &HpFloat,
    prec: u32,
) -> (r: Option<HpFloat>)
    requires
        prec >= 1,
        weights_fit(xi@.len(), n_max as nat),
    ensures
        r is None == on_pole(n_max as int, two_pi_over_l@, z@, prec as nat),
        r matches Some(v) ==> v@ == secular_sum(
            vals(xi@),
            n_max as int,
            two_pi_over_l@,
            z@,
            prec as nat,
        ).abs(),
{
    match secular_residual_and_scale_at(xi, n_max, two_pi_over_l, z, prec) {
        Some(v) => Some(v.0),
        None => None,
    }
}

/// The secular function at a point; refused on a pole.
pub fn evaluate_secular_hp(
    xi: &Vec<HpFloat>,
    n_modes: usize,
    spacing: &HpFloat,
    point: &HpFloat,
    precision_bits: u32,
) -> (r: Result<HpFloat, CcmError>)
    requires
        precision_bits >= 1,
        weights_fit(xi@.len(), n_modes as nat),
    ensures
        match r {
            Ok(v) => secular_value(
                vals(xi@),
                n_modes as int,
                spacing@,
                point@,
                precision_bits as nat,
            ) == Some(v@),
            Err(e) => secular_value(
                vals(xi@),
                n_modes as int,
                spacing@,
                point@,
                precision_bits as nat,
            ) is None && e.refuses("independent HP discovery evaluated a secular pole"@),
        },
{
    let ghost f = secular_terms(
        vals(xi@),
        n_modes as int,
        spacing@,
        point@,
        precision_bits as nat,
    );
    let mut value: HpFloat = HpFloat::zero(precision_bits);
    let mut i: usize = 0;
    while i < xi.len()
        invariant
            i <= xi.len(),
            precision_bits >= 1,
            weights_fit(xi@.len(), n_modes as nat),
            f == secular_terms(
                vals(xi@),
                n_modes as int,
                spacing@,
                point@,
                precision_bits as nat,
            ),
            value@ == accumulate(hp_int(precision_bits as nat, 0), f, i as nat),
            forall|k: int|
                0 <= k < i ==> !(#[trigger] pole_distance(
                    n_modes as int,
                    spacing@,
                    point@,
                    precision_bits as nat,
                    k,
                )).is_zero(),
        decreases xi.len() - i,
    {
        let denominator: HpFloat = distance(n_modes, spacing, point, precision_bits, i);
        if denominator.is_zero() {
            return Err(CcmError::refused("independent HP discovery evaluated a secular pole"));
        }
        value = value.plus(&xi[i].over(&denominator));
        i = i + 1;
    }
    Ok(value)
}

/// Midpoint of a bracket.
pub open spec fn midpoint(lo: HpValue, hi: HpValue) -> HpValue {
    lo.plus(hi).over(hp_word(2))
}

/// Bisection of a bracket whose left end has the value `at_lo`: each step keeps the half
/// whose ends differ in sign, and an exact zero ends it. Undefined where `f` is.
pub open spec fn bisection(
    f: spec_fn(HpValue) -> Option<HpValue>,
    lo: HpValue,
    hi: HpValue,
    at_lo: HpValue,
    steps: nat,
) -> Option<(HpValue, HpValue)>
    decreases steps,
{
    if steps == 0 {
        Some((lo, hi))
    } else {
        let mid = midpoint(lo, hi);
        match f(mid) {
            None => None,
            Some(v) => if v.is_zero() {
                Some((mid, mid))
            } else if at_lo.is_sign_negative() != v.is_sign_negative() {
                bisection(f, lo, mid, at_lo, (steps - 1) as nat)
            } else {
                bisection(f, mid, hi, v, (steps - 1) as nat)
            },
        }
    }
}

/// Whether the function may cross zero between two sampled values.
pub open spec fn changes_sign(a: HpValue, b: HpValue) -> bool {
    a.is_zero() || b.is_zero() || a.is_sign_negative() != b.is_sign_negative()
}

/// Sample point `k` of the subdivision.
pub open spec fn sample_point(left: HpValue, right: HpValue, k: int) -> HpValue {
    right.minus(left).times(hp_word(k)).over(hp_word(SUBDIVISIONS as int)).plus(left)
}

/// A value appended where it exceeds the last one.
pub open spec fn push_rising(s: Seq<HpValue>, x: HpValue) -> Seq<HpValue> {
    if s.len() == 0 || s.last().lt(x) {
        s.push(x)
    } else {
        s
    }
}

/// Roots found from sample `k` on, given the previous sample.
pub open spec fn scan_samples(
    f: spec_fn(HpValue) -> Option<HpValue>,
    left: HpValue,
    right: HpValue,
    k: int,
    at: HpValue,
    value: HpValue,
    found: Seq<HpValue>,
) -> Option<Seq<HpValue>>
    decreases SUBDIVISIONS + 1 - k,
{
    if k > SUBDIVISIONS || k < 1 {
        Some(found)
    } else {
        let next = sample_point(left, right, k);
        match f(next) {
            None => None,
            Some(v) => if changes_sign(value, v) {
                match bisection(f, at, next, value, BISECTION_STEPS as nat) {
                    None => None,
                    Some(b) => scan_samples(
                        f,
                        left,
                        right,
                        k + 1,
                        next,
                        v,
                        push_rising(found, midpoint(b.0, b.1)),
                    ),
                }
            } else {
                scan_samples(f, left, right, k + 1, next, v, found)
            },
        }
    }
}

/// Roots between two neighbouring poles, kept off the poles by a small margin.
pub open spec fn interval_roots(
    f: spec_fn(HpValue) -> Option<HpValue>,
    from: HpValue,
    to: HpValue,
    margin_fraction: HpValue,
) -> Option<Seq<HpValue>> {
    let width = to.minus(from);
    let margin = width.times(margin_fraction);
    let left = from.plus(margin);
    let right = to.minus(margin);
    if width.le(hp_word(0)) || right.le(left) {
        Some(Seq::<HpValue>::empty())
    } else {
        match f(left) {
            None => None,
            Some(v) => scan_samples(f, left, right, 1, left, v, Seq::<HpValue>::empty()),
        }
    }
}

fn bisect(
    xi: &Vec<HpFloat>,
    n_modes: usize,
    spacing: &HpFloat,
    from: &HpFloat,
    to: &HpFloat,
    from_value: &HpFloat,
    precision_bits: u32,
) -> (r: Result<(HpFloat, HpFloat), CcmError>)
    requires
        precision_bits >= 1,
        weights_fit(xi@.len(), n_modes as nat),
    ensures
        match r {
            Ok(b) => bisection(
                secular_fn(vals(xi@), n_modes as int, spacing@, precision_bits as nat),
                from@,
                to@,
                from_value@,
                BISECTION_STEPS as nat,
            ) == Some((b.0@, b.1@)),
            Err(e) => bisection(
                secular_fn(vals(xi@), n_modes as int, spacing@, precision_bits as nat),
                from@,
                to@,
                from_value@,
                BISECTION_STEPS as nat,
            ) is None && e.refuses("independent HP discovery evaluated a secular pole"@),
        },
{
    let ghost f = secular_fn(vals(xi@), n_modes as int, spacing@, precision_bits as nat);
    let ghost goal = bisection(f, from@, to@, from_value@, BISECTION_STEPS as nat);
    let mut lo: HpFloat = from.clone();
    let mut hi: HpFloat = to.clone();
    let mut at_lo: HpFloat = from_value.clone();
    let mut k: u64 = 0;
    while k < BISECTION_STEPS
        invariant
            k <= BISECTION_STEPS,
            precision_bits >= 1,
            weights_fit(xi@.len(), n_modes as nat),
            f == secular_fn(vals(xi@), n_modes as int, spacing@, precision_bits as nat),
            goal == bisection(f, from@, to@, from_value@, BISECTION_STEPS as nat),
            goal == bisection(f, lo@, hi@, at_lo@, (BISECTION_STEPS - k) as nat),
        decreases BISECTION_STEPS - k,
    {
        let mid: HpFloat = lo.plus(&hi).over_int(2);
        let v: HpFloat = match evaluate_secular_hp(xi, n_modes, spacing, &mid, precision_bits) {
            Ok(v) => v,
            Err(e) => {
                return Err(e);
            },
        };
        if v.is_zero() {
            let other: HpFloat = mid.clone();
            return Ok((mid, other));
        }
        if at_lo.is_sign_negative() != v.is_sign_negative() {
            hi = mid;
        } else {
            lo = mid;
            at_lo = v;
        }
        k = k + 1;
    }
    Ok((lo, hi))
}

/// Roots between two neighbouring poles.
pub fn discover_secular_roots_in_interval_hp(
    xi: &Vec<HpFloat>,
    n_modes: usize,
    spacing: &HpFloat,
    from: &HpFloat,
    to: &HpFloat,
    margin_fraction: &HpFloat,
    precision_bits: u32,
) -> (r: Result<Vec<HpFloat>, CcmError>)
    requires
        precision_bits >= 1,
        weights_fit(xi@.len(), n_modes as nat),
    ensures
        match r {
            Ok(v) => interval_roots(
                secular_fn(vals(xi@), n_modes as int, spacing@, precision_bits as nat),
                from@,
                to@,
                margin_fraction@,
            ) == Some(vals(v@)),
            Err(e) => interval_roots(
                secular_fn(vals(xi@), n_modes as int, spacing@, precision_bits as nat),
                from@,
                to@,
                margin_fraction@,
            ) is None && e.refuses("independent HP discovery evaluated a secular pole"@),
        },
{
    let ghost f = secular_fn(vals(xi@), n_modes as int, spacing@, precision_bits as nat);
    let ghost goal = interval_roots(f, from@, to@, margin_fraction@);
    let width: HpFloat = to.minus(from);
    let mut roots: Vec<HpFloat> = Vec::new();
    assert(vals(roots@) =~= Seq::<HpValue>::empty());
    if width.le(&HpFloat::from_i64(64, 0)) {
        return Ok(roots);
    }
    let margin: HpFloat = width.times(margin_fraction);
    let left: HpFloat = from.plus(&margin);
    let right: HpFloat = to.minus(&margin);
    if right.le(&left) {
        return Ok(roots);
    }
    let mut at: HpFloat = left.clone();
    let mut value: HpFloat = match evaluate_secular_hp(xi, n_modes, spacing, &at, precision_bits) {
        Ok(v) => v,
        Err(e) => {
            return Err(e);
        },
    };
    let mut k: u64 = 1;
    while k <= SUBDIVISIONS
        invariant
            1 <= k <= SUBDIVISIONS + 1,
            precision_bits >= 1,
            weights_fit(xi@.len(), n_modes as nat),
            f == secular_fn(vals(xi@), n_modes as int, spacing@, precision_bits as nat),
            goal == interval_roots(f, from@, to@, margin_fraction@),
            goal == scan_samples(f, left@, right@, k as int, at@, value@, vals(roots@)),
        decreases SUBDIVISIONS + 1 - k,
    {
        let next: HpFloat = right.minus(&left).times_word(k).over_int(SUBDIVISIONS as i64).plus(
            &left,
        );
        let v: HpFloat = match evaluate_secular_hp(xi, n_modes, spacing, &next, precision_bits) {
            Ok(v) => v,
            Err(e) => {
                return Err(e);
            },
        };
        if value.is_zero() || v.is_zero() || value.is_sign_negative() != v.is_sign_negative() {
            let bracket: (HpFloat, HpFloat) = match bisect(
                xi,
                n_modes,
                spacing,
                &at,
                &next,
                &value,
                precision_bits,
            ) {
                Ok(b) => b,
                Err(e) => {
                    return Err(e);
                },
            };
            let root: HpFloat = bracket.0.plus(&bracket.1).over_int(2);
            push_if_rising(&mut roots, root);
        }
        at = next;
        value = v;
        k = k + 1;
    }
    Ok(roots)
}

/// Appends a value where it exceeds the last one.
fn push_if_rising(roots: &mut Vec<HpFloat>, x: HpFloat)
    ensures
        vals(final(roots)@) == push_rising(vals(old(roots)@), x@),
{
    let ghost s = roots@;
    let rising: bool = if roots.len() == 0 {
        true
    } else {
        roots[roots.len() - 1].lt(&x)
    };
    if rising {
        roots.push(x);
        assert(vals(roots@) =~= vals(s).push(x@));
    }
}

/// Strictly rising values.
pub open spec fn rising(s: Seq<HpValue>) -> bool {
    forall|i: int| 0 <= i < s.len() - 1 ==> (#[trigger] s[i]).lt(s[i + 1])
}

/// Every value lies strictly between two others.
pub open spec fn strictly_between(s: Seq<HpValue>, lower: HpValue, upper: HpValue) -> bool {
    forall|i: int| 0 <= i < s.len() ==> lower.lt(#[trigger] s[i]) && s[i].lt(upper)
}

/// The poles of the first `count` modes that lie strictly between two values, in order.
pub open spec fn poles_between(
    n: int,
    spacing: HpValue,
    p: nat,
    lower: HpValue,
    upper: HpValue,
    count: nat,
) -> Seq<HpValue>
    decreases count,
{
    if count == 0 {
        Seq::<HpValue>::empty()
    } else {
        let before = poles_between(n, spacing, p, lower, upper, (count - 1) as nat);
        let q = pole(spacing, p, count - 1 - n);
        if lower.lt(q) && q.lt(upper) {
            before.push(q)
        } else {
            before
        }
    }
}

/// The ends of the pole-free intervals of a scan.
pub open spec fn scan_boundaries(
    n: int,
    spacing: HpValue,
    p: nat,
    lower: HpValue,
    upper: HpValue,
) -> Seq<HpValue> {
    seq![lower] + poles_between(n, spacing, p, lower, upper, (2 * n + 1) as nat) + seq![upper]
}

/// The values of `more` appended in turn, where they lie strictly between the bounds and
/// exceed the last one.
pub open spec fn merge_rising(
    found: Seq<HpValue>,
    more: Seq<HpValue>,
    lower: HpValue,
    upper: HpValue,
    count: nat,
) -> Seq<HpValue>
    decreases count,
{
    if count == 0 {
        found
    } else {
        let before = merge_rising(found, more, lower, upper, (count - 1) as nat);
        let x = more[count - 1];
        if lower.lt(x) && x.lt(upper) {
            push_rising(before, x)
        } else {
            before
        }
    }
}

/// Roots of the first `count` intervals, merged in order; undefined where an interval is.
pub open spec fn scan_intervals(
    f: spec_fn(HpValue) -> Option<HpValue>,
    boundaries: Seq<HpValue>,
    margin_fraction: HpValue,
    lower: HpValue,
    upper: HpValue,
    count: nat,
) -> Option<Seq<HpValue>>
    decreases count,
{
    if count == 0 {
        Some(Seq::<HpValue>::empty())
    } else {
        match scan_intervals(
            f,
            boundaries,
            margin_fraction,
            lower,
            upper,
            (count - 1) as nat,
        ) {
            None => None,
            Some(before) => match interval_roots(
                f,
                boundaries[count - 1],
                boundaries[count as int],
                margin_fraction,
            ) {
                None => None,
                Some(more) => Some(merge_rising(before, more, lower, upper, more.len())),
            },
        }
    }
}

/// Roots discovered between two scan limits.
pub open spec fn discovered(
    xi: Seq<HpValue>,
    n: int,
    spacing: HpValue,
    lower: HpValue,
    upper: HpValue,
    p: nat,
) -> Option<Seq<HpValue>> {
    let b = scan_boundaries(n, spacing, p, lower, upper);
    scan_intervals(
        secular_fn(xi, n, spacing, p),
        b,
        hp_pow2(p, -64),
        lower,
        upper,
        (b.len() - 1) as nat,
    )
}

/// Appending under the rule of [`push_rising`] keeps values rising and bounded.
proof fn lemma_push_rising(s: Seq<HpValue>, x: HpValue, lower: HpValue, upper: HpValue)
    requires
        rising(s),
        strictly_between(s, lower, upper),
        lower.lt(x),
        x.lt(upper),
    ensures
        rising(push_rising(s, x)),
        strictly_between(push_rising(s, x), lower, upper),
{
    if s.len() == 0 || s.last().lt(x) {
        let t = s.push(x);
        assert forall|i: int| 0 <= i < t.len() - 1 implies (#[trigger] t[i]).lt(t[i + 1]) by {
            if i < s.len() - 1 {
                assert(s[i].lt(s[i + 1]));
            }
        }
        assert forall|i: int| 0 <= i < t.len() implies lower.lt(#[trigger] t[i]) && t[i].lt(
            upper,
        ) by {
            if i < s.len() {
                assert(lower.lt(s[i]) && s[i].lt(upper));
            }
        }
    }
}

proof fn lemma_merge_rising(
    found: Seq<HpValue>,
    more: Seq<HpValue>,
    lower: HpValue,
    upper: HpValue,
    count: nat,
)
    requires
        rising(found),
        strictly_between(found, lower, upper),
    ensures
        rising(merge_rising(found, more, lower, upper, count)),
        strictly_between(merge_rising(found, more, lower, upper, count), lower, upper),
    decreases count,
{
    if count > 0 {
        lemma_merge_rising(found, more, lower, upper, (count - 1) as nat);
        let before = merge_rising(found, more, lower, upper, (count - 1) as nat);
        let x = more[count - 1];
        if lower.lt(x) && x.lt(upper) {
            lemma_push_rising(before, x, lower, upper);
        }
    }
}

/// Discovered roots rise strictly and lie strictly inside the scan limits.
pub proof fn law_discovered_roots_rise_inside_scan(
    f: spec_fn(HpValue) -> Option<HpValue>,
    boundaries: Seq<HpValue>,
    margin_fraction: HpValue,
    lower: HpValue,
    upper: HpValue,
    count: nat,
)
    ensures
        scan_intervals(f, boundaries, margin_fraction, lower, upper, count) matches Some(s)
            ==> rising(s) && strictly_between(s, lower, upper),
    decreases count,
{
    if count > 0 {
        law_discovered_roots_rise_inside_scan(
            f,
            boundaries,
            margin_fraction,
            lower,
            upper,
            (count - 1) as nat,
        );
        let b = scan_intervals(f, boundaries, margin_fraction, lower, upper, (count - 1) as nat);
        if b is Some {
            let m = interval_roots(
                f,
                boundaries[count - 1],
                boundaries[count as int],
                margin_fraction,
            );
            if m is Some {
                lemma_merge_rising(b->0, m->0, lower, upper, m->0.len());
            }
        }
    }
}

/// Bisection keeps a change of sign: from a bracket whose ends differ in sign it reaches a
/// zero of the function or a bracket whose ends still differ in sign.
pub proof fn law_bisection_keeps_sign_change(
    f: spec_fn(HpValue) -> Option<HpValue>,
    lo: HpValue,
    hi: HpValue,
    at_lo: HpValue,
    at_hi: HpValue,
    steps: nat,
)
    requires
        f(lo) == Some(at_lo),
        f(hi) == Some(at_hi),
        at_lo.is_sign_negative() != at_hi.is_sign_negative(),
    ensures
        bisection(f, lo, hi, at_lo, steps) matches Some(b) ==> {
            ||| b.0 == b.1 && f(b.0) is Some && f(b.0)->0.is_zero()
            ||| f(b.0) is Some && f(b.1) is Some && f(b.0)->0.is_sign_negative()
                != f(b.1)->0.is_sign_negative()
        },
    decreases steps,
{
    if steps > 0 {
        let mid = midpoint(lo, hi);
        match f(mid) {
            None => {},
            Some(v) => if v.is_zero() {
            } else if at_lo.is_sign_negative() != v.is_sign_negative() {
                law_bisection_keeps_sign_change(f, lo, mid, at_lo, v, (steps - 1) as nat);
            } else {
                law_bisection_keeps_sign_change(f, mid, hi, v, at_hi, (steps - 1) as nat);
            },
        }
    }
}

/// Roots discovered between two scan limits, in rising order.
pub fn discover_secular_roots_hp_range(
    xi: &Vec<HpFloat>,
    n_modes: usize,
    spacing: &HpFloat,
    scan_lower: &HpFloat,
    scan_upper: &HpFloat,
    precision_bits: u32,
) -> (r: Result<Vec<HpFloat>, CcmError>)
    requires
        precision_bits >= 1,
        weights_fit(xi@.len(), n_modes as nat),
        xi.len() < usize::MAX - 2,
    ensures
        match r {
            Ok(v) => !scan_upper@.le(scan_lower@) && discovered(
                vals(xi@),
                n_modes as int,
                spacing@,
                scan_lower@,
                scan_upper@,
                precision_bits as nat,
            ) == Some(vals(v@)) && rising(vals(v@)) && strictly_between(
                vals(v@),
                scan_lower@,
                scan_upper@,
            ),
            Err(e) => if scan_upper@.le(scan_lower@) {
                e.refuses("independent HP discovery requires a nonempty scan interval"@)
            } else {
                &&& discovered(
                    vals(xi@),
                    n_modes as int,
                    spacing@,
                    scan_lower@,
                    scan_upper@,
                    precision_bits as nat,
                ) is None
                &&& e.refuses("independent HP discovery evaluated a secular pole"@)
            },
        },
{
    if scan_upper.le(scan_lower) {
        return Err(CcmError::refused("independent HP discovery requires a nonempty scan interval"));
    }
    let ghost n = n_modes as int;
    let ghost p = precision_bits as nat;
    let ghost f = secular_fn(vals(xi@), n, spacing@, p);
    let ghost bs = scan_boundaries(n, spacing@, p, scan_lower@, scan_upper@);
    let mut boundaries: Vec<HpFloat> = Vec::new();
    boundaries.push(scan_lower.clone());
    assert(vals(boundaries@) =~= seq![scan_lower@] + poles_between(
        n,
        spacing@,
        p,
        scan_lower@,
        scan_upper@,
        0,
    ));
    let mut i: usize = 0;
    while i < xi.len()
        invariant
            i <= xi.len(),
            precision_bits >= 1,
            weights_fit(xi@.len(), n_modes as nat),
            n == n_modes,
            p == precision_bits,
            boundaries.len() <= i + 1,
            xi.len() < usize::MAX - 2,
            vals(boundaries@) == seq![scan_lower@] + poles_between(
                n,
                spacing@,
                p,
                scan_lower@,
                scan_upper@,
                i as nat,
            ),
        decreases xi.len() - i,
    {
        let mode: i64 = i as i64 - n_modes as i64;
        let q: HpFloat = spacing.times(&HpFloat::from_i64(precision_bits, mode));
        let ghost before = boundaries@;
        if scan_lower.lt(&q) && q.lt(scan_upper) {
            boundaries.push(q);
            assert(vals(boundaries@) =~= vals(before).push(q@));
        }
        i = i + 1;
        assert(vals(boundaries@) =~= seq![scan_lower@] + poles_between(
            n,
            spacing@,
            p,
            scan_lower@,
            scan_upper@,
            i as nat,
        ));
    }
    let ghost before = boundaries@;
    boundaries.push(scan_upper.clone());
    assert(vals(boundaries@) =~= bs);
    let margin_fraction: HpFloat = HpFloat::power_of_two(precision_bits, -64);
    let mut roots: Vec<HpFloat> = Vec::new();
    assert(vals(roots@) =~= Seq::<HpValue>::empty());
    let count: usize = boundaries.len() - 1;
    let mut k: usize = 0;
    while k < count
        invariant
            k <= count,
            count + 1 == boundaries.len(),
            precision_bits >= 1,
            weights_fit(xi@.len(), n_modes as nat),
            n == n_modes,
            p == precision_bits,
            f == secular_fn(vals(xi@), n, spacing@, p),
            bs == vals(boundaries@),
            margin_fraction@ == hp_pow2(p, -64),
            scan_intervals(f, bs, margin_fraction@, scan_lower@, scan_upper@, k as nat) == Some(
                vals(roots@),
            ),
            !scan_upper@.le(scan_lower@),
            discovered(vals(xi@), n, spacing@, scan_lower@, scan_upper@, p) == scan_intervals(
                f,
                bs,
                margin_fraction@,
                scan_lower@,
                scan_upper@,
                count as nat,
            ),
        decreases count - k,
    {
        assert(bs[k as int] == boundaries@[k as int]@);
        assert(bs[k + 1] == boundaries@[k + 1]@);
        let more: Vec<HpFloat> = match discover_secular_roots_in_interval_hp(
            xi,
            n_modes,
            spacing,
            &boundaries[k],
            &boundaries[k + 1],
            &margin_fraction,
            precision_bits,
        ) {
            Ok(v) => v,
            Err(e) => {
                proof {
                    lemma_scan_undefined(
                        f,
                        bs,
                        margin_fraction@,
                        scan_lower@,
                        scan_upper@,
                        (k + 1) as nat,
                        count as nat,
                    );
                }
                return Err(e);
            },
        };
        let ghost found = vals(roots@);
        let mut j: usize = 0;
        while j < more.len()
            invariant
                j <= more.len(),
                vals(roots@) == merge_rising(
                    found,
                    vals(more@),
                    scan_lower@,
                    scan_upper@,
                    j as nat,
                ),
            decreases more.len() - j,
        {
            if scan_lower.lt(&more[j]) && more[j].lt(scan_upper) {
                push_if_rising(&mut roots, more[j].clone());
            }
            j = j + 1;
        }
        k = k + 1;
    }
    proof {
        law_discovered_roots_rise_inside_scan(
            f,
            bs,
            margin_fraction@,
            scan_lower@,
            scan_upper@,
            count as nat,
        );
    }
    Ok(roots)
}

/// Once undefined, a scan stays undefined.
proof fn lemma_scan_undefined(
    f: spec_fn(HpValue) -> Option<HpValue>,
    boundaries: Seq<HpValue>,
    margin_fraction: HpValue,
    lower: HpValue,
    upper: HpValue,
    count: nat,
    total: nat,
)
    requires
        count <= total,
        scan_intervals(f, boundaries, margin_fraction, lower, upper, count) is None,
    ensures
        scan_intervals(f, boundaries, margin_fraction, lower, upper, total) is None,
    decreases total,
{
    if count < total {
        lemma_scan_undefined(
            f,
            boundaries,
            margin_fraction,
            lower,
            upper,
            count,
            (total - 1) as nat,
        );
    }
}

/// Positive roots up to a height.
pub fn discover_secular_roots_hp(
    xi: &Vec<HpFloat>,
    n_modes: usize,
    spacing: &HpFloat,
    scan_upper: &HpFloat,
    precision_bits: u32,
) -> (r: Result<Vec<HpFloat>, CcmError>)
    requires
        precision_bits >= 1,
        weights_fit(xi@.len(), n_modes as nat),
        xi.len() < usize::MAX - 2,
    ensures
        discovery_result(
            r,
            vals(xi@),
            n_modes as int,
            spacing@,
            hp_int(precision_bits as nat, 0),
            scan_upper@,
            precision_bits as nat,
        ),
{
    discover_secular_roots_hp_range(
        xi,
        n_modes,
        spacing,
        &HpFloat::zero(precision_bits),
        scan_upper,
        precision_bits,
    )
}

/// The lower limit of a scan on both sides of zero.
pub open spec fn mirrored_height(height: HpValue, p: nat) -> HpValue {
    height.at(p).times(hp_word(-1))
}

/// Roots on both sides of zero up to a height.
pub fn discover_secular_roots_hp_signed(
    xi: &Vec<HpFloat>,
    n_modes: usize,
    spacing: &HpFloat,
    scan_height: &HpFloat,
    precision_bits: u32,
) -> (r: Result<Vec<HpFloat>, CcmError>)
    requires
        precision_bits >= 1,
        weights_fit(xi@.len(), n_modes as nat),
        xi.len() < usize::MAX - 2,
    ensures
        discovery_result(
            r,
            vals(xi@),
            n_modes as int,
            spacing@,
            mirrored_height(scan_height@, precision_bits as nat),
            scan_height@,
            precision_bits as nat,
        ),
{
    let lower: HpFloat = scan_height.at(precision_bits).times_int(-1);
    discover_secular_roots_hp_range(xi, n_modes, spacing, &lower, scan_height, precision_bits)
}

/// What a discovery between two limits returns.
pub open spec fn discovery_result(
    r: Result<Vec<HpFloat>, CcmError>,
    xi: Seq<HpValue>,
    n: int,
    spacing: HpValue,
    lower: HpValue,
    upper: HpValue,
    p: nat,
) -> bool {
    match r {
        Ok(v) => {
            &&& !upper.le(lower)
            &&& discovered(xi, n, spacing, lower, upper, p) == Some(vals(v@))
            &&& rising(vals(v@))
            &&& strictly_between(vals(v@), lower, upper)
        },
        Err(e) => if upper.le(lower) {
            e.refuses("independent HP discovery requires a nonempty scan interval"@)
        } else {
            &&& discovered(xi, n, spacing, lower, upper, p) is None
            &&& e.refuses("independent HP discovery evaluated a secular pole"@)
        },
    }
}

} // verus!
