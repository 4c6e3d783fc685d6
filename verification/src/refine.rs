//! Refinement of a secular root by Newton's or Halley's method, and its outcomes.

use crate::config::{RootSolver, GUARD_BITS, ROOT_STAGNATION_WINDOW};
use crate::float::HpFloat;
use crate::matrix::{accumulate, vals};
use crate::rounding::{hp_int, hp_pow2, hp_word, HpValue};
use crate::secular::{on_pole, pole_distance, secular_residual_at, secular_sum, secular_terms, weights_fit};
use vstd::prelude::*;

verus! {

/// How a refinement ended.
#[derive(Clone, Copy, Debug, PartialEq, Eq, Structural)]
pub enum RootStatus {
    /// The correction met the requested accuracy.
    Converged,
    /// The point stalled, cycled, or stopped improving.
    Stagnated,
    /// The iteration limit was reached.
    Approximate,
}

/// A refined point and its stopping evidence.
pub struct PointOutcome {
    pub status: RootStatus,
    pub value: HpValue,
    pub iterations: nat,
    pub final_correction: HpValue,
    pub residual: HpValue,
}

/// Outcome of a refinement, as mathematics.
pub enum SearchOutcome {
    Point(PointOutcome),
    Failed { iterations: nat, reason: Seq<char> },
}

/// Largest correction that counts as converged at a point: `2^-(p - 64)`, at least `2^-1`,
/// times the larger of one and the magnitude of the point.
pub open spec fn correction_tolerance(value: HpValue, p: nat) -> HpValue {
    let bits = if p > GUARD_BITS + 1 {
        p - GUARD_BITS
    } else {
        1
    };
    let scale = if value.abs().lt(hp_word(1)) {
        hp_int(p, 1)
    } else {
        value.abs()
    };
    hp_pow2(p, -bits).times(scale)
}

/// The terms `-xi_j / (z - pole_j)^2` of the derivative.
pub open spec fn slope_terms(xi: Seq<HpValue>, n: int, spacing: HpValue, z: HpValue, p: nat) -> spec_fn(
    int,
) -> HpValue {
    |i: int|
        {
            let d = pole_distance(n, spacing, z, p, i);
            xi[i].over(d.times(d)).negated()
        }
}

/// The terms `2 xi_j / (z - pole_j)^3` of the second derivative.
pub open spec fn curve_terms(xi: Seq<HpValue>, n: int, spacing: HpValue, z: HpValue, p: nat) -> spec_fn(
    int,
) -> HpValue {
    |i: int|
        {
            let d = pole_distance(n, spacing, z, p, i);
            xi[i].over(d.times(d).times(d)).times(hp_word(2))
        }
}

pub open spec fn secular_slope(xi: Seq<HpValue>, n: int, spacing: HpValue, z: HpValue, p: nat) -> HpValue {
    accumulate(hp_int(p, 0), slope_terms(xi, n, spacing, z, p), (2 * n + 1) as nat)
}

pub open spec fn secular_curve(xi: Seq<HpValue>, n: int, spacing: HpValue, z: HpValue, p: nat) -> HpValue {
    accumulate(hp_int(p, 0), curve_terms(xi, n, spacing, z, p), (2 * n + 1) as nat)
}

/// The correction of one step; `None` where its denominator vanishes.
///
/// Newton: `R / R'`. Halley: `2 R R' / (2 R'^2 - R R'')`.
pub open spec fn correction(
    method: RootSolver,
    xi: Seq<HpValue>,
    n: int,
    spacing: HpValue,
    z: HpValue,
    p: nat,
) -> Option<HpValue> {
    let r = secular_sum(xi, n, spacing, z, p);
    let slope = secular_slope(xi, n, spacing, z, p);
    match method {
        RootSolver::Newton => if slope.is_zero() {
            None
        } else {
            Some(r.over(slope))
        },
        RootSolver::Halley => {
            let denominator = slope.times(slope).times(hp_word(2)).minus(
                r.times(secular_curve(xi, n, spacing, z, p)),
            );
            if denominator.is_zero() {
                None
            } else {
                Some(r.times(slope).times(hp_word(2)).over(denominator))
            }
        },
    }
}

pub open spec fn vanishing_reason(method: RootSolver) -> Seq<char> {
    match method {
        RootSolver::Newton => "Newton derivative is zero"@,
        RootSolver::Halley => "Halley denominator is zero"@,
    }
}

pub open spec fn pole_reason(method: RootSolver, status: RootStatus) -> Seq<char> {
    match (method, status) {
        (RootSolver::Newton, RootStatus::Converged) => "Newton converged onto a secular pole"@,
        (RootSolver::Newton, RootStatus::Stagnated) => "Newton stagnated on a secular pole"@,
        (RootSolver::Newton, RootStatus::Approximate) => {
            "Newton iteration limit reached on a secular pole"@
        },
        (RootSolver::Halley, RootStatus::Converged) => "Halley converged onto a secular pole"@,
        (RootSolver::Halley, RootStatus::Stagnated) => "Halley stagnated on a secular pole"@,
        (RootSolver::Halley, RootStatus::Approximate) => {
            "Halley iteration limit reached on a secular pole"@
        },
    }
}

/// The outcome at a final point: a value with its residual, or a failure on a pole.
pub open spec fn concluded(
    method: RootSolver,
    xi: Seq<HpValue>,
    n: int,
    spacing: HpValue,
    p: nat,
    status: RootStatus,
    z: HpValue,
    iterations: nat,
    final_correction: HpValue,
) -> SearchOutcome {
    if on_pole(n, spacing, z, p) {
        SearchOutcome::Failed { iterations, reason: pole_reason(method, status) }
    } else {
        SearchOutcome::Point(
            PointOutcome {
                status,
                value: z,
                iterations,
                final_correction,
                residual: secular_sum(xi, n, spacing, z, p).abs(),
            },
        )
    }
}

/// What a refinement remembers between steps.
pub struct SearchState {
    pub z: HpValue,
    pub before: Option<HpValue>,
    pub last: HpValue,
    pub best: Option<HpValue>,
    pub stalled: nat,
}

/// A correction smaller than every earlier one.
pub open spec fn improves(best: Option<HpValue>, a: HpValue) -> bool {
    best is None || a.lt(best->0)
}

/// A refinement with `left` steps to go after `done` steps.
pub open spec fn search(
    method: RootSolver,
    xi: Seq<HpValue>,
    n: int,
    spacing: HpValue,
    p: nat,
    state: SearchState,
    done: nat,
    left: nat,
) -> SearchOutcome
    decreases left,
{
    if left == 0 {
        concluded(method, xi, n, spacing, p, RootStatus::Approximate, state.z, done, state.last)
    } else {
        match correction(method, xi, n, spacing, state.z, p) {
            None => SearchOutcome::Failed {
                iterations: done + 1,
                reason: vanishing_reason(method),
            },
            Some(dz) => {
                let z = state.z.minus(dz);
                let a = dz.abs();
                let stalled = if improves(state.best, a) {
                    0
                } else {
                    state.stalled + 1
                };
                if a.lt_abs(correction_tolerance(z, p)) {
                    concluded(method, xi, n, spacing, p, RootStatus::Converged, z, done + 1, a)
                } else if z.eqv(state.z) || (state.before is Some && state.before->0.eqv(z))
                    || stalled >= ROOT_STAGNATION_WINDOW {
                    concluded(method, xi, n, spacing, p, RootStatus::Stagnated, z, done + 1, a)
                } else {
                    search(
                        method,
                        xi,
                        n,
                        spacing,
                        p,
                        SearchState {
                            z,
                            before: Some(state.z),
                            last: a,
                            best: if improves(state.best, a) {
                                Some(a)
                            } else {
                                state.best
                            },
                            stalled,
                        },
                        done + 1,
                        (left - 1) as nat,
                    )
                }
            },
        }
    }
}

/// A refinement from a seed.
pub open spec fn refinement(
    method: RootSolver,
    xi: Seq<HpValue>,
    n: int,
    spacing: HpValue,
    seed: HpValue,
    p: nat,
    steps: nat,
) -> SearchOutcome {
    if steps == 0 {
        SearchOutcome::Failed { iterations: 0, reason: "root iteration limit must be positive"@ }
    } else {
        search(
            method,
            xi,
            n,
            spacing,
            p,
            SearchState { z: seed, before: None, last: hp_int(p, 0), best: None, stalled: 0 },
            0,
            steps,
        )
    }
}

/// A refined point and its stopping evidence, without the digits that it is worth.
#[derive(Debug)]
pub struct RefinedPoint {
    pub status: RootStatus,
    pub value: HpFloat,
    pub iterations: usize,
    pub final_correction: HpFloat,
    pub residual: HpFloat,
}

/// Outcome of a refinement.
#[derive(Debug)]
pub enum RootSearch {
    Point(RefinedPoint),
    Failed { iterations: usize, reason: String },
}

impl View for RootSearch {
    type V = SearchOutcome;

    open spec fn view(&self) -> SearchOutcome {
        match self {
            RootSearch::Point(x) => SearchOutcome::Point(
                PointOutcome {
                    status: x.status,
                    value: x.value@,
                    iterations: x.iterations as nat,
                    final_correction: x.final_correction@,
                    residual: x.residual@,
                },
            ),
            RootSearch::Failed { iterations, reason } => SearchOutcome::Failed {
                iterations: *iterations as nat,
                reason: reason@,
            },
        }
    }
}

impl RootSearch {
    /// The refined value, where there is one.
    pub fn value(&self) -> (r: Option<&HpFloat>)
        ensures
            r is Some == (self is Point),
            r matches Some(v) ==> self@->Point_0.value == v@,
    {
        match self {
            RootSearch::Point(x) => Some(&x.value),
            RootSearch::Failed { .. } => None,
        }
    }

    pub fn has_value(&self) -> (r: bool)
        ensures
            r == (self is Point),
    {
        match self {
            RootSearch::Point(_) => true,
            RootSearch::Failed { .. } => false,
        }
    }
}

/// Largest correction that counts as converged at a point.
pub fn root_correction_tolerance(value: &HpFloat, prec: u32) -> (r: HpFloat)
    requires
        prec >= 1,
    ensures
        r@ == correction_tolerance(value@, prec as nat),
{
    let bits: i64 = if prec > GUARD_BITS + 1 {
        (prec - GUARD_BITS) as i64
    } else {
        1
    };
    let magnitude: HpFloat = value.abs();
    let scale: HpFloat = if magnitude.lt(&HpFloat::from_i64(64, 1)) {
        HpFloat::from_u64(prec, 1)
    } else {
        magnitude
    };
    HpFloat::power_of_two(prec, -bits).times(&scale)
}

/// One correction of the point.
fn one_correction(
    method: RootSolver,
    xi: &Vec<HpFloat>,
    n_max: usize,
    two_pi_over_l: &HpFloat,
    z: &HpFloat,
    prec: u32,
) -> (r: Option<HpFloat>)
    requires
        prec >= 1,
        weights_fit(xi@.len(), n_max as nat),
    ensures
        match r {
            Some(v) => correction(
                method,
                vals(xi@),
                n_max as int,
                two_pi_over_l@,
                z@,
                prec as nat,
            ) == Some(v@),
            None => correction(
                method,
                vals(xi@),
                n_max as int,
                two_pi_over_l@,
                z@,
                prec as nat,
            ) is None,
        },
{
    let ghost n = n_max as int;
    let ghost p = prec as nat;
    let ghost w = vals(xi@);
    let mut r: HpFloat = HpFloat::zero(prec);
    let mut slope: HpFloat = HpFloat::zero(prec);
    let mut curve: HpFloat = HpFloat::zero(prec);
    let mut i: usize = 0;
    while i < xi.len()
        invariant
            i <= xi.len(),
            prec >= 1,
            weights_fit(xi@.len(), n_max as nat),
            n == n_max,
            p == prec,
            w == vals(xi@),
            r@ == accumulate(hp_int(p, 0), secular_terms(w, n, two_pi_over_l@, z@, p), i as nat),
            slope@ == accumulate(hp_int(p, 0), slope_terms(w, n, two_pi_over_l@, z@, p), i as nat),
            method is Halley ==> curve@ == accumulate(
                hp_int(p, 0),
                curve_terms(w, n, two_pi_over_l@, z@, p),
                i as nat,
            ),
        decreases xi.len() - i,
    {
        let mode: i64 = i as i64 - n_max as i64;
        let den: HpFloat = z.minus(&two_pi_over_l.times(&HpFloat::from_i64(prec, mode)));
        r = r.plus(&xi[i].over(&den));
        let den2: HpFloat = den.times(&den);
        slope = slope.minus(&xi[i].over(&den2));
        match method {
            RootSolver::Newton => {},
            RootSolver::Halley => {
                let den3: HpFloat = den2.times(&den);
                curve = curve.plus(&xi[i].over(&den3).times_int(2));
            },
        }
        i = i + 1;
    }
    match method {
        RootSolver::Newton => if slope.is_zero() {
            None
        } else {
            Some(r.over(&slope))
        },
        RootSolver::Halley => {
            let denominator: HpFloat = slope.times(&slope).times_int(2).minus(&r.times(&curve));
            if denominator.is_zero() {
                None
            } else {
                Some(r.times(&slope).times_int(2).over(&denominator))
            }
        },
    }
}

fn vanishing_text(method: RootSolver) -> (r: String)
    ensures
        r@ == vanishing_reason(method),
{
    match method {
        RootSolver::Newton => "Newton derivative is zero".to_owned(),
        RootSolver::Halley => "Halley denominator is zero".to_owned(),
    }
}

fn pole_text(method: RootSolver, status: RootStatus) -> (r: String)
    ensures
        r@ == pole_reason(method, status),
{
    match (method, status) {
        (RootSolver::Newton, RootStatus::Converged) => {
            "Newton converged onto a secular pole".to_owned()
        },
        (RootSolver::Newton, RootStatus::Stagnated) => {
            "Newton stagnated on a secular pole".to_owned()
        },
        (RootSolver::Newton, RootStatus::Approximate) => {
            "Newton iteration limit reached on a secular pole".to_owned()
        },
        (RootSolver::Halley, RootStatus::Converged) => {
            "Halley converged onto a secular pole".to_owned()
        },
        (RootSolver::Halley, RootStatus::Stagnated) => {
            "Halley stagnated on a secular pole".to_owned()
        },
        (RootSolver::Halley, RootStatus::Approximate) => {
            "Halley iteration limit reached on a secular pole".to_owned()
        },
    }
}

fn conclude(
    method: RootSolver,
    xi: &Vec<HpFloat>,
    n_max: usize,
    two_pi_over_l: &HpFloat,
    prec: u32,
    status: RootStatus,
    z: HpFloat,
    iterations: usize,
    final_correction: HpFloat,
) -> (r: RootSearch)
    requires
        prec >= 1,
        weights_fit(xi@.len(), n_max as nat),
    ensures
        r@ == concluded(
            method,
            vals(xi@),
            n_max as int,
            two_pi_over_l@,
            prec as nat,
            status,
            z@,
            iterations as nat,
            final_correction@,
        ),
{
    match secular_residual_at(xi, n_max, two_pi_over_l, &z, prec) {
        Some(residual) => RootSearch::Point(
            RefinedPoint { status, value: z, iterations, final_correction, residual },
        ),
        None => RootSearch::Failed { iterations, reason: pole_text(method, status) },
    }
}

/// Refines a seed; `two_pi_over_l` is the distance between neighbouring poles.
pub fn solve_r_zero(
    xi: &Vec<HpFloat>,
    n_max: usize,
    two_pi_over_l: &HpFloat,
    seed: &HpFloat,
    prec: u32,
    n_steps: usize,
    method: RootSolver,
) -> (r: RootSearch)
    requires
        prec >= 1,
        weights_fit(xi@.len(), n_max as nat),
    ensures
        r@ == refinement(
            method,
            vals(xi@),
            n_max as int,
            two_pi_over_l@,
            seed@,
            prec as nat,
            n_steps as nat,
        ),
{
    if n_steps == 0 {
        return RootSearch::Failed {
            iterations: 0,
            reason: "root iteration limit must be positive".to_owned(),
        };
    }
    let ghost goal = refinement(
        method,
        vals(xi@),
        n_max as int,
        two_pi_over_l@,
        seed@,
        prec as nat,
        n_steps as nat,
    );
    let mut z: HpFloat = seed.clone();
    let mut before: Option<HpFloat> = None;
    let mut last: HpFloat = HpFloat::zero(prec);
    let mut best: Option<HpFloat> = None;
    let mut stalled: usize = 0;
    let mut done: usize = 0;
    while done < n_steps
        invariant
            done <= n_steps,
            prec >= 1,
            weights_fit(xi@.len(), n_max as nat),
            stalled < ROOT_STAGNATION_WINDOW,
            goal == refinement(
                method,
                vals(xi@),
                n_max as int,
                two_pi_over_l@,
                seed@,
                prec as nat,
                n_steps as nat,
            ),
            goal == search(
                method,
                vals(xi@),
                n_max as int,
                two_pi_over_l@,
                prec as nat,
                SearchState {
                    z: z@,
                    before: optional(before),
                    last: last@,
                    best: optional(best),
                    stalled: stalled as nat,
                },
                done as nat,
                (n_steps - done) as nat,
            ),
        decreases n_steps - done,
    {
        let dz: HpFloat = match one_correction(method, xi, n_max, two_pi_over_l, &z, prec) {
            Some(v) => v,
            None => {
                return RootSearch::Failed { iterations: done + 1, reason: vanishing_text(method) };
            },
        };
        let next: HpFloat = z.minus(&dz);
        let a: HpFloat = dz.abs();
        let better: bool = match &best {
            None => true,
            Some(b) => a.lt(b),
        };
        let stalled_now: usize = if better {
            0
        } else {
            stalled + 1
        };
        if a.lt_abs(&root_correction_tolerance(&next, prec)) {
            return conclude(
                method,
                xi,
                n_max,
                two_pi_over_l,
                prec,
                RootStatus::Converged,
                next,
                done + 1,
                a,
            );
        }
        let cycles: bool = match &before {
            None => false,
            Some(b) => b.eqv(&next),
        };
        if next.eqv(&z) || cycles || stalled_now >= ROOT_STAGNATION_WINDOW {
            return conclude(
                method,
                xi,
                n_max,
                two_pi_over_l,
                prec,
                RootStatus::Stagnated,
                next,
                done + 1,
                a,
            );
        }
        if better {
            best = Some(a.clone());
        }
        last = a;
        stalled = stalled_now;
        before = Some(z);
        z = next;
        done = done + 1;
    }
    conclude(method, xi, n_max, two_pi_over_l, prec, RootStatus::Approximate, z, n_steps, last)
}

pub open spec fn optional(x: Option<HpFloat>) -> Option<HpValue> {
    match x {
        None => None,
        Some(v) => Some(v@),
    }
}

/// Distance between neighbouring poles, `2 pi / L`.
pub fn pole_spacing(pi: &HpFloat, l: &HpFloat) -> (r: HpFloat)
    ensures
        r@ == spacing_of(pi@, l@),
{
    pi.times_int(2).over(l)
}

pub open spec fn spacing_of(pi: HpValue, l: HpValue) -> HpValue {
    pi.times(hp_word(2)).over(l)
}

/// Newton's method from a seed.
pub fn newton_xi_hat_zero(
    xi: &Vec<HpFloat>,
    n_max: usize,
    pi: &HpFloat,
    l: &HpFloat,
    seed: &HpFloat,
    prec: u32,
    n_steps: usize,
) -> (r: RootSearch)
    requires
        prec >= 1,
        weights_fit(xi@.len(), n_max as nat),
    ensures
        r@ == refinement(
            RootSolver::Newton,
            vals(xi@),
            n_max as int,
            spacing_of(pi@, l@),
            seed@,
            prec as nat,
            n_steps as nat,
        ),
{
    let spacing: HpFloat = pole_spacing(pi, l);
    solve_r_zero(xi, n_max, &spacing, seed, prec, n_steps, RootSolver::Newton)
}

/// Halley's method from a seed.
pub fn halley_xi_hat_zero(
    xi: &Vec<HpFloat>,
    n_max: usize,
    pi: &HpFloat,
    l: &HpFloat,
    seed: &HpFloat,
    prec: u32,
    n_steps: usize,
) -> (r: RootSearch)
    requires
        prec >= 1,
        weights_fit(xi@.len(), n_max as nat),
    ensures
        r@ == refinement(
            RootSolver::Halley,
            vals(xi@),
            n_max as int,
            spacing_of(pi@, l@),
            seed@,
            prec as nat,
            n_steps as nat,
        ),
{
    let spacing: HpFloat = pole_spacing(pi, l);
    solve_r_zero(xi, n_max, &spacing, seed, prec, n_steps, RootSolver::Halley)
}

/// A refinement never runs past its limit, a converged point meets the tolerance, a stagnated one
/// and one that ran out of steps do not, and a point that was given a value is no pole.
///
/// Where no step is left to take, the last correction is that of the state that was handed in.
pub proof fn law_refinement_outcome_is_honest(
    method: RootSolver,
    xi: Seq<HpValue>,
    n: int,
    spacing: HpValue,
    p: nat,
    state: SearchState,
    done: nat,
    left: nat,
)
    ensures
        match search(method, xi, n, spacing, p, state, done, left) {
            SearchOutcome::Point(x) => {
                &&& done <= x.iterations <= done + left
                &&& left > 0 ==> done < x.iterations
                &&& !on_pole(n, spacing, x.value, p)
                &&& x.residual == secular_sum(xi, n, spacing, x.value, p).abs()
                &&& x.status is Converged ==> x.final_correction.lt_abs(
                    correction_tolerance(x.value, p),
                )
                &&& x.status is Stagnated ==> !x.final_correction.lt_abs(
                    correction_tolerance(x.value, p),
                )
                &&& x.status is Approximate && (left > 0 || !state.last.lt_abs(
                    correction_tolerance(state.z, p),
                )) ==> !x.final_correction.lt_abs(correction_tolerance(x.value, p))
                &&& x.status is Approximate ==> x.iterations == done + left
            },
            SearchOutcome::Failed { iterations, reason } => done <= iterations <= done + left,
        },
    decreases left,
{
    if left > 0 {
        let c = correction(method, xi, n, spacing, state.z, p);
        if c is Some {
            let dz = c->0;
            let z = state.z.minus(dz);
            let a = dz.abs();
            let stalled = if improves(state.best, a) {
                0
            } else {
                state.stalled + 1
            };
            let next = SearchState {
                z,
                before: Some(state.z),
                last: a,
                best: if improves(state.best, a) {
                    Some(a)
                } else {
                    state.best
                },
                stalled,
            };
            law_refinement_outcome_is_honest(
                method,
                xi,
                n,
                spacing,
                p,
                next,
                done + 1,
                (left - 1) as nat,
            );
        }
    }
}

/// A point refined from a seed has converged exactly where its last correction meets the
/// tolerance; a stagnated or approximate point does not meet it.
pub proof fn law_status_tells_the_tolerance(
    method: RootSolver,
    xi: Seq<HpValue>,
    n: int,
    spacing: HpValue,
    seed: HpValue,
    p: nat,
    steps: nat,
)
    ensures
        refinement(method, xi, n, spacing, seed, p, steps) matches SearchOutcome::Point(x) ==> {
            &&& x.status is Converged <==> x.final_correction.lt_abs(
                correction_tolerance(x.value, p),
            )
            &&& 1 <= x.iterations <= steps
        },
{
    if steps > 0 {
        law_refinement_outcome_is_honest(
            method,
            xi,
            n,
            spacing,
            p,
            SearchState { z: seed, before: None, last: hp_int(p, 0), best: None, stalled: 0 },
            0,
            steps,
        );
    }
}

} // verus!
