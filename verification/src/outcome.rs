//! Root outcomes with their diagnostics, and the result of a run.

use crate::config::GUARD_BITS;
use crate::float::HpFloat;
use crate::refine::{RootSearch, RootStatus, SearchOutcome};
use crate::rounding::{hp_int, hp_word, HpValue};
use vstd::prelude::*;

verus! {

/// Diagnostics kept with every root value.
#[derive(Debug)]
pub struct RootRefinementDiagnostics {
    pub iterations: usize,
    pub final_correction: HpFloat,
    pub residual: HpFloat,
    pub achieved_decimal_digits: HpFloat,
}

/// A root value with its stopping diagnostics.
#[derive(Debug)]
pub struct RootRefinement {
    pub value: HpFloat,
    pub diagnostics: RootRefinementDiagnostics,
}

/// Status of one root refinement.
#[derive(Debug)]
pub enum EigenvalueResult {
    Converged(RootRefinement),
    Stagnated(RootRefinement),
    Approximate(RootRefinement),
    Failed { iterations: usize, reason: String },
}

/// The numbers of a root refinement.
pub struct RefinementView {
    pub value: HpValue,
    pub iterations: nat,
    pub final_correction: HpValue,
    pub residual: HpValue,
    pub achieved_decimal_digits: HpValue,
}

/// Status of one root refinement, as mathematics.
pub enum OutcomeView {
    Valued { status: RootStatus, refinement: RefinementView },
    Failed { iterations: nat, reason: Seq<char> },
}

impl View for RootRefinement {
    type V = RefinementView;

    open spec fn view(&self) -> RefinementView {
        RefinementView {
            value: self.value@,
            iterations: self.diagnostics.iterations as nat,
            final_correction: self.diagnostics.final_correction@,
            residual: self.diagnostics.residual@,
            achieved_decimal_digits: self.diagnostics.achieved_decimal_digits@,
        }
    }
}

impl View for EigenvalueResult {
    type V = OutcomeView;

    open spec fn view(&self) -> OutcomeView {
        match self {
            EigenvalueResult::Converged(x) => OutcomeView::Valued {
                status: RootStatus::Converged,
                refinement: x@,
            },
            EigenvalueResult::Stagnated(x) => OutcomeView::Valued {
                status: RootStatus::Stagnated,
                refinement: x@,
            },
            EigenvalueResult::Approximate(x) => OutcomeView::Valued {
                status: RootStatus::Approximate,
                refinement: x@,
            },
            EigenvalueResult::Failed { iterations, reason } => OutcomeView::Failed {
                iterations: *iterations as nat,
                reason: reason@,
            },
        }
    }
}

/// The outcomes of a window.
pub open spec fn outcomes(s: Seq<EigenvalueResult>) -> Seq<OutcomeView> {
    Seq::new(s.len(), |i: int| s[i]@)
}

impl RootRefinement {
    /// A copy of the refinement.
    pub fn copied(&self) -> (r: RootRefinement)
        ensures
            r@ == self@,
    {
        RootRefinement {
            value: self.value.clone(),
            diagnostics: RootRefinementDiagnostics {
                iterations: self.diagnostics.iterations,
                final_correction: self.diagnostics.final_correction.clone(),
                residual: self.diagnostics.residual.clone(),
                achieved_decimal_digits: self.diagnostics.achieved_decimal_digits.clone(),
            },
        }
    }
}

impl EigenvalueResult {
    /// The root value, where there is one.
    pub fn value(&self) -> (r: Option<&HpFloat>)
        ensures
            r is Some == !(self is Failed),
            r matches Some(v) ==> self@->refinement.value == v@,
    {
        match self {
            EigenvalueResult::Converged(x) => Some(&x.value),
            EigenvalueResult::Stagnated(x) => Some(&x.value),
            EigenvalueResult::Approximate(x) => Some(&x.value),
            EigenvalueResult::Failed { .. } => None,
        }
    }

    pub fn is_converged(&self) -> (r: bool)
        ensures
            r == (self is Converged),
    {
        match self {
            EigenvalueResult::Converged(_) => true,
            _ => false,
        }
    }

    /// Whether a value is present; it need not have converged.
    pub fn has_value(&self) -> (r: bool)
        ensures
            r == !(self is Failed),
    {
        match self {
            EigenvalueResult::Failed { .. } => false,
            _ => true,
        }
    }

    /// A copy of the outcome.
    pub fn copied(&self) -> (r: EigenvalueResult)
        ensures
            r@ == self@,
    {
        match self {
            EigenvalueResult::Converged(x) => EigenvalueResult::Converged(x.copied()),
            EigenvalueResult::Stagnated(x) => EigenvalueResult::Stagnated(x.copied()),
            EigenvalueResult::Approximate(x) => EigenvalueResult::Approximate(x.copied()),
            EigenvalueResult::Failed { iterations, reason } => EigenvalueResult::Failed {
                iterations: *iterations,
                reason: reason.clone(),
            },
        }
    }
}

/// A correction relative to the larger of one and the magnitude of its point.
pub open spec fn relative(value: HpValue, correction: HpValue, p: nat) -> HpValue {
    let scale = if value.abs().lt(hp_word(1)) {
        hp_int(p, 1)
    } else {
        value.abs()
    };
    correction.abs().over(scale)
}

/// The argument of the logarithm that [`achieved_decimal_digits`] needs.
pub fn relative_correction(value: &HpFloat, correction: &HpFloat, prec: u32) -> (r: HpFloat)
    requires
        prec >= 1,
    ensures
        r@ == relative(value@, correction@, prec as nat),
{
    let magnitude: HpFloat = value.abs();
    let scale: HpFloat = if magnitude.lt(&HpFloat::from_i64(64, 1)) {
        HpFloat::from_u64(prec, 1)
    } else {
        magnitude
    };
    correction.abs().over(&scale)
}

/// Digits that the working precision is worth beyond its guard bits.
pub open spec fn digit_ceiling(log10_two: HpValue, p: nat) -> HpValue {
    log10_two.times(
        hp_word(
            if p > GUARD_BITS {
                p - GUARD_BITS
            } else {
                0
            },
        ),
    )
}

/// Decimal digits that a final correction is worth.
///
/// `log10_two` is the decimal logarithm of two and `log10_relative` that of
/// [`relative`], both as the caller computed them.
pub open spec fn digits_worth(
    value: HpValue,
    correction: HpValue,
    log10_two: HpValue,
    log10_relative: HpValue,
    p: nat,
) -> HpValue {
    let ceiling = digit_ceiling(log10_two, p);
    if correction.is_zero() {
        ceiling
    } else if hp_word(1).le(relative(value, correction, p)) {
        hp_int(p, 0)
    } else if ceiling.lt(log10_relative.negated()) {
        ceiling
    } else {
        log10_relative.negated()
    }
}

/// Decimal digits that a final correction is worth.
pub fn achieved_decimal_digits(
    value: &HpFloat,
    correction: &HpFloat,
    log10_two: &HpFloat,
    log10_relative: &HpFloat,
    prec: u32,
) -> (r: HpFloat)
    requires
        prec >= 1,
    ensures
        r@ == digits_worth(value@, correction@, log10_two@, log10_relative@, prec as nat),
{
    let spare: u64 = if prec > GUARD_BITS {
        (prec - GUARD_BITS) as u64
    } else {
        0
    };
    let ceiling: HpFloat = log10_two.times_word(spare);
    if correction.is_zero() {
        return ceiling;
    }
    let rel: HpFloat = relative_correction(value, correction, prec);
    if HpFloat::from_i64(64, 1).le(&rel) {
        return HpFloat::zero(prec);
    }
    let digits: HpFloat = log10_relative.negated();
    if ceiling.lt(&digits) {
        ceiling
    } else {
        digits
    }
}

/// A refinement outcome with its digits filled in.
pub open spec fn completed(
    s: SearchOutcome,
    log10_two: HpValue,
    log10_relative: HpValue,
    p: nat,
) -> OutcomeView {
    match s {
        SearchOutcome::Point(x) => OutcomeView::Valued {
            status: x.status,
            refinement: RefinementView {
                value: x.value,
                iterations: x.iterations,
                final_correction: x.final_correction,
                residual: x.residual,
                achieved_decimal_digits: digits_worth(
                    x.value,
                    x.final_correction,
                    log10_two,
                    log10_relative,
                    p,
                ),
            },
        },
        SearchOutcome::Failed { iterations, reason } => OutcomeView::Failed { iterations, reason },
    }
}

/// Fills the digits of a refinement in.
pub fn complete_search(
    search: RootSearch,
    log10_two: &HpFloat,
    log10_relative: &HpFloat,
    prec: u32,
) -> (r: EigenvalueResult)
    requires
        prec >= 1,
    ensures
        r@ == completed(search@, log10_two@, log10_relative@, prec as nat),
{
    match search {
        RootSearch::Failed { iterations, reason } => EigenvalueResult::Failed {
            iterations,
            reason,
        },
        RootSearch::Point(x) => {
            let digits: HpFloat = achieved_decimal_digits(
                &x.value,
                &x.final_correction,
                log10_two,
                log10_relative,
                prec,
            );
            let refinement: RootRefinement = RootRefinement {
                value: x.value,
                diagnostics: RootRefinementDiagnostics {
                    iterations: x.iterations,
                    final_correction: x.final_correction,
                    residual: x.residual,
                    achieved_decimal_digits: digits,
                },
            };
            match x.status {
                RootStatus::Converged => EigenvalueResult::Converged(refinement),
                RootStatus::Stagnated => EigenvalueResult::Stagnated(refinement),
                RootStatus::Approximate => EigenvalueResult::Approximate(refinement),
            }
        },
    }
}

/// The outcomes of a sequence of refinements.
pub open spec fn searches(s: Seq<RootSearch>) -> Seq<SearchOutcome> {
    Seq::new(s.len(), |i: int| s[i]@)
}

/// Length of a window once it ends with its first failure, if it has one.
pub open spec fn retained_len(s: Seq<SearchOutcome>, from: int) -> int
    decreases s.len() - from,
{
    if from < 0 || from >= s.len() {
        s.len() as int
    } else if s[from] is Failed {
        from + 1
    } else {
        retained_len(s, from + 1)
    }
}

/// A window cut after its first failure, which is kept: what follows a gap cannot be numbered.
pub fn retain_until_failure(window: Vec<RootSearch>) -> (r: Vec<RootSearch>)
    ensures
        searches(r@) == searches(window@).take(retained_len(searches(window@), 0)),
{
    let ghost s = searches(window@);
    let mut kept: Vec<RootSearch> = window;
    let mut i: usize = 0;
    while i < kept.len()
        invariant
            i <= kept.len(),
            s == searches(kept@),
            s == searches(window@),
            retained_len(s, 0) == retained_len(s, i as int),
        decreases kept.len() - i,
    {
        assert(s[i as int] == kept@[i as int]@);
        if !kept[i].has_value() {
            kept.truncate(i + 1);
            assert(searches(kept@) =~= s.take(i + 1));
            return kept;
        }
        i = i + 1;
    }
    assert(s.take(s.len() as int) =~= s);
    kept
}

/// A retained window fails nowhere but at its end, and a window without failures is kept whole.
pub proof fn law_retained_window_fails_only_last(s: Seq<SearchOutcome>, from: int)
    requires
        0 <= from <= s.len(),
        forall|i: int| 0 <= i < from ==> !(#[trigger] s[i] is Failed),
    ensures
        from <= retained_len(s, from) <= s.len(),
        forall|i: int| 0 <= i < retained_len(s, from) - 1 ==> !(#[trigger] s[i] is Failed),
        retained_len(s, from) < s.len() ==> s[retained_len(s, from) - 1] is Failed,
    decreases s.len() - from,
{
    if from < s.len() && !(s[from] is Failed) {
        law_retained_window_fails_only_last(s, from + 1);
    }
}

/// Outcome of the shifted refinement of an eigenstate.
#[derive(Clone, Copy, Debug, PartialEq, Eq, Structural)]
pub enum ShiftedRefinementOutcome {
    NotAttempted,
    Accepted,
    RejectedEigenvalueJump,
    Singular,
}

/// Stopping evidence of an eigenstate solve.
#[derive(Debug)]
pub struct InverseIterationDiagnostics {
    pub configured_step_limit: usize,
    pub unshifted_steps: usize,
    pub unshifted_converged: bool,
    pub final_relative_rayleigh_change: Option<HpFloat>,
    pub shifted_refinement: ShiftedRefinementOutcome,
    pub final_relative_residual_norm: HpFloat,
}

/// Stopping evidence, as mathematics.
pub struct DiagnosticsView {
    pub configured_step_limit: nat,
    pub unshifted_steps: nat,
    pub unshifted_converged: bool,
    pub change: Option<HpValue>,
    pub shifted_refinement: ShiftedRefinementOutcome,
    pub residual: HpValue,
}

impl View for InverseIterationDiagnostics {
    type V = DiagnosticsView;

    open spec fn view(&self) -> DiagnosticsView {
        DiagnosticsView {
            configured_step_limit: self.configured_step_limit as nat,
            unshifted_steps: self.unshifted_steps as nat,
            unshifted_converged: self.unshifted_converged,
            change: match self.final_relative_rayleigh_change {
                None => None,
                Some(v) => Some(v@),
            },
            shifted_refinement: self.shifted_refinement,
            residual: self.final_relative_residual_norm@,
        }
    }
}

impl InverseIterationDiagnostics {
    /// A copy of the evidence.
    pub fn copied(&self) -> (r: InverseIterationDiagnostics)
        ensures
            r@ == self@,
    {
        InverseIterationDiagnostics {
            configured_step_limit: self.configured_step_limit,
            unshifted_steps: self.unshifted_steps,
            unshifted_converged: self.unshifted_converged,
            final_relative_rayleigh_change: match &self.final_relative_rayleigh_change {
                None => None,
                Some(v) => Some(v.clone()),
            },
            shifted_refinement: self.shifted_refinement,
            final_relative_residual_norm: self.final_relative_residual_norm.clone(),
        }
    }
}

/// Result of a high-precision run.
#[derive(Debug)]
pub struct HighPrecResult {
    /// Outcomes of the requested root window, in order.
    pub eigenvalues_pos: Vec<EigenvalueResult>,
    /// One-based index of the first outcome.
    pub first_positive_root_index: usize,
    /// Smallest eigenvalue of the Weil form.
    pub weil_min_eigenvalue: HpFloat,
    /// Its eigenvector, normalized, in basis order with mode zero in the middle.
    pub xi: Vec<HpFloat>,
    pub inverse_iteration_diagnostics: InverseIterationDiagnostics,
    pub precision_bits: u32,
}

impl HighPrecResult {
    /// The roots of the requested window.
    pub fn spectral_roots(&self) -> (r: &Vec<EigenvalueResult>)
        ensures
            r@ == self.eigenvalues_pos@,
    {
        &self.eigenvalues_pos
    }

    /// First and last one-based root index.
    pub fn spectral_root_index_range(&self) -> (r: Option<(usize, usize)>)
        ensures
            r is Some == (self.eigenvalues_pos.len() > 0 && self.first_positive_root_index > 0
                && self.first_positive_root_index + self.eigenvalues_pos.len() - 1 <= usize::MAX),
            r matches Some(range) ==> range.0 == self.first_positive_root_index && range.1
                == self.first_positive_root_index + self.eigenvalues_pos.len() - 1,
    {
        if self.eigenvalues_pos.len() == 0 || self.first_positive_root_index == 0 {
            return None;
        }
        match self.first_positive_root_index.checked_add(self.eigenvalues_pos.len() - 1) {
            None => None,
            Some(last) => Some((self.first_positive_root_index, last)),
        }
    }
}

} // verus!
