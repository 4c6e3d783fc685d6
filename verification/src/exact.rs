//! Forms of an exact lambda-squared with the evidence of their assembly, and the solver input of
//! a request for their low modes.

use crate::assembly::{assemble_tau_components, combined_form, ComputedCcmMatrixComponents};
use crate::config::{ExactLambdaSquaredHp, HighPrecConfig};
use crate::error::CcmError;
use crate::float::HpFloat;
use crate::matrix::{force_symmetric, symmetrized, vals};
use crate::primes::{lists_prime_powers, prime_powers_up_to, PrimePowerContent};
use crate::rounding::hp_word;
use crate::route::AssuranceLevel;
use crate::text::{number_text, push_number};
use vstd::prelude::*;
use vstd::string::*;

verus! {

/// What a form was assembled from.
#[derive(Debug)]
pub struct CcmHpAssemblyEvidence {
    pub lambda_squared: ExactLambdaSquaredHp,
    pub n_modes: usize,
    pub precision_bits: u32,
    pub prime_content: Vec<PrimePowerContent>,
}

/// A form with the evidence of its assembly.
#[derive(Debug)]
pub struct ExactCcmWeilFormHp {
    pub matrix: Vec<HpFloat>,
    pub evidence: CcmHpAssemblyEvidence,
}

/// Refuses a lambda-squared that is not positive.
pub fn check_lambda_squared(value: &HpFloat) -> (r: Result<(), CcmError>)
    ensures
        match r {
            Ok(_) => !value@.le(hp_word(0)),
            Err(e) => value@.le(hp_word(0)) && e.refuses("lambda-squared must be positive"@),
        },
{
    if value.le(&HpFloat::from_i64(64, 0)) {
        return Err(CcmError::refused("lambda-squared must be positive"));
    }
    Ok(())
}

/// The localized Weil form of an exact lambda-squared, from its components: combined, then made
/// exactly symmetric. Its evidence lists every prime power up to the cutoff, or none where primes
/// are left out.
pub fn localized_weil_form_exact_hp(
    lambda_squared: ExactLambdaSquaredHp,
    n_modes: usize,
    cfg: &HighPrecConfig,
    include_primes: bool,
    components: &ComputedCcmMatrixComponents,
) -> (r: ExactCcmWeilFormHp)
    requires
        cfg.precision_bits >= 1,
        2 * n_modes + 1 <= usize::MAX,
        components.pole@.len() == (2 * n_modes + 1) * (2 * n_modes + 1),
        components.archimedean.len() == components.pole.len(),
        components.prime.len() == components.pole.len(),
    ensures
        vals(r.matrix@) == symmetrized(
            combined_form(
                vals(components.pole@),
                vals(components.archimedean@),
                vals(components.prime@),
                cfg.precision_bits as nat,
            ),
            2 * n_modes + 1,
        ),
        r.evidence.lambda_squared == lambda_squared,
        r.evidence.n_modes == n_modes,
        r.evidence.precision_bits == cfg.precision_bits,
        include_primes ==> lists_prime_powers(
            r.evidence.prime_content@,
            lambda_squared.prime_cutoff as int,
        ),
        !include_primes ==> r.evidence.prime_content@.len() == 0,
{
    let mut matrix: Vec<HpFloat> = assemble_tau_components(components, cfg.precision_bits);
    assert(vals(matrix@).len() == components.pole@.len());
    force_symmetric(&mut matrix, 2 * n_modes + 1);
    let prime_content: Vec<PrimePowerContent> = if include_primes {
        prime_powers_up_to(lambda_squared.prime_cutoff)
    } else {
        Vec::new()
    };
    let precision_bits: u32 = cfg.precision_bits;
    ExactCcmWeilFormHp {
        matrix,
        evidence: CcmHpAssemblyEvidence { lambda_squared, n_modes, precision_bits, prime_content },
    }
}

/// A request for the low modes of a form.
#[derive(Clone, Copy, Debug, PartialEq, Eq, Structural)]
pub struct CcmLowModeSolverRequest {
    pub matrix_dimension: usize,
    pub requested_modes: usize,
    pub assurance: AssuranceLevel,
    pub matrix_materialized: bool,
}

/// What a solver planner is asked.
#[derive(Clone, Copy, Debug, PartialEq, Eq, Structural)]
pub struct SolverInput {
    /// Whether the entries of the matrix are at hand.
    pub dense: bool,
    pub dimension: usize,
    pub requested_eigenpairs: usize,
    /// The target is the smallest magnitude, always.
    pub smallest_magnitude: bool,
    pub assurance: AssuranceLevel,
    pub matrix_materialized: bool,
    pub generalized: bool,
}

/// Turns requests for low modes into solver input.
#[derive(Clone, Copy, Debug)]
pub struct CcmLowModeSolverPlanner;

impl CcmLowModeSolverPlanner {
    /// The domain of the planner.
    pub fn domain_id(&self) -> (r: &'static str)
        ensures
            r@ == "ccm_weil_low_modes"@,
    {
        "ccm_weil_low_modes"
    }

    /// The solver input of a request: an ordinary eigenproblem for the smallest magnitudes.
    pub fn solver_input(&self, request: &CcmLowModeSolverRequest) -> (r: SolverInput)
        ensures
            r == (SolverInput {
                dense: request.matrix_materialized,
                dimension: request.matrix_dimension,
                requested_eigenpairs: request.requested_modes,
                smallest_magnitude: true,
                assurance: request.assurance,
                matrix_materialized: request.matrix_materialized,
                generalized: false,
            }),
    {
        SolverInput {
            dense: request.matrix_materialized,
            dimension: request.matrix_dimension,
            requested_eigenpairs: request.requested_modes,
            smallest_magnitude: true,
            assurance: request.assurance,
            matrix_materialized: request.matrix_materialized,
            generalized: false,
        }
    }

    /// Why the modes are asked for together.
    pub fn planning_rationale(&self, request: &CcmLowModeSolverRequest) -> (r: String)
        ensures
            r@ == "CCM requests "@ + number_text(request.requested_modes as nat)
                + " low-magnitude Weil modes together so guard-space ambiguity is visible"@,
    {
        let mut t: String = "CCM requests ".to_owned();
        push_number(&mut t, request.requested_modes as u64);
        t.append(" low-magnitude Weil modes together so guard-space ambiguity is visible");
        t
    }
}

} // verus!
