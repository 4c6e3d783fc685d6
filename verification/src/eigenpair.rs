//! Stored eigenpairs: what they record, what a reading has to pass, and which of them can start
//! a solve at a larger mode count.

use crate::config::{
    decoded_parity, lambda_squared_cache_identity, payload_parity_matches, CcmEigenstateSolver,
    CcmParams, CcmParityPolicy, HighPrecConfig,
};
use crate::eigvec_cache::{relative_residual, relative_residual_norm, residual_holds, residual_ok};
use crate::error::CcmError;
use crate::float::HpFloat;
use crate::lexical::{law_texts_are_ordered, order_texts, text_order};
use crate::limbs::Order;
use crate::matrix::{accumulate, flat_index, lemma_build_ends, lemma_extend, vals};
use crate::outcome::{DiagnosticsView, InverseIterationDiagnostics, ShiftedRefinementOutcome};
use crate::payload::{
    diagnostics_of, read_all, readings, scalars, HpScalar, PortableInverseIterationDiagnostics,
    ScalarView,
};
use crate::rounding::{class_order, hp_int, hp_word, HpValue};
use crate::sector::{continuation_seed, embedded_even_continuation_seed};
use crate::text::{
    chars_of, number_of_text, number_string, number_text, parse_number, push_number, starts_with,
    text_equal, text_starts_with,
};
use vstd::prelude::*;
use vstd::string::*;

verus! {

/// Stored stopping evidence of a shift-invert Krylov solve.
#[derive(Debug)]
pub struct PortableShiftInvertKrylovDiagnostics {
    pub algorithm_semantics: String,
    pub factorization_id: String,
    pub requested_eigenpairs: usize,
    pub guard_eigenpairs: usize,
    pub maximum_subspace_dimension: usize,
    pub maximum_restarts: usize,
    pub restarts: usize,
    pub shifted_solves: usize,
    pub operator_applications: usize,
    pub status: String,
    pub maximum_ritz_value_stability: HpScalar,
    pub final_scaled_backward_error: HpScalar,
    pub final_relative_tau_residual: HpScalar,
    pub seed_identity: String,
}

/// A stored eigenpair.
#[derive(Debug)]
pub struct PortableWeilEigenpair {
    pub schema_version: u32,
    pub lambda_squared: String,
    pub n_modes: usize,
    pub precision_bits: u32,
    pub force_even: bool,
    pub parity_policy: Option<CcmParityPolicy>,
    pub eigenstate_route: String,
    pub eigenvalue: HpScalar,
    pub eigenvector: Vec<HpScalar>,
    pub inverse_iteration: PortableInverseIterationDiagnostics,
    pub shift_invert_krylov: Option<PortableShiftInvertKrylovDiagnostics>,
}

/// The route that a record without one was written by.
pub fn legacy_eigenstate_route_name() -> (r: String)
    ensures
        r@ == CcmEigenstateSolver::LegacyInverseIteration.label(),
{
    "legacy_inverse_iteration".to_owned()
}

/// Whether a route is the one that records leave out.
pub fn is_legacy_eigenstate_route(value: &String) -> (r: bool)
    ensures
        r == (value@ == CcmEigenstateSolver::LegacyInverseIteration.label()),
{
    text_equal(value.as_str(), "legacy_inverse_iteration")
}

/// Schema of the records of a route.
pub open spec fn pair_schema(solver: CcmEigenstateSolver) -> u32 {
    if solver is ShiftInvertKrylov {
        3
    } else {
        2
    }
}

/// Whether a stored eigenpair is the one that a reader asks for.
pub open spec fn pair_identity_holds(
    a: PortableWeilEigenpair,
    params: CcmParams,
    cfg: HighPrecConfig,
) -> bool {
    &&& a.schema_version == pair_schema(cfg.eigenstate_solver)
    &&& a.lambda_squared@ == params.identity()
    &&& a.n_modes == params.n_modes
    &&& a.precision_bits == cfg.precision_bits
    &&& decoded_parity(a.force_even, a.parity_policy) == Some(cfg.parity())
    &&& a.eigenstate_route@ == cfg.eigenstate_solver.label()
    &&& a.eigenvector@.len() == 2 * params.n_modes + 1
}

/// The dimension that a Krylov subspace may reach.
pub open spec fn subspace_limit(params: CcmParams, cfg: HighPrecConfig) -> int {
    if cfg.krylov_subspace_dimension <= params.n_modes + 1 {
        cfg.krylov_subspace_dimension as int
    } else {
        params.n_modes + 1
    }
}

/// The dimension that a Krylov subspace may reach.
pub fn krylov_subspace_limit(params: &CcmParams, cfg: &HighPrecConfig) -> (r: usize)
    requires
        params.n_modes < usize::MAX,
    ensures
        r == subspace_limit(*params, *cfg),
{
    if cfg.krylov_subspace_dimension <= params.n_modes + 1 {
        cfg.krylov_subspace_dimension
    } else {
        params.n_modes + 1
    }
}

/// Refuses a subspace that cannot hold the requested pair and the guard block.
pub fn check_krylov_subspace(params: &CcmParams, cfg: &HighPrecConfig) -> (r: Result<
    usize,
    CcmError,
>)
    requires
        params.n_modes < usize::MAX,
    ensures
        match r {
            Ok(d) => d == subspace_limit(*params, *cfg) && d > 1 + cfg.krylov_guard_eigenpairs,
            Err(e) => subspace_limit(*params, *cfg) <= 1 + cfg.krylov_guard_eigenpairs && e.rejects(
                "CCM Krylov subspace must exceed the requested plus guard block"@,
            ),
        },
{
    let limit: usize = krylov_subspace_limit(params, cfg);
    if limit <= 1 || limit - 1 <= cfg.krylov_guard_eigenpairs {
        return Err(
            CcmError::invalid("CCM Krylov subspace must exceed the requested plus guard block"),
        );
    }
    Ok(limit)
}

/// How a Krylov solve of the even sector is set up; the tolerance holds for residuals, backward
/// errors, Ritz values and the boundary of the block alike.
#[derive(Clone, Copy, Debug, PartialEq, Eq, Structural)]
pub struct KrylovSettings {
    pub requested_eigenpairs: usize,
    pub guard_eigenpairs: usize,
    pub maximum_subspace_dimension: usize,
    pub maximum_restarts: usize,
    pub minimum_restarts: usize,
    pub maximum_projected_sweeps: usize,
}

/// How a Krylov solve is set up: one pair beside the guard block, at least two restarts, and a
/// bounded number of projected sweeps. Refuses a subspace that cannot hold the block.
pub fn krylov_settings(params: &CcmParams, cfg: &HighPrecConfig) -> (r: Result<
    KrylovSettings,
    CcmError,
>)
    requires
        params.n_modes < usize::MAX,
    ensures
        match r {
            Ok(k) => subspace_limit(*params, *cfg) > 1 + cfg.krylov_guard_eigenpairs && k == (
            KrylovSettings {
                requested_eigenpairs: 1,
                guard_eigenpairs: cfg.krylov_guard_eigenpairs,
                maximum_subspace_dimension: subspace_limit(*params, *cfg) as usize,
                maximum_restarts: cfg.krylov_maximum_restarts,
                minimum_restarts: 2,
                maximum_projected_sweeps: 256,
            }),
            Err(e) => subspace_limit(*params, *cfg) <= 1 + cfg.krylov_guard_eigenpairs && e.rejects(
                "CCM Krylov subspace must exceed the requested plus guard block"@,
            ),
        },
{
    match check_krylov_subspace(params, cfg) {
        Err(e) => Err(e),
        Ok(maximum_subspace_dimension) => Ok(
            KrylovSettings {
                requested_eigenpairs: 1,
                guard_eigenpairs: cfg.krylov_guard_eigenpairs,
                maximum_subspace_dimension,
                maximum_restarts: cfg.krylov_maximum_restarts,
                minimum_restarts: 2,
                maximum_projected_sweeps: 256,
            },
        ),
    }
}

/// A metric that a scalar reads as, or the words of its rejection.
pub open spec fn metric(s: ScalarView, name: Seq<char>) -> Result<HpValue, Seq<char>> {
    match s.reading {
        Ok(v) => Ok(v),
        Err(m) => Err("CCM Krylov "@ + name + " is not a valid HP scalar: "@ + m),
    }
}

fn read_metric(s: &HpScalar, name: &str) -> (r: Result<HpFloat, CcmError>)
    ensures
        match r {
            Ok(v) => metric(s@, name@) == Ok::<HpValue, Seq<char>>(v@),
            Err(e) => e is InvalidManifest && metric(s@, name@) == Err::<HpValue, Seq<char>>(
                e.text(),
            ),
        },
{
    match &s.reading {
        Ok(v) => Ok(v.clone()),
        Err(m) => {
            let mut t: String = "CCM Krylov ".to_owned();
            t.append(name);
            t.append(" is not a valid HP scalar: ");
            t.append(m.as_str());
            Err(CcmError::InvalidManifest(t))
        },
    }
}

/// A finite value that is not negative.
pub open spec fn is_metric(v: HpValue) -> bool {
    v.is_finite() && !v.lt(hp_word(0))
}

fn holds_metric(v: &HpFloat) -> (r: bool)
    ensures
        r == is_metric(v@),
{
    v.is_finite() && !v.lt(&HpFloat::from_i64(64, 0))
}

/// Whether Krylov evidence agrees with the configuration, its metrics aside.
pub open spec fn krylov_counts_hold(
    k: PortableShiftInvertKrylovDiagnostics,
    params: CcmParams,
    cfg: HighPrecConfig,
) -> bool {
    &&& k.algorithm_semantics@
        == "ccm_even_zero_shift_thick_restart_shift_invert_krylov_rayleigh_ritz_v1"@
    &&& k.status@ == "converged"@
    &&& k.requested_eigenpairs == 1
    &&& k.guard_eigenpairs == cfg.krylov_guard_eigenpairs
    &&& k.maximum_subspace_dimension == subspace_limit(params, cfg)
    &&& k.maximum_restarts == cfg.krylov_maximum_restarts
    &&& 0 < k.restarts <= k.maximum_restarts
    &&& k.shifted_solves > 0
    &&& k.operator_applications > 0
}

/// Why the evidence of a solver route is rejected; `None` where it holds.
pub open spec fn route_rejection(
    a: PortableWeilEigenpair,
    params: CcmParams,
    cfg: HighPrecConfig,
    diagnostics: DiagnosticsView,
) -> Option<Seq<char>> {
    if cfg.eigenstate_solver is ShiftInvertKrylov {
        match a.shift_invert_krylov {
            None => Some("CCM Krylov eigenpair omits its route-specific stopping evidence"@),
            Some(k) => {
                let residual = metric(k.final_relative_tau_residual@, "Tau residual"@);
                let backward = metric(k.final_scaled_backward_error@, "backward error"@);
                let stability = metric(k.maximum_ritz_value_stability@, "Ritz stability"@);
                if residual is Err {
                    Some(residual->Err_0)
                } else if backward is Err {
                    Some(backward->Err_0)
                } else if stability is Err {
                    Some(stability->Err_0)
                } else if !krylov_counts_hold(k, params, cfg) || !is_metric(residual->Ok_0)
                    || !is_metric(backward->Ok_0) || !is_metric(stability->Ok_0) {
                    Some("CCM Krylov eigenpair has invalid or mismatched stopping evidence"@)
                } else {
                    None
                }
            },
        }
    } else if diagnostics.configured_step_limit != cfg.inverse_iter_steps
        || a.shift_invert_krylov is Some {
        Some("CCM Weil eigenpair uses incompatible inverse-iteration evidence"@)
    } else {
        None
    }
}

fn check_route(
    a: &PortableWeilEigenpair,
    params: &CcmParams,
    cfg: &HighPrecConfig,
    diagnostics: &InverseIterationDiagnostics,
) -> (r: Result<(), CcmError>)
    requires
        params.n_modes < usize::MAX,
    ensures
        match r {
            Ok(_) => route_rejection(*a, *params, *cfg, diagnostics@) is None,
            Err(e) => e is InvalidManifest && route_rejection(*a, *params, *cfg, diagnostics@)
                == Some(e.text()),
        },
{
    match cfg.eigenstate_solver {
        CcmEigenstateSolver::ShiftInvertKrylov => match &a.shift_invert_krylov {
            None => Err(
                CcmError::invalid(
                    "CCM Krylov eigenpair omits its route-specific stopping evidence",
                ),
            ),
            Some(k) => {
                let residual: HpFloat = match read_metric(
                    &k.final_relative_tau_residual,
                    "Tau residual",
                ) {
                    Ok(v) => v,
                    Err(e) => {
                        return Err(e);
                    },
                };
                let backward: HpFloat = match read_metric(
                    &k.final_scaled_backward_error,
                    "backward error",
                ) {
                    Ok(v) => v,
                    Err(e) => {
                        return Err(e);
                    },
                };
                let stability: HpFloat = match read_metric(
                    &k.maximum_ritz_value_stability,
                    "Ritz stability",
                ) {
                    Ok(v) => v,
                    Err(e) => {
                        return Err(e);
                    },
                };
                if !text_equal(
                    k.algorithm_semantics.as_str(),
                    "ccm_even_zero_shift_thick_restart_shift_invert_krylov_rayleigh_ritz_v1",
                ) || !text_equal(k.status.as_str(), "converged") || k.requested_eigenpairs != 1
                    || k.guard_eigenpairs != cfg.krylov_guard_eigenpairs
                    || k.maximum_subspace_dimension != krylov_subspace_limit(params, cfg)
                    || k.maximum_restarts != cfg.krylov_maximum_restarts || k.restarts == 0
                    || k.restarts > k.maximum_restarts || k.shifted_solves == 0
                    || k.operator_applications == 0 || !holds_metric(&residual) || !holds_metric(
                    &backward,
                ) || !holds_metric(&stability) {
                    Err(
                        CcmError::invalid(
                            "CCM Krylov eigenpair has invalid or mismatched stopping evidence",
                        ),
                    )
                } else {
                    Ok(())
                }
            },
        },
        _ => if diagnostics.configured_step_limit != cfg.inverse_iter_steps
            || a.shift_invert_krylov.is_some() {
            Err(
                CcmError::invalid("CCM Weil eigenpair uses incompatible inverse-iteration evidence"),
            )
        } else {
            Ok(())
        },
    }
}

/// A read eigenpair, as mathematics.
pub struct PairReading {
    pub eigenvalue: HpValue,
    pub eigenvector: Seq<HpValue>,
    pub diagnostics: DiagnosticsView,
}

/// A read eigenpair.
#[derive(Debug)]
pub struct WeilEigenpair {
    pub eigenvalue: HpFloat,
    pub eigenvector: Vec<HpFloat>,
    pub diagnostics: InverseIterationDiagnostics,
}

impl View for WeilEigenpair {
    type V = PairReading;

    open spec fn view(&self) -> PairReading {
        PairReading {
            eigenvalue: self.eigenvalue@,
            eigenvector: vals(self.eigenvector@),
            diagnostics: self.diagnostics@,
        }
    }
}

pub open spec fn pair_scalar_words() -> Seq<char> {
    "CCM Weil eigenpair contains an invalid HP scalar: "@
}

/// Why the residual of a read eigenpair is rejected; `None` where it holds.
///
/// `replayed_text` is the text of the replayed residual.
pub open spec fn residual_rejection(
    a: PortableWeilEigenpair,
    pair: PairReading,
    tau: Seq<HpValue>,
    dim: int,
    p: nat,
    replayed_text: Seq<char>,
) -> Option<Seq<char>> {
    let replayed = relative_residual(tau, dim, pair.eigenvector, pair.eigenvalue, p);
    if !residual_holds(tau, dim, pair.eigenvector, pair.eigenvalue, p) {
        Some("CCM Weil eigenpair failed its tau residual validation"@)
    } else if !replayed->0.eqv(pair.diagnostics.residual) {
        Some("CCM Weil eigenpair stopping evidence does not match its replayed Tau residual"@)
    } else if a.shift_invert_krylov is Some && replayed_text
        != a.shift_invert_krylov->0.final_relative_tau_residual@.text {
        Some("CCM Krylov full-Tau replay does not match its stored stopping evidence"@)
    } else {
        None
    }
}

/// What reading a stored eigenpair gives.
pub open spec fn pair_reading(
    a: PortableWeilEigenpair,
    params: CcmParams,
    cfg: HighPrecConfig,
    tau: Seq<HpValue>,
    replayed_text: Seq<char>,
) -> Result<PairReading, Seq<char>> {
    let entries = readings(pair_scalar_words(), scalars(a.eigenvector@), a.eigenvector@.len());
    let diagnostics = diagnostics_of(a.inverse_iteration@);
    if !pair_identity_holds(a, params, cfg) {
        Err("CCM Weil eigenpair payload does not match its semantic identity"@)
    } else if a.eigenvalue@.reading is Err {
        Err(pair_scalar_words() + a.eigenvalue@.reading->Err_0)
    } else if entries is Err {
        Err(entries->Err_0)
    } else if diagnostics is Err {
        Err(diagnostics->Err_0)
    } else if route_rejection(a, params, cfg, diagnostics->Ok_0) is Some {
        Err(route_rejection(a, params, cfg, diagnostics->Ok_0)->0)
    } else {
        let pair = PairReading {
            eigenvalue: a.eigenvalue@.reading->Ok_0,
            eigenvector: entries->Ok_0,
            diagnostics: diagnostics->Ok_0,
        };
        match residual_rejection(
            a,
            pair,
            tau,
            2 * params.n_modes + 1,
            cfg.precision_bits as nat,
            replayed_text,
        ) {
            Some(words) => Err(words),
            None => Ok(pair),
        }
    }
}

/// Reads a stored eigenpair and replays its residual against the full form.
///
/// `replayed_text` is the text of the replayed residual.
pub fn decode_weil_eigenpair(
    artifact: &PortableWeilEigenpair,
    params: &CcmParams,
    cfg: &HighPrecConfig,
    tau: &Vec<HpFloat>,
    replayed_text: &str,
) -> (r: Result<WeilEigenpair, CcmError>)
    requires
        cfg.precision_bits >= 1,
        2 * params.n_modes + 1 <= usize::MAX,
        !(cfg.eigenstate_solver is Auto),
    ensures
        match r {
            Ok(v) => pair_reading(*artifact, *params, *cfg, vals(tau@), replayed_text@) == Ok::<
                PairReading,
                Seq<char>,
            >(v@),
            Err(e) => e is InvalidManifest && pair_reading(
                *artifact,
                *params,
                *cfg,
                vals(tau@),
                replayed_text@,
            ) == Err::<PairReading, Seq<char>>(e.text()),
        },
{
    let prec: u32 = cfg.precision_bits;
    let dim: usize = params.matrix_size();
    let schema: u32 = match cfg.eigenstate_solver {
        CcmEigenstateSolver::ShiftInvertKrylov => 3,
        _ => 2,
    };
    let identity: String = lambda_squared_cache_identity(params);
    if artifact.schema_version != schema || !text_equal(
        artifact.lambda_squared.as_str(),
        identity.as_str(),
    ) || artifact.n_modes != params.n_modes || artifact.precision_bits != prec
        || !payload_parity_matches(
        artifact.force_even,
        artifact.parity_policy,
        cfg.effective_parity_policy(),
    ) || !text_equal(artifact.eigenstate_route.as_str(), cfg.eigenstate_solver.as_str())
        || artifact.eigenvector.len() != dim {
        return Err(
            CcmError::invalid("CCM Weil eigenpair payload does not match its semantic identity"),
        );
    }
    let eigenvalue: HpFloat = match &artifact.eigenvalue.reading {
        Ok(v) => v.clone(),
        Err(m) => {
            let mut t: String = "CCM Weil eigenpair contains an invalid HP scalar: ".to_owned();
            t.append(m.as_str());
            return Err(CcmError::InvalidManifest(t));
        },
    };
    let eigenvector: Vec<HpFloat> = match read_all(
        "CCM Weil eigenpair contains an invalid HP scalar: ",
        &artifact.eigenvector,
    ) {
        Ok(v) => v,
        Err(e) => {
            return Err(e);
        },
    };
    let diagnostics: InverseIterationDiagnostics = match artifact.inverse_iteration.to_runtime() {
        Ok(v) => v,
        Err(e) => {
            return Err(e);
        },
    };
    match check_route(artifact, params, cfg, &diagnostics) {
        Err(e) => {
            return Err(e);
        },
        Ok(_) => {},
    }
    if !residual_ok(tau, dim, &eigenvector, &eigenvalue, prec) {
        return Err(CcmError::invalid("CCM Weil eigenpair failed its tau residual validation"));
    }
    let agrees: bool = match relative_residual_norm(tau, dim, &eigenvector, &eigenvalue, prec) {
        Some(v) => v.eqv(&diagnostics.final_relative_residual_norm),
        None => false,
    };
    if !agrees {
        return Err(
            CcmError::invalid(
                "CCM Weil eigenpair stopping evidence does not match its replayed Tau residual",
            ),
        );
    }
    match &artifact.shift_invert_krylov {
        None => {},
        Some(k) => {
            if !text_equal(replayed_text, k.final_relative_tau_residual.text.as_str()) {
                return Err(
                    CcmError::invalid(
                        "CCM Krylov full-Tau replay does not match its stored stopping evidence",
                    ),
                );
            }
        },
    }
    Ok(WeilEigenpair { eigenvalue, eigenvector, diagnostics })
}

/// An eigenpair that is read solves its form to the residual that the precision allows, and its
/// evidence states that residual.
pub proof fn law_read_pair_solves_its_form(
    a: PortableWeilEigenpair,
    params: CcmParams,
    cfg: HighPrecConfig,
    tau: Seq<HpValue>,
    replayed_text: Seq<char>,
)
    requires
        pair_reading(a, params, cfg, tau, replayed_text) is Ok,
    ensures
        ({
            let pair = pair_reading(a, params, cfg, tau, replayed_text)->Ok_0;
            let dim = 2 * params.n_modes + 1;
            let p = cfg.precision_bits as nat;
            &&& residual_holds(tau, dim, pair.eigenvector, pair.eigenvalue, p)
            &&& relative_residual(
                tau,
                dim,
                pair.eigenvector,
                pair.eigenvalue,
                p,
            )->0.eqv(pair.diagnostics.residual)
        }),
{
}

proof fn lemma_same_value_agrees(x: HpValue)
    requires
        !x.is_nan(),
    ensures
        x.eqv(x),
{
    reveal(class_order);
}

proof fn lemma_values_read(words: Seq<char>, s: Seq<ScalarView>, v: Seq<HpValue>, n: nat)
    requires
        n <= s.len(),
        s.len() == v.len(),
        forall|i: int| 0 <= i < s.len() ==> (#[trigger] s[i]).reading == Ok::<HpValue, Seq<char>>(v[i]),
    ensures
        readings(words, s, n) == Ok::<Seq<HpValue>, Seq<char>>(v.take(n as int)),
    decreases n,
{
    if n > 0 {
        lemma_values_read(words, s, v, (n - 1) as nat);
        assert(v.take(n as int) =~= v.take(n - 1).push(v[n - 1]));
    } else {
        assert(v.take(0) =~= Seq::<HpValue>::empty());
    }
}

/// A record of an eigenpair that solves its form, with evidence of its route, reads back as the
/// pair that was recorded.
pub proof fn law_recorded_pair_reads_back(
    a: PortableWeilEigenpair,
    params: CcmParams,
    cfg: HighPrecConfig,
    tau: Seq<HpValue>,
    replayed_text: Seq<char>,
    pair: PairReading,
)
    requires
        pair_identity_holds(a, params, cfg),
        a.eigenvalue@.reading == Ok::<HpValue, Seq<char>>(pair.eigenvalue),
        pair.eigenvector.len() == a.eigenvector@.len(),
        forall|i: int|
            0 <= i < a.eigenvector@.len() ==> (#[trigger] scalars(a.eigenvector@)[i]).reading == Ok::<
                HpValue,
                Seq<char>,
            >(pair.eigenvector[i]),
        diagnostics_of(a.inverse_iteration@) == Ok::<DiagnosticsView, Seq<char>>(pair.diagnostics),
        route_rejection(a, params, cfg, pair.diagnostics) is None,
        residual_holds(
            tau,
            2 * params.n_modes + 1,
            pair.eigenvector,
            pair.eigenvalue,
            cfg.precision_bits as nat,
        ),
        relative_residual(
            tau,
            2 * params.n_modes + 1,
            pair.eigenvector,
            pair.eigenvalue,
            cfg.precision_bits as nat,
        ) == Some(pair.diagnostics.residual),
        a.shift_invert_krylov is Some ==> replayed_text
            == a.shift_invert_krylov->0.final_relative_tau_residual@.text,
    ensures
        pair_reading(a, params, cfg, tau, replayed_text) == Ok::<PairReading, Seq<char>>(pair),
{
    lemma_values_read(
        pair_scalar_words(),
        scalars(a.eigenvector@),
        pair.eigenvector,
        a.eigenvector@.len(),
    );
    assert(pair.eigenvector.take(pair.eigenvector.len() as int) =~= pair.eigenvector);
    reveal(class_order);
    lemma_same_value_agrees(pair.diagnostics.residual);
}

/// The record of a computed eigenpair.
pub fn portable_weil_eigenpair(
    params: &CcmParams,
    cfg: &HighPrecConfig,
    eigenvalue: HpScalar,
    eigenvector: Vec<HpScalar>,
    inverse_iteration: PortableInverseIterationDiagnostics,
    shift_invert_krylov: Option<PortableShiftInvertKrylovDiagnostics>,
) -> (r: PortableWeilEigenpair)
    ensures
        r == (PortableWeilEigenpair {
            schema_version: if shift_invert_krylov is Some {
                3
            } else {
                2
            },
            lambda_squared: r.lambda_squared,
            n_modes: params.n_modes,
            precision_bits: cfg.precision_bits,
            force_even: cfg.parity().forces_even(),
            parity_policy: cfg.parity().marker(),
            eigenstate_route: r.eigenstate_route,
            eigenvalue,
            eigenvector,
            inverse_iteration,
            shift_invert_krylov,
        }),
        r.lambda_squared@ == params.identity(),
        r.eigenstate_route@ == cfg.eigenstate_solver.label(),
{
    let policy: CcmParityPolicy = cfg.effective_parity_policy();
    let schema_version: u32 = if shift_invert_krylov.is_some() {
        3
    } else {
        2
    };
    PortableWeilEigenpair {
        schema_version,
        lambda_squared: lambda_squared_cache_identity(params),
        n_modes: params.n_modes,
        precision_bits: cfg.precision_bits,
        force_even: policy.legacy_force_even(),
        parity_policy: policy.portable_marker(),
        eigenstate_route: cfg.eigenstate_solver.as_str().to_owned(),
        eigenvalue,
        eigenvector,
        inverse_iteration,
        shift_invert_krylov,
    }
}

/// The record of a computed Krylov solve, with the residual of its pair on the full form.
pub fn portable_krylov_evidence(
    cfg: &HighPrecConfig,
    report: &KrylovReport,
    stability_text: String,
    backward_text: String,
    residual: HpScalar,
    seed_identity: String,
) -> (r: PortableShiftInvertKrylovDiagnostics)
    ensures
        r.algorithm_semantics@
            == "ccm_even_zero_shift_thick_restart_shift_invert_krylov_rayleigh_ritz_v1"@,
        r.factorization_id@ == report.factorization_id@,
        r.requested_eigenpairs == report.requested_eigenpairs,
        r.guard_eigenpairs == cfg.krylov_guard_eigenpairs,
        r.maximum_subspace_dimension == report.maximum_subspace_dimension,
        r.maximum_restarts == cfg.krylov_maximum_restarts,
        r.restarts == report.restarts,
        r.shifted_solves == report.shifted_solves,
        r.operator_applications == report.operator_applications,
        r.status@ == "converged"@,
        r.maximum_ritz_value_stability@ == (ScalarView {
            text: stability_text@,
            reading: Ok(report.maximum_ritz_value_stability@),
        }),
        r.final_scaled_backward_error@ == (ScalarView {
            text: backward_text@,
            reading: Ok(report.scaled_backward_error@),
        }),
        r.final_relative_tau_residual == residual,
        r.seed_identity == seed_identity,
{
    PortableShiftInvertKrylovDiagnostics {
        algorithm_semantics:
            "ccm_even_zero_shift_thick_restart_shift_invert_krylov_rayleigh_ritz_v1".to_owned(),
        factorization_id: report.factorization_id.clone(),
        requested_eigenpairs: report.requested_eigenpairs,
        guard_eigenpairs: cfg.krylov_guard_eigenpairs,
        maximum_subspace_dimension: report.maximum_subspace_dimension,
        maximum_restarts: cfg.krylov_maximum_restarts,
        restarts: report.restarts,
        shifted_solves: report.shifted_solves,
        operator_applications: report.operator_applications,
        status: "converged".to_owned(),
        maximum_ritz_value_stability: HpScalar::written(
            stability_text,
            &report.maximum_ritz_value_stability,
        ),
        final_scaled_backward_error: HpScalar::written(
            backward_text,
            &report.scaled_backward_error,
        ),
        final_relative_tau_residual: residual,
        seed_identity,
    }
}

/// How a Krylov solve ended.
#[derive(Debug)]
pub struct KrylovReport {
    pub converged: bool,
    /// Whether the block of wanted values touches a cluster at its boundary.
    pub boundary_cluster: bool,
    pub retained_eigenpairs: usize,
    pub factorization_id: String,
    pub requested_eigenpairs: usize,
    pub maximum_subspace_dimension: usize,
    pub restarts: usize,
    pub shifted_solves: usize,
    pub operator_applications: usize,
    pub maximum_ritz_value_stability: HpFloat,
    /// Backward error of the first retained pair; zero where none was retained.
    pub scaled_backward_error: HpFloat,
}

/// Whether a Krylov solve found one target beyond doubt.
pub open spec fn unambiguous(report: KrylovReport) -> bool {
    report.converged && !report.boundary_cluster && report.retained_eigenpairs > 0
}

/// Whether a Krylov solve found one target beyond doubt.
pub fn krylov_target_is_unambiguous(report: &KrylovReport) -> (r: bool)
    ensures
        r == unambiguous(*report),
{
    report.converged && !report.boundary_cluster && report.retained_eigenpairs > 0
}

pub open spec fn at_least_one(n: nat) -> nat {
    if n == 0 {
        1
    } else {
        n
    }
}

/// The steps that a Krylov solve counts as, within `usize`.
pub open spec fn krylov_steps(report: KrylovReport) -> nat {
    let product = report.maximum_subspace_dimension as nat * at_least_one(report.restarts as nat);
    if product > usize::MAX {
        usize::MAX as nat
    } else {
        product
    }
}

/// The evidence of a Krylov solve in the terms of an inverse iteration.
pub fn krylov_inverse_compatibility_diagnostics(report: &KrylovReport) -> (r:
    InverseIterationDiagnostics)
    ensures
        r@ == (DiagnosticsView {
            configured_step_limit: krylov_steps(*report),
            unshifted_steps: if report.shifted_solves <= krylov_steps(*report) {
                report.shifted_solves as nat
            } else {
                krylov_steps(*report)
            },
            unshifted_converged: report.converged,
            change: Some(report.maximum_ritz_value_stability@),
            shifted_refinement: ShiftedRefinementOutcome::Accepted,
            residual: report.scaled_backward_error@,
        }),
{
    let restarts: usize = if report.restarts == 0 {
        1
    } else {
        report.restarts
    };
    let limit: usize = match report.maximum_subspace_dimension.checked_mul(restarts) {
        Some(v) => v,
        None => usize::MAX,
    };
    InverseIterationDiagnostics {
        configured_step_limit: limit,
        unshifted_steps: if report.shifted_solves <= limit {
            report.shifted_solves
        } else {
            limit
        },
        unshifted_converged: report.converged,
        final_relative_rayleigh_change: Some(report.maximum_ritz_value_stability.clone()),
        shifted_refinement: ShiftedRefinementOutcome::Accepted,
        final_relative_residual_norm: report.scaled_backward_error.clone(),
    }
}

/// Digits of the stopping tolerance of a Krylov solve: those of the precision less 24 bits, and
/// twelve at least.
pub open spec fn krylov_digits(precision_bits: nat) -> nat {
    let bits = if precision_bits > 24 {
        precision_bits - 24
    } else {
        0
    };
    let digits = bits * 30_103 / 100_000;
    if digits > 12 {
        digits as nat
    } else {
        12
    }
}

/// The stopping tolerance of a Krylov solve, as a decimal text.
///
/// It is a little stricter than the residual that a reading is held to.
pub fn krylov_tolerance(precision_bits: u32) -> (r: String)
    ensures
        r@ == "1e-"@ + number_text(krylov_digits(precision_bits as nat)),
{
    let bits: u64 = if precision_bits > 24 {
        (precision_bits - 24) as u64
    } else {
        0
    };
    let digits: u64 = bits * 30_103 / 100_000;
    let mut t: String = "1e-".to_owned();
    push_number(
        &mut t,
        if digits > 12 {
            digits
        } else {
            12
        },
    );
    t
}

/// The opening words of the one failure of a Krylov solve that another route may mend.
pub open spec fn retryable_words() -> Seq<char> {
    "CCM shift-invert Krylov did not produce an unambiguous converged target:"@
}

/// Whether a failure of an automatic solve is retried on the other route.
///
/// `invalid_transition` holds the words of the causes that report a transition.
pub fn is_retryable_auto_krylov_failure(invalid_transition: &Vec<String>) -> (r: bool)
    ensures
        r == exists|i: int|
            0 <= i < invalid_transition@.len() && starts_with(
                #[trigger] invalid_transition@[i]@,
                retryable_words(),
            ),
{
    let mut i: usize = 0;
    while i < invalid_transition.len()
        invariant
            i <= invalid_transition.len(),
            forall|k: int|
                0 <= k < i ==> !starts_with(#[trigger] invalid_transition@[k]@, retryable_words()),
        decreases invalid_transition.len() - i,
    {
        if text_starts_with(
            invalid_transition[i].as_str(),
            "CCM shift-invert Krylov did not produce an unambiguous converged target:",
        ) {
            return true;
        }
        i = i + 1;
    }
    false
}

/// Why a borrowed matrix cannot be applied.
#[derive(Clone, Copy, Debug, PartialEq, Eq, Structural)]
pub struct DimensionMismatch {
    pub expected: usize,
    pub actual: usize,
}

/// A dense symmetric matrix, applied row by row at its own precision.
pub struct BorrowedDenseSymmetricHp<'a> {
    pub dimension: usize,
    pub entries: &'a Vec<HpFloat>,
    pub precision_bits: u32,
}

/// Products of a row with a vector, each entry taken at the precision first.
pub open spec fn applied_products(
    m: Seq<HpValue>,
    v: Seq<HpValue>,
    dim: int,
    row: int,
    p: nat,
) -> spec_fn(int) -> HpValue {
    |j: int| m[row * dim + j].at(p).times(v[j])
}

/// The product of a matrix with a vector.
pub open spec fn applied(m: Seq<HpValue>, v: Seq<HpValue>, dim: int, p: nat) -> Seq<HpValue> {
    Seq::new(
        dim as nat,
        |row: int| accumulate(hp_int(p, 0), applied_products(m, v, dim, row, p), dim as nat),
    )
}

impl<'a> BorrowedDenseSymmetricHp<'a> {
    /// The product with a vector, for an output of the given length.
    pub fn apply(&self, x: &Vec<HpFloat>, output_len: usize) -> (r: Result<
        Vec<HpFloat>,
        DimensionMismatch,
    >)
        requires
            self.precision_bits >= 1,
            self.entries.len() == self.dimension * self.dimension,
        ensures
            match r {
                Ok(y) => x.len() == self.dimension && output_len == self.dimension && vals(y@)
                    == applied(
                    vals(self.entries@),
                    vals(x@),
                    self.dimension as int,
                    self.precision_bits as nat,
                ),
                Err(e) => e.expected == self.dimension && e.actual != self.dimension && e.actual
                    == if x.len() != self.dimension {
                    x.len()
                } else {
                    output_len
                },
            },
    {
        let dim: usize = self.dimension;
        let p: u32 = self.precision_bits;
        if x.len() != dim {
            return Err(DimensionMismatch { expected: dim, actual: x.len() });
        }
        if output_len != dim {
            return Err(DimensionMismatch { expected: dim, actual: output_len });
        }
        let ghost goal = applied(vals(self.entries@), vals(x@), dim as int, p as nat);
        let mut y: Vec<HpFloat> = Vec::with_capacity(dim);
        proof {
            lemma_build_ends(goal);
        }
        let mut row: usize = 0;
        while row < dim
            invariant
                row <= dim,
                p >= 1,
                p == self.precision_bits,
                dim == self.dimension,
                self.entries.len() == dim * dim,
                x.len() == dim,
                y.len() == row,
                goal == applied(vals(self.entries@), vals(x@), dim as int, p as nat),
                vals(y@) == goal.take(row as int),
            decreases dim - row,
        {
            let ghost f = applied_products(
                vals(self.entries@),
                vals(x@),
                dim as int,
                row as int,
                p as nat,
            );
            let mut sum: HpFloat = HpFloat::zero(p);
            let mut j: usize = 0;
            while j < dim
                invariant
                    j <= dim,
                    row < dim,
                    p >= 1,
                    self.entries.len() == dim * dim,
                    x.len() == dim,
                    f == applied_products(
                        vals(self.entries@),
                        vals(x@),
                        dim as int,
                        row as int,
                        p as nat,
                    ),
                    sum@ == accumulate(hp_int(p as nat, 0), f, j as nat),
                decreases dim - j,
            {
                let k: usize = flat_index(dim, row, j, self.entries.len());
                sum = sum.plus(&self.entries[k].at(p).times(&x[j]));
                assert(f(j as int) == vals(self.entries@)[k as int].at(p as nat).times(
                    vals(x@)[j as int],
                ));
                j = j + 1;
            }
            proof {
                lemma_extend(y@, sum, goal);
            }
            y.push(sum);
            row = row + 1;
        }
        proof {
            lemma_build_ends(goal);
        }
        Ok(y)
    }
}

/// Refuses a solve with retained factors at another precision or with other sizes.
pub fn check_shifted_solve(
    precision_bits: u32,
    dimension: usize,
    working_precision_bits: u32,
    right_hand_side_len: usize,
    output_len: usize,
) -> (r: Result<(), CcmError>)
    ensures
        match r {
            Ok(_) => working_precision_bits == precision_bits && right_hand_side_len == dimension
                && output_len == dimension,
            Err(e) => !(working_precision_bits == precision_bits && right_hand_side_len
                == dimension && output_len == dimension) && e.refuses(
                "retained CCM LU solve has incompatible precision or dimensions"@,
            ),
        },
{
    if working_precision_bits != precision_bits || right_hand_side_len != dimension || output_len
        != dimension {
        return Err(
            CcmError::refused("retained CCM LU solve has incompatible precision or dimensions"),
        );
    }
    Ok(())
}

/// The fields of a text between separators.
pub open spec fn fields(s: Seq<char>, separator: char) -> Seq<Seq<char>>
    decreases s.len(),
{
    if s.len() == 0 {
        seq![Seq::<char>::empty()]
    } else {
        let before = fields(s.drop_last(), separator);
        if s.last() == separator {
            before.push(Seq::<char>::empty())
        } else {
            before.drop_last().push(before.last().push(s.last()))
        }
    }
}

/// The fields of a text between separators, as ranges of its characters.
fn field_ranges(chars: &Vec<char>, separator: char) -> (r: Vec<(usize, usize)>)
    ensures
        r@.len() == fields(chars@, separator).len(),
        forall|i: int|
            0 <= i < r@.len() ==> (#[trigger] r@[i]).0 <= r@[i].1 <= chars.len() && chars@.subrange(
                r@[i].0 as int,
                r@[i].1 as int,
            ) == fields(chars@, separator)[i],
{
    let mut out: Vec<(usize, usize)> = Vec::new();
    let mut start: usize = 0;
    let mut i: usize = 0;
    assert(chars@.take(0) =~= Seq::<char>::empty());
    while i < chars.len()
        invariant
            start <= i <= chars.len(),
            out@.len() + 1 == fields(chars@.take(i as int), separator).len(),
            forall|k: int|
                0 <= k < out@.len() ==> (#[trigger] out@[k]).0 <= out@[k].1 <= chars.len()
                    && chars@.subrange(out@[k].0 as int, out@[k].1 as int) == fields(
                    chars@.take(i as int),
                    separator,
                )[k],
            fields(chars@.take(i as int), separator).last() == chars@.subrange(
                start as int,
                i as int,
            ),
        decreases chars.len() - i,
    {
        let ghost now = fields(chars@.take(i as int), separator);
        let ghost next = fields(chars@.take(i + 1), separator);
        assert(chars@.take(i + 1).drop_last() =~= chars@.take(i as int));
        assert(chars@.take(i + 1).last() == chars@[i as int]);
        if chars[i] == separator {
            out.push((start, i));
            start = i + 1;
            assert(chars@.subrange(start as int, i + 1) =~= Seq::<char>::empty());
        } else {
            assert(chars@.subrange(start as int, i + 1) =~= chars@.subrange(
                start as int,
                i as int,
            ).push(chars@[i as int]));
        }
        i = i + 1;
    }
    assert(chars@.take(chars.len() as int) =~= chars@);
    out.push((start, chars.len()));
    out
}

fn field_is(chars: &Vec<char>, range: (usize, usize), text: &str) -> (r: bool)
    requires
        range.0 <= range.1 <= chars.len(),
    ensures
        r == (chars@.subrange(range.0 as int, range.1 as int) == text@),
{
    let wanted: Vec<char> = chars_of(text);
    let ghost field = chars@.subrange(range.0 as int, range.1 as int);
    if wanted.len() != range.1 - range.0 {
        assert(field.len() != text@.len());
        return false;
    }
    let mut i: usize = 0;
    while i < wanted.len()
        invariant
            i <= wanted.len(),
            range.0 <= range.1 <= chars.len(),
            wanted.len() == range.1 - range.0,
            wanted@ == text@,
            field == chars@.subrange(range.0 as int, range.1 as int),
            forall|k: int| 0 <= k < i ==> (#[trigger] field[k]) == text@[k],
        decreases wanted.len() - i,
    {
        assert(field[i as int] == chars@[range.0 + i]);
        if chars[range.0 + i] != wanted[i] {
            return false;
        }
        i = i + 1;
    }
    assert(field =~= text@);
    true
}

/// The mode count of a stored eigenpair that shares the source of a solve, apart from its own
/// mode count: the fourth field of its logical key.
pub open spec fn continuation_modes(
    logical_key: Seq<char>,
    params: CcmParams,
    cfg: HighPrecConfig,
) -> Option<nat> {
    let f = fields(logical_key, '/');
    if f.len() < 6 || f[0] != "ccm"@ || f[1] != "weil-eigenpair"@ || f[2] != params.identity()
        || f[4] != number_text(cfg.precision_bits as nat) || f[5] != "even"@ {
        None
    } else {
        number_of_text(f[3], usize::MAX as nat)
    }
}

/// The mode count of a stored eigenpair that shares the source of a solve.
pub fn continuation_key_n_modes(logical_key: &str, params: &CcmParams, cfg: &HighPrecConfig) -> (r:
    Option<usize>)
    ensures
        match r {
            Some(n) => continuation_modes(logical_key@, *params, *cfg) == Some(n as nat),
            None => continuation_modes(logical_key@, *params, *cfg) is None,
        },
{
    let chars: Vec<char> = chars_of(logical_key);
    let ranges: Vec<(usize, usize)> = field_ranges(&chars, '/');
    if ranges.len() < 6 {
        return None;
    }
    let identity: String = lambda_squared_cache_identity(params);
    let bits: String = number_string(cfg.precision_bits as u64);
    if !field_is(&chars, ranges[0], "ccm") || !field_is(&chars, ranges[1], "weil-eigenpair")
        || !field_is(&chars, ranges[2], identity.as_str()) || !field_is(
        &chars,
        ranges[4],
        bits.as_str(),
    ) || !field_is(&chars, ranges[5], "even") {
        return None;
    }
    let r3: (usize, usize) = ranges[3];
    match parse_number(&chars, r3.0, r3.1, usize::MAX as u64) {
        None => None,
        Some(v) => Some(v as usize),
    }
}

/// A stored eigenpair that a search offers.
#[derive(Debug)]
pub struct ContinuationKey {
    pub logical_key: String,
    pub parameters_digest: String,
}

/// The mode count of an offered eigenpair, where it lies below that of the solve.
pub open spec fn lower_modes(key: ContinuationKey, params: CcmParams, cfg: HighPrecConfig) -> Option<
    nat,
> {
    match continuation_modes(key.logical_key@, params, cfg) {
        Some(n) => if n < params.n_modes {
            Some(n)
        } else {
            None
        },
        None => None,
    }
}

/// Whether an offered eigenpair is tried before another: more modes first, then by the digest of
/// the parameters, then as they were offered.
pub open spec fn tried_before(
    keys: Seq<ContinuationKey>,
    params: CcmParams,
    cfg: HighPrecConfig,
    i: int,
    j: int,
) -> bool {
    let a = lower_modes(keys[i], params, cfg)->0;
    let b = lower_modes(keys[j], params, cfg)->0;
    let order = text_order(keys[i].parameters_digest@, keys[j].parameters_digest@);
    a > b || (a == b && (order is Less || (order is Equal && i < j)))
}

proof fn lemma_tried_in_order(
    keys: Seq<ContinuationKey>,
    params: CcmParams,
    cfg: HighPrecConfig,
    i: int,
    j: int,
    k: int,
)
    ensures
        tried_before(keys, params, cfg, i, j) && tried_before(keys, params, cfg, j, k)
            ==> tried_before(keys, params, cfg, i, k),
        i != j ==> tried_before(keys, params, cfg, i, j) || tried_before(keys, params, cfg, j, i),
        !(tried_before(keys, params, cfg, i, j) && tried_before(keys, params, cfg, j, i)),
{
    let a = keys[i].parameters_digest@;
    let b = keys[j].parameters_digest@;
    let c = keys[k].parameters_digest@;
    law_texts_are_ordered(a, b, c);
    law_texts_are_ordered(b, c, a);
    law_texts_are_ordered(b, a, c);
    law_texts_are_ordered(a, c, b);
}

fn is_tried_before(
    keys: &Vec<ContinuationKey>,
    params: &CcmParams,
    cfg: &HighPrecConfig,
    i: usize,
    a: usize,
    j: usize,
    b: usize,
) -> (r: bool)
    requires
        i < keys.len(),
        j < keys.len(),
        lower_modes(keys@[i as int], *params, *cfg) == Some(a as nat),
        lower_modes(keys@[j as int], *params, *cfg) == Some(b as nat),
    ensures
        r == tried_before(keys@, *params, *cfg, i as int, j as int),
{
    if a != b {
        return a > b;
    }
    match order_texts(keys[i].parameters_digest.as_str(), keys[j].parameters_digest.as_str()) {
        Order::Less => true,
        Order::Equal => i < j,
        Order::Greater => false,
    }
}

/// Whether a list of positions holds a position.
pub open spec fn holds(s: Seq<(usize, usize)>, i: int) -> bool {
    exists|k: int| 0 <= k < s.len() && (#[trigger] s[k]).0 == i
}

/// The offered eigenpairs with fewer modes than the solve, in the order in which they are tried,
/// each with its mode count.
pub fn continuation_order(
    keys: &Vec<ContinuationKey>,
    params: &CcmParams,
    cfg: &HighPrecConfig,
) -> (r:
    Vec<(usize, usize)>)
    ensures
        forall|k: int|
            0 <= k < r@.len() ==> (#[trigger] r@[k]).0 < keys.len() && lower_modes(
                keys@[r@[k].0 as int],
                *params,
                *cfg,
            ) == Some(r@[k].1 as nat),
        forall|i: int|
            0 <= i < keys@.len() && lower_modes(keys@[i], *params, *cfg) is Some ==> #[trigger] holds(
                r@,
                i,
            ),
        forall|k: int, m: int|
            0 <= k < m < r@.len() ==> tried_before(
                keys@,
                *params,
                *cfg,
                (#[trigger] r@[k]).0 as int,
                (#[trigger] r@[m]).0 as int,
            ),
{
    let mut out: Vec<(usize, usize)> = Vec::new();
    let mut i: usize = 0;
    while i < keys.len()
        invariant
            i <= keys.len(),
            forall|k: int|
                0 <= k < out@.len() ==> (#[trigger] out@[k]).0 < i && lower_modes(
                    keys@[out@[k].0 as int],
                    *params,
                    *cfg,
                ) == Some(out@[k].1 as nat),
            forall|j: int|
                0 <= j < i && lower_modes(keys@[j], *params, *cfg) is Some ==> #[trigger] holds(
                    out@,
                    j,
                ),
            forall|k: int, m: int|
                0 <= k < m < out@.len() ==> tried_before(
                    keys@,
                    *params,
                    *cfg,
                    (#[trigger] out@[k]).0 as int,
                    (#[trigger] out@[m]).0 as int,
                ),
        decreases keys.len() - i,
    {
        match continuation_key_n_modes(keys[i].logical_key.as_str(), params, cfg) {
            Some(n) if n < params.n_modes => {
                let mut at: usize = 0;
                while at < out.len()
                    invariant
                        at <= out.len(),
                        i < keys.len(),
                        lower_modes(keys@[i as int], *params, *cfg) == Some(n as nat),
                        forall|k: int|
                            0 <= k < out@.len() ==> (#[trigger] out@[k]).0 < i && lower_modes(
                                keys@[out@[k].0 as int],
                                *params,
                                *cfg,
                            ) == Some(out@[k].1 as nat),
                        forall|k: int|
                            0 <= k < at ==> tried_before(
                                keys@,
                                *params,
                                *cfg,
                                (#[trigger] out@[k]).0 as int,
                                i as int,
                            ),
                    ensures
                        at <= out.len(),
                        forall|k: int|
                            0 <= k < at ==> tried_before(
                                keys@,
                                *params,
                                *cfg,
                                (#[trigger] out@[k]).0 as int,
                                i as int,
                            ),
                        at < out.len() ==> tried_before(
                            keys@,
                            *params,
                            *cfg,
                            i as int,
                            out@[at as int].0 as int,
                        ),
                    decreases out.len() - at,
                {
                    let (j, b) = out[at];
                    if is_tried_before(keys, params, cfg, i, n, j, b) {
                        break;
                    }
                    proof {
                        lemma_tried_in_order(keys@, *params, *cfg, j as int, i as int, i as int);
                    }
                    at = at + 1;
                }
                let ghost before = out@;
                out.insert(at, (i, n));
                proof {
                    assert(out@ =~= before.insert(at as int, (i, n)));
                    assert forall|k: int, m: int| 0 <= k < m < out@.len() implies tried_before(
                        keys@,
                        *params,
                        *cfg,
                        (#[trigger] out@[k]).0 as int,
                        (#[trigger] out@[m]).0 as int,
                    ) by {
                        if k == at {
                            assert(out@[m] == before[m - 1]);
                            if m - 1 > at {
                                lemma_tried_in_order(
                                    keys@,
                                    *params,
                                    *cfg,
                                    i as int,
                                    before[at as int].0 as int,
                                    before[m - 1].0 as int,
                                );
                            }
                        } else if m == at {
                            assert(out@[k] == before[k]);
                        } else {
                            let a = if k < at {
                                k
                            } else {
                                k - 1
                            };
                            let b = if m < at {
                                m
                            } else {
                                m - 1
                            };
                            assert(out@[k] == before[a]);
                            assert(out@[m] == before[b]);
                        }
                    }
                    assert forall|j: int|
                        0 <= j < i + 1 && lower_modes(keys@[j], *params, *cfg) is Some implies #[trigger] holds(
                        out@,
                        j,
                    ) by {
                        if j == i {
                            assert(out@[at as int].0 == j);
                        } else {
                            assert(holds(before, j));
                            let k = choose|k: int| 0 <= k < before.len() && (#[trigger] before[k]).0 == j;
                            if k < at {
                                assert(out@[k] == before[k]);
                            } else {
                                assert(out@[k + 1] == before[k]);
                            }
                        }
                    }
                }
            },
            _ => {},
        }
        i = i + 1;
    }
    out
}

/// The nearest eigenpair below a solve is tried first.
pub proof fn law_nearest_continuation_comes_first(
    keys: Seq<ContinuationKey>,
    params: CcmParams,
    cfg: HighPrecConfig,
    i: int,
    j: int,
)
    requires
        lower_modes(keys[i], params, cfg) is Some,
        lower_modes(keys[j], params, cfg) is Some,
        lower_modes(keys[i], params, cfg)->0 > lower_modes(keys[j], params, cfg)->0,
    ensures
        tried_before(keys, params, cfg, i, j),
        !tried_before(keys, params, cfg, j, i),
{
}

/// Whether a stored eigenpair can start a solve at more modes, its entries aside.
pub open spec fn continuation_fits(
    a: PortableWeilEigenpair,
    source_n: nat,
    params: CcmParams,
    cfg: HighPrecConfig,
) -> bool {
    &&& a.lambda_squared@ == params.identity()
    &&& a.n_modes == source_n
    &&& a.precision_bits == cfg.precision_bits
    &&& a.force_even
    &&& a.parity_policy is None
    &&& a.eigenvector@.len() == 2 * source_n + 1
    &&& (a.eigenstate_route@ == CcmEigenstateSolver::LegacyInverseIteration.label()
        || a.eigenstate_route@ == CcmEigenstateSolver::ShiftInvertKrylov.label())
}

/// Whether every scalar reads as a finite value.
pub open spec fn all_read_finite(s: Seq<ScalarView>) -> bool {
    forall|i: int|
        0 <= i < s.len() ==> (#[trigger] s[i]).reading is Ok && s[i].reading->Ok_0.is_finite()
}

/// The values that scalars read as.
pub open spec fn read_values(s: Seq<ScalarView>) -> Seq<HpValue> {
    Seq::new(s.len(), |i: int| s[i].reading->Ok_0)
}

/// The start that a stored eigenpair gives a solve at more modes; `None` where it gives none.
pub fn continuation_start(
    artifact: &PortableWeilEigenpair,
    source_n: usize,
    params: &CcmParams,
    cfg: &HighPrecConfig,
) -> (r: Option<Vec<HpFloat>>)
    requires
        cfg.precision_bits >= 1,
        source_n < params.n_modes,
        2 * params.n_modes + 1 <= usize::MAX,
    ensures
        r is Some == (continuation_fits(*artifact, source_n as nat, *params, *cfg)
            && all_read_finite(scalars(artifact.eigenvector@))),
        r matches Some(seed) ==> vals(seed@) == continuation_seed(
            read_values(scalars(artifact.eigenvector@)),
            source_n as int,
            params.n_modes as int,
            cfg.precision_bits as nat,
        ),
{
    let identity: String = lambda_squared_cache_identity(params);
    let expected: usize = 2 * source_n + 1;
    if !text_equal(artifact.lambda_squared.as_str(), identity.as_str()) || artifact.n_modes
        != source_n || artifact.precision_bits != cfg.precision_bits || !artifact.force_even
        || artifact.parity_policy.is_some() || artifact.eigenvector.len() != expected || (
    !text_equal(artifact.eigenstate_route.as_str(), "legacy_inverse_iteration") && !text_equal(
        artifact.eigenstate_route.as_str(),
        "shift_invert_krylov",
    )) {
        return None;
    }
    let ghost s = scalars(artifact.eigenvector@);
    let ghost goal = read_values(s);
    let mut full: Vec<HpFloat> = Vec::with_capacity(expected);
    proof {
        lemma_build_ends(goal);
    }
    let mut i: usize = 0;
    while i < artifact.eigenvector.len()
        invariant
            i <= artifact.eigenvector.len(),
            s == scalars(artifact.eigenvector@),
            goal == read_values(s),
            full.len() == i,
            vals(full@) == goal.take(i as int),
            forall|k: int|
                0 <= k < i ==> (#[trigger] s[k]).reading is Ok && s[k].reading->Ok_0.is_finite(),
        decreases artifact.eigenvector.len() - i,
    {
        assert(s[i as int] == artifact.eigenvector@[i as int]@);
        match &artifact.eigenvector[i].reading {
            Err(_) => {
                return None;
            },
            Ok(v) => {
                if !v.is_finite() {
                    return None;
                }
                let x: HpFloat = v.clone();
                proof {
                    lemma_extend(full@, x, goal);
                }
                full.push(x);
            },
        }
        i = i + 1;
    }
    proof {
        lemma_build_ends(goal);
    }
    match embedded_even_continuation_seed(&full, source_n, params.n_modes, cfg.precision_bits) {
        Ok(seed) => Some(seed),
        Err(_) => None,
    }
}

} // verus!
