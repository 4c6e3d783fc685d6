//! Records that a run leaves beside its numbers: its secular source, its evenness, its root
//! window and its summary, and what each has to pass when it is read.

use crate::config::{
    decoded_parity, lambda_squared_cache_identity, payload_parity_matches, CcmParams,
    CcmParityPolicy, HighPrecConfig, IndependentRootDomain, RootArtifactMode, RootWindowSemantics,
    GUARD_BITS,
};
use crate::error::CcmError;
use crate::float::HpFloat;
use crate::identity::{copy_ordinals, copy_texts};
use crate::outcome::{
    outcomes, DiagnosticsView, EigenvalueResult, InverseIterationDiagnostics, OutcomeView,
};
use crate::payload::{
    diagnostics_of, finite_scalar, names_source, parse_hp_scalar, source_matches, HpScalar,
    PortableInverseIterationDiagnostics, PortableRootOutcome,
};
use crate::range::{
    completeness_of, range_identity_holds, PortableRootRange, RangeRequest, ROOT_RANGE_SCHEMA,
};
use crate::refine::RootStatus;
use crate::roots::{
    failures, law_status_counts_add_up, numbered, root_status_summary,
    ReferenceZeroDatasetIdentity, RootStatusSummary,
};
use crate::rounding::{class_order, HpValue};
use crate::sector::EvennessResult;
use crate::text::text_equal;
use vstd::prelude::*;
use vstd::string::*;

verus! {

/// The record of a secular source: the eigenpair that it is made of.
#[derive(Debug)]
pub struct PortableSecularSource {
    pub schema_version: u32,
    pub lambda_squared: String,
    pub n_modes: usize,
    pub precision_bits: u32,
    pub force_even: bool,
    pub parity_policy: Option<CcmParityPolicy>,
    pub eigenpair_content_digest: String,
    pub normalization: String,
}

/// Whether a record of a secular source is the one that a reader asks for.
pub open spec fn secular_record_holds(
    a: PortableSecularSource,
    params: CcmParams,
    cfg: HighPrecConfig,
    eigenpair_digest: Seq<char>,
) -> bool {
    &&& a.schema_version == 1
    &&& names_source(a.lambda_squared@, a.n_modes, a.precision_bits, params, cfg)
    &&& decoded_parity(a.force_even, a.parity_policy) == Some(cfg.parity())
    &&& a.eigenpair_content_digest@ == eigenpair_digest
    &&& a.normalization@ == "sum_xi_equals_sqrt_log_lambda_squared"@
}

/// The record of a secular source; it is the one that a reader asks for.
pub fn secular_record(params: &CcmParams, cfg: &HighPrecConfig, eigenpair_digest: &str) -> (r:
    PortableSecularSource)
    ensures
        secular_record_holds(r, *params, *cfg, eigenpair_digest@),
        r.force_even == cfg.parity().forces_even(),
        r.parity_policy == cfg.parity().marker(),
{
    let policy: CcmParityPolicy = cfg.effective_parity_policy();
    PortableSecularSource {
        schema_version: 1,
        lambda_squared: lambda_squared_cache_identity(params),
        n_modes: params.n_modes,
        precision_bits: cfg.precision_bits,
        force_even: policy.legacy_force_even(),
        parity_policy: policy.portable_marker(),
        eigenpair_content_digest: eigenpair_digest.to_owned(),
        normalization: "sum_xi_equals_sqrt_log_lambda_squared".to_owned(),
    }
}

/// Checks a record of a secular source.
pub fn check_secular_record(
    artifact: &PortableSecularSource,
    params: &CcmParams,
    cfg: &HighPrecConfig,
    eigenpair_digest: &str,
) -> (r: Result<(), CcmError>)
    ensures
        match r {
            Ok(_) => secular_record_holds(*artifact, *params, *cfg, eigenpair_digest@),
            Err(e) => !secular_record_holds(*artifact, *params, *cfg, eigenpair_digest@)
                && e.rejects("CCM secular-source payload does not match its semantic identity"@),
        },
{
    if artifact.schema_version != 1 || !source_matches(
        &artifact.lambda_squared,
        artifact.n_modes,
        artifact.precision_bits,
        params,
        cfg,
    ) || !payload_parity_matches(
        artifact.force_even,
        artifact.parity_policy,
        cfg.effective_parity_policy(),
    ) || !text_equal(artifact.eigenpair_content_digest.as_str(), eigenpair_digest) || !text_equal(
        artifact.normalization.as_str(),
        "sum_xi_equals_sqrt_log_lambda_squared",
    ) {
        return Err(
            CcmError::invalid("CCM secular-source payload does not match its semantic identity"),
        );
    }
    Ok(())
}

/// The record of an evenness measurement.
#[derive(Debug)]
pub struct PortableEvennessEvidence {
    pub schema_version: u32,
    pub lambda_squared: String,
    pub n_modes: usize,
    pub precision_bits: u32,
    pub evenness_deviation: HpScalar,
    pub natural_eigenvalue: HpScalar,
    pub forced_eigenvalue: HpScalar,
}

/// The texts of an evenness measurement.
#[derive(Debug)]
pub struct EvennessTexts {
    pub evenness_deviation: String,
    pub natural_eigenvalue: String,
    pub forced_eigenvalue: String,
}

/// Whether a record of evenness is the one that was measured.
pub open spec fn evenness_record_holds(
    a: PortableEvennessEvidence,
    params: CcmParams,
    cfg: HighPrecConfig,
    texts: EvennessTexts,
) -> bool {
    &&& a.schema_version == 1
    &&& names_source(a.lambda_squared@, a.n_modes, a.precision_bits, params, cfg)
    &&& a.evenness_deviation@.text == texts.evenness_deviation@
    &&& a.natural_eigenvalue@.text == texts.natural_eigenvalue@
    &&& a.forced_eigenvalue@.text == texts.forced_eigenvalue@
}

/// What reading a record of evenness gives: deviation, natural and forced eigenvalue.
pub open spec fn evenness_reading(
    a: PortableEvennessEvidence,
    params: CcmParams,
    cfg: HighPrecConfig,
    texts: EvennessTexts,
) -> Result<(HpValue, HpValue, HpValue), Seq<char>> {
    let deviation = finite_scalar(a.evenness_deviation@);
    let natural = finite_scalar(a.natural_eigenvalue@);
    let forced = finite_scalar(a.forced_eigenvalue@);
    if !evenness_record_holds(a, params, cfg, texts) {
        Err("CCM evenness evidence does not match its semantic identity"@)
    } else if deviation is Err {
        Err(deviation->Err_0)
    } else if natural is Err {
        Err(natural->Err_0)
    } else if forced is Err {
        Err(forced->Err_0)
    } else {
        Ok((deviation->Ok_0, natural->Ok_0, forced->Ok_0))
    }
}

/// The record of an evenness measurement.
pub fn evenness_record(
    params: &CcmParams,
    cfg: &HighPrecConfig,
    measured: &EvennessResult,
    texts: &EvennessTexts,
) -> (r: PortableEvennessEvidence)
    ensures
        evenness_record_holds(r, *params, *cfg, *texts),
        r.evenness_deviation@.reading == Ok::<HpValue, Seq<char>>(measured.evenness_deviation@),
        r.natural_eigenvalue@.reading == Ok::<HpValue, Seq<char>>(measured.natural_eigenvalue@),
        r.forced_eigenvalue@.reading == Ok::<HpValue, Seq<char>>(measured.forced_eigenvalue@),
{
    PortableEvennessEvidence {
        schema_version: 1,
        lambda_squared: lambda_squared_cache_identity(params),
        n_modes: params.n_modes,
        precision_bits: cfg.precision_bits,
        evenness_deviation: HpScalar::written(
            texts.evenness_deviation.clone(),
            &measured.evenness_deviation,
        ),
        natural_eigenvalue: HpScalar::written(
            texts.natural_eigenvalue.clone(),
            &measured.natural_eigenvalue,
        ),
        forced_eigenvalue: HpScalar::written(
            texts.forced_eigenvalue.clone(),
            &measured.forced_eigenvalue,
        ),
    }
}

/// Reads a record of evenness against the texts of the measurement.
pub fn decode_evenness_record(
    artifact: &PortableEvennessEvidence,
    params: &CcmParams,
    cfg: &HighPrecConfig,
    texts: &EvennessTexts,
) -> (r: Result<EvennessResult, CcmError>)
    ensures
        match r {
            Ok(v) => evenness_reading(*artifact, *params, *cfg, *texts) == Ok::<
                (HpValue, HpValue, HpValue),
                Seq<char>,
            >((v.evenness_deviation@, v.natural_eigenvalue@, v.forced_eigenvalue@)),
            Err(e) => e is InvalidManifest && evenness_reading(*artifact, *params, *cfg, *texts)
                == Err::<(HpValue, HpValue, HpValue), Seq<char>>(e.text()),
        },
{
    if artifact.schema_version != 1 || !source_matches(
        &artifact.lambda_squared,
        artifact.n_modes,
        artifact.precision_bits,
        params,
        cfg,
    ) || !text_equal(
        artifact.evenness_deviation.text.as_str(),
        texts.evenness_deviation.as_str(),
    ) || !text_equal(
        artifact.natural_eigenvalue.text.as_str(),
        texts.natural_eigenvalue.as_str(),
    ) || !text_equal(
        artifact.forced_eigenvalue.text.as_str(),
        texts.forced_eigenvalue.as_str(),
    ) {
        return Err(
            CcmError::invalid("CCM evenness evidence does not match its semantic identity"),
        );
    }
    let evenness_deviation: HpFloat = match parse_hp_scalar(&artifact.evenness_deviation) {
        Ok(v) => v,
        Err(e) => {
            return Err(e);
        },
    };
    let natural_eigenvalue: HpFloat = match parse_hp_scalar(&artifact.natural_eigenvalue) {
        Ok(v) => v,
        Err(e) => {
            return Err(e);
        },
    };
    let forced_eigenvalue: HpFloat = match parse_hp_scalar(&artifact.forced_eigenvalue) {
        Ok(v) => v,
        Err(e) => {
            return Err(e);
        },
    };
    Ok(EvennessResult { evenness_deviation, natural_eigenvalue, forced_eigenvalue })
}

/// A finite measurement that is recorded reads back as it was measured.
pub proof fn law_recorded_evenness_reads_back(
    a: PortableEvennessEvidence,
    params: CcmParams,
    cfg: HighPrecConfig,
    texts: EvennessTexts,
    deviation: HpValue,
    natural: HpValue,
    forced: HpValue,
)
    requires
        evenness_record_holds(a, params, cfg, texts),
        a.evenness_deviation@.reading == Ok::<HpValue, Seq<char>>(deviation),
        a.natural_eigenvalue@.reading == Ok::<HpValue, Seq<char>>(natural),
        a.forced_eigenvalue@.reading == Ok::<HpValue, Seq<char>>(forced),
        deviation.is_finite(),
        natural.is_finite(),
        forced.is_finite(),
    ensures
        evenness_reading(a, params, cfg, texts) == Ok::<(HpValue, HpValue, HpValue), Seq<char>>(
            (deviation, natural, forced),
        ),
{
}

/// The record of a computed root window; it is the one that its reader asks for.
pub fn portable_root_range(
    params: &CcmParams,
    cfg: &HighPrecConfig,
    first_root_index: usize,
    seeds: &Vec<String>,
    artifact_mode: RootArtifactMode,
    reference_dataset: Option<&ReferenceZeroDatasetIdentity>,
    domain: IndependentRootDomain,
    stored: Vec<PortableRootOutcome>,
) -> (r: PortableRootRange)
    requires
        first_root_index > 0,
        stored.len() == seeds.len(),
    ensures
        r.outcomes == stored,
        r.force_even == cfg.parity().forces_even(),
        r.parity_policy == cfg.parity().marker(),
        forall|require_converged: bool| #[trigger]
            range_identity_holds(
                r,
                (RangeRequest {
                    params,
                    cfg,
                    first_root_index,
                    seed_texts: seeds,
                    artifact_mode,
                    reference_dataset,
                    domain,
                    require_converged,
                }),
            ),
{
    let policy: CcmParityPolicy = cfg.effective_parity_policy();
    let seeded: bool = match artifact_mode {
        RootArtifactMode::Independent => false,
        RootArtifactMode::ReferenceSeededRefinement => true,
    };
    PortableRootRange {
        schema_version: ROOT_RANGE_SCHEMA,
        lambda_squared: lambda_squared_cache_identity(params),
        n_modes: params.n_modes,
        precision_bits: cfg.precision_bits,
        force_even: policy.legacy_force_even(),
        parity_policy: policy.portable_marker(),
        first_root_index,
        root_domain: domain,
        discovery_mode: artifact_mode.as_str().to_owned(),
        reference_seeds_used: seeded,
        reference_dataset: match reference_dataset {
            None => None,
            Some(d) => Some(d.copied()),
        },
        completeness: completeness_of(artifact_mode).to_owned(),
        starting_points: copy_texts(seeds),
        outcomes: stored,
        solver: cfg.root_solver.stored_name().to_owned(),
        solver_steps: cfg.solver_steps,
        accuracy_guard_bits: GUARD_BITS,
    }
}

/// The summary that a run leaves.
#[derive(Debug)]
pub struct PortableRunEvidence {
    pub schema_version: u32,
    pub lambda_squared: String,
    pub n_modes: usize,
    pub precision_bits: u32,
    pub force_even: bool,
    pub parity_policy: Option<CcmParityPolicy>,
    pub discovery_mode: String,
    pub first_root_index: usize,
    pub last_root_index: usize,
    pub root_count: usize,
    pub root_domain: IndependentRootDomain,
    pub requested_root_count: Option<usize>,
    pub allow_incomplete: bool,
    pub selected_root_ordinals: Vec<usize>,
    pub weil_min_eigenvalue: HpScalar,
    pub converged_roots: usize,
    pub stagnated_roots: usize,
    pub approximate_roots: usize,
    pub failed_roots: usize,
    pub inverse_iteration: PortableInverseIterationDiagnostics,
}

/// What a run evidence record is about.
pub struct EvidenceRequest<'a> {
    pub params: &'a CcmParams,
    pub cfg: &'a HighPrecConfig,
    pub roots: &'a Vec<EigenvalueResult>,
    pub first_root_index: usize,
    pub artifact_mode: RootArtifactMode,
    pub semantics: RootWindowSemantics,
    pub selected_root_ordinals: &'a Vec<usize>,
    pub eigenvalue_text: &'a String,
    pub inverse_iteration: &'a InverseIterationDiagnostics,
}

/// Number of outcomes with a status.
pub open spec fn status_count(s: Seq<OutcomeView>, status: RootStatus) -> nat {
    numbered(s, status, 0, s.len()).len()
}

/// Whether a run evidence record is about the run of a request.
pub open spec fn evidence_identity_holds(a: PortableRunEvidence, q: EvidenceRequest) -> bool {
    let s = outcomes(q.roots@);
    let advanced = q.semantics.artifact_format is AdvancedV7;
    &&& a.schema_version == 3
    &&& names_source(a.lambda_squared@, a.n_modes, a.precision_bits, *q.params, *q.cfg)
    &&& decoded_parity(a.force_even, a.parity_policy) == Some(q.cfg.parity())
    &&& a.discovery_mode@ == q.artifact_mode.label()
    &&& a.first_root_index == q.first_root_index
    &&& a.last_root_index == q.first_root_index + q.roots@.len() - 1
    &&& a.root_count == q.roots@.len()
    &&& a.root_domain == q.semantics.domain
    &&& a.requested_root_count == (if advanced {
        Some(q.semantics.requested_count)
    } else {
        None
    })
    &&& a.allow_incomplete == (advanced && q.semantics.allow_incomplete)
    &&& a.selected_root_ordinals@ == (if advanced {
        q.selected_root_ordinals@
    } else {
        Seq::<usize>::empty()
    })
    &&& a.weil_min_eigenvalue@.text == q.eigenvalue_text@
    &&& a.converged_roots == status_count(s, RootStatus::Converged)
    &&& a.stagnated_roots == status_count(s, RootStatus::Stagnated)
    &&& a.approximate_roots == status_count(s, RootStatus::Approximate)
    &&& a.failed_roots == failures(s, s.len())
}

/// Whether two records of stopping evidence agree: the same counts and outcomes, and metrics of
/// equal value.
pub open spec fn evidence_agrees(a: DiagnosticsView, b: DiagnosticsView) -> bool {
    &&& a.configured_step_limit == b.configured_step_limit
    &&& a.unshifted_steps == b.unshifted_steps
    &&& a.unshifted_converged == b.unshifted_converged
    &&& match (a.change, b.change) {
        (None, None) => true,
        (Some(x), Some(y)) => x.eqv(y),
        _ => false,
    }
    &&& a.shifted_refinement == b.shifted_refinement
    &&& a.residual.eqv(b.residual)
}

fn same_evidence(a: &InverseIterationDiagnostics, b: &InverseIterationDiagnostics) -> (r: bool)
    ensures
        r == evidence_agrees(a@, b@),
{
    let change: bool = match (
        &a.final_relative_rayleigh_change,
        &b.final_relative_rayleigh_change,
    ) {
        (None, None) => true,
        (Some(x), Some(y)) => x.eqv(y),
        _ => false,
    };
    a.configured_step_limit == b.configured_step_limit && a.unshifted_steps == b.unshifted_steps
        && a.unshifted_converged == b.unshifted_converged && change && a.shifted_refinement
        == b.shifted_refinement && a.final_relative_residual_norm.eqv(
        &b.final_relative_residual_norm,
    )
}

/// Why a run evidence record is rejected; `None` where it holds.
pub open spec fn evidence_rejection(a: PortableRunEvidence, q: EvidenceRequest) -> Option<Seq<char>> {
    let diagnostics = diagnostics_of(a.inverse_iteration@);
    let eigenvalue = finite_scalar(a.weil_min_eigenvalue@);
    if !evidence_identity_holds(a, q) {
        Some("CCM run evidence does not match its semantic identity"@)
    } else if diagnostics is Err {
        Some(diagnostics->Err_0)
    } else if !evidence_agrees(diagnostics->Ok_0, q.inverse_iteration@) {
        Some("CCM run evidence contains inconsistent inverse-iteration diagnostics"@)
    } else if eigenvalue is Err {
        Some(eigenvalue->Err_0)
    } else {
        None
    }
}

fn same_ordinals(a: &Vec<usize>, b: &Vec<usize>) -> (r: bool)
    ensures
        r == (a@ == b@),
{
    if a.len() != b.len() {
        return false;
    }
    let mut i: usize = 0;
    while i < a.len()
        invariant
            i <= a.len(),
            a.len() == b.len(),
            forall|k: int| 0 <= k < i ==> (#[trigger] a@[k]) == b@[k],
        decreases a.len() - i,
    {
        if a[i] != b[i] {
            return false;
        }
        i = i + 1;
    }
    assert(a@ =~= b@);
    true
}

/// Checks a run evidence record against its run.
pub fn check_run_evidence(artifact: &PortableRunEvidence, request: &EvidenceRequest) -> (r: Result<
    (),
    CcmError,
>)
    requires
        request.first_root_index > 0,
        request.roots.len() > 0,
        request.first_root_index + request.roots.len() - 1 <= usize::MAX,
    ensures
        match r {
            Ok(_) => evidence_rejection(*artifact, *request) is None,
            Err(e) => e is InvalidManifest && evidence_rejection(*artifact, *request) == Some(
                e.text(),
            ),
        },
{
    let summary: RootStatusSummary = root_status_summary(request.roots, 0);
    let advanced: bool = request.semantics.is_advanced();
    let requested_agrees: bool = match artifact.requested_root_count {
        None => !advanced,
        Some(n) => advanced && n == request.semantics.requested_count,
    };
    let ordinals_agree: bool = if advanced {
        same_ordinals(&artifact.selected_root_ordinals, request.selected_root_ordinals)
    } else {
        artifact.selected_root_ordinals.len() == 0
    };
    assert(artifact.selected_root_ordinals@.len() == 0 ==> artifact.selected_root_ordinals@
        =~= Seq::<usize>::empty());
    if artifact.schema_version != 3 || !source_matches(
        &artifact.lambda_squared,
        artifact.n_modes,
        artifact.precision_bits,
        request.params,
        request.cfg,
    ) || !payload_parity_matches(
        artifact.force_even,
        artifact.parity_policy,
        request.cfg.effective_parity_policy(),
    ) || !text_equal(artifact.discovery_mode.as_str(), request.artifact_mode.as_str())
        || artifact.first_root_index != request.first_root_index || artifact.last_root_index
        != request.first_root_index + (request.roots.len() - 1) || artifact.root_count
        != request.roots.len() || artifact.root_domain != request.semantics.domain
        || !requested_agrees || artifact.allow_incomplete != (advanced
        && request.semantics.allow_incomplete) || !ordinals_agree || !text_equal(
        artifact.weil_min_eigenvalue.text.as_str(),
        request.eigenvalue_text.as_str(),
    ) || artifact.converged_roots != summary.converged || artifact.stagnated_roots
        != summary.stagnated.len() || artifact.approximate_roots != summary.approximate.len()
        || artifact.failed_roots != summary.failed {
        return Err(CcmError::invalid("CCM run evidence does not match its semantic identity"));
    }
    let diagnostics: InverseIterationDiagnostics = match artifact.inverse_iteration.to_runtime() {
        Ok(v) => v,
        Err(e) => {
            return Err(e);
        },
    };
    if !same_evidence(&diagnostics, request.inverse_iteration) {
        return Err(
            CcmError::invalid(
                "CCM run evidence contains inconsistent inverse-iteration diagnostics",
            ),
        );
    }
    match parse_hp_scalar(&artifact.weil_min_eigenvalue) {
        Ok(_) => Ok(()),
        Err(e) => Err(e),
    }
}

/// A record that is about its run, with the run's own stopping evidence and a finite eigenvalue,
/// holds.
pub proof fn law_recorded_evidence_holds(a: PortableRunEvidence, q: EvidenceRequest)
    requires
        evidence_identity_holds(a, q),
        diagnostics_of(a.inverse_iteration@) == Ok::<DiagnosticsView, Seq<char>>(
            q.inverse_iteration@,
        ),
        !q.inverse_iteration@.residual.is_nan(),
        q.inverse_iteration@.change is Some ==> !q.inverse_iteration@.change->0.is_nan(),
        a.weil_min_eigenvalue@.reading is Ok,
        a.weil_min_eigenvalue@.reading->Ok_0.is_finite(),
    ensures
        evidence_rejection(a, q) is None,
{
    reveal(class_order);
}

/// The counts of a record that holds add up to the roots of its run.
pub proof fn law_evidence_counts_add_up(a: PortableRunEvidence, q: EvidenceRequest)
    requires
        evidence_rejection(a, q) is None,
    ensures
        a.converged_roots + a.stagnated_roots + a.approximate_roots + a.failed_roots
            == q.roots@.len(),
{
    law_status_counts_add_up(outcomes(q.roots@), 0, q.roots@.len());
}

/// The evidence record of a run; it is about that run.
pub fn run_evidence_record(
    request: &EvidenceRequest,
    eigenvalue: &HpFloat,
    inverse_iteration: PortableInverseIterationDiagnostics,
) -> (r: PortableRunEvidence)
    requires
        request.first_root_index > 0,
        request.roots.len() > 0,
        request.first_root_index + request.roots.len() - 1 <= usize::MAX,
    ensures
        evidence_identity_holds(r, *request),
        r.weil_min_eigenvalue@.reading == Ok::<HpValue, Seq<char>>(eigenvalue@),
        r.inverse_iteration == inverse_iteration,
        r.force_even == request.cfg.parity().forces_even(),
        r.parity_policy == request.cfg.parity().marker(),
{
    let summary: RootStatusSummary = root_status_summary(request.roots, 0);
    let policy: CcmParityPolicy = request.cfg.effective_parity_policy();
    let advanced: bool = request.semantics.is_advanced();
    let selected_root_ordinals: Vec<usize> = if advanced {
        copy_ordinals(request.selected_root_ordinals)
    } else {
        Vec::new()
    };
    PortableRunEvidence {
        schema_version: 3,
        lambda_squared: lambda_squared_cache_identity(request.params),
        n_modes: request.params.n_modes,
        precision_bits: request.cfg.precision_bits,
        force_even: policy.legacy_force_even(),
        parity_policy: policy.portable_marker(),
        discovery_mode: request.artifact_mode.as_str().to_owned(),
        first_root_index: request.first_root_index,
        last_root_index: request.first_root_index + (request.roots.len() - 1),
        root_count: request.roots.len(),
        root_domain: request.semantics.domain,
        requested_root_count: if advanced {
            Some(request.semantics.requested_count)
        } else {
            None
        },
        allow_incomplete: advanced && request.semantics.allow_incomplete,
        selected_root_ordinals,
        weil_min_eigenvalue: HpScalar::written(request.eigenvalue_text.clone(), eigenvalue),
        converged_roots: summary.converged,
        stagnated_roots: summary.stagnated.len(),
        approximate_roots: summary.approximate.len(),
        failed_roots: summary.failed,
        inverse_iteration,
    }
}

} // verus!
