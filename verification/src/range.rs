//! Stored root ranges: their identity, and the replay that a reading has to pass.

use crate::config::{
    decoded_parity, lambda_squared_cache_identity, payload_parity_matches, CcmParams,
    CcmParityPolicy, HighPrecConfig, IndependentRootDomain, RootArtifactMode, RootSolver, GUARD_BITS,
};
use crate::error::CcmError;
use crate::float::HpFloat;
use crate::matrix::{accumulate, vals};
use crate::outcome::{
    achieved_decimal_digits, completed, digits_worth, outcomes, EigenvalueResult, OutcomeView,
    RefinementView, RootRefinement,
};
use crate::payload::{outcome_of, stored_outcomes, strings, HpScalar, PortableRootOutcome,
    ScalarView, StoredOutcome};
use crate::refine::{
    correction, correction_tolerance, improves, law_refinement_outcome_is_honest, refinement,
    root_correction_tolerance, search, RootStatus, SearchOutcome, SearchState,
};
use crate::roots::{
    breaks_order, dataset_view, first_fault, law_identical_replay_agrees, replay_agrees,
    residual_replay_matches, value_at, value_breaks_order, DatasetView, ReferenceZeroDatasetIdentity,
};
use crate::rounding::{class_order, hp_int, hp_word, mul_class, rounded, HpValue};
use crate::secular::{
    on_pole, secular_magnitudes, secular_residual_and_scale_at, secular_sum, weights_fit,
};
use crate::text::{number_text, push_number, text_equal};
use vstd::prelude::*;
use vstd::string::*;

verus! {

/// Schema of the stored root ranges.
pub const ROOT_RANGE_SCHEMA: u32 = 3;

/// What a mode claims of the completeness of its range.
pub open spec fn completeness_label(mode: RootArtifactMode) -> Seq<char> {
    match mode {
        RootArtifactMode::Independent => "unverified_computed_discovery"@,
        RootArtifactMode::ReferenceSeededRefinement => "not_applicable_refinement"@,
    }
}

/// What a mode claims of the completeness of its range.
pub fn completeness_of(mode: RootArtifactMode) -> (r: &'static str)
    ensures
        r@ == completeness_label(mode),
{
    match mode {
        RootArtifactMode::Independent => "unverified_computed_discovery",
        RootArtifactMode::ReferenceSeededRefinement => "not_applicable_refinement",
    }
}

/// A stored root range.
#[derive(Debug)]
pub struct PortableRootRange {
    pub schema_version: u32,
    pub lambda_squared: String,
    pub n_modes: usize,
    pub precision_bits: u32,
    pub force_even: bool,
    pub parity_policy: Option<CcmParityPolicy>,
    pub first_root_index: usize,
    pub root_domain: IndependentRootDomain,
    pub discovery_mode: String,
    pub reference_seeds_used: bool,
    pub reference_dataset: Option<ReferenceZeroDatasetIdentity>,
    pub completeness: String,
    pub starting_points: Vec<String>,
    pub outcomes: Vec<PortableRootOutcome>,
    pub solver: String,
    pub solver_steps: usize,
    pub accuracy_guard_bits: u32,
}

/// What a reader expects of a stored range.
pub struct RangeRequest<'a> {
    pub params: &'a CcmParams,
    pub cfg: &'a HighPrecConfig,
    pub first_root_index: usize,
    pub seed_texts: &'a Vec<String>,
    pub artifact_mode: RootArtifactMode,
    pub reference_dataset: Option<&'a ReferenceZeroDatasetIdentity>,
    pub domain: IndependentRootDomain,
    pub require_converged: bool,
}

impl PortableRootRange {
    /// The stored dataset, as mathematics.
    pub open spec fn dataset(self) -> Option<DatasetView> {
        match self.reference_dataset {
            None => None,
            Some(d) => Some(d@),
        }
    }
}

/// Whether a stored range is the one that a reader asks for.
pub open spec fn range_identity_holds(a: PortableRootRange, q: RangeRequest) -> bool {
    &&& a.schema_version == ROOT_RANGE_SCHEMA
    &&& a.lambda_squared@ == q.params.identity()
    &&& a.n_modes == q.params.n_modes
    &&& a.precision_bits == q.cfg.precision_bits
    &&& decoded_parity(a.force_even, a.parity_policy) == Some(q.cfg.parity())
    &&& q.first_root_index != 0
    &&& a.first_root_index == q.first_root_index
    &&& a.root_domain == q.domain
    &&& a.discovery_mode@ == q.artifact_mode.label()
    &&& a.reference_seeds_used == (q.artifact_mode is ReferenceSeededRefinement)
    &&& a.dataset() == dataset_view(q.reference_dataset)
    &&& a.completeness@ == completeness_label(q.artifact_mode)
    &&& strings(a.starting_points@) == strings(q.seed_texts@)
    &&& a.outcomes@.len() == q.seed_texts@.len()
    &&& a.solver@ == q.cfg.root_solver.lower_name()
    &&& a.solver_steps == q.cfg.solver_steps
    &&& a.accuracy_guard_bits == GUARD_BITS
}

fn same_strings(a: &Vec<String>, b: &Vec<String>) -> (r: bool)
    ensures
        r == (strings(a@) == strings(b@)),
{
    if a.len() != b.len() {
        assert(strings(a@).len() != strings(b@).len());
        return false;
    }
    let mut i: usize = 0;
    while i < a.len()
        invariant
            i <= a.len(),
            a.len() == b.len(),
            forall|k: int| 0 <= k < i ==> (#[trigger] strings(a@)[k]) == strings(b@)[k],
        decreases a.len() - i,
    {
        if !text_equal(a[i].as_str(), b[i].as_str()) {
            assert(strings(a@)[i as int] != strings(b@)[i as int]);
            return false;
        }
        i = i + 1;
    }
    assert(strings(a@) =~= strings(b@));
    true
}

fn same_dataset(
    stored: &Option<ReferenceZeroDatasetIdentity>,
    wanted: Option<&ReferenceZeroDatasetIdentity>,
) -> (r: bool)
    ensures
        r == (match *stored {
            None => wanted is None,
            Some(d) => dataset_view(wanted) == Some(d@),
        }),
{
    match (stored, wanted) {
        (None, None) => true,
        (Some(a), Some(b)) => a.same(b),
        _ => false,
    }
}

fn range_identity_matches(a: &PortableRootRange, q: &RangeRequest) -> (r: bool)
    ensures
        r == range_identity_holds(*a, *q),
{
    let identity: String = lambda_squared_cache_identity(q.params);
    let seeded: bool = match q.artifact_mode {
        RootArtifactMode::Independent => false,
        RootArtifactMode::ReferenceSeededRefinement => true,
    };
    a.schema_version == ROOT_RANGE_SCHEMA && text_equal(
        a.lambda_squared.as_str(),
        identity.as_str(),
    ) && a.n_modes == q.params.n_modes && a.precision_bits == q.cfg.precision_bits
        && payload_parity_matches(a.force_even, a.parity_policy, q.cfg.effective_parity_policy())
        && q.first_root_index != 0 && a.first_root_index == q.first_root_index && a.root_domain
        == q.domain && text_equal(a.discovery_mode.as_str(), q.artifact_mode.as_str())
        && a.reference_seeds_used == seeded && same_dataset(
        &a.reference_dataset,
        q.reference_dataset,
    ) && text_equal(a.completeness.as_str(), completeness_of(q.artifact_mode)) && same_strings(
        &a.starting_points,
        q.seed_texts,
    ) && a.outcomes.len() == q.seed_texts.len() && text_equal(
        a.solver.as_str(),
        q.cfg.root_solver.stored_name(),
    ) && a.solver_steps == q.cfg.solver_steps && a.accuracy_guard_bits == GUARD_BITS
}

/// The first `n` stored outcomes, or the words of the first rejection.
pub open spec fn read_outcomes(s: Seq<StoredOutcome>, n: nat) -> Result<Seq<OutcomeView>, Seq<char>>
    decreases n,
{
    if n == 0 {
        Ok(Seq::<OutcomeView>::empty())
    } else {
        match read_outcomes(s, (n - 1) as nat) {
            Err(m) => Err(m),
            Ok(v) => match outcome_of(s[n - 1]) {
                Err(m) => Err(m),
                Ok(x) => Ok(v.push(x)),
            },
        }
    }
}

proof fn lemma_outcomes_rejected(s: Seq<StoredOutcome>, n: nat, total: nat)
    requires
        n <= total,
        read_outcomes(s, n) is Err,
    ensures
        read_outcomes(s, total) == read_outcomes(s, n),
    decreases total,
{
    if n < total {
        lemma_outcomes_rejected(s, n, (total - 1) as nat);
    }
}

fn decode_outcomes(s: &Vec<PortableRootOutcome>) -> (r: Result<Vec<EigenvalueResult>, CcmError>)
    ensures
        match r {
            Ok(v) => read_outcomes(stored_outcomes(s@), s@.len()) == Ok::<
                Seq<OutcomeView>,
                Seq<char>,
            >(outcomes(v@)) && v.len() == s.len(),
            Err(e) => e is InvalidManifest && read_outcomes(stored_outcomes(s@), s@.len()) == Err::<
                Seq<OutcomeView>,
                Seq<char>,
            >(e.text()),
        },
{
    let ghost t = stored_outcomes(s@);
    let mut out: Vec<EigenvalueResult> = Vec::with_capacity(s.len());
    let mut i: usize = 0;
    assert(outcomes(out@) =~= Seq::<OutcomeView>::empty());
    while i < s.len()
        invariant
            i <= s.len(),
            t == stored_outcomes(s@),
            out.len() == i,
            read_outcomes(t, i as nat) == Ok::<Seq<OutcomeView>, Seq<char>>(outcomes(out@)),
        decreases s.len() - i,
    {
        assert(t[i as int] == s@[i as int]@);
        match s[i].to_runtime() {
            Err(e) => {
                proof {
                    lemma_outcomes_rejected(t, (i + 1) as nat, s@.len());
                }
                return Err(e);
            },
            Ok(x) => {
                let ghost before = out@;
                out.push(x);
                assert(outcomes(out@) =~= outcomes(before).push(x@));
            },
        }
        i = i + 1;
    }
    Ok(out)
}

impl RootStatus {
    pub open spec fn label(self) -> Seq<char> {
        match self {
            RootStatus::Converged => "converged"@,
            RootStatus::Stagnated => "stagnated"@,
            RootStatus::Approximate => "approximate"@,
        }
    }

    pub fn as_str(self) -> (r: &'static str)
        ensures
            r@ == self.label(),
    {
        match self {
            RootStatus::Converged => "converged",
            RootStatus::Stagnated => "stagnated",
            RootStatus::Approximate => "approximate",
        }
    }
}

/// What a replay found of a stored root.
pub struct ReplayView {
    pub status: RootStatus,
    pub iterations: nat,
    pub correction_meets_target: bool,
    pub digits_mismatch: bool,
    pub residual_mismatch: bool,
    pub stored_residual: HpValue,
    pub replayed_residual: Option<HpValue>,
}

impl ReplayView {
    /// Whether the stored diagnostics contradict the replay.
    pub open spec fn inconsistent(self, steps: nat) -> bool {
        ||| self.iterations > steps
        ||| self.status is Converged != self.correction_meets_target
        ||| (self.status is Approximate && self.iterations != steps)
        ||| self.digits_mismatch
        ||| self.residual_mismatch
    }
}

/// What a replay found of a stored root.
#[derive(Debug)]
pub struct RootReplay {
    pub status: RootStatus,
    pub iterations: usize,
    pub correction_meets_target: bool,
    pub digits_mismatch: bool,
    pub residual_mismatch: bool,
    pub stored_residual: HpFloat,
    pub replayed_residual: Option<HpFloat>,
}

impl View for RootReplay {
    type V = ReplayView;

    open spec fn view(&self) -> ReplayView {
        ReplayView {
            status: self.status,
            iterations: self.iterations as nat,
            correction_meets_target: self.correction_meets_target,
            digits_mismatch: self.digits_mismatch,
            residual_mismatch: self.residual_mismatch,
            stored_residual: self.stored_residual@,
            replayed_residual: match self.replayed_residual {
                None => None,
                Some(v) => Some(v@),
            },
        }
    }
}

impl ReplayView {
    /// The words for a root that does not replay, given the step limit and the texts of its two
    /// residuals.
    pub open spec fn words(self, steps: nat, stored: Seq<char>, replayed: Seq<char>) -> Seq<char> {
        "validated CCM root-range payload has inconsistent convergence diagnostics: status="@
            + self.status.label() + ", iterations="@ + number_text(self.iterations) + "/"@
            + number_text(steps) + ", correction_meets_target="@ + flag_text(
            self.correction_meets_target,
        ) + ", digits_mismatch="@ + flag_text(self.digits_mismatch) + ", residual_mismatch="@
            + flag_text(self.residual_mismatch) + ", stored_residual="@ + stored
            + ", replayed_residual="@ + if self.replayed_residual is Some {
            replayed
        } else {
            "none"@
        }
    }
}

/// A truth value in words.
pub open spec fn flag_text(flag: bool) -> Seq<char> {
    if flag {
        "true"@
    } else {
        "false"@
    }
}

fn push_flag(t: &mut String, flag: bool)
    ensures
        final(t)@ == old(t)@ + flag_text(flag),
{
    if flag {
        t.append("true");
    } else {
        t.append("false");
    }
}

impl RootReplay {
    /// The words for a root that does not replay, given the step limit and the texts of its two
    /// residuals.
    pub fn message(&self, solver_steps: usize, stored: &str, replayed: &str) -> (r: String)
        ensures
            r@ == self@.words(solver_steps as nat, stored@, replayed@),
    {
        let mut t: String =
            "validated CCM root-range payload has inconsistent convergence diagnostics: status=".to_owned();
        t.append(self.status.as_str());
        t.append(", iterations=");
        push_number(&mut t, self.iterations as u64);
        t.append("/");
        push_number(&mut t, solver_steps as u64);
        t.append(", correction_meets_target=");
        push_flag(&mut t, self.correction_meets_target);
        t.append(", digits_mismatch=");
        push_flag(&mut t, self.digits_mismatch);
        t.append(", residual_mismatch=");
        push_flag(&mut t, self.residual_mismatch);
        t.append(", stored_residual=");
        t.append(stored);
        t.append(", replayed_residual=");
        match &self.replayed_residual {
            Some(_) => t.append(replayed),
            None => t.append("none"),
        }
        t
    }
}

/// Residual and term scale of the secular sum at a point; `None` on a pole.
pub open spec fn residual_and_scale(
    xi: Seq<HpValue>,
    n: int,
    spacing: HpValue,
    z: HpValue,
    p: nat,
) -> Option<(HpValue, HpValue)> {
    if on_pole(n, spacing, z, p) {
        None
    } else {
        Some(
            (
                secular_sum(xi, n, spacing, z, p).abs(),
                accumulate(hp_int(p, 0), secular_magnitudes(xi, n, spacing, z, p), xi.len()),
            ),
        )
    }
}

/// The replay of a stored root.
pub open spec fn replay(
    status: RootStatus,
    x: RefinementView,
    xi: Seq<HpValue>,
    n: int,
    spacing: HpValue,
    log10_two: HpValue,
    log10_relative: HpValue,
    p: nat,
) -> ReplayView {
    let again = residual_and_scale(xi, n, spacing, x.value, p);
    ReplayView {
        status,
        iterations: x.iterations,
        correction_meets_target: x.final_correction.lt(correction_tolerance(x.value, p)),
        digits_mismatch: !digits_worth(
            x.value,
            x.final_correction,
            log10_two,
            log10_relative,
            p,
        ).eqv(x.achieved_decimal_digits),
        residual_mismatch: !replay_agrees(x.residual, again, xi.len(), p),
        stored_residual: x.residual,
        replayed_residual: match again {
            None => None,
            Some(v) => Some(v.0),
        },
    }
}

/// Replays a stored root.
pub fn replay_root(
    status: RootStatus,
    result: &RootRefinement,
    xi: &Vec<HpFloat>,
    n_modes: usize,
    two_pi_over_l: &HpFloat,
    log10_two: &HpFloat,
    log10_relative: &HpFloat,
    prec: u32,
) -> (r: RootReplay)
    requires
        prec >= 1,
        weights_fit(xi@.len(), n_modes as nat),
    ensures
        r@ == replay(
            status,
            result@,
            vals(xi@),
            n_modes as int,
            two_pi_over_l@,
            log10_two@,
            log10_relative@,
            prec as nat,
        ),
{
    let correction_meets_target: bool = result.diagnostics.final_correction.lt(
        &root_correction_tolerance(&result.value, prec),
    );
    let digits: HpFloat = achieved_decimal_digits(
        &result.value,
        &result.diagnostics.final_correction,
        log10_two,
        log10_relative,
        prec,
    );
    let again: Option<(HpFloat, HpFloat)> = secular_residual_and_scale_at(
        xi,
        n_modes,
        two_pi_over_l,
        &result.value,
        prec,
    );
    let residual_matches: bool = match &again {
        None => residual_replay_matches(&result.diagnostics.residual, None, xi.len(), prec),
        Some(v) => residual_replay_matches(
            &result.diagnostics.residual,
            Some((&v.0, &v.1)),
            xi.len(),
            prec,
        ),
    };
    RootReplay {
        status,
        iterations: result.diagnostics.iterations,
        correction_meets_target,
        digits_mismatch: !digits.eqv(&result.diagnostics.achieved_decimal_digits),
        residual_mismatch: !residual_matches,
        stored_residual: result.diagnostics.residual.clone(),
        replayed_residual: match again {
            None => None,
            Some(v) => Some(v.0),
        },
    }
}

/// Why a stored range is rejected.
pub enum RangeFault {
    Words(Seq<char>),
    Inconsistent(ReplayView),
}

/// Why a stored range is rejected: in words, or with the numbers of the root that does not
/// replay.
#[derive(Debug)]
pub enum RootRangeRejection {
    Invalid(CcmError),
    Inconsistent(RootReplay),
}

impl View for RootRangeRejection {
    type V = RangeFault;

    open spec fn view(&self) -> RangeFault {
        match self {
            RootRangeRejection::Invalid(e) => RangeFault::Words(e.text()),
            RootRangeRejection::Inconsistent(x) => RangeFault::Inconsistent(x@),
        }
    }
}

/// The values against which a range is replayed.
pub struct ReplaySource {
    pub xi: Seq<HpValue>,
    pub n: int,
    pub spacing: HpValue,
    pub log10_two: HpValue,
    pub log10_relatives: Seq<HpValue>,
    pub p: nat,
    pub steps: nat,
}

/// First fault at or after position `from`, given the value before it.
pub open spec fn replay_fault(
    s: Seq<OutcomeView>,
    from: int,
    previous: Option<HpValue>,
    source: ReplaySource,
    require_converged: bool,
    domain: IndependentRootDomain,
) -> Option<RangeFault>
    decreases s.len() - from,
{
    if from < 0 || from >= s.len() {
        None
    } else {
        match s[from] {
            OutcomeView::Failed { .. } => Some(
                RangeFault::Words("computed CCM root-range payload contains a failed root"@),
            ),
            OutcomeView::Valued { status, refinement } => {
                let found = replay(
                    status,
                    refinement,
                    source.xi,
                    source.n,
                    source.spacing,
                    source.log10_two,
                    source.log10_relatives[from],
                    source.p,
                );
                if require_converged && !(status is Converged) {
                    Some(
                        RangeFault::Words(
                            "requested assurance rejects "@ + status.label()
                                + " CCM root-range evidence"@,
                        ),
                    )
                } else if found.inconsistent(source.steps) {
                    Some(RangeFault::Inconsistent(found))
                } else if breaks_order(refinement.value, previous, domain) {
                    Some(
                        RangeFault::Words(
                            "CCM root-range payload is not a strictly increasing nonzero "@
                                + domain.label() + " sequence"@,
                        ),
                    )
                } else {
                    replay_fault(
                        s,
                        from + 1,
                        Some(refinement.value),
                        source,
                        require_converged,
                        domain,
                    )
                }
            },
        }
    }
}

/// What reading a stored range gives.
pub open spec fn range_reading(a: PortableRootRange, q: RangeRequest, source: ReplaySource) -> Result<
    Seq<OutcomeView>,
    RangeFault,
> {
    if !range_identity_holds(a, q) {
        Err(
            RangeFault::Words("CCM root-range payload does not match its semantic identity"@),
        )
    } else {
        match read_outcomes(stored_outcomes(a.outcomes@), a.outcomes@.len()) {
            Err(m) => Err(RangeFault::Words(m)),
            Ok(s) => match replay_fault(s, 0, None, source, q.require_converged, q.domain) {
                Some(f) => Err(f),
                None => Ok(s),
            },
        }
    }
}

fn rejected_status(status: RootStatus) -> (r: RootRangeRejection)
    ensures
        r is Invalid,
        r->Invalid_0 is InvalidManifest,
        r@ == RangeFault::Words(
            "requested assurance rejects "@ + status.label() + " CCM root-range evidence"@,
        ),
{
    let mut t: String = "requested assurance rejects ".to_owned();
    t.append(status.as_str());
    t.append(" CCM root-range evidence");
    RootRangeRejection::Invalid(CcmError::InvalidManifest(t))
}

fn disordered_range(domain: IndependentRootDomain) -> (r: RootRangeRejection)
    ensures
        r is Invalid,
        r->Invalid_0 is InvalidManifest,
        r@ == RangeFault::Words(
            "CCM root-range payload is not a strictly increasing nonzero "@ + domain.label()
                + " sequence"@,
        ),
{
    let mut t: String = "CCM root-range payload is not a strictly increasing nonzero ".to_owned();
    t.append(domain.as_str());
    t.append(" sequence");
    RootRangeRejection::Invalid(CcmError::InvalidManifest(t))
}

/// Reads a stored range back: its identity has to match, every outcome has to carry a value,
/// every diagnostic has to replay, and the values have to rise.
///
/// `log10_two` is the decimal logarithm of two, and `log10_relatives` those of the relative
/// corrections of the outcomes.
pub fn decode_root_range(
    artifact: &PortableRootRange,
    request: &RangeRequest,
    xi: &Vec<HpFloat>,
    two_pi_over_l: &HpFloat,
    log10_two: &HpFloat,
    log10_relatives: &Vec<HpFloat>,
) -> (r: Result<Vec<EigenvalueResult>, RootRangeRejection>)
    requires
        request.cfg.precision_bits >= 1,
        weights_fit(xi@.len(), request.params.n_modes as nat),
        log10_relatives.len() == artifact.outcomes.len(),
    ensures
        ({
            let source = ReplaySource {
                xi: vals(xi@),
                n: request.params.n_modes as int,
                spacing: two_pi_over_l@,
                log10_two: log10_two@,
                log10_relatives: vals(log10_relatives@),
                p: request.cfg.precision_bits as nat,
                steps: request.cfg.solver_steps as nat,
            };
            match r {
                Ok(v) => range_reading(*artifact, *request, source) == Ok::<
                    Seq<OutcomeView>,
                    RangeFault,
                >(outcomes(v@)),
                Err(e) => range_reading(*artifact, *request, source) == Err::<
                    Seq<OutcomeView>,
                    RangeFault,
                >(e@) && (e is Invalid ==> e->Invalid_0 is InvalidManifest),
            }
        }),
{
    let ghost source = ReplaySource {
        xi: vals(xi@),
        n: request.params.n_modes as int,
        spacing: two_pi_over_l@,
        log10_two: log10_two@,
        log10_relatives: vals(log10_relatives@),
        p: request.cfg.precision_bits as nat,
        steps: request.cfg.solver_steps as nat,
    };
    if !range_identity_matches(artifact, request) {
        return Err(
            RootRangeRejection::Invalid(
                CcmError::invalid("CCM root-range payload does not match its semantic identity"),
            ),
        );
    }
    let window: Vec<EigenvalueResult> = match decode_outcomes(&artifact.outcomes) {
        Ok(v) => v,
        Err(e) => {
            return Err(RootRangeRejection::Invalid(e));
        },
    };
    let ghost s = outcomes(window@);
    let ghost goal = replay_fault(s, 0, None, source, request.require_converged, request.domain);
    let mut i: usize = 0;
    while i < window.len()
        invariant
            i <= window.len(),
            request.cfg.precision_bits >= 1,
            weights_fit(xi@.len(), request.params.n_modes as nat),
            window.len() == log10_relatives.len(),
            s == outcomes(window@),
            range_identity_holds(*artifact, *request),
            read_outcomes(stored_outcomes(artifact.outcomes@), artifact.outcomes@.len()) == Ok::<
                Seq<OutcomeView>,
                Seq<char>,
            >(s),
            source == (ReplaySource {
                xi: vals(xi@),
                n: request.params.n_modes as int,
                spacing: two_pi_over_l@,
                log10_two: log10_two@,
                log10_relatives: vals(log10_relatives@),
                p: request.cfg.precision_bits as nat,
                steps: request.cfg.solver_steps as nat,
            }),
            i > 0 ==> s[i - 1] is Valued,
            goal == replay_fault(s, 0, None, source, request.require_converged, request.domain),
            goal == replay_fault(
                s,
                i as int,
                value_at(s, i - 1),
                source,
                request.require_converged,
                request.domain,
            ),
        decreases window.len() - i,
    {
        assert(s[i as int] == window@[i as int]@);
        let previous: Option<&HpFloat> = if i == 0 {
            None
        } else {
            assert(s[i - 1] == window@[i - 1]@);
            window[i - 1].value()
        };
        let (result, status): (&RootRefinement, RootStatus) = match &window[i] {
            EigenvalueResult::Converged(x) => (x, RootStatus::Converged),
            EigenvalueResult::Stagnated(x) => (x, RootStatus::Stagnated),
            EigenvalueResult::Approximate(x) => (x, RootStatus::Approximate),
            EigenvalueResult::Failed { .. } => {
                return Err(
                    RootRangeRejection::Invalid(
                        CcmError::invalid("computed CCM root-range payload contains a failed root"),
                    ),
                );
            },
        };
        if request.require_converged && status != RootStatus::Converged {
            return Err(rejected_status(status));
        }
        let found: RootReplay = replay_root(
            status,
            result,
            xi,
            request.params.n_modes,
            two_pi_over_l,
            log10_two,
            &log10_relatives[i],
            request.cfg.precision_bits,
        );
        if found.iterations > request.cfg.solver_steps || (status == RootStatus::Converged)
            != found.correction_meets_target || (status == RootStatus::Approximate
            && found.iterations != request.cfg.solver_steps) || found.digits_mismatch
            || found.residual_mismatch {
            return Err(RootRangeRejection::Inconsistent(found));
        }
        if value_breaks_order(&result.value, previous, request.domain) {
            return Err(disordered_range(request.domain));
        }
        i = i + 1;
    }
    Ok(window)
}

/// A range that reads back rises through nonzero values of its domain, every one of which
/// replays, and all of which converged where that is asked for.
pub proof fn law_read_range_replays(
    s: Seq<OutcomeView>,
    from: int,
    source: ReplaySource,
    require_converged: bool,
    domain: IndependentRootDomain,
)
    requires
        0 <= from <= s.len(),
        replay_fault(s, from, value_at(s, from - 1), source, require_converged, domain) is None,
    ensures
        forall|i: int|
            from <= i < s.len() ==> {
                &&& #[trigger] s[i] is Valued
                &&& require_converged ==> s[i]->status is Converged
                &&& !replay(
                    s[i]->status,
                    s[i]->refinement,
                    source.xi,
                    source.n,
                    source.spacing,
                    source.log10_two,
                    source.log10_relatives[i],
                    source.p,
                ).inconsistent(source.steps)
                &&& !breaks_order(s[i]->refinement.value, value_at(s, i - 1), domain)
            },
    decreases s.len() - from,
{
    if from < s.len() {
        assert(value_at(s, from) == Some(s[from]->refinement.value));
        law_read_range_replays(s, from + 1, source, require_converged, domain);
    }
}

proof fn lemma_tolerance_is_positive(value: HpValue, p: nat)
    ensures
        correction_tolerance(value, p).abs() == correction_tolerance(value, p),
{
    reveal(mul_class);
    reveal(rounded);
}

/// What a search that gives a point leaves for its replay.
proof fn lemma_search_replays(
    method: RootSolver,
    xi: Seq<HpValue>,
    n: int,
    spacing: HpValue,
    p: nat,
    state: SearchState,
    done: nat,
    left: nat,
)
    requires
        left == 0 ==> !state.last.lt_abs(correction_tolerance(state.z, p)),
        state.last.abs() == state.last,
    ensures
        search(method, xi, n, spacing, p, state, done, left) matches SearchOutcome::Point(x) ==> {
            &&& x.final_correction.abs() == x.final_correction
            &&& x.status is Converged == x.final_correction.lt_abs(correction_tolerance(x.value, p))
        },
    decreases left,
{
    if left > 0 {
        let c = correction(method, xi, n, spacing, state.z, p);
        if c is Some {
            let dz = c->0;
            let z = state.z.minus(dz);
            let a = dz.abs();
            let stalled = if improves(state.best, a) {
                0
            } else {
                state.stalled + 1
            };
            if !a.lt_abs(correction_tolerance(z, p)) {
                let next = SearchState {
                    z,
                    before: Some(state.z),
                    last: a,
                    best: if improves(state.best, a) {
                        Some(a)
                    } else {
                        state.best
                    },
                    stalled,
                };
                lemma_search_replays(
                    method,
                    xi,
                    n,
                    spacing,
                    p,
                    next,
                    done + 1,
                    (left - 1) as nat,
                );
            }
        }
    }
}

proof fn lemma_abs_is_not_negative(x: HpValue)
    requires
        x.abs() == x,
    ensures
        !x.lt(hp_word(0)),
        !x.is_nan() ==> x.eqv(x),
{
    reveal(class_order);
}

/// A computed root with a finite residual and a number of digits replays as it was computed.
proof fn lemma_computed_root_replays(
    method: RootSolver,
    seed: HpValue,
    source: ReplaySource,
    log10_relative: HpValue,
)
    requires
        ({
            let found = completed(
                refinement(
                    method,
                    source.xi,
                    source.n,
                    source.spacing,
                    seed,
                    source.p,
                    source.steps,
                ),
                source.log10_two,
                log10_relative,
                source.p,
            );
            found is Valued && found->refinement.residual.is_finite()
                && !found->refinement.achieved_decimal_digits.is_nan()
        }),
    ensures
        ({
            let found = completed(
                refinement(
                    method,
                    source.xi,
                    source.n,
                    source.spacing,
                    seed,
                    source.p,
                    source.steps,
                ),
                source.log10_two,
                log10_relative,
                source.p,
            );
            !replay(
                found->status,
                found->refinement,
                source.xi,
                source.n,
                source.spacing,
                source.log10_two,
                log10_relative,
                source.p,
            ).inconsistent(source.steps)
        }),
{
    let p = source.p;
    let state = SearchState { z: seed, before: None, last: hp_int(p, 0), best: None, stalled: 0 };
    let found = search(method, source.xi, source.n, source.spacing, p, state, 0, source.steps);
    law_refinement_outcome_is_honest(
        method,
        source.xi,
        source.n,
        source.spacing,
        p,
        state,
        0,
        source.steps,
    );
    lemma_search_replays(method, source.xi, source.n, source.spacing, p, state, 0, source.steps);
    let x = found->Point_0;
    lemma_tolerance_is_positive(x.value, p);
    assert(x.residual.abs() == x.residual);
    lemma_abs_is_not_negative(x.residual);
    reveal(class_order);
    let again = residual_and_scale(source.xi, source.n, source.spacing, x.value, p);
    let repeated = again->0;
    assert(again is Some && repeated == (x.residual, repeated.1));
    law_identical_replay_agrees(x.residual, repeated.1, source.xi.len(), p);
}

/// The window that a computation gives: one completed refinement per seed.
pub open spec fn computed_window(
    method: RootSolver,
    seeds: Seq<HpValue>,
    source: ReplaySource,
) -> Seq<OutcomeView> {
    Seq::new(
        seeds.len(),
        |i: int|
            completed(
                refinement(
                    method,
                    source.xi,
                    source.n,
                    source.spacing,
                    seeds[i],
                    source.p,
                    source.steps,
                ),
                source.log10_two,
                source.log10_relatives[i],
                source.p,
            ),
    )
}

proof fn lemma_computed_window_replays(
    method: RootSolver,
    seeds: Seq<HpValue>,
    source: ReplaySource,
    from: int,
    previous: Option<HpValue>,
    require_converged: bool,
    domain: IndependentRootDomain,
)
    requires
        0 <= from <= seeds.len(),
        first_fault(
            computed_window(method, seeds, source),
            from,
            previous,
            require_converged,
            domain,
        ) is None,
        forall|i: int|
            0 <= i < seeds.len() ==> ((#[trigger] computed_window(method, seeds, source)[i]) is Valued
                ==> computed_window(method, seeds, source)[i]->refinement.residual.is_finite()
                && !computed_window(
                method,
                seeds,
                source,
            )[i]->refinement.achieved_decimal_digits.is_nan()),
    ensures
        replay_fault(
            computed_window(method, seeds, source),
            from,
            previous,
            source,
            require_converged,
            domain,
        ) is None,
    decreases seeds.len() - from,
{
    let s = computed_window(method, seeds, source);
    if from < seeds.len() {
        assert(s[from] is Valued);
        lemma_computed_root_replays(method, seeds[from], source, source.log10_relatives[from]);
        lemma_computed_window_replays(
            method,
            seeds,
            source,
            from + 1,
            Some(s[from]->refinement.value),
            require_converged,
            domain,
        );
    }
}

/// What was computed and recorded reads back: a usable window of computed roots with finite
/// residuals and digits that are numbers, recorded under the identity that the reader asks for
/// with scalars that read as they were written, gives the same outcomes again.
pub proof fn law_recorded_range_reads_back(
    a: PortableRootRange,
    q: RangeRequest,
    method: RootSolver,
    seeds: Seq<HpValue>,
    source: ReplaySource,
)
    requires
        range_identity_holds(a, q),
        read_outcomes(stored_outcomes(a.outcomes@), a.outcomes@.len()) == Ok::<
            Seq<OutcomeView>,
            Seq<char>,
        >(computed_window(method, seeds, source)),
        first_fault(
            computed_window(method, seeds, source),
            0,
            None,
            q.require_converged,
            q.domain,
        ) is None,
        forall|i: int|
            0 <= i < seeds.len() ==> ((#[trigger] computed_window(method, seeds, source)[i]) is Valued
                ==> computed_window(method, seeds, source)[i]->refinement.residual.is_finite()
                && !computed_window(
                method,
                seeds,
                source,
            )[i]->refinement.achieved_decimal_digits.is_nan()),
    ensures
        range_reading(a, q, source) == Ok::<Seq<OutcomeView>, RangeFault>(
            computed_window(method, seeds, source),
        ),
{
    lemma_computed_window_replays(method, seeds, source, 0, None, q.require_converged, q.domain);
}

/// Words of a disagreement with a certificate, or `None` where the enclosures from position
/// `from` on hold the computed values.
///
/// `first` is the ordinal of the first enclosure, `start` that of the first computed outcome.
pub open spec fn certificate_conflict(
    s: Seq<OutcomeView>,
    start: nat,
    first: nat,
    enclosures: Seq<(ScalarView, ScalarView)>,
    from: int,
) -> Option<Seq<char>>
    decreases enclosures.len() - from,
{
    if from < 0 || from >= enclosures.len() {
        None
    } else {
        let ordinal = first + from;
        let (lower, upper) = enclosures[from];
        if ordinal > usize::MAX {
            Some("certified CCM root ordinal overflows"@)
        } else if ordinal < start {
            Some(
                "computed CCM root window begins after certified ordinal "@ + number_text(
                    ordinal as nat,
                ),
            )
        } else if value_at(s, ordinal - start) is None {
            Some(
                "computed CCM root window has no value for certified ordinal "@ + number_text(
                    ordinal as nat,
                ),
            )
        } else if lower.reading is Err {
            Some("parse certified CCM lower endpoint: "@ + lower.reading->Err_0)
        } else if upper.reading is Err {
            Some("parse certified CCM upper endpoint: "@ + upper.reading->Err_0)
        } else if value_at(s, ordinal - start)->0.lt(lower.reading->Ok_0) || upper.reading->Ok_0.lt(
            value_at(s, ordinal - start)->0,
        ) {
            Some(
                "computed CCM root ordinal "@ + number_text(ordinal as nat)
                    + " is outside its certified interval; independent discovery ordering or refinement does not reconcile"@,
            )
        } else {
            certificate_conflict(s, start, first, enclosures, from + 1)
        }
    }
}

/// A certified interval: the readings of its endpoints at the precision of the run.
#[derive(Debug)]
pub struct CertifiedInterval {
    pub lower: HpScalar,
    pub upper: HpScalar,
}

pub open spec fn intervals(s: Seq<CertifiedInterval>) -> Seq<(ScalarView, ScalarView)> {
    Seq::new(s.len(), |i: int| (s[i].lower@, s[i].upper@))
}

fn numbered_words(before: &str, n: u64, after: &str) -> (r: CcmError)
    ensures
        r.refuses(before@ + number_text(n as nat) + after@),
{
    let mut t: String = before.to_owned();
    push_number(&mut t, n);
    t.append(after);
    CcmError::Refused(t)
}

fn prefixed_words(before: &str, m: &String) -> (r: CcmError)
    ensures
        r.refuses(before@ + m@),
{
    let mut t: String = before.to_owned();
    t.append(m.as_str());
    CcmError::Refused(t)
}

/// Checks that every certified interval holds the value computed for its ordinal.
pub fn reconcile_computed_roots_with_certificate(
    window: &Vec<EigenvalueResult>,
    first_positive_root_index: usize,
    first_selected_positive_index: Option<usize>,
    enclosures: &Vec<CertifiedInterval>,
) -> (r: Result<(), CcmError>)
    ensures
        match first_selected_positive_index {
            None => r is Err && r->Err_0.refuses(
                "CCM root certificate does not assign positive ordinals"@,
            ),
            Some(first) => match r {
                Ok(_) => certificate_conflict(
                    outcomes(window@),
                    first_positive_root_index as nat,
                    first as nat,
                    intervals(enclosures@),
                    0,
                ) is None,
                Err(e) => e is Refused && certificate_conflict(
                    outcomes(window@),
                    first_positive_root_index as nat,
                    first as nat,
                    intervals(enclosures@),
                    0,
                ) == Some(e.text()),
            },
        },
{
    let first: usize = match first_selected_positive_index {
        None => {
            return Err(
                CcmError::refused("CCM root certificate does not assign positive ordinals"),
            );
        },
        Some(v) => v,
    };
    let ghost s = outcomes(window@);
    let ghost t = intervals(enclosures@);
    let ghost goal = certificate_conflict(
        s,
        first_positive_root_index as nat,
        first as nat,
        t,
        0,
    );
    let mut i: usize = 0;
    while i < enclosures.len()
        invariant
            i <= enclosures.len(),
            s == outcomes(window@),
            t == intervals(enclosures@),
            first_selected_positive_index == Some(first),
            goal == certificate_conflict(s, first_positive_root_index as nat, first as nat, t, 0),
            goal == certificate_conflict(
                s,
                first_positive_root_index as nat,
                first as nat,
                t,
                i as int,
            ),
        decreases enclosures.len() - i,
    {
        assert(t[i as int] == (enclosures@[i as int].lower@, enclosures@[i as int].upper@));
        let ordinal: usize = match first.checked_add(i) {
            None => {
                return Err(CcmError::refused("certified CCM root ordinal overflows"));
            },
            Some(v) => v,
        };
        if ordinal < first_positive_root_index {
            let e: CcmError = numbered_words(
                "computed CCM root window begins after certified ordinal ",
                ordinal as u64,
                "",
            );
            proof {
                reveal_strlit("");
                assert(e.text() =~= "computed CCM root window begins after certified ordinal "@
                    + number_text(ordinal as nat));
            }
            return Err(e);
        }
        let at: usize = ordinal - first_positive_root_index;
        let computed: Option<&HpFloat> = if at < window.len() {
            assert(s[at as int] == window@[at as int]@);
            window[at].value()
        } else {
            None
        };
        let value: &HpFloat = match computed {
            None => {
                let e: CcmError = numbered_words(
                    "computed CCM root window has no value for certified ordinal ",
                    ordinal as u64,
                    "",
                );
                proof {
                    reveal_strlit("");
                    assert(e.text()
                        =~= "computed CCM root window has no value for certified ordinal "@
                        + number_text(ordinal as nat));
                }
                return Err(e);
            },
            Some(v) => v,
        };
        let lower: &HpFloat = match &enclosures[i].lower.reading {
            Ok(v) => v,
            Err(m) => {
                return Err(prefixed_words("parse certified CCM lower endpoint: ", m));
            },
        };
        let upper: &HpFloat = match &enclosures[i].upper.reading {
            Ok(v) => v,
            Err(m) => {
                return Err(prefixed_words("parse certified CCM upper endpoint: ", m));
            },
        };
        if value.lt(lower) || upper.lt(value) {
            return Err(
                numbered_words(
                    "computed CCM root ordinal ",
                    ordinal as u64,
                    " is outside its certified interval; independent discovery ordering or refinement does not reconcile",
                ),
            );
        }
        i = i + 1;
    }
    Ok(())
}

} // verus!
