//! Decisions between the layers of a store: which solver an automatic request takes, which stored
//! windows can answer a request, what a run owes its assurance, and what a research run captures.

use crate::config::{
    CcmEigenstateSolver, CcmParams, CcmParityPolicy, HighPrecConfig,
    IndependentRootDiscoveryOptions, IndependentRootDomain, LambdaSquared, RootArtifactMode,
};
use crate::eigenvalues::{resolution_limit_text, StoredEnclosure};
use crate::error::CcmError;
use crate::float::HpFloat;
use crate::outcome::{outcomes, EigenvalueResult};
use crate::roots::{
    dataset_refusal, validate_reference_seed_dataset, ReferenceZeroDatasetIdentity,
};
use crate::text::{contains, occurs_at, text_contains, text_equal};
use vstd::prelude::*;
use vstd::string::*;

verus! {

/// What a store lets an automatic solve do.
#[derive(Clone, Copy, Debug, PartialEq, Eq, Structural)]
pub struct StoreMode {
    /// Exact stored eigenpairs decide the route.
    pub consults_exact: bool,
    /// A stored state may start a solve.
    pub may_use_seed: bool,
    /// Results are compared against a reference store.
    pub compares_reference: bool,
}

/// What decides the route of an automatic solve before the store is asked.
#[derive(Clone, Copy, Debug, PartialEq, Eq, Structural)]
pub struct AutoRequest {
    pub policy: CcmParityPolicy,
    pub store: StoreMode,
    pub n_modes: usize,
    pub guard_eigenpairs: usize,
    /// The caller brings a state to start from.
    pub seed_given: bool,
}

/// The state that a solve starts from.
#[derive(Clone, Copy, Debug, PartialEq, Eq, Structural)]
pub enum SeedSource {
    Canonical,
    Given,
    Discovered,
}

/// A route that an automatic solve takes.
#[derive(Clone, Copy, Debug, PartialEq, Eq, Structural)]
pub struct AutoRoute {
    pub solver: CcmEigenstateSolver,
    pub seed: SeedSource,
    /// A solve that finds no unambiguous target is repeated by inverse iteration.
    pub may_fall_back: bool,
}

/// What the store has been asked so far.
#[derive(Clone, Copy, Debug, PartialEq, Eq, Structural)]
pub struct AutoKnown {
    pub krylov_stored: Option<bool>,
    pub legacy_stored: Option<bool>,
    pub seed_found: Option<bool>,
}

/// What an automatic solve does next.
#[derive(Clone, Copy, Debug, PartialEq, Eq, Structural)]
pub enum AutoStep {
    AskKrylov,
    AskLegacy,
    SeekSeed,
    Take(AutoRoute),
}

/// Inverse iteration from its own start.
pub open spec fn legacy_route() -> AutoRoute {
    AutoRoute {
        solver: CcmEigenstateSolver::LegacyInverseIteration,
        seed: SeedSource::Canonical,
        may_fall_back: false,
    }
}

/// A Krylov solve.
pub open spec fn krylov_route(seed: SeedSource, may_fall_back: bool) -> AutoRoute {
    AutoRoute { solver: CcmEigenstateSolver::ShiftInvertKrylov, seed, may_fall_back }
}

/// The start of a solve: the caller's state, else a discovered one, else its own.
pub open spec fn start_of(seed_given: bool, seed_found: bool) -> SeedSource {
    if seed_given {
        SeedSource::Given
    } else if seed_found {
        SeedSource::Discovered
    } else {
        SeedSource::Canonical
    }
}

/// Whether a stored state is looked for.
pub open spec fn seeks_seed(q: AutoRequest, krylov_stored: bool) -> bool {
    !q.seed_given && q.store.may_use_seed && (krylov_stored ==> q.store.compares_reference)
}

/// The route of an automatic solve, given everything that the store holds: outside the even
/// sector inverse iteration; else a stored Krylov pair, then a stored pair of inverse iteration;
/// else inverse iteration where the block is too small for the guards, and a Krylov solve that may
/// fall back where it is not.
pub open spec fn auto_route(
    q: AutoRequest,
    krylov_stored: bool,
    legacy_stored: bool,
    seed_found: bool,
) -> AutoRoute {
    let krylov = q.store.consults_exact && krylov_stored;
    let found = seeks_seed(q, krylov) && seed_found;
    if !(q.policy is EvenSector) {
        legacy_route()
    } else if krylov {
        krylov_route(start_of(q.seed_given, found), false)
    } else if q.store.consults_exact && legacy_stored {
        legacy_route()
    } else if q.n_modes <= q.guard_eigenpairs {
        legacy_route()
    } else {
        krylov_route(start_of(q.seed_given, found), true)
    }
}

/// What an automatic solve does next: it asks the store only what it needs, in this order.
pub open spec fn auto_next(q: AutoRequest, known: AutoKnown) -> AutoStep {
    if !(q.policy is EvenSector) {
        AutoStep::Take(legacy_route())
    } else if q.store.consults_exact && known.krylov_stored is None {
        AutoStep::AskKrylov
    } else if q.store.consults_exact && known.krylov_stored == Some(true) {
        if seeks_seed(q, true) && known.seed_found is None {
            AutoStep::SeekSeed
        } else {
            AutoStep::Take(
                krylov_route(
                    start_of(q.seed_given, seeks_seed(q, true) && known.seed_found == Some(true)),
                    false,
                ),
            )
        }
    } else if q.store.consults_exact && known.legacy_stored is None {
        AutoStep::AskLegacy
    } else if (q.store.consults_exact && known.legacy_stored == Some(true)) || q.n_modes
        <= q.guard_eigenpairs {
        AutoStep::Take(legacy_route())
    } else if seeks_seed(q, false) && known.seed_found is None {
        AutoStep::SeekSeed
    } else {
        AutoStep::Take(
            krylov_route(
                start_of(q.seed_given, seeks_seed(q, false) && known.seed_found == Some(true)),
                true,
            ),
        )
    }
}

fn take_legacy() -> (r: AutoStep)
    ensures
        r == AutoStep::Take(legacy_route()),
{
    AutoStep::Take(
        AutoRoute {
            solver: CcmEigenstateSolver::LegacyInverseIteration,
            seed: SeedSource::Canonical,
            may_fall_back: false,
        },
    )
}

fn take_krylov(q: &AutoRequest, found: bool, may_fall_back: bool) -> (r: AutoStep)
    ensures
        r == AutoStep::Take(krylov_route(start_of(q.seed_given, found), may_fall_back)),
{
    let seed: SeedSource = if q.seed_given {
        SeedSource::Given
    } else if found {
        SeedSource::Discovered
    } else {
        SeedSource::Canonical
    };
    AutoStep::Take(
        AutoRoute { solver: CcmEigenstateSolver::ShiftInvertKrylov, seed, may_fall_back },
    )
}

/// What an automatic solve does next.
pub fn next_auto_step(q: &AutoRequest, known: &AutoKnown) -> (r: AutoStep)
    ensures
        r == auto_next(*q, *known),
{
    if q.policy != CcmParityPolicy::EvenSector {
        return take_legacy();
    }
    if q.store.consults_exact && known.krylov_stored.is_none() {
        return AutoStep::AskKrylov;
    }
    let may_seek: bool = !q.seed_given && q.store.may_use_seed;
    if q.store.consults_exact && known.krylov_stored == Some(true) {
        let seeks: bool = may_seek && q.store.compares_reference;
        if seeks && known.seed_found.is_none() {
            return AutoStep::SeekSeed;
        }
        return take_krylov(q, seeks && known.seed_found == Some(true), false);
    }
    if q.store.consults_exact && known.legacy_stored.is_none() {
        return AutoStep::AskLegacy;
    }
    if (q.store.consults_exact && known.legacy_stored == Some(true)) || q.n_modes
        <= q.guard_eigenpairs {
        return take_legacy();
    }
    if may_seek && known.seed_found.is_none() {
        return AutoStep::SeekSeed;
    }
    take_krylov(q, may_seek && known.seed_found == Some(true), true)
}

/// What is known after the store answered a step.
pub open spec fn answered(
    known: AutoKnown,
    step: AutoStep,
    krylov_stored: bool,
    legacy_stored: bool,
    seed_found: bool,
) -> AutoKnown {
    match step {
        AutoStep::AskKrylov => AutoKnown { krylov_stored: Some(krylov_stored), ..known },
        AutoStep::AskLegacy => AutoKnown { legacy_stored: Some(legacy_stored), ..known },
        AutoStep::SeekSeed => AutoKnown { seed_found: Some(seed_found), ..known },
        AutoStep::Take(_) => known,
    }
}

/// Three questions at the most lead an automatic solve to its route.
pub proof fn law_automatic_solve_finds_its_route(
    q: AutoRequest,
    krylov_stored: bool,
    legacy_stored: bool,
    seed_found: bool,
)
    ensures
        ({
            let k0 = AutoKnown { krylov_stored: None, legacy_stored: None, seed_found: None };
            let k1 = answered(k0, auto_next(q, k0), krylov_stored, legacy_stored, seed_found);
            let k2 = answered(k1, auto_next(q, k1), krylov_stored, legacy_stored, seed_found);
            let k3 = answered(k2, auto_next(q, k2), krylov_stored, legacy_stored, seed_found);
            auto_next(q, k3) == AutoStep::Take(
                auto_route(q, krylov_stored, legacy_stored, seed_found),
            )
        }),
{
}

/// A Krylov route is taken in the even sector alone, and a fallback only where nothing was stored.
pub proof fn law_automatic_routes(
    q: AutoRequest,
    krylov_stored: bool,
    legacy_stored: bool,
    seed_found: bool,
)
    ensures
        ({
            let route = auto_route(q, krylov_stored, legacy_stored, seed_found);
            &&& !(route.solver is Auto)
            &&& route.solver is ShiftInvertKrylov ==> q.policy is EvenSector
            &&& route.may_fall_back ==> route.solver is ShiftInvertKrylov && !(
            q.store.consults_exact && (krylov_stored || legacy_stored))
            &&& route.solver is LegacyInverseIteration ==> route.seed is Canonical
            &&& q.seed_given && route.solver is ShiftInvertKrylov ==> route.seed is Given
        }),
{
}

/// Refuses a Krylov solve outside the even sector.
pub fn check_solver_policy(cfg: &HighPrecConfig) -> (r: Result<(), CcmError>)
    ensures
        match r {
            Ok(_) => cfg.eigenstate_solver is ShiftInvertKrylov ==> cfg.parity() is EvenSector,
            Err(e) => cfg.eigenstate_solver is ShiftInvertKrylov && !(cfg.parity() is EvenSector)
                && e.refuses(
                "shift-invert Krylov CCM currently requires parity_policy=even-sector"@,
            ),
        },
{
    if cfg.eigenstate_solver == CcmEigenstateSolver::ShiftInvertKrylov
        && cfg.effective_parity_policy() != CcmParityPolicy::EvenSector {
        return Err(
            CcmError::refused(
                "shift-invert Krylov CCM currently requires parity_policy=even-sector",
            ),
        );
    }
    Ok(())
}

/// How a managed solve takes the smallest eigenpair.
#[derive(Clone, Copy, Debug, PartialEq, Eq, Structural)]
pub enum ManagedSolve {
    /// Inverse iteration on the full form, with or without projection onto even states.
    FullIteration { projects: bool },
    /// Inverse iteration on the even sector.
    EvenIteration,
    /// A Krylov solve on the even sector.
    EvenKrylov,
}

/// How a managed solve takes the smallest eigenpair: outside the even sector on the full form,
/// where the adaptive policy projects; in it by the configured solver.
pub open spec fn solve_of(policy: CcmParityPolicy, solver: CcmEigenstateSolver) -> ManagedSolve {
    if !(policy is EvenSector) {
        ManagedSolve::FullIteration { projects: policy is AdaptiveEven }
    } else if solver is ShiftInvertKrylov {
        ManagedSolve::EvenKrylov
    } else {
        ManagedSolve::EvenIteration
    }
}

/// How a managed solve takes the smallest eigenpair.
pub fn managed_solve(cfg: &HighPrecConfig) -> (r: ManagedSolve)
    ensures
        r == solve_of(cfg.parity(), cfg.eigenstate_solver),
{
    match (cfg.effective_parity_policy(), cfg.eigenstate_solver) {
        (CcmParityPolicy::EvenSector, CcmEigenstateSolver::ShiftInvertKrylov) => {
            ManagedSolve::EvenKrylov
        },
        (CcmParityPolicy::EvenSector, _) => ManagedSolve::EvenIteration,
        (CcmParityPolicy::AdaptiveEven, _) => ManagedSolve::FullIteration { projects: true },
        (CcmParityPolicy::Natural, _) => ManagedSolve::FullIteration { projects: false },
    }
}

/// Sizes of the prefix windows that are commonly stored, in the order in which they are tried.
pub open spec fn common_prefixes() -> Seq<usize> {
    seq![50, 25, 134, 100, 116, 250, 460, 500, 1_000]
}

/// Whether a stored prefix window of a size can answer a request: it reaches the last root, and
/// it is not the requested window itself.
pub open spec fn prefix_serves(size: usize, first: usize, count: usize) -> bool {
    size >= first + count - 1 && !(first == 1 && size == count)
}

/// The prefix sizes among the leading `n` that can answer a request.
pub open spec fn serving_prefixes(first: usize, count: usize, n: nat) -> Seq<usize>
    decreases n,
{
    if n == 0 {
        Seq::empty()
    } else {
        let before = serving_prefixes(first, count, (n - 1) as nat);
        if prefix_serves(common_prefixes()[n - 1], first, count) {
            before.push(common_prefixes()[n - 1])
        } else {
            before
        }
    }
}

/// The stored prefix windows that are tried for a request from reference seeds, in order.
///
/// None is tried for discovered roots, where results are not reused, or for seeds that are not
/// those of the bundled dataset.
pub fn prefixes_to_try(
    artifact_mode: RootArtifactMode,
    reuses_results: bool,
    bundled_dataset: bool,
    first_root_index: usize,
    count: usize,
) -> (r: Vec<usize>)
    requires
        first_root_index > 0,
        count > 0,
        first_root_index + count - 1 <= usize::MAX,
    ensures
        r@ == (if artifact_mode is ReferenceSeededRefinement && reuses_results && bundled_dataset {
            serving_prefixes(first_root_index, count, common_prefixes().len())
        } else {
            Seq::empty()
        }),
{
    let mut out: Vec<usize> = Vec::new();
    let seeded: bool = match artifact_mode {
        RootArtifactMode::ReferenceSeededRefinement => true,
        RootArtifactMode::Independent => false,
    };
    if !seeded || !reuses_results || !bundled_dataset {
        return out;
    }
    let sizes: [usize; 9] = [50, 25, 134, 100, 116, 250, 460, 500, 1_000];
    assert(sizes@ =~= common_prefixes());
    let last: usize = first_root_index + (count - 1);
    let mut i: usize = 0;
    while i < 9
        invariant
            i <= 9,
            sizes@ == common_prefixes(),
            last == first_root_index + count - 1,
            count > 0,
            out@ == serving_prefixes(first_root_index, count, i as nat),
        decreases 9 - i,
    {
        let size: usize = sizes[i];
        assert(size == common_prefixes()[i as int]);
        if size >= last && !(first_root_index == 1 && size == count) {
            out.push(size);
        }
        i = i + 1;
    }
    out
}

/// The part of a prefix window that answers a request.
pub fn project_prefix(prefix: &Vec<EigenvalueResult>, first_root_index: usize, count: usize) -> (r:
    Vec<EigenvalueResult>)
    requires
        first_root_index > 0,
        first_root_index + count - 1 <= prefix.len(),
    ensures
        outcomes(r@) == outcomes(prefix@).subrange(
            first_root_index - 1,
            first_root_index - 1 + count,
        ),
{
    let ghost s = outcomes(prefix@);
    let start: usize = first_root_index - 1;
    let mut out: Vec<EigenvalueResult> = Vec::with_capacity(count);
    let mut i: usize = 0;
    while i < count
        invariant
            i <= count,
            start + count <= prefix.len(),
            s == outcomes(prefix@),
            out.len() == i,
            forall|k: int| 0 <= k < i ==> (#[trigger] out@[k]@) == s[start + k],
        decreases count - i,
    {
        assert(s[start + i] == prefix@[start + i]@);
        out.push(prefix[start + i].copied());
        i = i + 1;
    }
    assert(outcomes(out@) =~= s.subrange(start as int, start + count));
    out
}

/// Every prefix that is tried holds all the requested roots.
pub proof fn law_tried_prefix_holds_the_request(first: usize, count: usize, n: nat, i: int)
    requires
        n <= common_prefixes().len(),
        0 <= i < serving_prefixes(first, count, n).len(),
    ensures
        prefix_serves(serving_prefixes(first, count, n)[i], first, count),
    decreases n,
{
    if n > 0 {
        let before = serving_prefixes(first, count, (n - 1) as nat);
        if i < before.len() {
            law_tried_prefix_holds_the_request(first, count, (n - 1) as nat, i);
        }
    }
}

/// What a caller asks of a result beyond its being computed.
#[derive(Clone, Copy, Debug, PartialEq, Eq, Structural)]
pub enum AssuranceLevel {
    Computed,
    CrossChecked,
    Certified,
}

impl AssuranceLevel {
    /// How much a level asks for.
    pub open spec fn rank(self) -> int {
        match self {
            AssuranceLevel::Computed => 0,
            AssuranceLevel::CrossChecked => 1,
            AssuranceLevel::Certified => 2,
        }
    }

    fn rank_of(self) -> (r: u8)
        ensures
            r == self.rank(),
    {
        match self {
            AssuranceLevel::Computed => 0,
            AssuranceLevel::CrossChecked => 1,
            AssuranceLevel::Certified => 2,
        }
    }

    /// The name of a level.
    pub open spec fn name(self) -> Seq<char> {
        match self {
            AssuranceLevel::Computed => "Computed"@,
            AssuranceLevel::CrossChecked => "CrossChecked"@,
            AssuranceLevel::Certified => "Certified"@,
        }
    }

    /// The name of a level.
    pub fn as_str(self) -> (r: &'static str)
        ensures
            r@ == self.name(),
    {
        match self {
            AssuranceLevel::Computed => "Computed",
            AssuranceLevel::CrossChecked => "CrossChecked",
            AssuranceLevel::Certified => "Certified",
        }
    }
}

/// Refuses an assurance that needs interval arithmetic where there is none.
pub fn check_assurance_build(requested: AssuranceLevel, has_intervals: bool) -> (r: Result<
    (),
    CcmError,
>)
    ensures
        match r {
            Ok(_) => has_intervals || requested is Computed,
            Err(e) => !has_intervals && !(requested is Computed) && e.refuses(
                "requested "@ + requested.name()
                    + " assurance requires an xc-spectral build with the arb feature"@,
            ),
        },
{
    if has_intervals || requested == AssuranceLevel::Computed {
        return Ok(());
    }
    let mut t: String = "requested ".to_owned();
    t.append(requested.as_str());
    t.append(" assurance requires an xc-spectral build with the arb feature");
    Err(CcmError::Refused(t))
}

/// What is owed to a requested assurance.
#[derive(Clone, Copy, Debug, PartialEq, Eq, Structural)]
pub enum AssuranceStep {
    /// A computed result is enough.
    Nothing,
    /// An earlier attestation is enough; the requirement is recorded.
    Retained,
    /// The result is certified now; the requirement is recorded.
    Certify,
}

/// What is owed to a requested assurance, given what was attested before.
pub open spec fn assurance_owed(
    requested: AssuranceLevel,
    attested: Option<AssuranceLevel>,
) -> AssuranceStep {
    if requested is Computed {
        AssuranceStep::Nothing
    } else if attested is Some && attested->0.rank() >= requested.rank() {
        AssuranceStep::Retained
    } else {
        AssuranceStep::Certify
    }
}

/// What is owed to a requested assurance, given what was attested before.
pub fn assurance_step(requested: AssuranceLevel, attested: Option<AssuranceLevel>) -> (r:
    AssuranceStep)
    ensures
        r == assurance_owed(requested, attested),
{
    if requested == AssuranceLevel::Computed {
        return AssuranceStep::Nothing;
    }
    match attested {
        Some(level) => if level.rank_of() >= requested.rank_of() {
            AssuranceStep::Retained
        } else {
            AssuranceStep::Certify
        },
        None => AssuranceStep::Certify,
    }
}

/// What follows a certification.
#[derive(Clone, Copy, Debug, PartialEq, Eq, Structural)]
pub enum CertificationOutcome {
    /// The attestation is recorded.
    Record,
    /// The computed result is kept and not published.
    KeepUnpublished,
    /// The failure is the outcome.
    Fail,
}

/// What follows a certification: a failure is survived only where the policy keeps computed
/// results.
pub fn certification_outcome(certified: bool, keeps_computed: bool) -> (r: CertificationOutcome)
    ensures
        r is Record == certified,
        r is KeepUnpublished == (!certified && keeps_computed),
        r is Fail == (!certified && !keeps_computed),
{
    if certified {
        CertificationOutcome::Record
    } else if keeps_computed {
        CertificationOutcome::KeepUnpublished
    } else {
        CertificationOutcome::Fail
    }
}

/// Refuses the certification of roots for a source that is no integer.
pub fn check_certifiable_source(params: &CcmParams) -> (r: Result<(), CcmError>)
    ensures
        match r {
            Ok(_) => params.lambda_sq is Integer,
            Err(e) => !(params.lambda_sq is Integer) && e.refuses(
                "root-only CCM certification currently requires exact integer lambda_squared"@,
            ),
        },
{
    match &params.lambda_sq {
        LambdaSquared::Integer(_) => Ok(()),
        _ => Err(
            CcmError::refused(
                "root-only CCM certification currently requires exact integer lambda_squared",
            ),
        ),
    }
}

/// Refuses a root certificate for a window that may hold negative roots or fall short.
pub fn check_certified_discovery(certifies: bool, discovery: IndependentRootDiscoveryOptions) -> (r:
    Result<(), CcmError>)
    ensures
        match r {
            Ok(_) => certifies ==> discovery.domain is Positive && !discovery.allow_incomplete,
            Err(e) => certifies && !(discovery.domain is Positive && !discovery.allow_incomplete)
                && e.refuses(
                "root-only certification requires a complete positive independent-discovery window"@,
            ),
        },
{
    if certifies && (discovery.domain != IndependentRootDomain::Positive
        || discovery.allow_incomplete) {
        return Err(
            CcmError::refused(
                "root-only certification requires a complete positive independent-discovery window",
            ),
        );
    }
    Ok(())
}

/// Whether a failure says that the precision cannot separate the sectors: one of its causes has
/// the words for it.
pub fn is_sector_resolution_limit(causes: &Vec<String>) -> (r: bool)
    ensures
        r == exists|i: int|
            0 <= i < causes@.len() && contains(
                #[trigger] causes@[i]@,
                "CCM sector resolution limit:"@,
            ),
{
    let mut i: usize = 0;
    while i < causes.len()
        invariant
            i <= causes.len(),
            forall|k: int|
                0 <= k < i ==> !contains(#[trigger] causes@[k]@, "CCM sector resolution limit:"@),
        decreases causes.len() - i,
    {
        if text_contains(causes[i].as_str(), "CCM sector resolution limit:") {
            return true;
        }
        i = i + 1;
    }
    false
}

/// A spectrum that is rejected because the precision cannot separate two eigenvalues is
/// recognized as such.
pub proof fn law_resolution_limits_are_recognized(
    enclosures: Seq<StoredEnclosure>,
    index: int,
    precision: nat,
)
    ensures
        contains(
            resolution_limit_text(enclosures, index, precision),
            "CCM sector resolution limit:"@,
        ),
{
    let s = resolution_limit_text(enclosures, index, precision);
    let head = "CCM sector resolution limit: algebraic indices "@;
    let pat = "CCM sector resolution limit:"@;
    reveal_strlit("CCM sector resolution limit: algebraic indices ");
    reveal_strlit("CCM sector resolution limit:");
    assert(s.subrange(0, head.len() as int) =~= head);
    assert(head.subrange(0, pat.len() as int) =~= pat);
    assert(s.subrange(0, pat.len() as int) =~= s.subrange(0, head.len() as int).subrange(
        0,
        pat.len() as int,
    ));
    assert(occurs_at(s, pat, 0));
}

/// How a sector analysis ended.
#[derive(Clone, Copy, Debug, PartialEq, Eq, Structural)]
pub enum SectorOutcome {
    NotRequested,
    Resolved,
    /// The precision cannot separate the sectors.
    Limited,
}

/// Where the evenness of a research run comes from.
#[derive(Clone, Copy, Debug, PartialEq, Eq, Structural)]
pub enum EvennessSource {
    /// None is captured.
    Nowhere,
    /// The winning state of the sector analysis.
    SectorGap,
    /// Eigenpairs of the store.
    Store,
    /// Iteration on the form.
    Form,
}

/// Where the evenness of a research run comes from: a resolved sector analysis is preferred, and
/// an unresolved one gives none.
pub fn evenness_source(capture: bool, sectors: SectorOutcome, managed: bool) -> (r: EvennessSource)
    ensures
        r == (if !capture || sectors is Limited {
            EvennessSource::Nowhere
        } else if sectors is Resolved {
            EvennessSource::SectorGap
        } else if managed {
            EvennessSource::Store
        } else {
            EvennessSource::Form
        }),
{
    if !capture {
        return EvennessSource::Nowhere;
    }
    match sectors {
        SectorOutcome::Limited => EvennessSource::Nowhere,
        SectorOutcome::Resolved => EvennessSource::SectorGap,
        SectorOutcome::NotRequested => if managed {
            EvennessSource::Store
        } else {
            EvennessSource::Form
        },
    }
}

/// One member of a sweep over rising mode counts.
#[derive(Debug)]
pub struct CcmIndexedSeededSweepPoint {
    pub params: CcmParams,
    pub first_root_index: usize,
    pub zero_seeds: Vec<HpFloat>,
}

/// Whether two sources share lambda-squared.
pub open spec fn same_lambda(a: LambdaSquared, b: LambdaSquared) -> bool {
    match (a, b) {
        (LambdaSquared::Integer(x), LambdaSquared::Integer(y)) => x == y,
        (
            LambdaSquared::Fractional { identity: s, floor: x },
            LambdaSquared::Fractional { identity: t, floor: y },
        ) => s@ == t@ && x == y,
        _ => false,
    }
}

fn shares_lambda(a: &LambdaSquared, b: &LambdaSquared) -> (r: bool)
    ensures
        r == same_lambda(*a, *b),
{
    match (a, b) {
        (LambdaSquared::Integer(x), LambdaSquared::Integer(y)) => *x == *y,
        (
            LambdaSquared::Fractional { identity: s, floor: x },
            LambdaSquared::Fractional { identity: t, floor: y },
        ) => *x == *y && text_equal(s.as_str(), t.as_str()),
        _ => false,
    }
}

/// The first refusal of the seeds of a sweep, among its leading `n` points.
pub open spec fn seed_refusal(
    points: Seq<CcmIndexedSeededSweepPoint>,
    dataset: ReferenceZeroDatasetIdentity,
    well_formed: bool,
    n: nat,
) -> Option<Seq<char>>
    decreases n,
{
    if n == 0 {
        None
    } else {
        match seed_refusal(points, dataset, well_formed, (n - 1) as nat) {
            Some(words) => Some(words),
            None => dataset_refusal(
                RootArtifactMode::ReferenceSeededRefinement,
                Some(dataset@),
                well_formed,
                points[n - 1].first_root_index as nat,
                points[n - 1].zero_seeds@.len(),
            ),
        }
    }
}

/// Whether a sweep keeps lambda-squared and its mode counts rise.
pub open spec fn sweep_rises(points: Seq<CcmIndexedSeededSweepPoint>) -> bool {
    forall|i: int|
        1 <= i < points.len() ==> same_lambda(
            points[i - 1].params.lambda_sq,
            (#[trigger] points[i]).params.lambda_sq,
        ) && points[i - 1].params.n_modes < points[i].params.n_modes
}

/// Why a sweep is refused; `None` where it may run.
pub open spec fn sweep_refusal(
    points: Seq<CcmIndexedSeededSweepPoint>,
    cfg: HighPrecConfig,
    dataset: ReferenceZeroDatasetIdentity,
    well_formed: bool,
) -> Option<Seq<char>> {
    if points.len() == 0 {
        Some("cross-N continuation sweep requires at least one point"@)
    } else if !(cfg.eigenstate_solver is ShiftInvertKrylov) || !(cfg.parity() is EvenSector) {
        Some("cross-N continuation requires the forced-even shift-invert Krylov route"@)
    } else if seed_refusal(points, dataset, well_formed, points.len()) is Some {
        seed_refusal(points, dataset, well_formed, points.len())
    } else if !sweep_rises(points) {
        Some("cross-N continuation requires one lambda-squared value and strictly increasing N"@)
    } else {
        None
    }
}

proof fn lemma_seed_refused(
    points: Seq<CcmIndexedSeededSweepPoint>,
    dataset: ReferenceZeroDatasetIdentity,
    well_formed: bool,
    n: nat,
    total: nat,
)
    requires
        n <= total,
        seed_refusal(points, dataset, well_formed, n) is Some,
    ensures
        seed_refusal(points, dataset, well_formed, total) == seed_refusal(
            points,
            dataset,
            well_formed,
            n,
        ),
    decreases total,
{
    if n < total {
        lemma_seed_refused(points, dataset, well_formed, n, (total - 1) as nat);
    }
}

/// Checks a sweep over rising mode counts.
///
/// `well_formed` says whether the dataset's own identity and digest hold up.
pub fn validate_continuation_sweep(
    points: &Vec<CcmIndexedSeededSweepPoint>,
    cfg: &HighPrecConfig,
    dataset: &ReferenceZeroDatasetIdentity,
    well_formed: bool,
) -> (r: Result<(), CcmError>)
    ensures
        match r {
            Ok(_) => sweep_refusal(points@, *cfg, *dataset, well_formed) is None,
            Err(e) => e is Refused && sweep_refusal(points@, *cfg, *dataset, well_formed) == Some(
                e.text(),
            ),
        },
{
    if points.len() == 0 {
        return Err(CcmError::refused("cross-N continuation sweep requires at least one point"));
    }
    if cfg.eigenstate_solver != CcmEigenstateSolver::ShiftInvertKrylov
        || cfg.effective_parity_policy() != CcmParityPolicy::EvenSector {
        return Err(
            CcmError::refused(
                "cross-N continuation requires the forced-even shift-invert Krylov route",
            ),
        );
    }
    let mut i: usize = 0;
    while i < points.len()
        invariant
            i <= points.len(),
            points@.len() > 0,
            cfg.eigenstate_solver is ShiftInvertKrylov,
            cfg.parity() is EvenSector,
            seed_refusal(points@, *dataset, well_formed, i as nat) is None,
        decreases points.len() - i,
    {
        match validate_reference_seed_dataset(
            RootArtifactMode::ReferenceSeededRefinement,
            Some(dataset),
            well_formed,
            points[i].first_root_index,
            points[i].zero_seeds.len(),
        ) {
            Err(e) => {
                proof {
                    lemma_seed_refused(
                        points@,
                        *dataset,
                        well_formed,
                        (i + 1) as nat,
                        points@.len(),
                    );
                }
                return Err(e);
            },
            Ok(_) => {},
        }
        i = i + 1;
    }
    let mut k: usize = 1;
    while k < points.len()
        invariant
            1 <= k <= points.len(),
            points@.len() > 0,
            cfg.eigenstate_solver is ShiftInvertKrylov,
            cfg.parity() is EvenSector,
            seed_refusal(points@, *dataset, well_formed, points@.len()) is None,
            forall|j: int|
                1 <= j < k ==> same_lambda(
                    points@[j - 1].params.lambda_sq,
                    (#[trigger] points@[j]).params.lambda_sq,
                ) && points@[j - 1].params.n_modes < points@[j].params.n_modes,
        decreases points.len() - k,
    {
        if !shares_lambda(&points[k - 1].params.lambda_sq, &points[k].params.lambda_sq)
            || points[k - 1].params.n_modes >= points[k].params.n_modes {
            assert(!sweep_rises(points@)) by {
                assert(points@[k as int] == points@[k as int]);
            }
            return Err(
                CcmError::refused(
                    "cross-N continuation requires one lambda-squared value and strictly increasing N",
                ),
            );
        }
        k = k + 1;
    }
    Ok(())
}

/// A sweep that may run rises at every step, whatever two members are compared.
pub proof fn law_sweep_modes_rise(points: Seq<CcmIndexedSeededSweepPoint>, i: int, j: int)
    requires
        sweep_rises(points),
        0 <= i < j < points.len(),
    ensures
        points[i].params.n_modes < points[j].params.n_modes,
    decreases j - i,
{
    assert(points[j - 1].params.n_modes < points[j].params.n_modes);
    if i < j - 1 {
        law_sweep_modes_rise(points, i, j - 1);
    }
}

} // verus!
