//! Policies and configuration of a high-precision run.

use crate::decimal::{decimal_order, Decimal};
use crate::error::CcmError;
use crate::limbs::Order;
use crate::text::{number_string, number_text, push_number};
use vstd::prelude::*;
use vstd::string::*;

verus! {

/// Extra working bits beyond the requested decimal accuracy.
///
/// Secular evaluation loses several bits to cancellation near a root; the reserve lets
/// the point solver meet the requested accuracy.
pub const GUARD_BITS: u32 = 64;

/// Consecutive point-solver steps without a smaller correction before the outcome
/// counts as stagnated.
pub const ROOT_STAGNATION_WINDOW: usize = 128;

/// Fewest quadrature points.
pub const MIN_QUAD_POINTS: usize = 600;

/// Most quadrature points.
pub const MAX_QUAD_POINTS: usize = 4000;

/// Quadrature points per decimal digit, before clamping.
pub const QUAD_POINTS_PER_DIGIT: usize = 3;

/// Sign domain of independent root discovery.
#[derive(Clone, Copy, Debug, PartialEq, Eq, Structural)]
pub enum IndependentRootDomain {
    /// Positive roots only; the production default.
    Positive,
    /// Both sides of the finite source window, in numerical order.
    Signed,
}

impl IndependentRootDomain {
    pub open spec fn label(self) -> Seq<char> {
        match self {
            IndependentRootDomain::Positive => "positive"@,
            IndependentRootDomain::Signed => "signed"@,
        }
    }

    pub fn as_str(self) -> (r: &'static str)
        ensures
            r@ == self.label(),
    {
        match self {
            IndependentRootDomain::Positive => "positive",
            IndependentRootDomain::Signed => "signed",
        }
    }
}

impl Default for IndependentRootDomain {
    fn default() -> (r: IndependentRootDomain)
        ensures
            r is Positive,
    {
        IndependentRootDomain::Positive
    }
}

/// Policy for independent root discovery.
#[derive(Clone, Copy, Debug, PartialEq, Eq, Structural)]
pub struct IndependentRootDiscoveryOptions {
    pub domain: IndependentRootDomain,
    /// Return the whole available window where it cannot fill the target.
    pub allow_incomplete: bool,
}

impl IndependentRootDiscoveryOptions {
    pub fn advanced(include_negative_roots: bool, allow_incomplete: bool) -> (r: Self)
        ensures
            r.domain is Signed == include_negative_roots,
            r.allow_incomplete == allow_incomplete,
    {
        IndependentRootDiscoveryOptions {
            domain: if include_negative_roots {
                IndependentRootDomain::Signed
            } else {
                IndependentRootDomain::Positive
            },
            allow_incomplete,
        }
    }
}

impl Default for IndependentRootDiscoveryOptions {
    fn default() -> (r: IndependentRootDiscoveryOptions)
        ensures
            r.domain is Positive,
            !r.allow_incomplete,
    {
        IndependentRootDiscoveryOptions {
            domain: IndependentRootDomain::Positive,
            allow_incomplete: false,
        }
    }
}

/// How the starting points of a root window were obtained.
#[derive(Clone, Copy, Debug, PartialEq, Eq, Structural)]
pub enum RootArtifactMode {
    Independent,
    ReferenceSeededRefinement,
}

impl RootArtifactMode {
    pub open spec fn label(self) -> Seq<char> {
        match self {
            RootArtifactMode::Independent => "independent"@,
            RootArtifactMode::ReferenceSeededRefinement => "reference_seeded_refinement"@,
        }
    }

    pub fn as_str(self) -> (r: &'static str)
        ensures
            r@ == self.label(),
    {
        match self {
            RootArtifactMode::Independent => "independent",
            RootArtifactMode::ReferenceSeededRefinement => "reference_seeded_refinement",
        }
    }
}

/// Layout generation of a stored root window.
#[derive(Clone, Copy, Debug, PartialEq, Eq, Structural)]
pub enum RootArtifactFormat {
    LegacyV6,
    AdvancedV7,
}

/// What a root window was asked for.
#[derive(Clone, Copy, Debug, PartialEq, Eq, Structural)]
pub struct RootWindowSemantics {
    pub domain: IndependentRootDomain,
    pub requested_count: usize,
    pub allow_incomplete: bool,
    pub artifact_format: RootArtifactFormat,
}

impl RootWindowSemantics {
    pub fn strict_positive(count: usize) -> (r: Self)
        ensures
            r == (RootWindowSemantics {
                domain: IndependentRootDomain::Positive,
                requested_count: count,
                allow_incomplete: false,
                artifact_format: RootArtifactFormat::LegacyV6,
            }),
    {
        RootWindowSemantics {
            domain: IndependentRootDomain::Positive,
            requested_count: count,
            allow_incomplete: false,
            artifact_format: RootArtifactFormat::LegacyV6,
        }
    }

    pub fn advanced(
        domain: IndependentRootDomain,
        requested_count: usize,
        allow_incomplete: bool,
    ) -> (r: Self)
        ensures
            r == (RootWindowSemantics {
                domain,
                requested_count,
                allow_incomplete,
                artifact_format: RootArtifactFormat::AdvancedV7,
            }),
    {
        RootWindowSemantics {
            domain,
            requested_count,
            allow_incomplete,
            artifact_format: RootArtifactFormat::AdvancedV7,
        }
    }

    pub fn is_advanced(self) -> (r: bool)
        ensures
            r == (self.artifact_format is AdvancedV7),
    {
        match self.artifact_format {
            RootArtifactFormat::AdvancedV7 => true,
            RootArtifactFormat::LegacyV6 => false,
        }
    }
}

/// Parity treatment of the selected smallest Weil eigenstate.
#[derive(Clone, Copy, Debug, PartialEq, Eq, Structural)]
pub enum CcmParityPolicy {
    /// The unrestricted full matrix, without projection.
    Natural,
    /// Full-space iteration, projected where the iterate drifts from even symmetry.
    AdaptiveEven,
    /// The reduced even-sector matrix.
    EvenSector,
}

impl CcmParityPolicy {
    pub open spec fn label(self) -> Seq<char> {
        match self {
            CcmParityPolicy::Natural => "natural"@,
            CcmParityPolicy::AdaptiveEven => "adaptive-even"@,
            CcmParityPolicy::EvenSector => "even-sector"@,
        }
    }

    pub open spec fn key_label(self) -> Seq<char> {
        match self {
            CcmParityPolicy::Natural => "natural"@,
            CcmParityPolicy::AdaptiveEven => "adaptive-even"@,
            CcmParityPolicy::EvenSector => "even"@,
        }
    }

    pub fn as_str(self) -> (r: &'static str)
        ensures
            r@ == self.label(),
    {
        match self {
            CcmParityPolicy::Natural => "natural",
            CcmParityPolicy::AdaptiveEven => "adaptive-even",
            CcmParityPolicy::EvenSector => "even-sector",
        }
    }

    /// The label in logical cache keys.
    pub fn cache_label(self) -> (r: &'static str)
        ensures
            r@ == self.key_label(),
    {
        match self {
            CcmParityPolicy::Natural => "natural",
            CcmParityPolicy::AdaptiveEven => "adaptive-even",
            CcmParityPolicy::EvenSector => "even",
        }
    }

    pub open spec fn forces_even(self) -> bool {
        !(self is Natural)
    }

    pub fn legacy_force_even(self) -> (r: bool)
        ensures
            r == self.forces_even(),
    {
        match self {
            CcmParityPolicy::Natural => false,
            _ => true,
        }
    }

    /// The subspace that the policy restricts to, where it does.
    pub fn semantic_subspace(self) -> (r: Option<&'static str>)
        ensures
            r is Some == (self is EvenSector),
            r matches Some(t) ==> t@ == "even"@,
    {
        match self {
            CcmParityPolicy::EvenSector => Some("even"),
            _ => None,
        }
    }

    /// The policy as written into payloads: only the adaptive one is marked.
    pub fn portable_marker(self) -> (r: Option<CcmParityPolicy>)
        ensures
            r == self.marker(),
    {
        match self {
            CcmParityPolicy::AdaptiveEven => Some(self),
            _ => None,
        }
    }

    pub open spec fn marker(self) -> Option<CcmParityPolicy> {
        if self is AdaptiveEven {
            Some(self)
        } else {
            None
        }
    }
}

impl Default for CcmParityPolicy {
    fn default() -> (r: CcmParityPolicy)
        ensures
            r is EvenSector,
    {
        CcmParityPolicy::EvenSector
    }
}

/// The policy that a payload's flag and marker stand for; `None` where they contradict.
pub open spec fn decoded_parity(force_even: bool, marker: Option<CcmParityPolicy>) -> Option<
    CcmParityPolicy,
> {
    match marker {
        Some(m) => if m is AdaptiveEven && force_even {
            Some(CcmParityPolicy::AdaptiveEven)
        } else {
            None
        },
        None => if force_even {
            Some(CcmParityPolicy::EvenSector)
        } else {
            Some(CcmParityPolicy::Natural)
        },
    }
}

/// Whether a payload's flag and marker stand for the expected policy.
pub fn payload_parity_matches(
    force_even: bool,
    marker: Option<CcmParityPolicy>,
    expected: CcmParityPolicy,
) -> (r: bool)
    ensures
        r == (decoded_parity(force_even, marker) == Some(expected)),
{
    match marker {
        Some(CcmParityPolicy::AdaptiveEven) => force_even && expected
            == CcmParityPolicy::AdaptiveEven,
        Some(_) => false,
        None => if force_even {
            expected == CcmParityPolicy::EvenSector
        } else {
            expected == CcmParityPolicy::Natural
        },
    }
}

/// What a policy writes into a payload stands for that policy and for no other.
pub proof fn law_parity_payload_identifies_policy(
    policy: CcmParityPolicy,
    other: CcmParityPolicy,
)
    ensures
        decoded_parity(policy.forces_even(), policy.marker()) == Some(policy),
        decoded_parity(policy.forces_even(), policy.marker()) == Some(other) ==> other == policy,
{
}

/// Algorithm for the smallest Weil eigenstate.
#[derive(Clone, Copy, Debug, PartialEq, Eq, Structural)]
pub enum CcmEigenstateSolver {
    LegacyInverseIteration,
    ShiftInvertKrylov,
    /// An exact Krylov artifact, then an exact legacy one; else a Krylov solve that may
    /// start from the nearest lower mode count.
    Auto,
}

impl CcmEigenstateSolver {
    pub open spec fn label(self) -> Seq<char> {
        match self {
            CcmEigenstateSolver::LegacyInverseIteration => "legacy_inverse_iteration"@,
            CcmEigenstateSolver::ShiftInvertKrylov => "shift_invert_krylov"@,
            CcmEigenstateSolver::Auto => "auto"@,
        }
    }

    pub fn as_str(self) -> (r: &'static str)
        ensures
            r@ == self.label(),
    {
        match self {
            CcmEigenstateSolver::LegacyInverseIteration => "legacy_inverse_iteration",
            CcmEigenstateSolver::ShiftInvertKrylov => "shift_invert_krylov",
            CcmEigenstateSolver::Auto => "auto",
        }
    }
}

/// Point method that refines a root.
#[derive(Clone, Copy, Debug, PartialEq, Eq, Structural)]
pub enum RootSolver {
    /// Cubic convergence, three passes over the poles per step.
    Halley,
    /// Quadratic convergence, two passes over the poles per step.
    Newton,
}

impl RootSolver {
    pub open spec fn name(self) -> Seq<char> {
        match self {
            RootSolver::Halley => "Halley"@,
            RootSolver::Newton => "Newton"@,
        }
    }

    pub open spec fn lower_name(self) -> Seq<char> {
        match self {
            RootSolver::Halley => "halley"@,
            RootSolver::Newton => "newton"@,
        }
    }

    pub fn display_name(self) -> (r: &'static str)
        ensures
            r@ == self.name(),
    {
        match self {
            RootSolver::Halley => "Halley",
            RootSolver::Newton => "Newton",
        }
    }

    /// The display name in lower case.
    pub fn stored_name(self) -> (r: &'static str)
        ensures
            r@ == self.lower_name(),
    {
        match self {
            RootSolver::Halley => "halley",
            RootSolver::Newton => "newton",
        }
    }
}

/// Use of the disk caches.
#[derive(Clone, Copy, Debug, PartialEq, Eq, Structural)]
pub enum CacheMode {
    Off,
    JsonOnly,
    JsonZip,
}

impl CacheMode {
    /// Only the compressed tier is read and written.
    pub fn uses_disk(self) -> (r: bool)
        ensures
            r == (self is JsonZip),
    {
        match self {
            CacheMode::JsonZip => true,
            _ => false,
        }
    }
}

/// Configuration of the high-precision tier.
#[derive(Clone, Copy, Debug)]
pub struct HighPrecConfig {
    /// Working precision in bits.
    pub precision_bits: u32,
    /// Most inverse-iteration steps for the smallest eigenvector.
    pub inverse_iter_steps: usize,
    /// Most solver steps per root seed.
    pub solver_steps: usize,
    pub root_solver: RootSolver,
    /// Quadrature points of the archimedean integrals.
    pub quad_points: usize,
    /// Positive roots to discover and refine; zero requests the source alone.
    pub n_eigenvalues: usize,
    pub cache_mode: CacheMode,
    /// Compatibility switch: `false` beside an even-sector policy selects the natural route.
    pub force_even: bool,
    pub parity_policy: CcmParityPolicy,
    /// Start inverse iteration from a cached vector of nearby precision.
    pub warm_start: bool,
    /// Largest precision distance of such a vector, in bits.
    pub warm_start_tolerance_bits: u32,
    pub eigenstate_solver: CcmEigenstateSolver,
    pub krylov_subspace_dimension: usize,
    pub krylov_maximum_restarts: usize,
    pub krylov_guard_eigenpairs: usize,
}

/// Bits that hold `digits` decimal digits: `digits * 3.32193`, rounded up, within `u32`.
pub open spec fn requested_bits(digits: int) -> int {
    let bits = (digits * 332_193 + 99_999) / 100_000;
    if bits <= u32::MAX - GUARD_BITS {
        bits
    } else {
        u32::MAX - GUARD_BITS
    }
}

/// `digits` times the points per digit, within the quadrature limits.
pub open spec fn quadrature_points(digits: int) -> int {
    let points = digits * QUAD_POINTS_PER_DIGIT;
    if points < MIN_QUAD_POINTS {
        MIN_QUAD_POINTS as int
    } else if points > MAX_QUAD_POINTS {
        MAX_QUAD_POINTS as int
    } else {
        points
    }
}

impl HighPrecConfig {
    /// The policy in force: the compatibility switch turns an even-sector policy off.
    pub open spec fn parity(self) -> CcmParityPolicy {
        if !self.force_even && self.parity_policy is EvenSector {
            CcmParityPolicy::Natural
        } else {
            self.parity_policy
        }
    }

    /// Configuration for a number of decimal digits.
    pub fn for_decimal_digits(digits: u32) -> (r: Self)
        ensures
            r.precision_bits == requested_bits(digits as int) + GUARD_BITS,
            r.quad_points == quadrature_points(digits as int),
            r.inverse_iter_steps == 2_000,
            r.solver_steps == 2_000,
            r.root_solver is Halley,
            r.n_eigenvalues == 50,
            r.cache_mode is JsonZip,
            r.force_even,
            r.parity_policy is EvenSector,
            r.warm_start,
            r.warm_start_tolerance_bits == 500,
            r.eigenstate_solver is Auto,
            r.krylov_subspace_dimension == 32,
            r.krylov_maximum_restarts == 64,
            r.krylov_guard_eigenpairs == 2,
    {
        let wide: u64 = (digits as u64 * 332_193 + 99_999) / 100_000;
        let cap: u64 = (u32::MAX - GUARD_BITS) as u64;
        let bits: u32 = if wide <= cap {
            wide as u32
        } else {
            cap as u32
        };
        let per_digit: u64 = QUAD_POINTS_PER_DIGIT as u64;
        assert(digits as u64 * per_digit == digits as u64 * 3) by (nonlinear_arith)
            requires
                per_digit == 3,
        ;
        let points: u64 = digits as u64 * per_digit;
        let quad_points: usize = if points < MIN_QUAD_POINTS as u64 {
            MIN_QUAD_POINTS
        } else if points > MAX_QUAD_POINTS as u64 {
            MAX_QUAD_POINTS
        } else {
            points as usize
        };
        HighPrecConfig {
            precision_bits: bits + GUARD_BITS,
            inverse_iter_steps: 2_000,
            solver_steps: 2_000,
            root_solver: RootSolver::Halley,
            quad_points,
            n_eigenvalues: 50,
            cache_mode: CacheMode::JsonZip,
            force_even: true,
            parity_policy: CcmParityPolicy::EvenSector,
            warm_start: true,
            warm_start_tolerance_bits: 500,
            eigenstate_solver: CcmEigenstateSolver::Auto,
            krylov_subspace_dimension: 32,
            krylov_maximum_restarts: 64,
            krylov_guard_eigenpairs: 2,
        }
    }

    /// Sets the parity policy and the compatibility switch with it.
    pub fn set_parity_policy(&mut self, policy: CcmParityPolicy)
        ensures
            *final(self) == (HighPrecConfig {
                parity_policy: policy,
                force_even: policy.forces_even(),
                ..*old(self)
            }),
    {
        self.parity_policy = policy;
        self.force_even = policy.legacy_force_even();
    }

    /// The parity policy in force.
    pub fn effective_parity_policy(&self) -> (r: CcmParityPolicy)
        ensures
            r == self.parity(),
    {
        if !self.force_even && self.parity_policy == CcmParityPolicy::EvenSector {
            CcmParityPolicy::Natural
        } else {
            self.parity_policy
        }
    }
}

/// A policy that was set is the policy in force.
pub proof fn law_set_policy_takes_effect(
    before: HighPrecConfig,
    after: HighPrecConfig,
    policy: CcmParityPolicy,
)
    requires
        after == (HighPrecConfig {
            parity_policy: policy,
            force_even: policy.forces_even(),
            ..before
        }),
    ensures
        after.parity() == policy,
{
}

/// More digits never get fewer bits or fewer quadrature points, and the bits hold the digits.
pub proof fn law_precision_grows_with_digits(fewer: int, more: int)
    requires
        0 <= fewer <= more,
    ensures
        requested_bits(fewer) <= requested_bits(more),
        quadrature_points(fewer) <= quadrature_points(more),
        requested_bits(more) < u32::MAX - GUARD_BITS ==> requested_bits(more) * 100_000 >= more
            * 332_193,
{
}

/// Reflection parity.
#[derive(Clone, Copy, Debug, PartialEq, Eq, Hash, Structural)]
pub enum CcmParity {
    Even,
    Odd,
}

impl CcmParity {
    pub open spec fn label(self) -> Seq<char> {
        match self {
            CcmParity::Even => "even"@,
            CcmParity::Odd => "odd"@,
        }
    }

    pub fn as_str(self) -> (r: &'static str)
        ensures
            r@ == self.label(),
    {
        match self {
            CcmParity::Even => "even",
            CcmParity::Odd => "odd",
        }
    }
}

/// How algebraically indexed sector eigenvalues are obtained.
#[derive(Clone, Copy, Debug, PartialEq, Eq, Hash, Structural)]
pub enum CcmSectorEigenvalueRoute {
    /// Only the requested prefix, isolated by Sturm counts.
    Selected,
    /// The whole spectrum, by Householder reduction and QR.
    CompleteQr,
    /// The whole spectrum, with the requested prefix enclosed by Sturm counts too.
    CrossChecked,
}

impl CcmSectorEigenvalueRoute {
    pub open spec fn label(self) -> Seq<char> {
        match self {
            CcmSectorEigenvalueRoute::Selected => "selected"@,
            CcmSectorEigenvalueRoute::CompleteQr => "complete_qr"@,
            CcmSectorEigenvalueRoute::CrossChecked => "cross_checked"@,
        }
    }

    pub fn as_str(self) -> (r: &'static str)
        ensures
            r@ == self.label(),
    {
        match self {
            CcmSectorEigenvalueRoute::Selected => "selected",
            CcmSectorEigenvalueRoute::CompleteQr => "complete_qr",
            CcmSectorEigenvalueRoute::CrossChecked => "cross_checked",
        }
    }
}

/// What a sector analysis computes.
#[derive(Clone, Copy, Debug, PartialEq, Eq, Structural)]
pub struct CcmSectorAnalysisOptions {
    pub requested_eigenpairs: usize,
    pub eigenvalue_route: CcmSectorEigenvalueRoute,
}

impl CcmSectorAnalysisOptions {
    pub fn selected(requested_eigenpairs: usize) -> (r: Self)
        ensures
            r.requested_eigenpairs == requested_eigenpairs,
            r.eigenvalue_route is Selected,
    {
        CcmSectorAnalysisOptions {
            requested_eigenpairs,
            eigenvalue_route: CcmSectorEigenvalueRoute::Selected,
        }
    }

    pub fn maximum(requested_eigenpairs: usize) -> (r: Self)
        ensures
            r.requested_eigenpairs == requested_eigenpairs,
            r.eigenvalue_route is CompleteQr,
    {
        CcmSectorAnalysisOptions {
            requested_eigenpairs,
            eigenvalue_route: CcmSectorEigenvalueRoute::CompleteQr,
        }
    }

    pub fn cross_checked(requested_eigenpairs: usize) -> (r: Self)
        ensures
            r.requested_eigenpairs == requested_eigenpairs,
            r.eigenvalue_route is CrossChecked,
    {
        CcmSectorAnalysisOptions {
            requested_eigenpairs,
            eigenvalue_route: CcmSectorEigenvalueRoute::CrossChecked,
        }
    }
}

/// A window of independently indexed roots.
#[derive(Clone, Copy, Debug, PartialEq, Eq, Structural)]
pub enum IndependentCcmRootTarget {
    Prefix { count: usize },
    IndexRange { first: usize, last: usize },
}

/// Root-only interval certification.
#[derive(Debug)]
pub struct CcmRootCertificationOptions {
    pub target: IndependentCcmRootTarget,
    pub isolation_bits: u32,
    /// Decimal width that an enclosure must reach.
    pub width_tolerance: String,
    pub maximum_iterations: usize,
}

impl CcmRootCertificationOptions {
    /// Certification to a number of decimal digits.
    pub fn for_decimal_digits(target: IndependentCcmRootTarget, decimal_digits: u32) -> (r: Result<
        Self,
        CcmError,
    >)
        ensures
            r is Ok == (decimal_digits > 0),
            r matches Ok(o) ==> o.target == target && o.isolation_bits == 96
                && o.maximum_iterations == 2_000 && o.width_tolerance@ == "1e-"@ + number_text(
                decimal_digits as nat,
            ),
            r matches Err(e) ==> e.refuses(
                "CCM root certification requires positive decimal digits"@,
            ),
    {
        if decimal_digits == 0 {
            return Err(
                CcmError::refused("CCM root certification requires positive decimal digits"),
            );
        }
        let mut width_tolerance: String = "1e-".to_owned();
        push_number(&mut width_tolerance, decimal_digits as u64);
        Ok(
            CcmRootCertificationOptions {
                target,
                isolation_bits: 96,
                width_tolerance,
                maximum_iterations: 2_000,
            },
        )
    }
}

/// What a research run records beside its roots.
#[derive(Debug)]
pub struct CcmResearchCaptureOptions {
    pub capture_evenness: bool,
    pub sector_analysis: Option<CcmSectorAnalysisOptions>,
    pub root_certification: Option<CcmRootCertificationOptions>,
}

impl CcmResearchCaptureOptions {
    /// Evenness and complete sector spectra, without certification.
    pub fn maximum(requested_sector_eigenpairs: usize) -> (r: Self)
        ensures
            r.capture_evenness,
            r.sector_analysis == Some(
                CcmSectorAnalysisOptions {
                    requested_eigenpairs: requested_sector_eigenpairs,
                    eigenvalue_route: CcmSectorEigenvalueRoute::CompleteQr,
                },
            ),
            r.root_certification is None,
    {
        CcmResearchCaptureOptions {
            capture_evenness: true,
            sector_analysis: Some(CcmSectorAnalysisOptions::maximum(requested_sector_eigenpairs)),
            root_certification: None,
        }
    }
}

/// Whether lambda-squared is an integer.
#[derive(Clone, Copy, Debug, PartialEq, Eq, Structural)]
pub enum LambdaSquaredMode {
    Integer,
    Fractional,
}

/// Exact lambda-squared, in the literal that it was given in, with the integer floor that fixes
/// its prime content.
#[derive(Debug)]
pub struct ExactLambdaSquaredHp {
    pub decimal: Decimal,
    pub prime_cutoff: u64,
    pub mode: LambdaSquaredMode,
}

impl ExactLambdaSquaredHp {
    /// Accepts a decimal whose exact floor is `prime_cutoff`.
    pub fn new(decimal: Decimal, prime_cutoff: u64) -> (r: Result<Self, CcmError>)
        ensures
            match r {
                Ok(x) => x.decimal == decimal && x.prime_cutoff == prime_cutoff && (if x.mode is Integer {
                    decimal_order(decimal@, prime_cutoff as int) is Equal
                } else {
                    decimal_order(decimal@, prime_cutoff as int) is Greater && decimal_order(
                        decimal@,
                        prime_cutoff + 1,
                    ) is Less && prime_cutoff < u64::MAX
                }),
                Err(e) => (if decimal_order(decimal@, prime_cutoff as int) is Less {
                    e.refuses("lambda-squared is below its declared prime-content floor"@)
                } else {
                    &&& decimal_order(decimal@, prime_cutoff as int) is Greater
                    &&& if prime_cutoff == u64::MAX {
                        e.refuses(
                            "fractional lambda-squared exceeds the supported u64 prime floor"@,
                        )
                    } else {
                        &&& !(decimal_order(decimal@, prime_cutoff + 1) is Less)
                        &&& e.refuses(
                            "lambda-squared is not below the next integer after its prime-content floor"@,
                        )
                    }
                }),
            },
    {
        let mode: LambdaSquaredMode = match decimal.order_with(prime_cutoff) {
            Order::Less => {
                return Err(
                    CcmError::refused("lambda-squared is below its declared prime-content floor"),
                );
            },
            Order::Equal => LambdaSquaredMode::Integer,
            Order::Greater => {
                if prime_cutoff == u64::MAX {
                    return Err(
                        CcmError::refused(
                            "fractional lambda-squared exceeds the supported u64 prime floor",
                        ),
                    );
                }
                match decimal.order_with(prime_cutoff + 1) {
                    Order::Less => LambdaSquaredMode::Fractional,
                    _ => {
                        return Err(
                            CcmError::refused(
                                "lambda-squared is not below the next integer after its prime-content floor",
                            ),
                        );
                    },
                }
            },
        };
        Ok(ExactLambdaSquaredHp { decimal, prime_cutoff, mode })
    }
}

/// Lambda-squared of a finite model: an integer, or a fractional value by its
/// canonical text and its floor.
#[derive(Debug)]
pub enum LambdaSquared {
    Integer(u64),
    Fractional { identity: String, floor: u64 },
}

/// Parameters of a finite model.
#[derive(Debug)]
pub struct CcmParams {
    pub lambda_sq: LambdaSquared,
    pub n_modes: usize,
}

impl CcmParams {
    /// The text that names lambda-squared in cache identities.
    pub open spec fn identity(self) -> Seq<char> {
        match self.lambda_sq {
            LambdaSquared::Integer(v) => number_text(v as nat),
            LambdaSquared::Fractional { identity, floor } => identity@,
        }
    }

    pub open spec fn cutoff(self) -> u64 {
        match self.lambda_sq {
            LambdaSquared::Integer(v) => v,
            LambdaSquared::Fractional { identity, floor } => floor,
        }
    }

    pub fn from_lambda_sq_integer(lambda_sq: u64, n_modes: usize) -> (r: CcmParams)
        ensures
            r.lambda_sq == LambdaSquared::Integer(lambda_sq),
            r.n_modes == n_modes,
    {
        CcmParams { lambda_sq: LambdaSquared::Integer(lambda_sq), n_modes }
    }

    /// Number of basis functions.
    pub fn matrix_size(&self) -> (r: usize)
        requires
            2 * self.n_modes + 1 <= usize::MAX,
        ensures
            r == 2 * self.n_modes + 1,
    {
        2 * self.n_modes + 1
    }

    /// Integer floor of lambda-squared.
    pub fn lambda_sq_int(&self) -> (r: u64)
        ensures
            r == self.cutoff(),
    {
        match &self.lambda_sq {
            LambdaSquared::Integer(v) => *v,
            LambdaSquared::Fractional { identity: _, floor } => *floor,
        }
    }
}

/// The text that names lambda-squared in cache identities.
pub fn lambda_squared_cache_identity(params: &CcmParams) -> (r: String)
    ensures
        r@ == params.identity(),
{
    match &params.lambda_sq {
        LambdaSquared::Integer(v) => number_string(*v),
        LambdaSquared::Fractional { identity, floor: _ } => identity.clone(),
    }
}

} // verus!
