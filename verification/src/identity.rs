//! Identities of stored results: semantic keys, logical keys, and the requests that carry them.

use crate::config::{
    lambda_squared_cache_identity, CcmEigenstateSolver, CcmParams, CcmParity, CcmParityPolicy,
    CcmRootCertificationOptions, CcmSectorEigenvalueRoute, HighPrecConfig, IndependentCcmRootTarget,
    IndependentRootDomain, RootArtifactMode, RootWindowSemantics, GUARD_BITS,
};
use crate::error::CcmError;
use crate::payload::strings;
use crate::range::{completeness_label, completeness_of};
use crate::roots::{
    dataset_refusal, dataset_view, validate_reference_seed_dataset, DatasetView,
    ReferenceZeroDatasetIdentity,
};
use crate::text::{number_text, push_number};
use vstd::prelude::*;
use vstd::string::*;

verus! {

/// A parameter of a semantic key.
#[derive(Debug, PartialEq, Eq)]
pub enum KeyValue {
    Text(String),
    Number(u64),
    Flag(bool),
    Texts(Vec<String>),
    Numbers(Vec<usize>),
    Dataset(ReferenceZeroDatasetIdentity),
    Target(IndependentCcmRootTarget),
    /// Width tolerance and iteration limit of an interval refinement.
    Newton { width_tolerance: String, maximum_iterations: usize },
}

/// A parameter, as mathematics.
pub enum ValueView {
    Text(Seq<char>),
    Number(nat),
    Flag(bool),
    Texts(Seq<Seq<char>>),
    Numbers(Seq<usize>),
    Dataset(DatasetView),
    Target(IndependentCcmRootTarget),
    Newton { width_tolerance: Seq<char>, maximum_iterations: nat },
}

impl View for KeyValue {
    type V = ValueView;

    open spec fn view(&self) -> ValueView {
        match self {
            KeyValue::Text(t) => ValueView::Text(t@),
            KeyValue::Number(n) => ValueView::Number(*n as nat),
            KeyValue::Flag(b) => ValueView::Flag(*b),
            KeyValue::Texts(v) => ValueView::Texts(strings(v@)),
            KeyValue::Numbers(v) => ValueView::Numbers(v@),
            KeyValue::Dataset(d) => ValueView::Dataset(d@),
            KeyValue::Target(t) => ValueView::Target(*t),
            KeyValue::Newton { width_tolerance, maximum_iterations } => ValueView::Newton {
                width_tolerance: width_tolerance@,
                maximum_iterations: *maximum_iterations as nat,
            },
        }
    }
}

/// Named parameters, as mathematics.
pub open spec fn parameters_view(s: Seq<(String, KeyValue)>) -> Seq<(Seq<char>, ValueView)> {
    Seq::new(s.len(), |i: int| (s[i].0@, s[i].1@))
}

/// Pairs of texts, as mathematics.
pub open spec fn pairs_view(s: Seq<(String, String)>) -> Seq<(Seq<char>, Seq<char>)> {
    Seq::new(s.len(), |i: int| (s[i].0@, s[i].1@))
}

/// A text that may be absent, as mathematics.
pub open spec fn option_view(t: Option<String>) -> Option<Seq<char>> {
    match t {
        None => None,
        Some(x) => Some(x@),
    }
}

/// What a stored result is, independent of how it came about.
#[derive(Debug, PartialEq, Eq)]
pub struct SemanticKey {
    pub artifact_kind: String,
    pub semantics_version: String,
    pub parameters: Vec<(String, KeyValue)>,
    pub normalization: Option<String>,
    pub target: Option<String>,
    pub subspace: Option<String>,
    pub sources: Vec<(String, String)>,
    pub algorithm: Option<String>,
}

/// A semantic key, as mathematics.
pub struct SemanticView {
    pub kind: Seq<char>,
    pub version: Seq<char>,
    pub parameters: Seq<(Seq<char>, ValueView)>,
    pub normalization: Option<Seq<char>>,
    pub target: Option<Seq<char>>,
    pub subspace: Option<Seq<char>>,
    pub sources: Seq<(Seq<char>, Seq<char>)>,
    pub algorithm: Option<Seq<char>>,
}

impl View for SemanticKey {
    type V = SemanticView;

    open spec fn view(&self) -> SemanticView {
        SemanticView {
            kind: self.artifact_kind@,
            version: self.semantics_version@,
            parameters: parameters_view(self.parameters@),
            normalization: option_view(self.normalization),
            target: option_view(self.target),
            subspace: option_view(self.subspace),
            sources: pairs_view(self.sources@),
            algorithm: option_view(self.algorithm),
        }
    }
}

/// What a stored result was held to when it was produced.
#[derive(Clone, Copy, Debug, PartialEq, Eq, Structural)]
pub enum ArtifactQuality {
    Validated,
    Certified,
}

/// A request to find a stored result or to compute and store it.
#[derive(Debug, PartialEq, Eq)]
pub struct CacheRequest {
    pub operation: String,
    pub key: SemanticKey,
    pub logical_key: String,
    /// Oldest toolkit that can read what is stored.
    pub minimum_reader: String,
    pub quality: ArtifactQuality,
    pub tags: Vec<(String, String)>,
    /// Digest of what the result vouches for, where it vouches for one thing alone.
    pub provenance: Option<String>,
}

/// A request, as mathematics.
pub struct RequestView {
    pub operation: Seq<char>,
    pub key: SemanticView,
    pub logical_key: Seq<char>,
    pub minimum_reader: Seq<char>,
    pub quality: ArtifactQuality,
    pub tags: Seq<(Seq<char>, Seq<char>)>,
    pub provenance: Option<Seq<char>>,
}

impl View for CacheRequest {
    type V = RequestView;

    open spec fn view(&self) -> RequestView {
        RequestView {
            operation: self.operation@,
            key: self.key@,
            logical_key: self.logical_key@,
            minimum_reader: self.minimum_reader@,
            quality: self.quality,
            tags: pairs_view(self.tags@),
            provenance: option_view(self.provenance),
        }
    }
}

/// The parameters that every key has: the source.
pub open spec fn source_parameters(params: CcmParams, cfg: HighPrecConfig) -> Seq<
    (Seq<char>, ValueView),
> {
    seq![
        ("lambda_squared"@, ValueView::Text(params.identity())),
        ("n_modes"@, ValueView::Number(params.n_modes as nat)),
        ("precision_bits"@, ValueView::Number(cfg.precision_bits as nat)),
    ]
}

fn put(s: &mut Vec<(String, KeyValue)>, name: &str, value: KeyValue)
    ensures
        parameters_view(final(s)@) == parameters_view(old(s)@).push((name@, value@)),
{
    let ghost before = s@;
    let ghost v = value@;
    s.push((name.to_owned(), value));
    assert(parameters_view(s@) =~= parameters_view(before).push((name@, v)));
}

fn put_text(s: &mut Vec<(String, KeyValue)>, name: &str, value: &str)
    ensures
        parameters_view(final(s)@) == parameters_view(old(s)@).push(
            (name@, ValueView::Text(value@)),
        ),
{
    put(s, name, KeyValue::Text(value.to_owned()));
}

fn put_number(s: &mut Vec<(String, KeyValue)>, name: &str, value: u64)
    ensures
        parameters_view(final(s)@) == parameters_view(old(s)@).push(
            (name@, ValueView::Number(value as nat)),
        ),
{
    put(s, name, KeyValue::Number(value));
}

fn put_flag(s: &mut Vec<(String, KeyValue)>, name: &str, value: bool)
    ensures
        parameters_view(final(s)@) == parameters_view(old(s)@).push(
            (name@, ValueView::Flag(value)),
        ),
{
    put(s, name, KeyValue::Flag(value));
}

fn put_pair(s: &mut Vec<(String, String)>, name: &str, value: &str)
    ensures
        pairs_view(final(s)@) == pairs_view(old(s)@).push((name@, value@)),
{
    let ghost before = s@;
    s.push((name.to_owned(), value.to_owned()));
    assert(pairs_view(s@) =~= pairs_view(before).push((name@, value@)));
}

fn start_parameters(params: &CcmParams, cfg: &HighPrecConfig) -> (r: Vec<(String, KeyValue)>)
    ensures
        parameters_view(r@) == source_parameters(*params, *cfg),
{
    let mut s: Vec<(String, KeyValue)> = Vec::new();
    let identity: String = lambda_squared_cache_identity(params);
    put_text(&mut s, "lambda_squared", identity.as_str());
    put_number(&mut s, "n_modes", params.n_modes as u64);
    put_number(&mut s, "precision_bits", cfg.precision_bits as u64);
    assert(parameters_view(s@) =~= source_parameters(*params, *cfg));
    s
}

/// Tags of a result.
pub open spec fn artifact_tags(artifact: Seq<char>) -> Seq<(Seq<char>, Seq<char>)> {
    seq![("domain"@, "ccm"@), ("artifact"@, artifact)]
}

fn start_tags(artifact: &str) -> (r: Vec<(String, String)>)
    ensures
        pairs_view(r@) == artifact_tags(artifact@),
{
    let mut s: Vec<(String, String)> = Vec::new();
    put_pair(&mut s, "domain", "ccm");
    put_pair(&mut s, "artifact", artifact);
    assert(pairs_view(s@) =~= artifact_tags(artifact@));
    s
}

/// Logical key of a result for a source: `ccm/<segment>/<lambda>/<modes>/<bits>`.
pub open spec fn source_key(segment: Seq<char>, params: CcmParams, cfg: HighPrecConfig) -> Seq<char> {
    "ccm/"@ + segment + "/"@ + params.identity() + "/"@ + number_text(params.n_modes as nat) + "/"@
        + number_text(cfg.precision_bits as nat)
}

fn start_key(segment: &str, params: &CcmParams, cfg: &HighPrecConfig) -> (r: String)
    ensures
        r@ == source_key(segment@, *params, *cfg),
{
    let identity: String = lambda_squared_cache_identity(params);
    let mut t: String = "ccm/".to_owned();
    t.append(segment);
    t.append("/");
    t.append(identity.as_str());
    t.append("/");
    push_number(&mut t, params.n_modes as u64);
    t.append("/");
    push_number(&mut t, cfg.precision_bits as u64);
    t
}

fn push_segment(t: &mut String, segment: &str)
    ensures
        final(t)@ == old(t)@ + "/"@ + segment@,
{
    t.append("/");
    t.append(segment);
}

fn no_sources() -> (r: Vec<(String, String)>)
    ensures
        pairs_view(r@) == Seq::<(Seq<char>, Seq<char>)>::empty(),
{
    let s: Vec<(String, String)> = Vec::new();
    assert(pairs_view(s@) =~= Seq::<(Seq<char>, Seq<char>)>::empty());
    s
}

/// The parameters of a parity policy: whether it forces even, and its name where that does not
/// say which one it is.
pub open spec fn with_parity(s: Seq<(Seq<char>, ValueView)>, policy: CcmParityPolicy) -> Seq<
    (Seq<char>, ValueView),
> {
    if policy is AdaptiveEven {
        s.push(("parity_policy"@, ValueView::Text(policy.label())))
    } else {
        s
    }
}

/// Adds the name of the adaptive policy; the other policies are told by whether they force even.
fn add_adaptive_parity_parameter(s: &mut Vec<(String, KeyValue)>, policy: CcmParityPolicy)
    ensures
        parameters_view(final(s)@) == with_parity(parameters_view(old(s)@), policy),
{
    match policy {
        CcmParityPolicy::AdaptiveEven => {
            put_text(s, "parity_policy", policy.as_str());
        },
        _ => {},
    }
}

/// The subspace of a parity policy.
pub open spec fn policy_subspace(policy: CcmParityPolicy) -> Option<Seq<char>> {
    if policy is EvenSector {
        Some("even"@)
    } else {
        None
    }
}

fn subspace_of(policy: CcmParityPolicy) -> (r: Option<String>)
    ensures
        option_view(r) == policy_subspace(policy),
{
    match policy.semantic_subspace() {
        None => None,
        Some(t) => Some(t.to_owned()),
    }
}

/// Request for the archimedean integrals of a source.
pub open spec fn archimedean_integrals_view(params: CcmParams, cfg: HighPrecConfig) -> RequestView {
    RequestView {
        operation: "ccm.archimedean_integrals.resolve_or_compute"@,
        key: SemanticView {
            kind: "ccm_archimedean_integrals"@,
            version: "ccm-archimedean-integrals-v0.13.0-v1"@,
            parameters: source_parameters(params, cfg).push(
                ("quadrature_points"@, ValueView::Number(cfg.quad_points as nat)),
            ).push(
                ("scalar_backend"@, ValueView::Text("rug_mpfr"@)),
            ),
            normalization: Some("alpha_beta_gamma_nonnegative_modes"@),
            target: Some("localized_archimedean_form_primitives"@),
            subspace: None,
            sources: Seq::empty(),
            algorithm: Some("adaptive_gauss_legendre_by_mode"@),
        },
        logical_key: source_key("archimedean-integrals"@, params, cfg),
        minimum_reader: "0.13.0"@,
        quality: ArtifactQuality::Validated,
        tags: artifact_tags("archimedean_integrals"@),
        provenance: None,
    }
}

/// Request for the archimedean integrals of a source.
pub fn archimedean_integrals_request(params: &CcmParams, cfg: &HighPrecConfig) -> (r: CacheRequest)
    ensures
        r@ == archimedean_integrals_view(*params, *cfg),
{
    let mut parameters: Vec<(String, KeyValue)> = start_parameters(params, cfg);
    put_number(&mut parameters, "quadrature_points", cfg.quad_points as u64);
    put_text(&mut parameters, "scalar_backend", "rug_mpfr");
    let logical_key: String = start_key("archimedean-integrals", params, cfg);
    let tags: Vec<(String, String)> = start_tags("archimedean_integrals");
    CacheRequest {
        operation: "ccm.archimedean_integrals.resolve_or_compute".to_owned(),
        key: SemanticKey {
            artifact_kind: "ccm_archimedean_integrals".to_owned(),
            semantics_version: "ccm-archimedean-integrals-v0.13.0-v1".to_owned(),
            parameters,
            normalization: Some("alpha_beta_gamma_nonnegative_modes".to_owned()),
            target: Some("localized_archimedean_form_primitives".to_owned()),
            subspace: None,
            sources: no_sources(),
            algorithm: Some("adaptive_gauss_legendre_by_mode".to_owned()),
        },
        logical_key,
        minimum_reader: "0.13.0".to_owned(),
        quality: ArtifactQuality::Validated,
        tags,
        provenance: None,
    }
}

/// Request for the prime component of a source.
pub open spec fn prime_component_view(params: CcmParams, cfg: HighPrecConfig) -> RequestView {
    RequestView {
        operation: "ccm.prime_component.resolve_or_compute"@,
        key: SemanticView {
            kind: "ccm_prime_component"@,
            version: "ccm-prime-component-v0.13.0-v1"@,
            parameters: source_parameters(params, cfg).push(
                ("prime_cutoff"@, ValueView::Number(params.cutoff() as nat)),
            ).push(
                ("scalar_backend"@, ValueView::Text("rug_mpfr"@)),
            ),
            normalization: Some("symmetric_row_major_unsigned_prime_sum"@),
            target: Some("localized_prime_power_component"@),
            subspace: None,
            sources: Seq::empty(),
            algorithm: None,
        },
        logical_key: source_key("prime-component"@, params, cfg),
        minimum_reader: "0.13.0"@,
        quality: ArtifactQuality::Validated,
        tags: artifact_tags("prime_component"@),
        provenance: None,
    }
}

/// Request for the prime component of a source.
pub fn prime_component_request(params: &CcmParams, cfg: &HighPrecConfig) -> (r: CacheRequest)
    ensures
        r@ == prime_component_view(*params, *cfg),
{
    let mut parameters: Vec<(String, KeyValue)> = start_parameters(params, cfg);
    put_number(&mut parameters, "prime_cutoff", params.lambda_sq_int());
    put_text(&mut parameters, "scalar_backend", "rug_mpfr");
    let logical_key: String = start_key("prime-component", params, cfg);
    let tags: Vec<(String, String)> = start_tags("prime_component");
    CacheRequest {
        operation: "ccm.prime_component.resolve_or_compute".to_owned(),
        key: SemanticKey {
            artifact_kind: "ccm_prime_component".to_owned(),
            semantics_version: "ccm-prime-component-v0.13.0-v1".to_owned(),
            parameters,
            normalization: Some("symmetric_row_major_unsigned_prime_sum".to_owned()),
            target: Some("localized_prime_power_component".to_owned()),
            subspace: None,
            sources: no_sources(),
            algorithm: None,
        },
        logical_key,
        minimum_reader: "0.13.0".to_owned(),
        quality: ArtifactQuality::Validated,
        tags,
        provenance: None,
    }
}

/// Request for the full form of a source.
pub open spec fn tau_view(params: CcmParams, cfg: HighPrecConfig) -> RequestView {
    RequestView {
        operation: "ccm.tau.resolve_or_compute"@,
        key: SemanticView {
            kind: "ccm_tau_matrix"@,
            version: "ccm-weil-form-v0.13.0-v2"@,
            parameters: source_parameters(params, cfg).push(
                ("prime_cutoff"@, ValueView::Number(params.cutoff() as nat)),
            ).push(
                ("scalar_backend"@, ValueView::Text("rug_mpfr"@)),
            ).push(
                ("include_primes"@, ValueView::Flag(true)),
            ),
            normalization: Some("symmetric_row_major"@),
            target: Some("localized_weil_form"@),
            subspace: None,
            sources: Seq::empty(),
            algorithm: None,
        },
        logical_key: source_key("tau"@, params, cfg),
        minimum_reader: "0.13.0"@,
        quality: ArtifactQuality::Validated,
        tags: artifact_tags("tau_matrix"@),
        provenance: None,
    }
}

/// Request for the full form of a source.
pub fn tau_request(params: &CcmParams, cfg: &HighPrecConfig) -> (r: CacheRequest)
    ensures
        r@ == tau_view(*params, *cfg),
{
    let mut parameters: Vec<(String, KeyValue)> = start_parameters(params, cfg);
    put_number(&mut parameters, "prime_cutoff", params.lambda_sq_int());
    put_text(&mut parameters, "scalar_backend", "rug_mpfr");
    put_flag(&mut parameters, "include_primes", true);
    let logical_key: String = start_key("tau", params, cfg);
    let tags: Vec<(String, String)> = start_tags("tau_matrix");
    CacheRequest {
        operation: "ccm.tau.resolve_or_compute".to_owned(),
        key: SemanticKey {
            artifact_kind: "ccm_tau_matrix".to_owned(),
            semantics_version: "ccm-weil-form-v0.13.0-v2".to_owned(),
            parameters,
            normalization: Some("symmetric_row_major".to_owned()),
            target: Some("localized_weil_form".to_owned()),
            subspace: None,
            sources: no_sources(),
            algorithm: None,
        },
        logical_key,
        minimum_reader: "0.13.0".to_owned(),
        quality: ArtifactQuality::Validated,
        tags,
        provenance: None,
    }
}

/// Request for the even block of a form.
pub open spec fn even_sector_view(
    params: CcmParams,
    cfg: HighPrecConfig,
    tau_digest: Seq<char>,
) -> RequestView {
    RequestView {
        operation: "ccm.even_sector.resolve_or_compute"@,
        key: SemanticView {
            kind: "ccm_even_sector_matrix"@,
            version: "ccm-even-sector-v0.13.0-v1"@,
            parameters: source_parameters(params, cfg).push(
                ("tau_content_digest"@, ValueView::Text(tau_digest)),
            ),
            normalization: Some("orthonormal_reflection_even_basis_row_major"@),
            target: Some("even_sector_weil_form"@),
            subspace: Some("even"@),
            sources: Seq::empty(),
            algorithm: None,
        },
        logical_key: source_key("even-sector"@, params, cfg),
        minimum_reader: "0.13.0"@,
        quality: ArtifactQuality::Validated,
        tags: artifact_tags("even_sector_matrix"@),
        provenance: None,
    }
}

/// Request for the even block of a form.
pub fn even_sector_request(
    params: &CcmParams,
    cfg: &HighPrecConfig,
    tau_digest: &str,
) -> (r: CacheRequest)
    ensures
        r@ == even_sector_view(*params, *cfg, tau_digest@),
{
    let mut parameters: Vec<(String, KeyValue)> = start_parameters(params, cfg);
    put_text(&mut parameters, "tau_content_digest", tau_digest);
    let logical_key: String = start_key("even-sector", params, cfg);
    let tags: Vec<(String, String)> = start_tags("even_sector_matrix");
    CacheRequest {
        operation: "ccm.even_sector.resolve_or_compute".to_owned(),
        key: SemanticKey {
            artifact_kind: "ccm_even_sector_matrix".to_owned(),
            semantics_version: "ccm-even-sector-v0.13.0-v1".to_owned(),
            parameters,
            normalization: Some("orthonormal_reflection_even_basis_row_major".to_owned()),
            target: Some("even_sector_weil_form".to_owned()),
            subspace: Some("even".to_owned()),
            sources: no_sources(),
            algorithm: None,
        },
        logical_key,
        minimum_reader: "0.13.0".to_owned(),
        quality: ArtifactQuality::Validated,
        tags,
        provenance: None,
    }
}

/// Request for the odd block of a form.
pub open spec fn odd_sector_view(
    params: CcmParams,
    cfg: HighPrecConfig,
    tau_digest: Seq<char>,
) -> RequestView {
    RequestView {
        operation: "ccm.odd_sector.resolve_or_compute"@,
        key: SemanticView {
            kind: "ccm_odd_sector_matrix"@,
            version: "ccm-odd-sector-v0.13.0-v1"@,
            parameters: source_parameters(params, cfg).push(
                ("tau_content_digest"@, ValueView::Text(tau_digest)),
            ),
            normalization: Some("orthonormal_reflection_odd_basis_row_major"@),
            target: Some("odd_sector_weil_form"@),
            subspace: Some("odd"@),
            sources: Seq::empty(),
            algorithm: Some("centrosymmetric_q_plus_plus_minus_q_plus_minus"@),
        },
        logical_key: source_key("odd-sector"@, params, cfg),
        minimum_reader: "0.13.0"@,
        quality: ArtifactQuality::Validated,
        tags: artifact_tags("odd_sector_matrix"@),
        provenance: None,
    }
}

/// Request for the odd block of a form.
pub fn odd_sector_request(
    params: &CcmParams,
    cfg: &HighPrecConfig,
    tau_digest: &str,
) -> (r: CacheRequest)
    ensures
        r@ == odd_sector_view(*params, *cfg, tau_digest@),
{
    let mut parameters: Vec<(String, KeyValue)> = start_parameters(params, cfg);
    put_text(&mut parameters, "tau_content_digest", tau_digest);
    let logical_key: String = start_key("odd-sector", params, cfg);
    let tags: Vec<(String, String)> = start_tags("odd_sector_matrix");
    CacheRequest {
        operation: "ccm.odd_sector.resolve_or_compute".to_owned(),
        key: SemanticKey {
            artifact_kind: "ccm_odd_sector_matrix".to_owned(),
            semantics_version: "ccm-odd-sector-v0.13.0-v1".to_owned(),
            parameters,
            normalization: Some("orthonormal_reflection_odd_basis_row_major".to_owned()),
            target: Some("odd_sector_weil_form".to_owned()),
            subspace: Some("odd".to_owned()),
            sources: no_sources(),
            algorithm: Some("centrosymmetric_q_plus_plus_minus_q_plus_minus".to_owned()),
        },
        logical_key,
        minimum_reader: "0.13.0".to_owned(),
        quality: ArtifactQuality::Validated,
        tags,
        provenance: None,
    }
}

/// Request for the tridiagonal reduction of a block.
pub open spec fn sector_tridiagonal_view(
    params: CcmParams,
    cfg: HighPrecConfig,
    parity: CcmParity,
    matrix_digest: Seq<char>,
) -> RequestView {
    RequestView {
        operation: "ccm.sector_tridiagonal.resolve_or_compute"@,
        key: SemanticView {
            kind: "ccm_sector_tridiagonal"@,
            version: "ccm-parity-tridiagonal-v0.13.0-v3"@,
            parameters: source_parameters(params, cfg).push(
                ("parity"@, ValueView::Text(parity.label())),
            ).push(
                ("sector_matrix_content_digest"@, ValueView::Text(matrix_digest)),
            ),
            normalization: Some("householder_diagonal_and_signed_off_diagonal"@),
            target: Some("symmetric_tridiagonal_reduction"@),
            subspace: Some(parity.label()),
            sources: Seq::empty(),
            algorithm: Some(
                "dense_householder_with_consistent_signed_off_diagonal_and_reusable_q_v2"@,
            ),
        },
        logical_key: source_key("sector-tridiagonal"@, params, cfg) + "/"@ + parity.label(),
        minimum_reader: "0.13.0"@,
        quality: ArtifactQuality::Validated,
        tags: artifact_tags("sector_tridiagonal"@).push(("parity"@, parity.label())),
        provenance: None,
    }
}

/// Request for the tridiagonal reduction of a block.
pub fn sector_tridiagonal_request(
    params: &CcmParams,
    cfg: &HighPrecConfig,
    parity: CcmParity,
    matrix_digest: &str,
) -> (r: CacheRequest)
    ensures
        r@ == sector_tridiagonal_view(*params, *cfg, parity, matrix_digest@),
{
    let mut parameters: Vec<(String, KeyValue)> = start_parameters(params, cfg);
    put_text(&mut parameters, "parity", parity.as_str());
    put_text(&mut parameters, "sector_matrix_content_digest", matrix_digest);
    let mut logical_key: String = start_key("sector-tridiagonal", params, cfg);
    push_segment(&mut logical_key, parity.as_str());
    let mut tags: Vec<(String, String)> = start_tags("sector_tridiagonal");
    put_pair(&mut tags, "parity", parity.as_str());
    CacheRequest {
        operation: "ccm.sector_tridiagonal.resolve_or_compute".to_owned(),
        key: SemanticKey {
            artifact_kind: "ccm_sector_tridiagonal".to_owned(),
            semantics_version: "ccm-parity-tridiagonal-v0.13.0-v3".to_owned(),
            parameters,
            normalization: Some("householder_diagonal_and_signed_off_diagonal".to_owned()),
            target: Some("symmetric_tridiagonal_reduction".to_owned()),
            subspace: Some(parity.as_str().to_owned()),
            sources: no_sources(),
            algorithm: Some(
                "dense_householder_with_consistent_signed_off_diagonal_and_reusable_q_v2".to_owned(),
            ),
        },
        logical_key,
        minimum_reader: "0.13.0".to_owned(),
        quality: ArtifactQuality::Validated,
        tags,
        provenance: None,
    }
}

/// Request for the basis of a tridiagonal reduction.
pub open spec fn sector_transform_view(
    params: CcmParams,
    cfg: HighPrecConfig,
    parity: CcmParity,
    matrix_digest: Seq<char>,
    tridiagonal_digest: Seq<char>,
) -> RequestView {
    RequestView {
        operation: "ccm.sector_transform.resolve_or_compute"@,
        key: SemanticView {
            kind: "ccm_sector_transform"@,
            version: "ccm-parity-householder-basis-v0.13.0-v2"@,
            parameters: source_parameters(params, cfg).push(
                ("parity"@, ValueView::Text(parity.label())),
            ).push(
                ("sector_matrix_content_digest"@, ValueView::Text(matrix_digest)),
            ).push(
                ("sector_tridiagonal_content_digest"@, ValueView::Text(tridiagonal_digest)),
            ),
            normalization: Some("row_major_orthogonal_householder_basis"@),
            target: Some("tridiagonal_to_dense_eigenvector_transform"@),
            subspace: Some(parity.label()),
            sources: Seq::empty(),
            algorithm: Some("dense_householder_q_accumulation"@),
        },
        logical_key: source_key("sector-transform"@, params, cfg) + "/"@ + parity.label(),
        minimum_reader: "0.13.0"@,
        quality: ArtifactQuality::Validated,
        tags: artifact_tags("sector_transform"@).push(("parity"@, parity.label())),
        provenance: None,
    }
}

/// Request for the basis of a tridiagonal reduction.
pub fn sector_transform_request(
    params: &CcmParams,
    cfg: &HighPrecConfig,
    parity: CcmParity,
    matrix_digest: &str,
    tridiagonal_digest: &str,
) -> (r: CacheRequest)
    ensures
        r@ == sector_transform_view(*params, *cfg, parity, matrix_digest@, tridiagonal_digest@),
{
    let mut parameters: Vec<(String, KeyValue)> = start_parameters(params, cfg);
    put_text(&mut parameters, "parity", parity.as_str());
    put_text(&mut parameters, "sector_matrix_content_digest", matrix_digest);
    put_text(&mut parameters, "sector_tridiagonal_content_digest", tridiagonal_digest);
    let mut logical_key: String = start_key("sector-transform", params, cfg);
    push_segment(&mut logical_key, parity.as_str());
    let mut tags: Vec<(String, String)> = start_tags("sector_transform");
    put_pair(&mut tags, "parity", parity.as_str());
    CacheRequest {
        operation: "ccm.sector_transform.resolve_or_compute".to_owned(),
        key: SemanticKey {
            artifact_kind: "ccm_sector_transform".to_owned(),
            semantics_version: "ccm-parity-householder-basis-v0.13.0-v2".to_owned(),
            parameters,
            normalization: Some("row_major_orthogonal_householder_basis".to_owned()),
            target: Some("tridiagonal_to_dense_eigenvector_transform".to_owned()),
            subspace: Some(parity.as_str().to_owned()),
            sources: no_sources(),
            algorithm: Some("dense_householder_q_accumulation".to_owned()),
        },
        logical_key,
        minimum_reader: "0.13.0".to_owned(),
        quality: ArtifactQuality::Validated,
        tags,
        provenance: None,
    }
}

/// Request for the low spectrum of a block.
pub open spec fn sector_spectrum_view(
    params: CcmParams,
    cfg: HighPrecConfig,
    parity: CcmParity,
    route: CcmSectorEigenvalueRoute,
    requested: nat,
    matrix_digest: Seq<char>,
    eigenvalues_digest: Seq<char>,
    tridiagonal_digest: Seq<char>,
    transform_digest: Seq<char>,
) -> RequestView {
    RequestView {
        operation: "ccm.sector_spectrum.resolve_or_compute"@,
        key: SemanticView {
            kind: "ccm_sector_spectrum"@,
            version: "ccm-parity-sector-spectrum-v0.13.0-v3"@,
            parameters: source_parameters(params, cfg).push(
                ("parity"@, ValueView::Text(parity.label())),
            ).push(
                ("eigenvalue_route"@, ValueView::Text(route.label())),
            ).push(
                ("requested_eigenpairs"@, ValueView::Number(requested)),
            ).push(
                ("sector_matrix_content_digest"@, ValueView::Text(matrix_digest)),
            ).push(
                ("sector_eigenvalues_content_digest"@, ValueView::Text(eigenvalues_digest)),
            ).push(
                ("sector_tridiagonal_content_digest"@, ValueView::Text(tridiagonal_digest)),
            ).push(
                ("sector_transform_content_digest"@, ValueView::Text(transform_digest)),
            ),
            normalization: Some("l2_unit_sector_vectors_algebraic_order"@),
            target: Some("lowest_parity_sector_eigenpairs"@),
            subspace: Some(parity.label()),
            sources: Seq::empty(),
            algorithm: Some(
                "indexed_eigenvalues_plus_banded_tridiagonal_inverse_iteration_and_householder_backtransform_v1"@,
            ),
        },
        logical_key: source_key("sector-spectrum"@, params, cfg) + "/"@ + parity.label() + "/"@
            + route.label() + "/"@ + number_text(requested),
        minimum_reader: "0.13.0"@,
        quality: ArtifactQuality::Validated,
        tags: artifact_tags("sector_spectrum"@).push(("parity"@, parity.label())),
        provenance: None,
    }
}

/// Request for the low spectrum of a block.
pub fn sector_spectrum_request(
    params: &CcmParams,
    cfg: &HighPrecConfig,
    parity: CcmParity,
    route: CcmSectorEigenvalueRoute,
    requested: usize,
    matrix_digest: &str,
    eigenvalues_digest: &str,
    tridiagonal_digest: &str,
    transform_digest: &str,
) -> (r: CacheRequest)
    ensures
        r@ == sector_spectrum_view(
            *params,
            *cfg,
            parity,
            route,
            requested as nat,
            matrix_digest@,
            eigenvalues_digest@,
            tridiagonal_digest@,
            transform_digest@,
        ),
{
    let mut parameters: Vec<(String, KeyValue)> = start_parameters(params, cfg);
    put_text(&mut parameters, "parity", parity.as_str());
    put_text(&mut parameters, "eigenvalue_route", route.as_str());
    put_number(&mut parameters, "requested_eigenpairs", requested as u64);
    put_text(&mut parameters, "sector_matrix_content_digest", matrix_digest);
    put_text(&mut parameters, "sector_eigenvalues_content_digest", eigenvalues_digest);
    put_text(&mut parameters, "sector_tridiagonal_content_digest", tridiagonal_digest);
    put_text(&mut parameters, "sector_transform_content_digest", transform_digest);
    let mut logical_key: String = start_key("sector-spectrum", params, cfg);
    push_segment(&mut logical_key, parity.as_str());
    push_segment(&mut logical_key, route.as_str());
    logical_key.append("/");
    push_number(&mut logical_key, requested as u64);
    let mut tags: Vec<(String, String)> = start_tags("sector_spectrum");
    put_pair(&mut tags, "parity", parity.as_str());
    CacheRequest {
        operation: "ccm.sector_spectrum.resolve_or_compute".to_owned(),
        key: SemanticKey {
            artifact_kind: "ccm_sector_spectrum".to_owned(),
            semantics_version: "ccm-parity-sector-spectrum-v0.13.0-v3".to_owned(),
            parameters,
            normalization: Some("l2_unit_sector_vectors_algebraic_order".to_owned()),
            target: Some("lowest_parity_sector_eigenpairs".to_owned()),
            subspace: Some(parity.as_str().to_owned()),
            sources: no_sources(),
            algorithm: Some(
                "indexed_eigenvalues_plus_banded_tridiagonal_inverse_iteration_and_householder_backtransform_v1".to_owned(),
            ),
        },
        logical_key,
        minimum_reader: "0.13.0".to_owned(),
        quality: ArtifactQuality::Validated,
        tags,
        provenance: None,
    }
}

/// Request for the gap between the two parities.
pub open spec fn sector_gap_view(
    params: CcmParams,
    cfg: HighPrecConfig,
    even_digest: Seq<char>,
    odd_digest: Seq<char>,
) -> RequestView {
    RequestView {
        operation: "ccm.sector_gap.resolve_or_compute"@,
        key: SemanticView {
            kind: "ccm_sector_gap"@,
            version: "ccm-even-odd-gap-log-v0.13.0-v1"@,
            parameters: source_parameters(params, cfg).push(
                ("even_spectrum_content_digest"@, ValueView::Text(even_digest)),
            ).push(
                ("odd_spectrum_content_digest"@, ValueView::Text(odd_digest)),
            ).push(
                ("definition"@, ValueView::Text("log10(abs(lambda_odd)/abs(lambda_even))"@)),
            ),
            normalization: None,
            target: Some("finite_ccm_even_odd_sector_gap"@),
            subspace: Some("even_vs_odd"@),
            sources: Seq::empty(),
            algorithm: Some("mpfr_depth_difference_and_direct_eigenvalue_ordering"@),
        },
        logical_key: source_key("sector-gap"@, params, cfg),
        minimum_reader: "0.13.0"@,
        quality: ArtifactQuality::Validated,
        tags: artifact_tags("sector_gap"@),
        provenance: None,
    }
}

/// Request for the gap between the two parities.
pub fn sector_gap_request(
    params: &CcmParams,
    cfg: &HighPrecConfig,
    even_digest: &str,
    odd_digest: &str,
) -> (r: CacheRequest)
    ensures
        r@ == sector_gap_view(*params, *cfg, even_digest@, odd_digest@),
{
    let mut parameters: Vec<(String, KeyValue)> = start_parameters(params, cfg);
    put_text(&mut parameters, "even_spectrum_content_digest", even_digest);
    put_text(&mut parameters, "odd_spectrum_content_digest", odd_digest);
    put_text(&mut parameters, "definition", "log10(abs(lambda_odd)/abs(lambda_even))");
    let logical_key: String = start_key("sector-gap", params, cfg);
    let tags: Vec<(String, String)> = start_tags("sector_gap");
    CacheRequest {
        operation: "ccm.sector_gap.resolve_or_compute".to_owned(),
        key: SemanticKey {
            artifact_kind: "ccm_sector_gap".to_owned(),
            semantics_version: "ccm-even-odd-gap-log-v0.13.0-v1".to_owned(),
            parameters,
            normalization: None,
            target: Some("finite_ccm_even_odd_sector_gap".to_owned()),
            subspace: Some("even_vs_odd".to_owned()),
            sources: no_sources(),
            algorithm: Some("mpfr_depth_difference_and_direct_eigenvalue_ordering".to_owned()),
        },
        logical_key,
        minimum_reader: "0.13.0".to_owned(),
        quality: ArtifactQuality::Validated,
        tags,
        provenance: None,
    }
}

/// Request for the factorization of a matrix.
pub open spec fn factorization_view(
    params: CcmParams,
    cfg: HighPrecConfig,
    subspace: Seq<char>,
    matrix_digest: Seq<char>,
) -> RequestView {
    RequestView {
        operation: "ccm.factorization.resolve_or_compute"@,
        key: SemanticView {
            kind: "ccm_factorization"@,
            version: "ccm-dense-lu-v0.13.0-v1"@,
            parameters: source_parameters(params, cfg).push(
                ("subspace"@, ValueView::Text(subspace)),
            ).push(
                ("matrix_content_digest"@, ValueView::Text(matrix_digest)),
            ).push(
                ("pivoting"@, ValueView::Text("partial"@)),
            ),
            normalization: Some("combined_lu_row_major_with_permutation"@),
            target: Some("inverse_iteration_linear_solve"@),
            subspace: Some(subspace),
            sources: Seq::empty(),
            algorithm: Some("dense_lu_partial_pivoting"@),
        },
        logical_key: source_key("factorization"@, params, cfg) + "/"@ + subspace,
        minimum_reader: "0.13.0"@,
        quality: ArtifactQuality::Validated,
        tags: artifact_tags("factorization"@),
        provenance: None,
    }
}

/// Request for the factorization of a matrix.
pub fn factorization_request(
    params: &CcmParams,
    cfg: &HighPrecConfig,
    subspace: &str,
    matrix_digest: &str,
) -> (r: CacheRequest)
    ensures
        r@ == factorization_view(*params, *cfg, subspace@, matrix_digest@),
{
    let mut parameters: Vec<(String, KeyValue)> = start_parameters(params, cfg);
    put_text(&mut parameters, "subspace", subspace);
    put_text(&mut parameters, "matrix_content_digest", matrix_digest);
    put_text(&mut parameters, "pivoting", "partial");
    let mut logical_key: String = start_key("factorization", params, cfg);
    push_segment(&mut logical_key, subspace);
    let tags: Vec<(String, String)> = start_tags("factorization");
    CacheRequest {
        operation: "ccm.factorization.resolve_or_compute".to_owned(),
        key: SemanticKey {
            artifact_kind: "ccm_factorization".to_owned(),
            semantics_version: "ccm-dense-lu-v0.13.0-v1".to_owned(),
            parameters,
            normalization: Some("combined_lu_row_major_with_permutation".to_owned()),
            target: Some("inverse_iteration_linear_solve".to_owned()),
            subspace: Some(subspace.to_owned()),
            sources: no_sources(),
            algorithm: Some("dense_lu_partial_pivoting".to_owned()),
        },
        logical_key,
        minimum_reader: "0.13.0".to_owned(),
        quality: ArtifactQuality::Validated,
        tags,
        provenance: None,
    }
}

/// Request for the evenness evidence of a source.
pub open spec fn evenness_view(
    params: CcmParams,
    cfg: HighPrecConfig,
    natural_digest: Seq<char>,
    forced_digest: Seq<char>,
) -> RequestView {
    RequestView {
        operation: "ccm.evenness.resolve_or_compute"@,
        key: SemanticView {
            kind: "ccm_validation_record"@,
            version: "ccm-evenness-evidence-v0.13.0-v1"@,
            parameters: source_parameters(params, cfg).push(
                ("natural_eigenpair"@, ValueView::Text(natural_digest)),
            ).push(
                ("forced_eigenpair"@, ValueView::Text(forced_digest)),
            ),
            normalization: Some("l2_reflection_deviation"@),
            target: Some("natural_evenness"@),
            subspace: None,
            sources: Seq::empty(),
            algorithm: None,
        },
        logical_key: source_key("evenness"@, params, cfg),
        minimum_reader: "0.13.0"@,
        quality: ArtifactQuality::Validated,
        tags: artifact_tags("evenness_evidence"@),
        provenance: None,
    }
}

/// Request for the evenness evidence of a source.
pub fn evenness_request(
    params: &CcmParams,
    cfg: &HighPrecConfig,
    natural_digest: &str,
    forced_digest: &str,
) -> (r: CacheRequest)
    ensures
        r@ == evenness_view(*params, *cfg, natural_digest@, forced_digest@),
{
    let mut parameters: Vec<(String, KeyValue)> = start_parameters(params, cfg);
    put_text(&mut parameters, "natural_eigenpair", natural_digest);
    put_text(&mut parameters, "forced_eigenpair", forced_digest);
    let logical_key: String = start_key("evenness", params, cfg);
    let tags: Vec<(String, String)> = start_tags("evenness_evidence");
    CacheRequest {
        operation: "ccm.evenness.resolve_or_compute".to_owned(),
        key: SemanticKey {
            artifact_kind: "ccm_validation_record".to_owned(),
            semantics_version: "ccm-evenness-evidence-v0.13.0-v1".to_owned(),
            parameters,
            normalization: Some("l2_reflection_deviation".to_owned()),
            target: Some("natural_evenness".to_owned()),
            subspace: None,
            sources: no_sources(),
            algorithm: None,
        },
        logical_key,
        minimum_reader: "0.13.0".to_owned(),
        quality: ArtifactQuality::Validated,
        tags,
        provenance: None,
    }
}

/// How many eigenvalues a stored list is keyed by: a complete list is keyed by its length, whatever
/// prefix was asked for.
pub open spec fn keyed_eigenvalues(
    route: CcmSectorEigenvalueRoute,
    dimension: nat,
    requested: nat,
) -> nat {
    if route is CompleteQr {
        dimension
    } else {
        requested
    }
}

/// How many eigenvalues a stored list is keyed by: a complete list is keyed by its length, whatever
/// prefix was asked for.
pub fn keyed_eigenvalue_count(
    route: CcmSectorEigenvalueRoute,
    dimension: usize,
    requested: usize,
) -> (r: usize)
    ensures
        r == keyed_eigenvalues(route, dimension as nat, requested as nat),
{
    match route {
        CcmSectorEigenvalueRoute::CompleteQr => dimension,
        _ => requested,
    }
}

/// What a list of eigenvalues holds.
pub open spec fn eigenvalue_target(route: CcmSectorEigenvalueRoute) -> Seq<char> {
    if route is Selected {
        "requested_parity_sector_eigenvalue_prefix"@
    } else {
        "complete_parity_sector_eigenvalue_spectrum"@
    }
}

/// How a list of eigenvalues comes about.
pub open spec fn eigenvalue_algorithm(route: CcmSectorEigenvalueRoute) -> Seq<char> {
    match route {
        CcmSectorEigenvalueRoute::Selected => "hp_sturm_indexed_bisection"@,
        CcmSectorEigenvalueRoute::CompleteQr => "implicit_wilkinson_shift_tridiagonal_qr"@,
        CcmSectorEigenvalueRoute::CrossChecked =>
            "implicit_wilkinson_shift_tridiagonal_qr_cross_checked_by_hp_sturm"@,
    }
}

/// Request for the eigenvalues of a block.
pub open spec fn sector_eigenvalues_view(
    params: CcmParams,
    cfg: HighPrecConfig,
    parity: CcmParity,
    dimension: nat,
    requested: nat,
    route: CcmSectorEigenvalueRoute,
    tridiagonal_digest: Seq<char>,
) -> RequestView {
    let keyed = keyed_eigenvalues(route, dimension, requested);
    RequestView {
        operation: "ccm.sector_eigenvalues.resolve_or_compute"@,
        key: SemanticView {
            kind: "ccm_sector_eigenvalues"@,
            version: "ccm-parity-sector-eigenvalues-v0.13.0-v1"@,
            parameters: source_parameters(params, cfg).push(
                ("parity"@, ValueView::Text(parity.label())),
            ).push(("dimension"@, ValueView::Number(dimension))).push(
                ("route"@, ValueView::Text(route.label())),
            ).push(("requested_eigenvalues"@, ValueView::Number(keyed))).push(
                ("tridiagonal_content_digest"@, ValueView::Text(tridiagonal_digest)),
            ),
            normalization: Some("strict_algebraic_order"@),
            target: Some(eigenvalue_target(route)),
            subspace: Some(parity.label()),
            sources: Seq::empty(),
            algorithm: Some(eigenvalue_algorithm(route)),
        },
        logical_key: source_key("sector-eigenvalues"@, params, cfg) + "/"@ + parity.label() + "/"@
            + route.label() + "/"@ + number_text(keyed),
        minimum_reader: "0.13.0"@,
        quality: ArtifactQuality::Validated,
        tags: artifact_tags("sector_eigenvalues"@).push(("parity"@, parity.label())).push(
            ("route"@, route.label()),
        ),
        provenance: None,
    }
}

/// Request for the eigenvalues of a block.
pub fn sector_eigenvalues_request(
    params: &CcmParams,
    cfg: &HighPrecConfig,
    parity: CcmParity,
    dimension: usize,
    requested: usize,
    route: CcmSectorEigenvalueRoute,
    tridiagonal_digest: &str,
) -> (r: CacheRequest)
    ensures
        r@ == sector_eigenvalues_view(
            *params,
            *cfg,
            parity,
            dimension as nat,
            requested as nat,
            route,
            tridiagonal_digest@,
        ),
{
    let keyed: usize = keyed_eigenvalue_count(route, dimension, requested);
    let target: &str = match route {
        CcmSectorEigenvalueRoute::Selected => "requested_parity_sector_eigenvalue_prefix",
        _ => "complete_parity_sector_eigenvalue_spectrum",
    };
    let algorithm: &str = match route {
        CcmSectorEigenvalueRoute::Selected => "hp_sturm_indexed_bisection",
        CcmSectorEigenvalueRoute::CompleteQr => "implicit_wilkinson_shift_tridiagonal_qr",
        CcmSectorEigenvalueRoute::CrossChecked =>
            "implicit_wilkinson_shift_tridiagonal_qr_cross_checked_by_hp_sturm",
    };
    let mut parameters: Vec<(String, KeyValue)> = start_parameters(params, cfg);
    put_text(&mut parameters, "parity", parity.as_str());
    put_number(&mut parameters, "dimension", dimension as u64);
    put_text(&mut parameters, "route", route.as_str());
    put_number(&mut parameters, "requested_eigenvalues", keyed as u64);
    put_text(&mut parameters, "tridiagonal_content_digest", tridiagonal_digest);
    let mut logical_key: String = start_key("sector-eigenvalues", params, cfg);
    push_segment(&mut logical_key, parity.as_str());
    push_segment(&mut logical_key, route.as_str());
    logical_key.append("/");
    push_number(&mut logical_key, keyed as u64);
    let mut tags: Vec<(String, String)> = start_tags("sector_eigenvalues");
    put_pair(&mut tags, "parity", parity.as_str());
    put_pair(&mut tags, "route", route.as_str());
    CacheRequest {
        operation: "ccm.sector_eigenvalues.resolve_or_compute".to_owned(),
        key: SemanticKey {
            artifact_kind: "ccm_sector_eigenvalues".to_owned(),
            semantics_version: "ccm-parity-sector-eigenvalues-v0.13.0-v1".to_owned(),
            parameters,
            normalization: Some("strict_algebraic_order".to_owned()),
            target: Some(target.to_owned()),
            subspace: Some(parity.as_str().to_owned()),
            sources: no_sources(),
            algorithm: Some(algorithm.to_owned()),
        },
        logical_key,
        minimum_reader: "0.13.0".to_owned(),
        quality: ArtifactQuality::Validated,
        tags,
        provenance: None,
    }
}

/// A complete list of eigenvalues is found again by every request for a prefix of it.
pub proof fn law_complete_eigenvalues_serve_every_prefix(
    params: CcmParams,
    cfg: HighPrecConfig,
    parity: CcmParity,
    dimension: nat,
    one: nat,
    other: nat,
    tridiagonal_digest: Seq<char>,
)
    ensures
        sector_eigenvalues_view(
            params,
            cfg,
            parity,
            dimension,
            one,
            CcmSectorEigenvalueRoute::CompleteQr,
            tridiagonal_digest,
        ) == sector_eigenvalues_view(
            params,
            cfg,
            parity,
            dimension,
            other,
            CcmSectorEigenvalueRoute::CompleteQr,
            tridiagonal_digest,
        ),
{
}

/// The parameters of an eigenpair that a solver's own settings decide.
pub open spec fn eigenpair_parameters(params: CcmParams, cfg: HighPrecConfig) -> Seq<
    (Seq<char>, ValueView),
> {
    let common = source_parameters(params, cfg).push(
        ("scalar_backend"@, ValueView::Text("rug_mpfr"@)),
    ).push(("force_even"@, ValueView::Flag(cfg.parity().forces_even()))).push(
        ("normalization"@, ValueView::Text("sum_xi_equals_sqrt_log_lambda_squared"@)),
    );
    let own = match cfg.eigenstate_solver {
        CcmEigenstateSolver::ShiftInvertKrylov => common.push(
            ("eigenstate_route"@, ValueView::Text(cfg.eigenstate_solver.label())),
        ).push(
            (
                "krylov_subspace_dimension"@,
                ValueView::Number(cfg.krylov_subspace_dimension as nat),
            ),
        ).push(
            ("krylov_maximum_restarts"@, ValueView::Number(cfg.krylov_maximum_restarts as nat)),
        ).push(
            ("krylov_guard_eigenpairs"@, ValueView::Number(cfg.krylov_guard_eigenpairs as nat)),
        ),
        _ => common.push(
            ("inverse_iteration_step_limit"@, ValueView::Number(cfg.inverse_iter_steps as nat)),
        ),
    };
    with_parity(own, cfg.parity())
}

/// Version of the meaning of an eigenpair.
pub open spec fn eigenpair_version(
    solver: CcmEigenstateSolver,
    policy: CcmParityPolicy,
) -> Seq<char> {
    match solver {
        CcmEigenstateSolver::ShiftInvertKrylov =>
            "ccm-smallest-weil-eigenpair-shift-invert-krylov-v1"@,
        _ => if policy is AdaptiveEven {
            "ccm-smallest-weil-eigenpair-adaptive-even-v1"@
        } else {
            "ccm-smallest-weil-eigenpair-v0.13.0-v3"@
        },
    }
}

/// How an eigenpair comes about.
pub open spec fn eigenpair_algorithm(solver: CcmEigenstateSolver, policy: CcmParityPolicy) -> Seq<
    char,
> {
    match solver {
        CcmEigenstateSolver::ShiftInvertKrylov =>
            "ccm_even_zero_shift_thick_restart_shift_invert_krylov_rayleigh_ritz_v1"@,
        _ => if policy is AdaptiveEven {
            "dense_full_space_inverse_iteration_with_conditional_even_projection_and_full_tau_residual_gate_v1"@
        } else {
            "dense_inverse_iteration_with_half_precision_basin_shifted_rescue_and_full_tau_residual_gate_v1"@
        },
    }
}

/// Semantic key of an eigenpair.
pub open spec fn eigenpair_key(params: CcmParams, cfg: HighPrecConfig) -> SemanticView {
    SemanticView {
        kind: "ccm_weil_eigenpair"@,
        version: eigenpair_version(cfg.eigenstate_solver, cfg.parity()),
        parameters: eigenpair_parameters(params, cfg),
        normalization: Some("sum_xi_equals_sqrt_log_lambda_squared"@),
        target: Some("smallest_weil_form_eigenpair"@),
        subspace: policy_subspace(cfg.parity()),
        sources: Seq::empty(),
        algorithm: Some(eigenpair_algorithm(cfg.eigenstate_solver, cfg.parity())),
    }
}

/// Logical key of an eigenpair.
pub open spec fn eigenpair_logical_key(params: CcmParams, cfg: HighPrecConfig) -> Seq<char> {
    let base = source_key("weil-eigenpair"@, params, cfg) + "/"@ + cfg.parity().key_label();
    if cfg.eigenstate_solver is ShiftInvertKrylov {
        base + "/"@ + cfg.eigenstate_solver.label()
    } else {
        base
    }
}

fn eigenpair_texts(solver: CcmEigenstateSolver, policy: CcmParityPolicy) -> (r: (
    &'static str,
    &'static str,
))
    ensures
        r.0@ == eigenpair_version(solver, policy),
        r.1@ == eigenpair_algorithm(solver, policy),
{
    match solver {
        CcmEigenstateSolver::ShiftInvertKrylov => (
            "ccm-smallest-weil-eigenpair-shift-invert-krylov-v1",
            "ccm_even_zero_shift_thick_restart_shift_invert_krylov_rayleigh_ritz_v1",
        ),
        _ => match policy {
            CcmParityPolicy::AdaptiveEven => (
                "ccm-smallest-weil-eigenpair-adaptive-even-v1",
                "dense_full_space_inverse_iteration_with_conditional_even_projection_and_full_tau_residual_gate_v1",
            ),
            _ => (
                "ccm-smallest-weil-eigenpair-v0.13.0-v3",
                "dense_inverse_iteration_with_half_precision_basin_shifted_rescue_and_full_tau_residual_gate_v1",
            ),
        },
    }
}

/// Semantic and logical key of an eigenpair; the automatic policy has none of its own.
pub fn weil_eigenpair_cache_identity(params: &CcmParams, cfg: &HighPrecConfig) -> (r: Result<
    (SemanticKey, String),
    CcmError,
>)
    ensures
        match r {
            Ok(k) => !(cfg.eigenstate_solver is Auto) && k.0@ == eigenpair_key(*params, *cfg)
                && k.1@ == eigenpair_logical_key(*params, *cfg),
            Err(e) => cfg.eigenstate_solver is Auto && e.refuses(
                "automatic CCM eigenstate selection must be resolved before key construction"@,
            ),
        },
{
    let policy: CcmParityPolicy = cfg.effective_parity_policy();
    let mut parameters: Vec<(String, KeyValue)> = start_parameters(params, cfg);
    put_text(&mut parameters, "scalar_backend", "rug_mpfr");
    put_flag(&mut parameters, "force_even", policy.legacy_force_even());
    put_text(&mut parameters, "normalization", "sum_xi_equals_sqrt_log_lambda_squared");
    let mut logical_key: String = start_key("weil-eigenpair", params, cfg);
    push_segment(&mut logical_key, policy.cache_label());
    match cfg.eigenstate_solver {
        CcmEigenstateSolver::LegacyInverseIteration => {
            put_number(
                &mut parameters,
                "inverse_iteration_step_limit",
                cfg.inverse_iter_steps as u64,
            );
        },
        CcmEigenstateSolver::ShiftInvertKrylov => {
            put_text(&mut parameters, "eigenstate_route", cfg.eigenstate_solver.as_str());
            put_number(
                &mut parameters,
                "krylov_subspace_dimension",
                cfg.krylov_subspace_dimension as u64,
            );
            put_number(
                &mut parameters,
                "krylov_maximum_restarts",
                cfg.krylov_maximum_restarts as u64,
            );
            put_number(
                &mut parameters,
                "krylov_guard_eigenpairs",
                cfg.krylov_guard_eigenpairs as u64,
            );
            push_segment(&mut logical_key, cfg.eigenstate_solver.as_str());
        },
        CcmEigenstateSolver::Auto => {
            return Err(
                CcmError::refused(
                    "automatic CCM eigenstate selection must be resolved before key construction",
                ),
            );
        },
    }
    add_adaptive_parity_parameter(&mut parameters, policy);
    let (version, algorithm) = eigenpair_texts(cfg.eigenstate_solver, policy);
    let key: SemanticKey = SemanticKey {
        artifact_kind: "ccm_weil_eigenpair".to_owned(),
        semantics_version: version.to_owned(),
        parameters,
        normalization: Some("sum_xi_equals_sqrt_log_lambda_squared".to_owned()),
        target: Some("smallest_weil_form_eigenpair".to_owned()),
        subspace: subspace_of(policy),
        sources: no_sources(),
        algorithm: Some(algorithm.to_owned()),
    };
    Ok((key, logical_key))
}

/// Semantic key of an eigenpair that continues an accepted one, given by the digest of its
/// content.
pub open spec fn continued_eigenpair_key(
    params: CcmParams,
    cfg: HighPrecConfig,
    predecessor_digest: Seq<char>,
) -> SemanticView {
    SemanticView {
        sources: seq![("ccm_weil_eigenpair"@, predecessor_digest)],
        ..eigenpair_key(params, cfg)
    }
}

/// Logical key of an eigenpair that continues an accepted one.
pub open spec fn continued_eigenpair_logical_key(
    params: CcmParams,
    cfg: HighPrecConfig,
    predecessor_digest: Seq<char>,
) -> Seq<char> {
    eigenpair_logical_key(params, cfg) + "/"@ + ("from-eigenpair-"@ + predecessor_digest)
}

/// Semantic and logical key of an eigenpair whose solve continues an accepted eigenpair: the
/// digest of that eigenpair's content is a part of both.
pub fn continued_eigenpair_cache_identity(
    params: &CcmParams,
    cfg: &HighPrecConfig,
    predecessor_digest: &str,
) -> (r: Result<(SemanticKey, String), CcmError>)
    ensures
        match r {
            Ok(k) => !(cfg.eigenstate_solver is Auto) && k.0@ == continued_eigenpair_key(
                *params,
                *cfg,
                predecessor_digest@,
            ) && k.1@ == continued_eigenpair_logical_key(*params, *cfg, predecessor_digest@),
            Err(e) => cfg.eigenstate_solver is Auto && e.refuses(
                "automatic CCM eigenstate selection must be resolved before key construction"@,
            ),
        },
{
    match weil_eigenpair_cache_identity(params, cfg) {
        Err(e) => Err(e),
        Ok((own, own_logical_key)) => {
            let mut sources: Vec<(String, String)> = no_sources();
            put_pair(&mut sources, "ccm_weil_eigenpair", predecessor_digest);
            assert(pairs_view(sources@) =~= seq![("ccm_weil_eigenpair"@, predecessor_digest@)]);
            let mut key: SemanticKey = own;
            key.sources = sources;
            let mut logical_key: String = own_logical_key;
            push_segment(&mut logical_key, seed_identity(Some(predecessor_digest)).as_str());
            Ok((key, logical_key))
        },
    }
}

/// Request for an eigenpair.
///
/// `predecessor_digest` is the digest of the accepted eigenpair whose state the caller brings,
/// where it brings one. `seed_tag` names the state that a solve starts from, where there is one:
/// a state that was only found in a store is a hint, and leaves the keys as they are.
pub fn weil_eigenpair_request(
    params: &CcmParams,
    cfg: &HighPrecConfig,
    predecessor_digest: Option<&str>,
    seed_tag: Option<(&str, &str)>,
) -> (r: Result<CacheRequest, CcmError>)
    ensures
        match r {
            Ok(q) => !(cfg.eigenstate_solver is Auto) && q@ == (RequestView {
                operation: "ccm.weil_eigenpair.resolve_or_compute"@,
                key: match predecessor_digest {
                    None => eigenpair_key(*params, *cfg),
                    Some(d) => continued_eigenpair_key(*params, *cfg, d@),
                },
                logical_key: match predecessor_digest {
                    None => eigenpair_logical_key(*params, *cfg),
                    Some(d) => continued_eigenpair_logical_key(*params, *cfg, d@),
                },
                minimum_reader: "0.13.0"@,
                quality: ArtifactQuality::Validated,
                tags: match seed_tag {
                    None => artifact_tags("weil_eigenpair"@),
                    Some(t) => artifact_tags("weil_eigenpair"@).push((t.0@, t.1@)),
                },
                provenance: None,
            }),
            Err(e) => cfg.eigenstate_solver is Auto && e.refuses(
                "automatic CCM eigenstate selection must be resolved before key construction"@,
            ),
        },
{
    let identity: Result<(SemanticKey, String), CcmError> = match predecessor_digest {
        None => weil_eigenpair_cache_identity(params, cfg),
        Some(d) => continued_eigenpair_cache_identity(params, cfg, d),
    };
    match identity {
        Err(e) => Err(e),
        Ok((key, logical_key)) => {
            let mut tags: Vec<(String, String)> = start_tags("weil_eigenpair");
            match seed_tag {
                None => {},
                Some((name, text)) => {
                    put_pair(&mut tags, name, text);
                },
            }
            Ok(
                CacheRequest {
                    operation: "ccm.weil_eigenpair.resolve_or_compute".to_owned(),
                    key,
                    logical_key,
                    minimum_reader: "0.13.0".to_owned(),
                    quality: ArtifactQuality::Validated,
                    tags,
                    provenance: None,
                },
            )
        },
    }
}

/// An eigenpair is cached under the predecessor that its solve continued: different predecessors
/// give different keys, and none of these is a key without a predecessor.
pub proof fn law_continued_pairs_have_their_own_keys(
    params: CcmParams,
    cfg: HighPrecConfig,
    one: Seq<char>,
    other: Seq<char>,
)
    ensures
        continued_eigenpair_key(params, cfg, one) != eigenpair_key(params, cfg),
        continued_eigenpair_logical_key(params, cfg, one) != eigenpair_logical_key(params, cfg),
        one != other ==> continued_eigenpair_key(params, cfg, one) != continued_eigenpair_key(
            params,
            cfg,
            other,
        ),
        one != other ==> continued_eigenpair_logical_key(params, cfg, one)
            != continued_eigenpair_logical_key(params, cfg, other),
{
    reveal_strlit("/");
    assert(continued_eigenpair_key(params, cfg, one).sources.len() == 1);
    assert(eigenpair_key(params, cfg).sources.len() == 0);
    assert(continued_eigenpair_logical_key(params, cfg, one).len() > eigenpair_logical_key(
        params,
        cfg,
    ).len());
    if continued_eigenpair_key(params, cfg, one) == continued_eigenpair_key(params, cfg, other) {
        assert(continued_eigenpair_key(params, cfg, one).sources[0].1 == one);
        assert(continued_eigenpair_key(params, cfg, other).sources[0].1 == other);
    }
    if continued_eigenpair_logical_key(params, cfg, one) == continued_eigenpair_logical_key(
        params,
        cfg,
        other,
    ) {
        let head = eigenpair_logical_key(params, cfg) + "/"@ + "from-eigenpair-"@;
        let a = continued_eigenpair_logical_key(params, cfg, one);
        let b = continued_eigenpair_logical_key(params, cfg, other);
        assert(a =~= head + one);
        assert(b =~= head + other);
        assert(a.skip(head.len() as int) =~= one);
        assert(b.skip(head.len() as int) =~= other);
    }
}

/// The two solver routes never share an eigenpair: neither key of one is a key of the other.
pub proof fn law_solver_routes_have_their_own_keys(
    params: CcmParams,
    legacy: HighPrecConfig,
    krylov: HighPrecConfig,
)
    requires
        legacy.eigenstate_solver is LegacyInverseIteration,
        krylov.eigenstate_solver is ShiftInvertKrylov,
    ensures
        eigenpair_key(params, legacy) != eigenpair_key(params, krylov),
        eigenpair_key(params, legacy).version != eigenpair_key(params, krylov).version,
        legacy.precision_bits == krylov.precision_bits && legacy.parity() == krylov.parity()
            ==> eigenpair_logical_key(params, legacy) != eigenpair_logical_key(params, krylov),
{
    reveal_strlit("ccm-smallest-weil-eigenpair-shift-invert-krylov-v1");
    reveal_strlit("ccm-smallest-weil-eigenpair-adaptive-even-v1");
    reveal_strlit("ccm-smallest-weil-eigenpair-v0.13.0-v3");
    assert("ccm-smallest-weil-eigenpair-shift-invert-krylov-v1"@.len() == 50);
    assert("ccm-smallest-weil-eigenpair-adaptive-even-v1"@.len() == 44);
    assert("ccm-smallest-weil-eigenpair-v0.13.0-v3"@.len() == 38);
    reveal_strlit("/");
    if legacy.precision_bits == krylov.precision_bits && legacy.parity() == krylov.parity() {
        assert(eigenpair_logical_key(params, legacy).len() < eigenpair_logical_key(
            params,
            krylov,
        ).len());
    }
}

/// Eigenpairs of different parity policies never share a semantic key or, at one precision, a
/// logical key.
pub proof fn law_parity_policies_have_their_own_keys(
    params: CcmParams,
    one: HighPrecConfig,
    other: HighPrecConfig,
)
    requires
        one.eigenstate_solver == other.eigenstate_solver,
        one.parity() != other.parity(),
    ensures
        eigenpair_key(params, one) != eigenpair_key(params, other),
        one.precision_bits == other.precision_bits ==> eigenpair_logical_key(params, one)
            != eigenpair_logical_key(params, other),
{
    let a = eigenpair_parameters(params, one);
    let b = eigenpair_parameters(params, other);
    assert(a[4] == ("force_even"@, ValueView::Flag(one.parity().forces_even())));
    assert(b[4] == ("force_even"@, ValueView::Flag(other.parity().forces_even())));
    if one.parity().forces_even() == other.parity().forces_even() {
        assert(a.len() != b.len());
    } else {
        assert(a[4] != b[4]);
    }
    if one.precision_bits == other.precision_bits {
        reveal_strlit("natural");
        reveal_strlit("adaptive-even");
        reveal_strlit("even");
        assert("natural"@.len() == 7);
        assert("adaptive-even"@.len() == 13);
        assert("even"@.len() == 4);
        assert(eigenpair_logical_key(params, one).len() != eigenpair_logical_key(
            params,
            other,
        ).len());
    }
}

/// The name of the state that a solve starts from.
pub open spec fn seed_name(seed_digest: Option<&str>) -> Seq<char> {
    match seed_digest {
        None => "canonical"@,
        Some(d) => "from-eigenpair-"@ + d@,
    }
}

/// The name of the state that a solve starts from.
pub fn seed_identity(seed_digest: Option<&str>) -> (r: String)
    ensures
        r@ == seed_name(seed_digest),
{
    match seed_digest {
        None => "canonical".to_owned(),
        Some(d) => {
            let mut t: String = "from-eigenpair-".to_owned();
            t.append(d);
            t
        },
    }
}

/// Request for the record of a secular source.
pub open spec fn secular_source_view(
    params: CcmParams,
    cfg: HighPrecConfig,
    eigenpair_digest: Seq<char>,
) -> RequestView {
    RequestView {
        operation: "ccm.secular_source.resolve_or_compute"@,
        key: SemanticView {
            kind: "ccm_secular_source"@,
            version: "ccm-secular-source-v0.13.0-v1"@,
            parameters: with_parity(
                source_parameters(params, cfg).push(
                    ("force_even"@, ValueView::Flag(cfg.parity().forces_even())),
                ).push(("eigenpair_content_digest"@, ValueView::Text(eigenpair_digest))),
                cfg.parity(),
            ),
            normalization: Some("sum_xi_equals_sqrt_log_lambda_squared"@),
            target: Some("ccm_secular_function"@),
            subspace: policy_subspace(cfg.parity()),
            sources: Seq::empty(),
            algorithm: Some("xi_hat_exponential_sum"@),
        },
        logical_key: source_key("secular-source"@, params, cfg) + "/"@ + cfg.parity().key_label(),
        minimum_reader: "0.13.0"@,
        quality: ArtifactQuality::Validated,
        tags: artifact_tags("secular_source"@),
        provenance: None,
    }
}

/// Request for the record of a secular source.
pub fn secular_source_request(
    params: &CcmParams,
    cfg: &HighPrecConfig,
    eigenpair_digest: &str,
) -> (r: CacheRequest)
    ensures
        r@ == secular_source_view(*params, *cfg, eigenpair_digest@),
{
    let policy: CcmParityPolicy = cfg.effective_parity_policy();
    let mut parameters: Vec<(String, KeyValue)> = start_parameters(params, cfg);
    put_flag(&mut parameters, "force_even", policy.legacy_force_even());
    put_text(&mut parameters, "eigenpair_content_digest", eigenpair_digest);
    add_adaptive_parity_parameter(&mut parameters, policy);
    let mut logical_key: String = start_key("secular-source", params, cfg);
    push_segment(&mut logical_key, policy.cache_label());
    CacheRequest {
        operation: "ccm.secular_source.resolve_or_compute".to_owned(),
        key: SemanticKey {
            artifact_kind: "ccm_secular_source".to_owned(),
            semantics_version: "ccm-secular-source-v0.13.0-v1".to_owned(),
            parameters,
            normalization: Some("sum_xi_equals_sqrt_log_lambda_squared".to_owned()),
            target: Some("ccm_secular_function".to_owned()),
            subspace: subspace_of(policy),
            sources: no_sources(),
            algorithm: Some("xi_hat_exponential_sum".to_owned()),
        },
        logical_key,
        minimum_reader: "0.13.0".to_owned(),
        quality: ArtifactQuality::Validated,
        tags: start_tags("secular_source"),
        provenance: None,
    }
}

/// Semantic key of a root certificate.
pub open spec fn certificate_key_view(
    params: CcmParams,
    cfg: HighPrecConfig,
    secular_digest: Seq<char>,
    weights_digest: Seq<char>,
    options: CcmRootCertificationOptions,
) -> SemanticView {
    SemanticView {
        kind: "ccm_certificate_bundle"@,
        version: "ccm-exact-point-source-root-certificate-v0.13.0-v1"@,
        parameters: with_parity(
            source_parameters(params, cfg).push(
                ("force_even"@, ValueView::Flag(cfg.parity().forces_even())),
            ).push(("secular_source_content_digest"@, ValueView::Text(secular_digest))).push(
                ("source_weights_digest"@, ValueView::Text(weights_digest)),
            ).push(
                ("certification_scope"@, ValueView::Text("exact_stored_point_source"@)),
            ).push(("target"@, ValueView::Target(options.target))).push(
                ("isolation_bits"@, ValueView::Number(options.isolation_bits as nat)),
            ).push(
                (
                    "interval_newton"@,
                    ValueView::Newton {
                        width_tolerance: options.width_tolerance@,
                        maximum_iterations: options.maximum_iterations as nat,
                    },
                ),
            ),
            cfg.parity(),
        ),
        normalization: Some("sum_xi_equals_sqrt_log_lambda_squared"@),
        target: Some("independently_indexed_positive_ccm_roots"@),
        subspace: policy_subspace(cfg.parity()),
        sources: seq![("ccm_secular_source"@, secular_digest)],
        algorithm: Some("flint_exact_count_arb_isolation_interval_newton_v1"@),
    }
}

/// Semantic key of a root certificate.
pub fn certificate_key(
    params: &CcmParams,
    cfg: &HighPrecConfig,
    secular_digest: &str,
    weights_digest: &str,
    options: &CcmRootCertificationOptions,
) -> (r: SemanticKey)
    ensures
        r@ == certificate_key_view(*params, *cfg, secular_digest@, weights_digest@, *options),
{
    let policy: CcmParityPolicy = cfg.effective_parity_policy();
    let mut parameters: Vec<(String, KeyValue)> = start_parameters(params, cfg);
    put_flag(&mut parameters, "force_even", policy.legacy_force_even());
    put_text(&mut parameters, "secular_source_content_digest", secular_digest);
    put_text(&mut parameters, "source_weights_digest", weights_digest);
    put_text(&mut parameters, "certification_scope", "exact_stored_point_source");
    put(&mut parameters, "target", KeyValue::Target(options.target));
    put_number(&mut parameters, "isolation_bits", options.isolation_bits as u64);
    put(
        &mut parameters,
        "interval_newton",
        KeyValue::Newton {
            width_tolerance: options.width_tolerance.clone(),
            maximum_iterations: options.maximum_iterations,
        },
    );
    add_adaptive_parity_parameter(&mut parameters, policy);
    let mut sources: Vec<(String, String)> = no_sources();
    put_pair(&mut sources, "ccm_secular_source", secular_digest);
    assert(pairs_view(sources@) =~= seq![("ccm_secular_source"@, secular_digest@)]);
    SemanticKey {
        artifact_kind: "ccm_certificate_bundle".to_owned(),
        semantics_version: "ccm-exact-point-source-root-certificate-v0.13.0-v1".to_owned(),
        parameters,
        normalization: Some("sum_xi_equals_sqrt_log_lambda_squared".to_owned()),
        target: Some("independently_indexed_positive_ccm_roots".to_owned()),
        subspace: subspace_of(policy),
        sources,
        algorithm: Some("flint_exact_count_arb_isolation_interval_newton_v1".to_owned()),
    }
}

/// Request for a root certificate; its logical key carries the digest of its semantic key.
pub fn certificate_request(
    key: SemanticKey,
    params: &CcmParams,
    cfg: &HighPrecConfig,
    secular_digest: &str,
    semantic_digest: &str,
) -> (r: CacheRequest)
    ensures
        r@ == (RequestView {
            operation: "ccm.root_certificate.resolve_or_compute"@,
            key: key@,
            logical_key: source_key("certificate-bundle"@, *params, *cfg) + "/"@ + semantic_digest@,
            minimum_reader: "0.13.0"@,
            quality: ArtifactQuality::Certified,
            tags: artifact_tags("root_certificate"@).push(
                ("certification_scope"@, "exact_stored_point_source"@),
            ),
            provenance: Some(secular_digest@),
        }),
{
    let mut logical_key: String = start_key("certificate-bundle", params, cfg);
    push_segment(&mut logical_key, semantic_digest);
    let mut tags: Vec<(String, String)> = start_tags("root_certificate");
    put_pair(&mut tags, "certification_scope", "exact_stored_point_source");
    CacheRequest {
        operation: "ccm.root_certificate.resolve_or_compute".to_owned(),
        key,
        logical_key,
        minimum_reader: "0.13.0".to_owned(),
        quality: ArtifactQuality::Certified,
        tags,
        provenance: Some(secular_digest.to_owned()),
    }
}

/// Oldest reader of a root window.
pub open spec fn window_reader(semantics: RootWindowSemantics) -> Seq<char> {
    if semantics.artifact_format is AdvancedV7 {
        "0.13.3"@
    } else {
        "0.13.0"@
    }
}

fn reader_of_window(semantics: RootWindowSemantics) -> (r: String)
    ensures
        r@ == window_reader(semantics),
{
    if semantics.is_advanced() {
        "0.13.3".to_owned()
    } else {
        "0.13.0".to_owned()
    }
}

/// Parameters of a root window.
pub open spec fn root_range_parameters(
    params: CcmParams,
    cfg: HighPrecConfig,
    first: nat,
    seeds: Seq<Seq<char>>,
    mode: RootArtifactMode,
    dataset: Option<DatasetView>,
    semantics: RootWindowSemantics,
) -> Seq<(Seq<char>, ValueView)> {
    let common = with_parity(
        source_parameters(params, cfg).push(
            ("force_even"@, ValueView::Flag(cfg.parity().forces_even())),
        ).push(("first_root_index"@, ValueView::Number(first))).push(
            ("root_count"@, ValueView::Number(seeds.len())),
        ).push(("discovery_mode"@, ValueView::Text(mode.label()))).push(
            ("starting_points"@, ValueView::Texts(seeds)),
        ).push(
            ("reference_seeds_used"@, ValueView::Flag(mode is ReferenceSeededRefinement)),
        ).push(("completeness"@, ValueView::Text(completeness_label(mode)))).push(
            ("solver"@, ValueView::Text(cfg.root_solver.lower_name())),
        ).push(("solver_steps"@, ValueView::Number(cfg.solver_steps as nat))).push(
            ("accuracy_guard_bits"@, ValueView::Number(GUARD_BITS as nat)),
        ),
        cfg.parity(),
    );
    let provided = match dataset {
        None => common,
        Some(d) => common.push(("reference_dataset"@, ValueView::Dataset(d))),
    };
    if semantics.artifact_format is AdvancedV7 {
        provided.push(("root_domain"@, ValueView::Text(semantics.domain.label())))
    } else {
        provided
    }
}

/// Semantic key of a root window.
pub open spec fn root_range_key(
    params: CcmParams,
    cfg: HighPrecConfig,
    first: nat,
    seeds: Seq<Seq<char>>,
    mode: RootArtifactMode,
    dataset: Option<DatasetView>,
    semantics: RootWindowSemantics,
) -> SemanticView {
    SemanticView {
        kind: match mode {
            RootArtifactMode::Independent => "ccm_root_discovery_window"@,
            RootArtifactMode::ReferenceSeededRefinement => "ccm_root_refinement"@,
        },
        version: if semantics.artifact_format is AdvancedV7 {
            "ccm-root-range-v0.13.3-v7"@
        } else {
            "ccm-root-range-v0.13.0-v6"@
        },
        parameters: root_range_parameters(params, cfg, first, seeds, mode, dataset, semantics),
        normalization: None,
        target: Some(
            match semantics.domain {
                IndependentRootDomain::Positive => "positive_ccm_spectral_roots"@,
                IndependentRootDomain::Signed => "signed_ccm_spectral_roots"@,
            },
        ),
        subspace: policy_subspace(cfg.parity()),
        sources: match dataset {
            None => Seq::empty(),
            Some(d) => seq![("reference_zero_dataset"@, d.content_sha256)],
        },
        algorithm: Some(cfg.root_solver.lower_name()),
    }
}

/// A copy of a list of texts.
pub fn copy_texts(v: &Vec<String>) -> (r: Vec<String>)
    ensures
        strings(r@) == strings(v@),
{
    let mut out: Vec<String> = Vec::new();
    let mut i: usize = 0;
    while i < v.len()
        invariant
            i <= v.len(),
            out@.len() == i,
            forall|j: int| 0 <= j < i ==> #[trigger] out@[j]@ == v@[j]@,
        decreases v.len() - i,
    {
        out.push(v[i].clone());
        i = i + 1;
    }
    assert(strings(out@) =~= strings(v@));
    out
}

/// Semantic key of a root window, for starting points given as decimal texts.
///
/// `well_formed` says whether the dataset's own identity and digest hold up.
pub fn root_range_semantic_key(
    params: &CcmParams,
    cfg: &HighPrecConfig,
    first_root_index: usize,
    seeds: &Vec<String>,
    artifact_mode: RootArtifactMode,
    reference_dataset: Option<&ReferenceZeroDatasetIdentity>,
    well_formed: bool,
    semantics: RootWindowSemantics,
) -> (r: Result<SemanticKey, CcmError>)
    ensures
        match r {
            Ok(k) => dataset_refusal(
                artifact_mode,
                dataset_view(reference_dataset),
                well_formed,
                first_root_index as nat,
                seeds@.len(),
            ) is None && k@ == root_range_key(
                *params,
                *cfg,
                first_root_index as nat,
                strings(seeds@),
                artifact_mode,
                dataset_view(reference_dataset),
                semantics,
            ),
            Err(e) => e is Refused && dataset_refusal(
                artifact_mode,
                dataset_view(reference_dataset),
                well_formed,
                first_root_index as nat,
                seeds@.len(),
            ) == Some(e.text()),
        },
{
    match validate_reference_seed_dataset(
        artifact_mode,
        reference_dataset,
        well_formed,
        first_root_index,
        seeds.len(),
    ) {
        Err(e) => {
            return Err(e);
        },
        Ok(_) => {},
    }
    let policy: CcmParityPolicy = cfg.effective_parity_policy();
    let seeded: bool = match artifact_mode {
        RootArtifactMode::Independent => false,
        RootArtifactMode::ReferenceSeededRefinement => true,
    };
    let mut parameters: Vec<(String, KeyValue)> = start_parameters(params, cfg);
    put_flag(&mut parameters, "force_even", policy.legacy_force_even());
    put_number(&mut parameters, "first_root_index", first_root_index as u64);
    put_number(&mut parameters, "root_count", seeds.len() as u64);
    put_text(&mut parameters, "discovery_mode", artifact_mode.as_str());
    put(&mut parameters, "starting_points", KeyValue::Texts(copy_texts(seeds)));
    put_flag(&mut parameters, "reference_seeds_used", seeded);
    put_text(&mut parameters, "completeness", completeness_of(artifact_mode));
    put_text(&mut parameters, "solver", cfg.root_solver.stored_name());
    put_number(&mut parameters, "solver_steps", cfg.solver_steps as u64);
    put_number(&mut parameters, "accuracy_guard_bits", GUARD_BITS as u64);
    add_adaptive_parity_parameter(&mut parameters, policy);
    let mut sources: Vec<(String, String)> = no_sources();
    match reference_dataset {
        None => {},
        Some(d) => {
            put(&mut parameters, "reference_dataset", KeyValue::Dataset(d.copied()));
            put_pair(&mut sources, "reference_zero_dataset", d.content_sha256.as_str());
            assert(pairs_view(sources@) =~= seq![("reference_zero_dataset"@, d@.content_sha256)]);
        },
    }
    if semantics.is_advanced() {
        put_text(&mut parameters, "root_domain", semantics.domain.as_str());
    }
    let kind: &str = if seeded {
        "ccm_root_refinement"
    } else {
        "ccm_root_discovery_window"
    };
    let version: &str = if semantics.is_advanced() {
        "ccm-root-range-v0.13.3-v7"
    } else {
        "ccm-root-range-v0.13.0-v6"
    };
    let target: &str = match semantics.domain {
        IndependentRootDomain::Positive => "positive_ccm_spectral_roots",
        IndependentRootDomain::Signed => "signed_ccm_spectral_roots",
    };
    Ok(
        SemanticKey {
            artifact_kind: kind.to_owned(),
            semantics_version: version.to_owned(),
            parameters,
            normalization: None,
            target: Some(target.to_owned()),
            subspace: subspace_of(policy),
            sources,
            algorithm: Some(cfg.root_solver.stored_name().to_owned()),
        },
    )
}

/// Windows that were refined from reference seeds never share a key with discovered ones.
pub proof fn law_seeded_windows_have_their_own_keys(
    params: CcmParams,
    cfg: HighPrecConfig,
    first: nat,
    seeds: Seq<Seq<char>>,
    dataset: Option<DatasetView>,
    one: RootWindowSemantics,
    other: RootWindowSemantics,
)
    ensures
        root_range_key(params, cfg, first, seeds, RootArtifactMode::Independent, None, one)
            != root_range_key(
            params,
            cfg,
            first,
            seeds,
            RootArtifactMode::ReferenceSeededRefinement,
            dataset,
            other,
        ),
{
    reveal_strlit("ccm_root_discovery_window");
    reveal_strlit("ccm_root_refinement");
    assert("ccm_root_discovery_window"@.len() == 25);
    assert("ccm_root_refinement"@.len() == 19);
}

/// Windows from datasets of different content never share a key.
pub proof fn law_datasets_have_their_own_keys(
    params: CcmParams,
    cfg: HighPrecConfig,
    first: nat,
    seeds: Seq<Seq<char>>,
    one: DatasetView,
    other: DatasetView,
    semantics: RootWindowSemantics,
)
    requires
        one.content_sha256 != other.content_sha256,
    ensures
        root_range_key(
            params,
            cfg,
            first,
            seeds,
            RootArtifactMode::ReferenceSeededRefinement,
            Some(one),
            semantics,
        ) != root_range_key(
            params,
            cfg,
            first,
            seeds,
            RootArtifactMode::ReferenceSeededRefinement,
            Some(other),
            semantics,
        ),
{
    let a = seq![("reference_zero_dataset"@, one.content_sha256)];
    let b = seq![("reference_zero_dataset"@, other.content_sha256)];
    assert(a[0].1 != b[0].1);
}

/// How many roots a caller asked for, and whether fewer would do, does not split a numerical
/// window: requests of one domain and layout share its key.
pub proof fn law_request_policy_keeps_the_window(
    params: CcmParams,
    cfg: HighPrecConfig,
    first: nat,
    seeds: Seq<Seq<char>>,
    mode: RootArtifactMode,
    dataset: Option<DatasetView>,
    one: RootWindowSemantics,
    other: RootWindowSemantics,
)
    requires
        one.domain == other.domain,
        one.artifact_format == other.artifact_format,
    ensures
        root_range_key(params, cfg, first, seeds, mode, dataset, one) == root_range_key(
            params,
            cfg,
            first,
            seeds,
            mode,
            dataset,
            other,
        ),
{
}

/// Logical key of a root window with the given last index.
pub open spec fn root_range_logical_key(
    params: CcmParams,
    cfg: HighPrecConfig,
    first: nat,
    last: nat,
    mode: RootArtifactMode,
    semantics: RootWindowSemantics,
) -> Seq<char> {
    let segment = if semantics.artifact_format is AdvancedV7 {
        "root-discovery/advanced/"@ + semantics.domain.label()
    } else {
        match mode {
            RootArtifactMode::Independent => "root-discovery"@,
            RootArtifactMode::ReferenceSeededRefinement => "root-refinement"@,
        }
    };
    source_key(segment, params, cfg) + "/"@ + cfg.parity().key_label() + "/"@ + number_text(first)
        + "-"@ + number_text(last)
}

/// Logical key of a root window with the given last index.
pub fn root_range_key_text(
    params: &CcmParams,
    cfg: &HighPrecConfig,
    first_root_index: usize,
    last_root_index: usize,
    artifact_mode: RootArtifactMode,
    semantics: RootWindowSemantics,
) -> (r: String)
    ensures
        r@ == root_range_logical_key(
            *params,
            *cfg,
            first_root_index as nat,
            last_root_index as nat,
            artifact_mode,
            semantics,
        ),
{
    let mut t: String = if semantics.is_advanced() {
        let mut segment: String = "root-discovery/advanced/".to_owned();
        segment.append(semantics.domain.as_str());
        start_key(segment.as_str(), params, cfg)
    } else {
        match artifact_mode {
            RootArtifactMode::Independent => start_key("root-discovery", params, cfg),
            RootArtifactMode::ReferenceSeededRefinement => start_key(
                "root-refinement",
                params,
                cfg,
            ),
        }
    };
    push_segment(&mut t, cfg.effective_parity_policy().cache_label());
    t.append("/");
    push_number(&mut t, first_root_index as u64);
    t.append("-");
    push_number(&mut t, last_root_index as u64);
    t
}

/// Operation of a root window.
pub open spec fn root_range_operation(mode: RootArtifactMode) -> Seq<char> {
    match mode {
        RootArtifactMode::Independent => "ccm.root_discovery.resolve_or_compute"@,
        RootArtifactMode::ReferenceSeededRefinement => "ccm.root_refinement.resolve_or_compute"@,
    }
}

/// The tag of a root window.
pub open spec fn root_range_tag(mode: RootArtifactMode) -> Seq<char> {
    match mode {
        RootArtifactMode::Independent => "root_discovery_window"@,
        RootArtifactMode::ReferenceSeededRefinement => "root_refinement"@,
    }
}

/// Why a root window cannot be asked for; `None` where it can.
pub open spec fn root_range_refusal(first: nat, count: nat) -> Option<Seq<char>> {
    if first == 0 || count == 0 {
        Some("CCM indexed root refinement requires a positive index and nonempty seed window"@)
    } else if first + count - 1 > usize::MAX {
        Some("CCM indexed root window overflows usize"@)
    } else {
        None
    }
}

/// The last index of a root window, or why it cannot be asked for.
pub fn last_root_index(first_root_index: usize, count: usize) -> (r: Result<usize, CcmError>)
    ensures
        match r {
            Ok(last) => root_range_refusal(first_root_index as nat, count as nat) is None && last
                == first_root_index + count - 1,
            Err(e) => e is Refused && root_range_refusal(first_root_index as nat, count as nat)
                == Some(e.text()),
        },
{
    if first_root_index == 0 || count == 0 {
        return Err(
            CcmError::refused(
                "CCM indexed root refinement requires a positive index and nonempty seed window",
            ),
        );
    }
    match first_root_index.checked_add(count - 1) {
        None => Err(CcmError::refused("CCM indexed root window overflows usize")),
        Some(last) => Ok(last),
    }
}

/// Request for a root window.
pub fn root_range_request(
    params: &CcmParams,
    cfg: &HighPrecConfig,
    first_root_index: usize,
    seeds: &Vec<String>,
    artifact_mode: RootArtifactMode,
    reference_dataset: Option<&ReferenceZeroDatasetIdentity>,
    well_formed: bool,
    semantics: RootWindowSemantics,
) -> (r: Result<CacheRequest, CcmError>)
    ensures
        match r {
            Ok(q) => root_range_refusal(first_root_index as nat, seeds@.len()) is None
                && dataset_refusal(
                artifact_mode,
                dataset_view(reference_dataset),
                well_formed,
                first_root_index as nat,
                seeds@.len(),
            ) is None && q@ == (RequestView {
                operation: root_range_operation(artifact_mode),
                key: root_range_key(
                    *params,
                    *cfg,
                    first_root_index as nat,
                    strings(seeds@),
                    artifact_mode,
                    dataset_view(reference_dataset),
                    semantics,
                ),
                logical_key: root_range_logical_key(
                    *params,
                    *cfg,
                    first_root_index as nat,
                    (first_root_index + seeds@.len() - 1) as nat,
                    artifact_mode,
                    semantics,
                ),
                minimum_reader: window_reader(semantics),
                quality: ArtifactQuality::Validated,
                tags: artifact_tags(root_range_tag(artifact_mode)),
                provenance: None,
            }),
            Err(e) => e is Refused && match root_range_refusal(
                first_root_index as nat,
                seeds@.len(),
            ) {
                Some(words) => words == e.text(),
                None => dataset_refusal(
                    artifact_mode,
                    dataset_view(reference_dataset),
                    well_formed,
                    first_root_index as nat,
                    seeds@.len(),
                ) == Some(e.text()),
            },
        },
{
    let last: usize = match last_root_index(first_root_index, seeds.len()) {
        Err(e) => {
            return Err(e);
        },
        Ok(last) => last,
    };
    match root_range_semantic_key(
        params,
        cfg,
        first_root_index,
        seeds,
        artifact_mode,
        reference_dataset,
        well_formed,
        semantics,
    ) {
        Err(e) => Err(e),
        Ok(key) => {
            let operation: &str = match artifact_mode {
                RootArtifactMode::Independent => "ccm.root_discovery.resolve_or_compute",
                RootArtifactMode::ReferenceSeededRefinement =>
                    "ccm.root_refinement.resolve_or_compute",
            };
            let tag: &str = match artifact_mode {
                RootArtifactMode::Independent => "root_discovery_window",
                RootArtifactMode::ReferenceSeededRefinement => "root_refinement",
            };
            Ok(
                CacheRequest {
                    operation: operation.to_owned(),
                    key,
                    logical_key: root_range_key_text(
                        params,
                        cfg,
                        first_root_index,
                        last,
                        artifact_mode,
                        semantics,
                    ),
                    minimum_reader: reader_of_window(semantics),
                    quality: ArtifactQuality::Validated,
                    tags: start_tags(tag),
                    provenance: None,
                },
            )
        },
    }
}

/// Parameters of run evidence.
pub open spec fn evidence_parameters(
    params: CcmParams,
    cfg: HighPrecConfig,
    first: nat,
    count: nat,
    mode: RootArtifactMode,
    semantics: RootWindowSemantics,
    ordinals: Seq<usize>,
    eigenpair_digest: Seq<char>,
    range_digest: Seq<char>,
) -> Seq<(Seq<char>, ValueView)> {
    let common = with_parity(
        source_parameters(params, cfg).push(
            ("force_even"@, ValueView::Flag(cfg.parity().forces_even())),
        ).push(("discovery_mode"@, ValueView::Text(mode.label()))).push(
            ("first_root_index"@, ValueView::Number(first)),
        ).push(("last_root_index"@, ValueView::Number((first + count - 1) as nat))).push(
            ("root_count"@, ValueView::Number(count)),
        ).push(("eigenpair_content_digest"@, ValueView::Text(eigenpair_digest))).push(
            ("root_range_content_digest"@, ValueView::Text(range_digest)),
        ),
        cfg.parity(),
    );
    if semantics.artifact_format is AdvancedV7 {
        common.push(("root_domain"@, ValueView::Text(semantics.domain.label()))).push(
            ("requested_root_count"@, ValueView::Number(semantics.requested_count as nat)),
        ).push(("allow_incomplete"@, ValueView::Flag(semantics.allow_incomplete))).push(
            ("selected_root_ordinals"@, ValueView::Numbers(ordinals)),
        )
    } else {
        common
    }
}

/// Logical key of run evidence.
pub open spec fn evidence_logical_key(
    params: CcmParams,
    cfg: HighPrecConfig,
    first: nat,
    count: nat,
    mode: RootArtifactMode,
    semantics: RootWindowSemantics,
) -> Seq<char> {
    if semantics.artifact_format is AdvancedV7 {
        source_key(
            "run-evidence/advanced/"@ + semantics.domain.label() + "/"@ + mode.label(),
            params,
            cfg,
        ) + "/"@ + cfg.parity().key_label() + "/requested-"@ + number_text(
            semantics.requested_count as nat,
        ) + "/returned-"@ + number_text(count)
    } else {
        source_key("run-evidence/"@ + mode.label(), params, cfg) + "/"@ + cfg.parity().key_label()
            + "/"@ + number_text(first) + "-"@ + number_text((first + count - 1) as nat)
    }
}

/// Request for run evidence.
pub open spec fn run_evidence_view(
    params: CcmParams,
    cfg: HighPrecConfig,
    first: nat,
    count: nat,
    mode: RootArtifactMode,
    semantics: RootWindowSemantics,
    ordinals: Seq<usize>,
    eigenpair_digest: Seq<char>,
    range_digest: Seq<char>,
) -> RequestView {
    RequestView {
        operation: "ccm.run_evidence.resolve_or_compute"@,
        key: SemanticView {
            kind: "ccm_convergence_diagnostics"@,
            version: if semantics.artifact_format is AdvancedV7 {
                "ccm-run-evidence-v0.13.3-v4"@
            } else {
                "ccm-run-evidence-v0.13.0-v3"@
            },
            parameters: evidence_parameters(
                params,
                cfg,
                first,
                count,
                mode,
                semantics,
                ordinals,
                eigenpair_digest,
                range_digest,
            ),
            normalization: None,
            target: Some("ccm_configuration_run_summary"@),
            subspace: policy_subspace(cfg.parity()),
            sources: Seq::empty(),
            algorithm: None,
        },
        logical_key: evidence_logical_key(params, cfg, first, count, mode, semantics),
        minimum_reader: window_reader(semantics),
        quality: ArtifactQuality::Validated,
        tags: artifact_tags("run_evidence"@),
        provenance: None,
    }
}

/// Why run evidence cannot be recorded; `None` where it can.
pub open spec fn evidence_refusal(first: nat, count: nat) -> Option<Seq<char>> {
    if first == 0 || count == 0 {
        Some("CCM run evidence requires a nonempty one-based root range"@)
    } else if first + count - 1 > usize::MAX {
        Some("CCM run-evidence root range overflows usize"@)
    } else {
        None
    }
}

/// The last index of an evidence record, or why there can be none.
pub fn last_evidence_index(first_root_index: usize, count: usize) -> (r: Result<usize, CcmError>)
    ensures
        match r {
            Ok(last) => evidence_refusal(first_root_index as nat, count as nat) is None && last
                == first_root_index + count - 1,
            Err(e) => e is Refused && evidence_refusal(first_root_index as nat, count as nat)
                == Some(e.text()),
        },
{
    if first_root_index == 0 || count == 0 {
        return Err(
            CcmError::refused("CCM run evidence requires a nonempty one-based root range"),
        );
    }
    match first_root_index.checked_add(count - 1) {
        None => Err(CcmError::refused("CCM run-evidence root range overflows usize")),
        Some(last) => Ok(last),
    }
}

/// A copy of a list of ordinals.
pub fn copy_ordinals(v: &Vec<usize>) -> (r: Vec<usize>)
    ensures
        r@ == v@,
{
    let mut out: Vec<usize> = Vec::new();
    let mut i: usize = 0;
    while i < v.len()
        invariant
            i <= v.len(),
            out@ == v@.take(i as int),
        decreases v.len() - i,
    {
        out.push(v[i]);
        i = i + 1;
        assert(out@ =~= v@.take(i as int));
    }
    assert(out@ =~= v@);
    out
}

/// Request for run evidence.
pub fn run_evidence_request(
    params: &CcmParams,
    cfg: &HighPrecConfig,
    first_root_index: usize,
    count: usize,
    artifact_mode: RootArtifactMode,
    semantics: RootWindowSemantics,
    selected_root_ordinals: &Vec<usize>,
    eigenpair_digest: &str,
    range_digest: &str,
) -> (r: Result<CacheRequest, CcmError>)
    ensures
        match r {
            Ok(q) => evidence_refusal(first_root_index as nat, count as nat) is None && q@
                == run_evidence_view(
                *params,
                *cfg,
                first_root_index as nat,
                count as nat,
                artifact_mode,
                semantics,
                selected_root_ordinals@,
                eigenpair_digest@,
                range_digest@,
            ),
            Err(e) => e is Refused && evidence_refusal(first_root_index as nat, count as nat)
                == Some(e.text()),
        },
{
    let last: usize = match last_evidence_index(first_root_index, count) {
        Err(e) => {
            return Err(e);
        },
        Ok(last) => last,
    };
    let policy: CcmParityPolicy = cfg.effective_parity_policy();
    let mut parameters: Vec<(String, KeyValue)> = start_parameters(params, cfg);
    put_flag(&mut parameters, "force_even", policy.legacy_force_even());
    put_text(&mut parameters, "discovery_mode", artifact_mode.as_str());
    put_number(&mut parameters, "first_root_index", first_root_index as u64);
    put_number(&mut parameters, "last_root_index", last as u64);
    put_number(&mut parameters, "root_count", count as u64);
    put_text(&mut parameters, "eigenpair_content_digest", eigenpair_digest);
    put_text(&mut parameters, "root_range_content_digest", range_digest);
    add_adaptive_parity_parameter(&mut parameters, policy);
    let version: &str = if semantics.is_advanced() {
        "ccm-run-evidence-v0.13.3-v4"
    } else {
        "ccm-run-evidence-v0.13.0-v3"
    };
    let logical_key: String = if semantics.is_advanced() {
        put_text(&mut parameters, "root_domain", semantics.domain.as_str());
        put_number(&mut parameters, "requested_root_count", semantics.requested_count as u64);
        put_flag(&mut parameters, "allow_incomplete", semantics.allow_incomplete);
        put(
            &mut parameters,
            "selected_root_ordinals",
            KeyValue::Numbers(copy_ordinals(selected_root_ordinals)),
        );
        let mut segment: String = "run-evidence/advanced/".to_owned();
        segment.append(semantics.domain.as_str());
        push_segment(&mut segment, artifact_mode.as_str());
        let mut t: String = start_key(segment.as_str(), params, cfg);
        push_segment(&mut t, policy.cache_label());
        t.append("/requested-");
        push_number(&mut t, semantics.requested_count as u64);
        t.append("/returned-");
        push_number(&mut t, count as u64);
        t
    } else {
        let mut segment: String = "run-evidence/".to_owned();
        segment.append(artifact_mode.as_str());
        let mut t: String = start_key(segment.as_str(), params, cfg);
        push_segment(&mut t, policy.cache_label());
        t.append("/");
        push_number(&mut t, first_root_index as u64);
        t.append("-");
        push_number(&mut t, last as u64);
        t
    };
    Ok(
        CacheRequest {
            operation: "ccm.run_evidence.resolve_or_compute".to_owned(),
            key: SemanticKey {
                artifact_kind: "ccm_convergence_diagnostics".to_owned(),
                semantics_version: version.to_owned(),
                parameters,
                normalization: None,
                target: Some("ccm_configuration_run_summary".to_owned()),
                subspace: subspace_of(policy),
                sources: no_sources(),
                algorithm: None,
            },
            logical_key,
            minimum_reader: reader_of_window(semantics),
            quality: ArtifactQuality::Validated,
            tags: start_tags("run_evidence"),
            provenance: None,
        },
    )
}

} // verus!
