//! Run configurations, parity policies, and exact lambda-squared.

use xc_ccm_hp::config::{
    lambda_squared_cache_identity, payload_parity_matches, CacheMode, CcmEigenstateSolver,
    CcmParams, CcmParityPolicy, CcmResearchCaptureOptions, CcmRootCertificationOptions,
    CcmSectorAnalysisOptions, CcmSectorEigenvalueRoute, ExactLambdaSquaredHp, HighPrecConfig,
    IndependentCcmRootTarget, IndependentRootDiscoveryOptions, IndependentRootDomain,
    LambdaSquared, LambdaSquaredMode, RootSolver, RootWindowSemantics, MAX_QUAD_POINTS,
    MIN_QUAD_POINTS,
};
use xc_ccm_hp::decimal::Decimal;

#[test]
fn config_for_200_digits() {
    let cfg = HighPrecConfig::for_decimal_digits(200);
    // ceil(200 * log2(10)) = 665 + 64 guard = 729 bits
    assert_eq!(cfg.precision_bits, 729);
    // 200 * 3 = 600, clamped to [600, 4000] -> 600
    assert_eq!(cfg.quad_points, 600);
    assert_eq!(cfg.inverse_iter_steps, 2_000);
    assert_eq!(cfg.solver_steps, 2_000);
    assert_eq!(cfg.n_eigenvalues, 50);
    assert!(cfg.force_even, "force_even should default to true");
}

#[test]
fn config_for_500_digits() {
    let cfg = HighPrecConfig::for_decimal_digits(500);
    // ceil(500 * log2(10)) = 1661 + 64 guard = 1725 bits
    assert_eq!(cfg.precision_bits, 1725);
    // 500 * 3 = 1500, clamped to [600, 4000] -> 1500
    assert_eq!(cfg.quad_points, 1500);
}

#[test]
fn config_force_even_default_and_override() {
    let cfg = HighPrecConfig::for_decimal_digits(200);
    assert!(cfg.force_even, "force_even should default to true");
    assert_eq!(cfg.effective_parity_policy(), CcmParityPolicy::EvenSector);

    let mut cfg2 = HighPrecConfig::for_decimal_digits(200);
    cfg2.force_even = false;
    assert!(!cfg2.force_even, "force_even should be settable to false");
    assert_eq!(cfg2.effective_parity_policy(), CcmParityPolicy::Natural);

    cfg2.set_parity_policy(CcmParityPolicy::AdaptiveEven);
    assert!(cfg2.force_even);
    assert_eq!(cfg2.effective_parity_policy(), CcmParityPolicy::AdaptiveEven);
}

#[test]
fn config_clamps_quad_points() {
    let cfg = HighPrecConfig::for_decimal_digits(2000);
    // 2000 * 3 = 6000, clamped to max 4000
    assert_eq!(cfg.quad_points, MAX_QUAD_POINTS);
}

#[test]
fn config_floors_quad_points() {
    let cfg = HighPrecConfig::for_decimal_digits(10);
    // 10 * 3 = 30, clamped to min 600
    assert_eq!(cfg.quad_points, MIN_QUAD_POINTS);
}

#[test]
fn config_uses_generous_fixed_halley_and_inverse_limits() {
    let cfg60 = HighPrecConfig::for_decimal_digits(60);
    assert_eq!(cfg60.root_solver, RootSolver::Halley);
    assert_eq!(cfg60.solver_steps, 2_000);
    assert_eq!(cfg60.inverse_iter_steps, 2_000);

    let cfg200 = HighPrecConfig::for_decimal_digits(200);
    assert_eq!(cfg200.solver_steps, 2_000);
    assert_eq!(cfg200.inverse_iter_steps, 2_000);

    let cfg1000 = HighPrecConfig::for_decimal_digits(1000);
    assert_eq!(cfg1000.precision_bits, 3_386);
    assert_eq!(cfg1000.solver_steps, 2_000);
    assert_eq!(cfg1000.inverse_iter_steps, 2_000);

    let cfg2000 = HighPrecConfig::for_decimal_digits(2000);
    assert_eq!(cfg2000.solver_steps, 2_000);
    assert_eq!(cfg2000.inverse_iter_steps, 2_000);

    // Steps must be non-decreasing with precision
    assert!(cfg200.solver_steps >= cfg60.solver_steps);
    assert!(cfg1000.solver_steps >= cfg200.solver_steps);
    assert!(cfg2000.solver_steps >= cfg1000.solver_steps);
}

#[test]
fn config_defaults_to_the_automatic_solver() {
    assert_eq!(
        HighPrecConfig::for_decimal_digits(100).eigenstate_solver,
        CcmEigenstateSolver::Auto
    );
}

#[test]
fn every_policy_takes_effect_once_set() {
    for policy in
        [CcmParityPolicy::Natural, CcmParityPolicy::AdaptiveEven, CcmParityPolicy::EvenSector]
    {
        let mut cfg = HighPrecConfig::for_decimal_digits(50);
        cfg.set_parity_policy(policy);
        assert_eq!(cfg.effective_parity_policy(), policy);
        assert_eq!(cfg.force_even, policy.legacy_force_even());
    }
}

#[test]
fn stored_parity_identifies_its_policy() {
    let policies =
        [CcmParityPolicy::Natural, CcmParityPolicy::AdaptiveEven, CcmParityPolicy::EvenSector];
    for stored in policies {
        for asked in policies {
            assert_eq!(
                payload_parity_matches(stored.legacy_force_even(), stored.portable_marker(), asked),
                stored == asked
            );
        }
    }
}

#[test]
fn labels_are_distinct() {
    assert_eq!(CcmParityPolicy::AdaptiveEven.as_str(), "adaptive-even");
    assert_eq!(CcmParityPolicy::AdaptiveEven.cache_label(), "adaptive-even");
    assert_eq!(CcmParityPolicy::EvenSector.cache_label(), "even");
    assert_eq!(CcmParityPolicy::Natural.cache_label(), "natural");
    assert_eq!(IndependentRootDomain::Signed.as_str(), "signed");
    assert_eq!(IndependentRootDomain::Positive.as_str(), "positive");
    assert_eq!(RootSolver::Halley.display_name(), "Halley");
    assert_eq!(RootSolver::Newton.stored_name(), "newton");
    assert!(CacheMode::JsonZip.uses_disk());
    assert!(!CacheMode::Off.uses_disk());
}

#[test]
fn discovery_options_choose_domain_and_window() {
    let strict = IndependentRootDiscoveryOptions::default();
    assert_eq!(strict.domain, IndependentRootDomain::Positive);
    assert!(!strict.allow_incomplete);
    let wide = IndependentRootDiscoveryOptions::advanced(true, false);
    assert_eq!(wide.domain, IndependentRootDomain::Signed);
    assert!(!RootWindowSemantics::strict_positive(4).is_advanced());
    assert!(RootWindowSemantics::advanced(IndependentRootDomain::Signed, 4, true).is_advanced());
}

#[test]
fn capture_options_cover_the_widest_analysis() {
    let widest = CcmResearchCaptureOptions::maximum(3);
    assert!(widest.capture_evenness);
    let sectors = widest.sector_analysis.unwrap();
    assert_eq!(sectors.requested_eigenpairs, 3);
    assert_eq!(sectors.eigenvalue_route, CcmSectorEigenvalueRoute::CompleteQr);
    assert_eq!(
        CcmSectorAnalysisOptions::cross_checked(2).eigenvalue_route,
        CcmSectorEigenvalueRoute::CrossChecked
    );
    assert_eq!(
        CcmSectorAnalysisOptions::selected(2).eigenvalue_route,
        CcmSectorEigenvalueRoute::Selected
    );
}

#[test]
fn certification_options_follow_the_digits() {
    let options = CcmRootCertificationOptions::for_decimal_digits(
        IndependentCcmRootTarget::Prefix { count: 4 },
        50,
    )
    .unwrap();
    assert_eq!(options.target, IndependentCcmRootTarget::Prefix { count: 4 });
    assert_eq!(options.width_tolerance, "1e-50");
    assert_eq!(options.isolation_bits, 96);
    assert_eq!(options.maximum_iterations, 2_000);
    assert!(CcmRootCertificationOptions::for_decimal_digits(
        IndependentCcmRootTarget::Prefix { count: 4 },
        0,
    )
    .is_err());
}

#[test]
fn lambda_squared_needs_its_exact_floor() {
    let whole = ExactLambdaSquaredHp::new(Decimal::parse("13").unwrap(), 13).unwrap();
    assert_eq!(whole.mode, LambdaSquaredMode::Integer);
    let between = ExactLambdaSquaredHp::new(Decimal::parse("13.5").unwrap(), 13).unwrap();
    assert_eq!(between.mode, LambdaSquaredMode::Fractional);
    assert!(ExactLambdaSquaredHp::new(Decimal::parse("12.9").unwrap(), 13).is_err());
    assert!(ExactLambdaSquaredHp::new(Decimal::parse("14").unwrap(), 13).is_err());
}

#[test]
fn parameters_name_their_source() {
    let params = CcmParams::from_lambda_sq_integer(13, 120);
    assert_eq!(params.matrix_size(), 241);
    assert_eq!(params.lambda_sq_int(), 13);
    assert_eq!(lambda_squared_cache_identity(&params), "13");
    let fractional = CcmParams {
        lambda_sq: LambdaSquared::Fractional { identity: "2.5".to_owned(), floor: 2 },
        n_modes: 1,
    };
    assert_eq!(fractional.lambda_sq_int(), 2);
    assert_eq!(lambda_squared_cache_identity(&fractional), "2.5");
}
