//! Roots of the secular function: discovery, refinement, windows and replay.

use xc_ccm_hp::config::{
    CcmEigenstateSolver, CcmParams, HighPrecConfig, IndependentRootDiscoveryOptions,
    IndependentRootDomain, RootArtifactMode, RootSolver, RootWindowSemantics, GUARD_BITS,
};
use xc_ccm_hp::decimal::Decimal;
use xc_ccm_hp::float::HpFloat;
use xc_ccm_hp::outcome::{
    achieved_decimal_digits, complete_search, relative_correction, retain_until_failure,
    EigenvalueResult, RootRefinement, RootRefinementDiagnostics,
};
use xc_ccm_hp::payload::{root_encoding_digits, HpScalar, PortableRootOutcome, PortableRootRefinement};
use xc_ccm_hp::range::{
    completeness_of, decode_root_range, reconcile_computed_roots_with_certificate, CertifiedInterval,
    PortableRootRange, RangeRequest, RootRangeRejection,
};
use xc_ccm_hp::refine::{
    halley_xi_hat_zero, newton_xi_hat_zero, pole_spacing, root_correction_tolerance, solve_r_zero,
    RootSearch, RootStatus,
};
use xc_ccm_hp::roots::{
    compute_root_range, ensure_root_window_usable, format_index_ranges, precision_limited_summary,
    residual_replay_matches, root_status_summary, validate_reference_seed_dataset,
    value_breaks_order, ReferenceZeroDatasetIdentity, RootWindowFault,
};
use xc_ccm_hp::secular::{
    discover_secular_roots_hp, discover_secular_roots_hp_signed,
    discover_secular_roots_in_interval_hp, evaluate_secular_hp, secular_residual_at,
};
use xc_ccm_hp::window::{independently_discovered_starting_points, plan_window, ZeroTarget};

const PI: &str = "3.141592653589793238462643383279502884197169399375105820974944592307816406286208\
    99862803482534211706798214808651328230664709384460955058223172535940812848111745\
    02841027019385211055596446229489549303819644288109756659334461284756482337867831\
    65271201909145648566923460348610454326648213393607260249141273724587006606315588\
    17488152092096282925409171536436789259036001133053054882046652138414695194151160\
    94330572703657595919530921861173819326117931051185480744623799627495673518857527\
    24891227938183011949129833673362440656643086021394946395224737190702179860943702\
    77053921717629317675238467481846766940513200056812714526356082778577134275778960\
    9";
const LN_13: &str = "2.564949357461536736053487441565318604805267944760207116419045510663464667324410\
    17939957466344048948876925819209276272163153215449198658701382526811697229775178\
    36970804775620441045659011793899943427395947399275040613896086334005538985298095\
    87307941167580366501187554648994704182028602681419500978215028839363280036207290\
    63681651943396570273046758931363794467799886790860370276821999839060056995950103\
    38427855089035242800288432167033593876031572353350083208275958974563024484008319\
    60601084244440128267550440357231867254539427519722965819708290142702954658694627\
    66560014552681509031319547182102491989361408177315048724728025873223087919471196\
    6";
const LN_250: &str = "5.521460917862246433219510121136739486652304197165808419858623683915930585092668\
    00949626496127595751994190039008571737443";
const LOG10_2: &str = "0.301029995663981195213738894724493026768189881462108541310427461127108189274424\
    509486927252118186172040684477191430995379";

fn num(p: u32, x: i64) -> HpFloat {
    HpFloat::from_i64(p, x)
}

fn dec(p: u32, text: &str) -> HpFloat {
    HpFloat::from_decimal(p, &Decimal::parse(text).unwrap())
}

fn ones(p: u32, n: usize) -> Vec<HpFloat> {
    (0..n).map(|_| num(p, 1)).collect()
}

fn plan_for(
    precision: u32,
    target: ZeroTarget,
    options: IndependentRootDiscoveryOptions,
) -> xc_ccm_hp::window::IndependentRootDiscoveryPlan {
    let params = CcmParams::from_lambda_sq_integer(13, 4);
    let xi = ones(precision, params.matrix_size());
    independently_discovered_starting_points(
        &params,
        &dec(precision, PI),
        &dec(precision, LN_13),
        &xi,
        &target,
        options,
        precision,
    )
    .unwrap()
}

fn rises(values: &[HpFloat]) -> bool {
    values.windows(2).all(|pair| pair[0].lt(&pair[1]))
}

fn refinement(p: u32, value: i64, iterations: usize) -> RootRefinement {
    RootRefinement {
        value: num(p, value),
        diagnostics: RootRefinementDiagnostics {
            iterations,
            final_correction: dec(p, "1e-50"),
            residual: dec(p, "1e-60"),
            achieved_decimal_digits: num(p, 50),
        },
    }
}

#[test]
fn newton_returns_none_on_bogus_eigenvector() {
    let prec = 128;
    let n_max = 5;
    let l = dec(prec, "3.0");
    let seed = dec(prec, "14.13");
    let xi: Vec<HpFloat> = (0..2 * n_max + 1).map(|_| num(prec, 0)).collect();
    let result = newton_xi_hat_zero(&xi, n_max, &dec(prec, PI), &l, &seed, prec, 20);
    assert!(
        !result.has_value(),
        "newton should return Failed with all-zero xi (degenerate R(z)=0)"
    );
}

#[test]
fn newton_and_halley_find_known_zero() {
    let prec = 256;
    // L = 2 pi and n_max = 1 put the poles at 0 and at plus and minus 1. The weights 1, 0, 1 give
    // 1/(z+1) + 1/(z-1) = 2z/(z^2-1), whose zero is at z = 0.
    let n_max = 1_usize;
    let pi = dec(prec, PI);
    let l = dec(prec, "6.283185307179586476925");
    let xi = vec![num(prec, 1), num(prec, 0), num(prec, 1)];
    let seed = dec(prec, "0.5");
    let tol_check = HpFloat::power_of_two(prec, -((prec as i64) / 2));

    let newton = newton_xi_hat_zero(&xi, n_max, &pi, &l, &seed, prec, 100);
    let z_newton = newton.value().expect("Newton should find a zero");
    assert!(z_newton.lt_abs(&tol_check), "Newton zero should be ~0");

    let halley = halley_xi_hat_zero(&xi, n_max, &pi, &l, &seed, prec, 100);
    let z_halley = halley.value().expect("Halley should find a zero");
    assert!(z_halley.lt_abs(&tol_check), "Halley zero should be ~0");

    assert!(z_newton.minus(z_halley).lt_abs(&tol_check), "Newton and Halley zeros differ");
}

#[test]
fn newton_returns_none_when_starting_on_pole() {
    let prec = 128;
    let n_max = 1_usize;
    let l = dec(prec, "6.283185307179586");
    let xi = vec![num(prec, 1), num(prec, 0), num(prec, 0)];
    let seed_near_pole = dec(prec, "-1.0");
    let _result = newton_xi_hat_zero(&xi, n_max, &dec(prec, PI), &l, &seed_near_pole, prec, 10);
}

#[test]
fn refused_searches_state_their_reason() {
    let p = 128;
    let xi = vec![num(p, 1), num(p, 1), num(p, 1)];
    match solve_r_zero(&xi, 1, &num(p, 1), &num(p, 1), p, 0, RootSolver::Newton) {
        RootSearch::Failed { iterations, reason } => {
            assert_eq!(iterations, 0);
            assert_eq!(reason, "root iteration limit must be positive");
        }
        RootSearch::Point(_) => panic!("no step was asked for"),
    }
    let flat = vec![num(p, 0), num(p, 0), num(p, 0)];
    match solve_r_zero(&flat, 1, &num(p, 1), &num(p, 5), p, 9, RootSolver::Newton) {
        RootSearch::Failed { iterations, reason } => {
            assert_eq!(iterations, 1);
            assert_eq!(reason, "Newton derivative is zero");
        }
        RootSearch::Point(_) => panic!("a vanishing function has no isolated zero"),
    }
}

#[test]
fn secular_residual_has_its_exact_value() {
    let p = 128;
    // 1/(z+1) + 1/z + 1/(z-1) at z = 2 is 1/3 + 1/2 + 1.
    let xi = vec![num(p, 1), num(p, 1), num(p, 1)];
    let value = secular_residual_at(&xi, 1, &num(p, 1), &num(p, 2), p).unwrap();
    let expected = num(p, 11).over_int(6);
    assert!(value.minus(&expected).lt_abs(&HpFloat::power_of_two(p, -120)));
    assert!(secular_residual_at(&xi, 1, &num(p, 1), &num(p, 1), p).is_none());
    let signed = evaluate_secular_hp(&xi, 1, &num(p, 1), &num(p, 2), p).unwrap();
    assert!(signed.minus(&expected).lt_abs(&HpFloat::power_of_two(p, -120)));
    assert!(evaluate_secular_hp(&xi, 1, &num(p, 1), &num(p, 0), p).is_err());
}

#[test]
fn bisection_encloses_the_root_between_two_poles() {
    let p = 192;
    // 1/(z-1) + 3/(z-2) vanishes at z = 5/4.
    let xi = vec![num(p, 0), num(p, 0), num(p, 0), num(p, 1), num(p, 3)];
    let roots = discover_secular_roots_in_interval_hp(
        &xi,
        2,
        &num(p, 1),
        &num(p, 1),
        &num(p, 2),
        &dec(p, "0.001"),
        p,
    )
    .unwrap();
    assert_eq!(roots.len(), 1);
    assert!(roots[0].minus(&dec(p, "1.25")).lt_abs(&dec(p, "1e-30")));
}

#[test]
fn independent_starting_points_are_default_seed_source() {
    let plan = plan_for(
        192,
        ZeroTarget::IndexRange { first: 2, last: 3 },
        IndependentRootDiscoveryOptions::default(),
    );
    assert_eq!(plan.result_first_root_index, 2);
    assert_eq!(plan.artifact_seeds.len(), 2);
    assert!(
        num(192, 0).lt(&plan.artifact_seeds[0])
            && plan.artifact_seeds[0].lt(&plan.artifact_seeds[1])
    );
}

#[test]
fn independent_discovery_preserves_weights_below_binary64_range() {
    let precision = 2048;
    let params = CcmParams::from_lambda_sq_integer(13, 4);
    let tiny = dec(precision, "1e-400");
    assert!(tiny.exponent() < -1_074 - 2_048, "fixture must underflow in binary64");
    let xi: Vec<HpFloat> = (0..params.matrix_size()).map(|_| tiny.clone()).collect();
    let plan = independently_discovered_starting_points(
        &params,
        &dec(precision, PI),
        &dec(precision, LN_13),
        &xi,
        &ZeroTarget::IndexRange { first: 1, last: 3 },
        IndependentRootDiscoveryOptions::default(),
        precision,
    )
    .unwrap();
    assert_eq!(plan.result_first_root_index, 1);
    assert_eq!(plan.artifact_seeds.len(), 3);
    assert!(rises(&plan.artifact_seeds));
}

#[test]
fn signed_independent_discovery_returns_the_available_finite_window() {
    let precision = 192;
    let params = CcmParams::from_lambda_sq_integer(13, 4);
    let l = dec(precision, LN_13);
    let xi = ones(precision, params.matrix_size());
    let plan = plan_for(
        precision,
        ZeroTarget::FirstK { count: 20 },
        IndependentRootDiscoveryOptions::advanced(true, true),
    );
    assert_eq!(plan.result_first_root_index, 1);
    assert_eq!(plan.artifact_seeds.len(), 8);
    assert!(plan.artifact_seeds.first().unwrap().lt(&num(precision, 0)));
    assert!(num(precision, 0).lt(plan.artifact_seeds.last().unwrap()));
    assert!(rises(&plan.artifact_seeds));
    assert_eq!(plan.request_semantics.domain, IndependentRootDomain::Signed);
    assert_eq!(plan.request_semantics.requested_count, 20);
    assert!(plan.request_semantics.allow_incomplete);
    assert_eq!(plan.selected_positions, (0..8).collect::<Vec<_>>());
    let mut cfg = HighPrecConfig::for_decimal_digits(40);
    cfg.precision_bits = precision;
    let spacing = pole_spacing(&dec(precision, PI), &l);
    let refined: Vec<EigenvalueResult> =
        compute_root_range(&xi, params.n_modes, &spacing, &cfg, &plan.artifact_seeds)
            .into_iter()
            .map(|search| {
                complete_search(
                    search,
                    &dec(precision, LOG10_2),
                    &dec(precision, "-50"),
                    precision,
                )
            })
            .collect();
    ensure_root_window_usable(
        &refined,
        plan.artifact_seeds.len(),
        false,
        IndependentRootDomain::Signed,
    )
    .unwrap();
    assert!(ensure_root_window_usable(
        &refined,
        plan.artifact_seeds.len(),
        false,
        IndependentRootDomain::Positive,
    )
    .is_err());
}

#[test]
fn advanced_incomplete_discovery_accepts_an_empty_finite_window() {
    let precision = 192;
    let params = CcmParams::from_lambda_sq_integer(250, 10);
    let mut xi: Vec<HpFloat> =
        (0..params.matrix_size()).map(|_| num(precision, 0)).collect();
    xi[params.n_modes] = num(precision, 1);
    let plan = independently_discovered_starting_points(
        &params,
        &dec(precision, PI),
        &dec(precision, LN_250),
        &xi,
        &ZeroTarget::FirstK { count: 200 },
        IndependentRootDiscoveryOptions::advanced(true, true),
        precision,
    )
    .unwrap();
    assert!(plan.artifact_seeds.is_empty());
    assert!(plan.selected_positions.is_empty());
    assert_eq!(plan.result_first_root_index, 1);
    assert_eq!(plan.request_semantics.domain, IndependentRootDomain::Signed);
    assert_eq!(plan.request_semantics.requested_count, 200);
    assert!(plan.request_semantics.allow_incomplete);
}

#[test]
fn advanced_signed_requests_project_one_canonical_window() {
    let plan = plan_for(
        192,
        ZeroTarget::FirstK { count: 4 },
        IndependentRootDiscoveryOptions::advanced(true, true),
    );
    assert_eq!(plan.artifact_seeds.len(), 8);
    assert_eq!(plan.selected_positions.len(), 4);
    assert_eq!(plan.selected_positions, vec![2, 3, 4, 5]);
    assert_eq!(plan.request_semantics.requested_count, 4);
}

#[test]
fn strict_independent_discovery_rejects_a_finite_window_shortfall() {
    let precision = 192;
    let params = CcmParams::from_lambda_sq_integer(13, 4);
    let xi = ones(precision, params.matrix_size());
    let error = independently_discovered_starting_points(
        &params,
        &dec(precision, PI),
        &dec(precision, LN_13),
        &xi,
        &ZeroTarget::FirstK { count: 20 },
        IndependentRootDiscoveryOptions::advanced(true, false),
        precision,
    )
    .unwrap_err();
    assert!(error.message().contains("target requests 20"));
}

#[test]
fn parallel_secular_discovery_is_bit_identical_to_ordered_reference() {
    let precision = 256;
    let n_modes = 8;
    let spacing = dec(precision, "1.75");
    let scan_upper = num(precision, 16);
    let xi: Vec<HpFloat> =
        (0..(2 * n_modes + 1)).map(|index| num(precision, index as i64 + 1)).collect();
    let found = discover_secular_roots_hp(&xi, n_modes, &spacing, &scan_upper, precision).unwrap();

    // One interval between neighbouring poles after the other, in rising order.
    let mut ordered: Vec<HpFloat> = Vec::new();
    let mut boundaries: Vec<HpFloat> = vec![num(precision, 0)];
    for mode in 1..=(n_modes as i64) {
        let pole = spacing.times_int(mode);
        if pole.lt(&scan_upper) {
            boundaries.push(pole);
        }
    }
    boundaries.push(scan_upper.clone());
    let margin = HpFloat::power_of_two(precision, -64);
    for pair in boundaries.windows(2) {
        let roots = discover_secular_roots_in_interval_hp(
            &xi, n_modes, &spacing, &pair[0], &pair[1], &margin, precision,
        )
        .unwrap();
        for root in roots {
            let is_new = num(precision, 0).lt(&root) && root.lt(&scan_upper) && match ordered.last() {
                Some(last) => last.lt(&root),
                None => true,
            };
            if is_new {
                ordered.push(root);
            }
        }
    }
    assert!(!found.is_empty());
    assert_eq!(found, ordered);
}

#[test]
fn signed_discovery_mirrors_positive_roots_of_even_weights() {
    let p = 192;
    let xi = ones(p, 9);
    let signed = discover_secular_roots_hp_signed(&xi, 4, &num(p, 2), &num(p, 8), p).unwrap();
    let positive = discover_secular_roots_hp(&xi, 4, &num(p, 2), &num(p, 8), p).unwrap();
    assert_eq!(signed.len(), 2 * positive.len());
    for (i, root) in positive.iter().enumerate() {
        let upper = &signed[positive.len() + i];
        assert!(upper.minus(root).lt_abs(&dec(p, "1e-30")));
        let lower = &signed[positive.len() - 1 - i];
        assert!(lower.plus(root).lt_abs(&dec(p, "1e-30")));
    }
}

#[test]
fn parallel_root_refinement_is_bit_identical_to_seed_order_reference() {
    let precision = 256;
    let params = CcmParams::from_lambda_sq_integer(13, 5);
    let pi = dec(precision, PI);
    let l = dec(precision, LN_13);
    let xi = ones(precision, params.matrix_size());
    let mut cfg = HighPrecConfig::for_decimal_digits(60);
    cfg.precision_bits = precision;
    cfg.solver_steps = 24;
    let plan = independently_discovered_starting_points(
        &params,
        &pi,
        &l,
        &xi,
        &ZeroTarget::FirstK { count: 3 },
        IndependentRootDiscoveryOptions::default(),
        precision,
    )
    .unwrap();
    let seeds = plan.artifact_seeds;
    let spacing = pole_spacing(&pi, &l);
    let range = compute_root_range(&xi, params.n_modes, &spacing, &cfg, &seeds);
    let sequential: Vec<RootSearch> = seeds
        .iter()
        .map(|seed| {
            solve_r_zero(
                &xi,
                params.n_modes,
                &spacing,
                seed,
                cfg.precision_bits,
                cfg.solver_steps,
                cfg.root_solver,
            )
        })
        .collect();
    assert_eq!(range.len(), sequential.len());
    for (left, right) in range.iter().zip(&sequential) {
        match (left, right) {
            (RootSearch::Point(left), RootSearch::Point(right)) => {
                assert_eq!(left.status, right.status);
                assert_eq!(left.value, right.value);
                assert_eq!(left.iterations, right.iterations);
                assert_eq!(left.final_correction, right.final_correction);
                assert_eq!(left.residual, right.residual);
            }
            (
                RootSearch::Failed { iterations: left_iterations, reason: left_reason },
                RootSearch::Failed { iterations: right_iterations, reason: right_reason },
            ) => {
                assert_eq!(left_iterations, right_iterations);
                assert_eq!(left_reason, right_reason);
            }
            _ => panic!("refinement in a range changed an outcome status"),
        }
    }
}

#[test]
fn refinement_reports_what_it_reached() {
    let p = 192;
    let plan = plan_for(
        p,
        ZeroTarget::FirstK { count: 2 },
        IndependentRootDiscoveryOptions::default(),
    );
    let xi = ones(p, 9);
    let spacing = pole_spacing(&dec(p, PI), &dec(p, LN_13));
    let start = plan.artifact_seeds[0].plus(&dec(p, "0.01"));
    match solve_r_zero(&xi, 4, &spacing, &start, p, 1, RootSolver::Newton) {
        RootSearch::Point(point) => {
            assert_eq!(point.status, RootStatus::Approximate);
            assert_eq!(point.iterations, 1);
            let tolerance = root_correction_tolerance(&point.value, p);
            assert!(!point.final_correction.lt_abs(&tolerance));
        }
        RootSearch::Failed { reason, .. } => panic!("{reason}"),
    }
    let many = solve_r_zero(&xi, 4, &spacing, &plan.artifact_seeds[0], p, 100, RootSolver::Halley);
    match many {
        RootSearch::Point(point) => {
            assert!(point.iterations > 0 && point.iterations <= 100);
            let tolerance = root_correction_tolerance(&point.value, p);
            assert_eq!(
                point.status == RootStatus::Converged,
                point.final_correction.lt_abs(&tolerance)
            );
        }
        RootSearch::Failed { reason, .. } => panic!("{reason}"),
    }
}

#[test]
fn computed_root_windows_retain_approximations_while_strict_windows_reject_them() {
    let precision = 256;
    let diagnostic = |value: i64| refinement(precision, value, 2_000);
    assert!(ensure_root_window_usable(
        &vec![
            EigenvalueResult::Converged(diagnostic(1)),
            EigenvalueResult::Converged(diagnostic(2)),
        ],
        2,
        true,
        IndependentRootDomain::Positive,
    )
    .is_ok());
    assert!(ensure_root_window_usable(
        &vec![
            EigenvalueResult::Stagnated(diagnostic(1)),
            EigenvalueResult::Approximate(diagnostic(2)),
        ],
        2,
        false,
        IndependentRootDomain::Positive,
    )
    .is_ok());
    assert!(ensure_root_window_usable(
        &vec![EigenvalueResult::Stagnated(diagnostic(1))],
        1,
        true,
        IndependentRootDomain::Positive,
    )
    .unwrap_err()
    .message("1e-20", "2e-20", "19.5")
    .contains("stagnated"));
    assert!(ensure_root_window_usable(
        &vec![EigenvalueResult::Approximate(diagnostic(1))],
        1,
        true,
        IndependentRootDomain::Positive,
    )
    .unwrap_err()
    .message("1e-20", "2e-20", "19.5")
    .contains("iteration limit"));
    assert!(ensure_root_window_usable(
        &vec![EigenvalueResult::Failed {
            iterations: 3,
            reason: "degenerate derivative".to_owned(),
        }],
        1,
        false,
        IndependentRootDomain::Positive,
    )
    .unwrap_err()
    .message("1e-20", "2e-20", "19.5")
    .contains("degenerate derivative"));
    let fault = RootWindowFault::Stagnated { root: 4, iterations: 9 };
    assert_eq!(
        fault.message("1e-20", "2e-20", "19.5"),
        "CCM root 4 stagnated after 9 iterations (correction=1e-20, residual=2e-20, achieved_digits=19.5)"
    );
}

#[test]
fn short_and_disordered_windows_are_named() {
    let p = 128;
    let pair = |a: i64, b: i64| {
        vec![
            EigenvalueResult::Converged(refinement(p, a, 3)),
            EigenvalueResult::Converged(refinement(p, b, 3)),
        ]
    };
    assert!(matches!(
        ensure_root_window_usable(&pair(1, 2), 3, false, IndependentRootDomain::Positive),
        Err(RootWindowFault::Incomplete { expected: 3, received: 2 })
    ));
    assert!(matches!(
        ensure_root_window_usable(&pair(2, 2), 2, false, IndependentRootDomain::Positive),
        Err(RootWindowFault::Disordered { .. })
    ));
    assert!(matches!(
        ensure_root_window_usable(&pair(-1, 2), 2, false, IndependentRootDomain::Positive),
        Err(RootWindowFault::Disordered { .. })
    ));
    assert!(ensure_root_window_usable(&pair(-1, 2), 2, false, IndependentRootDomain::Signed).is_ok());
    assert!(value_breaks_order(&num(p, 0), None, IndependentRootDomain::Signed));
    assert!(!value_breaks_order(
        &num(p, 3),
        Some(&num(p, 2)),
        IndependentRootDomain::Positive
    ));
}

#[test]
fn precision_limited_root_indices_are_compacted_into_ranges() {
    assert_eq!(
        format_index_ranges(&vec![37, 39, 40, 41, 43, 44, 45, 46, 48, 49, 50]),
        "37,39-41,43-46,48-50"
    );
    assert_eq!(format_index_ranges(&vec![]), "");
}

#[test]
fn statuses_are_counted_once_each() {
    let p = 128;
    let window = vec![
        EigenvalueResult::Converged(refinement(p, 1, 2)),
        EigenvalueResult::Stagnated(refinement(p, 2, 9)),
        EigenvalueResult::Approximate(refinement(p, 3, 7)),
        EigenvalueResult::Failed { iterations: 1, reason: "pole".to_owned() },
        EigenvalueResult::Stagnated(refinement(p, 5, 4)),
    ];
    let summary = root_status_summary(&window, 11);
    assert_eq!(summary.converged, 1);
    assert_eq!(summary.stagnated, vec![12, 15]);
    assert_eq!(summary.approximate, vec![13]);
    assert_eq!(summary.failed, 1);
    let limited = precision_limited_summary(&window, RootStatus::Stagnated).unwrap();
    assert_eq!(limited.maximum_iterations, 9);
    assert_eq!(limited.minimum_digits, num(p, 50));
    assert_eq!(limited.maximum_digits, num(p, 50));
    assert!(precision_limited_summary(&vec![], RootStatus::Stagnated).is_none());
}

#[test]
fn residual_replay_is_compared_to_the_stored_residual_not_correction_floor() {
    let precision_bits = 729;
    let residual = dec(precision_bits, "1.17184766e-198");
    // This residual is much larger than a correction target of about 1e-200. An identical replay
    // is valid evidence all the same.
    assert!(residual_replay_matches(
        &residual,
        Some((&residual, &num(precision_bits, 1))),
        61,
        precision_bits
    ));
    let changed = dec(precision_bits, "1.27184766e-198");
    assert!(!residual_replay_matches(
        &residual,
        Some((&changed, &num(precision_bits, 1))),
        61,
        precision_bits
    ));
    assert!(!residual_replay_matches(&residual, None, 61, precision_bits));
}

fn stored(result: &RootRefinement) -> PortableRootRefinement {
    PortableRootRefinement::from_runtime(
        result,
        "1".to_owned(),
        "1e-50".to_owned(),
        "residual".to_owned(),
        "digits".to_owned(),
    )
}

fn stagnated_range(
    cfg: &HighPrecConfig,
    params: &CcmParams,
    result: &RootRefinement,
) -> PortableRootRange {
    PortableRootRange {
        schema_version: 3,
        lambda_squared: "13".to_owned(),
        n_modes: params.n_modes,
        precision_bits: cfg.precision_bits,
        force_even: cfg.effective_parity_policy().legacy_force_even(),
        parity_policy: None,
        first_root_index: 1,
        root_domain: IndependentRootDomain::Positive,
        discovery_mode: RootArtifactMode::Independent.as_str().to_owned(),
        reference_seeds_used: false,
        reference_dataset: None,
        completeness: "unverified_computed_discovery".to_owned(),
        starting_points: vec!["1".to_owned()],
        outcomes: vec![PortableRootOutcome::Stagnated(stored(result))],
        solver: "halley".to_owned(),
        solver_steps: cfg.solver_steps,
        accuracy_guard_bits: GUARD_BITS,
    }
}

#[test]
fn computed_cache_replays_stagnated_root_evidence_without_claiming_convergence() {
    let mut cfg = HighPrecConfig::for_decimal_digits(60);
    cfg.precision_bits = 256;
    cfg.eigenstate_solver = CcmEigenstateSolver::LegacyInverseIteration;
    let p = cfg.precision_bits;
    let params = CcmParams::from_lambda_sq_integer(13, 1);
    let l = dec(p, LN_13);
    let xi = ones(p, params.matrix_size());
    let value = num(p, 1);
    let correction = dec(p, "1e-50");
    assert!(!correction.lt(&root_correction_tolerance(&value, p)));
    let two_pi_over_l = pole_spacing(&dec(p, PI), &l);
    let log10_two = dec(p, LOG10_2);
    let log10_relative = dec(p, "-50");
    let result = RootRefinement {
        value: value.clone(),
        diagnostics: RootRefinementDiagnostics {
            iterations: 17,
            final_correction: correction.clone(),
            residual: secular_residual_at(&xi, params.n_modes, &two_pi_over_l, &value, p).unwrap(),
            achieved_decimal_digits: achieved_decimal_digits(
                &value,
                &correction,
                &log10_two,
                &log10_relative,
                p,
            ),
        },
    };
    let artifact = stagnated_range(&cfg, &params, &result);
    let seeds = vec!["1".to_owned()];
    let request = |require_converged: bool| RangeRequest {
        params: &params,
        cfg: &cfg,
        first_root_index: 1,
        seed_texts: &seeds,
        artifact_mode: RootArtifactMode::Independent,
        reference_dataset: None,
        domain: IndependentRootDomain::Positive,
        require_converged,
    };
    let logs = vec![log10_relative.clone()];
    let read =
        decode_root_range(&artifact, &request(false), &xi, &two_pi_over_l, &log10_two, &logs)
            .unwrap();
    assert_eq!(read.len(), 1);
    assert!(!read[0].is_converged());
    assert_eq!(read[0].value(), Some(&value));
    match decode_root_range(&artifact, &request(true), &xi, &two_pi_over_l, &log10_two, &logs) {
        Err(RootRangeRejection::Invalid(e)) => {
            assert!(e.message().contains("requested assurance rejects stagnated"));
        }
        _ => panic!("a strict request has to reject a stagnated root"),
    }

    let mut other = stagnated_range(&cfg, &params, &result);
    other.n_modes = 2;
    assert!(
        decode_root_range(&other, &request(false), &xi, &two_pi_over_l, &log10_two, &logs).is_err()
    );
    let mut moved = result.copied();
    moved.diagnostics.residual = moved.diagnostics.residual.times_int(2);
    let changed = stagnated_range(&cfg, &params, &moved);
    match decode_root_range(&changed, &request(false), &xi, &two_pi_over_l, &log10_two, &logs) {
        Err(RootRangeRejection::Inconsistent(replay)) => {
            assert!(replay.residual_mismatch);
            assert!(!replay.correction_meets_target);
            let words = replay.message(64, "2e-9", "1e-9");
            assert!(words.starts_with(
                "validated CCM root-range payload has inconsistent convergence diagnostics: status=stagnated, iterations="
            ));
            assert!(words.ends_with(
                "/64, correction_meets_target=false, digits_mismatch=false, residual_mismatch=true, stored_residual=2e-9, replayed_residual=1e-9"
            ));
        }
        _ => panic!("a changed residual has to be noticed"),
    }
}

#[test]
fn resolved_legacy_route_preserves_established_root_encoding() {
    let precision_bits = 192;
    let third = num(precision_bits, 1).over_int(3);
    let result = RootRefinement {
        value: third.clone(),
        diagnostics: RootRefinementDiagnostics {
            iterations: 7,
            final_correction: third.clone(),
            residual: third.clone(),
            achieved_decimal_digits: third,
        },
    };
    let encode = |solver: CcmEigenstateSolver| {
        let text = match root_encoding_digits(solver, precision_bits) {
            None => "3.333333333333333333333333333333333333333333333333333333333e-1".to_owned(),
            Some(digits) => format!("3.{}e-1", "3".repeat(digits - 1)),
        };
        PortableRootRefinement::from_runtime(
            &result,
            text.clone(),
            text.clone(),
            text.clone(),
            text,
        )
    };
    let legacy = encode(CcmEigenstateSolver::LegacyInverseIteration);
    let krylov = encode(CcmEigenstateSolver::ShiftInvertKrylov);
    assert_eq!(
        root_encoding_digits(CcmEigenstateSolver::LegacyInverseIteration, precision_bits),
        None
    );
    assert!(root_encoding_digits(CcmEigenstateSolver::ShiftInvertKrylov, precision_bits).unwrap() > 58);
    assert_ne!(legacy.value.text, krylov.value.text);
    assert_eq!(legacy.to_runtime().unwrap().value, result.value);
}

#[test]
fn achieved_digits_are_capped_by_the_precision() {
    let p = 256;
    let value = num(p, 14);
    let correction = dec(p, "1.4e-39");
    assert_eq!(
        relative_correction(&value, &correction, p),
        correction.over(&value)
    );
    let digits =
        achieved_decimal_digits(&value, &correction, &dec(p, LOG10_2), &dec(p, "-40"), p);
    assert_eq!(digits, num(p, 40));
    let exact =
        achieved_decimal_digits(&value, &num(p, 0), &dec(p, LOG10_2), &num(p, 0), p);
    assert!(num(p, 57).lt(&exact) && exact.lt(&num(p, 78)));
}

#[test]
fn a_standalone_window_ends_at_its_first_failure() {
    let failed =
        || RootSearch::Failed { iterations: 1, reason: "degenerate derivative".to_owned() };
    let kept = retain_until_failure(vec![failed(), failed()]);
    assert_eq!(kept.len(), 1);
    assert!(retain_until_failure(vec![]).is_empty());
}

#[test]
fn plans_cover_every_kind_of_target() {
    let p = 128;
    let values = || (1..=5).map(|v| num(p, 10 * v)).collect::<Vec<HpFloat>>();
    let strict = IndependentRootDiscoveryOptions::default();
    let range =
        plan_window(values(), &num(p, 0), &ZeroTarget::IndexRange { first: 2, last: 4 }, strict)
            .unwrap();
    assert_eq!(range.artifact_seeds, vec![num(p, 20), num(p, 30), num(p, 40)]);
    assert_eq!(range.result_first_root_index, 2);
    let heights = plan_window(
        values(),
        &num(p, 15),
        &ZeroTarget::HeightWindow { lower: num(p, 15), upper: num(p, 45) },
        strict,
    )
    .unwrap();
    assert_eq!(
        heights.artifact_seeds,
        vec![num(p, 20), num(p, 30), num(p, 40), num(p, 50)]
    );
    assert_eq!(heights.result_first_root_index, 2);
    let short =
        plan_window(values(), &num(p, 0), &ZeroTarget::IndexRange { first: 4, last: 9 }, strict);
    assert!(short.is_err());
}

fn dataset() -> ReferenceZeroDatasetIdentity {
    ReferenceZeroDatasetIdentity {
        schema_version: 1,
        resource_id: "test/reference-zeros.json".to_owned(),
        content_sha256: "5f".repeat(32),
        record_count: 1_000,
        decimal_digits: 100,
    }
}

#[test]
fn seeded_windows_need_a_dataset_that_covers_them() {
    let d = dataset();
    let seeded = RootArtifactMode::ReferenceSeededRefinement;
    let free = RootArtifactMode::Independent;
    assert!(validate_reference_seed_dataset(seeded, Some(&d), true, 1, 1_000).is_ok());
    assert!(validate_reference_seed_dataset(seeded, Some(&d), true, 2, 1_000).is_err());
    assert!(validate_reference_seed_dataset(seeded, Some(&d), false, 1, 10).is_err());
    assert!(validate_reference_seed_dataset(seeded, None, true, 1, 10).is_err());
    assert!(validate_reference_seed_dataset(free, None, true, 1, 10).is_ok());
    assert!(validate_reference_seed_dataset(free, Some(&d), true, 1, 10).is_err());
    assert!(d.same(&dataset()));
    let mut other = dataset();
    other.record_count = 999;
    assert!(!d.same(&other));
    assert_eq!(completeness_of(free), "unverified_computed_discovery");
    assert_ne!(completeness_of(free), completeness_of(seeded));
}

#[test]
fn certificates_have_to_enclose_the_computed_roots() {
    let p = 128;
    let window = vec![
        EigenvalueResult::Converged(refinement(p, 14, 3)),
        EigenvalueResult::Converged(refinement(p, 21, 3)),
    ];
    let interval = |lower: i64, upper: i64| CertifiedInterval {
        lower: HpScalar::written(format!("{lower}"), &num(p, lower)),
        upper: HpScalar::written(format!("{upper}"), &num(p, upper)),
    };
    let good = vec![interval(13, 15), interval(20, 22)];
    assert!(reconcile_computed_roots_with_certificate(&window, 1, Some(1), &good).is_ok());
    assert!(reconcile_computed_roots_with_certificate(&window, 1, Some(2), &good).is_err());
    let bad = vec![interval(13, 15), interval(15, 20)];
    assert!(reconcile_computed_roots_with_certificate(&window, 1, Some(1), &bad).is_err());
}

#[test]
fn semantics_count_what_was_asked_for() {
    let strict = RootWindowSemantics::strict_positive(7);
    assert_eq!(strict.requested_count, 7);
    assert_eq!(strict.domain, IndependentRootDomain::Positive);
    assert!(!strict.allow_incomplete);
}
