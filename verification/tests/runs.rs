//! Eigenpairs, runs, routes, evidence and the records of results.

use xc_ccm_hp::assembly::ComputedArchimedeanIntegrals;
use xc_ccm_hp::components::{
    check_odd_projection, decode_archimedean_integrals, decode_even_sector_matrix,
    decode_odd_sector_matrix, decode_prime_component, decode_tau_artifact, TauRejection,
};
use xc_ccm_hp::config::{
    CcmEigenstateSolver, CcmParams, CcmParityPolicy, HighPrecConfig,
    IndependentRootDiscoveryOptions, IndependentRootDomain, LambdaSquared, RootArtifactMode,
    RootWindowSemantics,
};
use xc_ccm_hp::decimal::Decimal;
use xc_ccm_hp::eigenpair::{
    check_krylov_subspace, check_shifted_solve, continuation_key_n_modes, continuation_order,
    continuation_start, decode_weil_eigenpair, is_legacy_eigenstate_route,
    is_retryable_auto_krylov_failure, krylov_inverse_compatibility_diagnostics,
    krylov_settings, krylov_subspace_limit, krylov_target_is_unambiguous, krylov_tolerance,
    legacy_eigenstate_route_name, portable_krylov_evidence, portable_weil_eigenpair,
    BorrowedDenseSymmetricHp, ContinuationKey, KrylovReport, PortableWeilEigenpair, WeilEigenpair,
};
use xc_ccm_hp::eigvec_cache::{relative_residual_norm, CachedXi};
use xc_ccm_hp::evidence::{
    check_run_evidence, check_secular_record, decode_evenness_record, evenness_record,
    portable_root_range, run_evidence_record, secular_record, EvennessTexts, EvidenceRequest,
};
use xc_ccm_hp::float::HpFloat;
use xc_ccm_hp::outcome::{
    EigenvalueResult, HighPrecResult, InverseIterationDiagnostics, RootRefinement,
    RootRefinementDiagnostics, ShiftedRefinementOutcome,
};
use xc_ccm_hp::payload::{
    parse_hp_scalar, parse_hp_vector, HpScalar, PortableInverseIterationDiagnostics,
    PortableRootOutcome,
};
use xc_ccm_hp::portable::{values_to_encode, PortableHighPrecResult};
use xc_ccm_hp::primes::prime_powers_up_to;
use xc_ccm_hp::records::{
    portable_archimedean_integrals, portable_prime_component, portable_sector_matrix,
    portable_tau_matrix, write_values,
};
use xc_ccm_hp::roots::ReferenceZeroDatasetIdentity;
use xc_ccm_hp::route::{
    assurance_step, certification_outcome, check_assurance_build, check_certifiable_source,
    check_certified_discovery, check_solver_policy, evenness_source, is_sector_resolution_limit,
    managed_solve, next_auto_step, prefixes_to_try, project_prefix, validate_continuation_sweep,
    AssuranceLevel, AssuranceStep, AutoKnown, AutoRequest, AutoStep, CcmIndexedSeededSweepPoint,
    CertificationOutcome, EvennessSource, ManagedSolve, SectorOutcome, SeedSource, StoreMode,
};
use xc_ccm_hp::run::{
    accepts_stored_pair, check_pair, find_crossings, finish_pair, next_step, ordinals_of,
    project_roots, project_seeds, seeded_window, source_only_window, start_run, termination_of,
    Acquisition, CacheRoute, RunEvent, RunPlan, RunStep,
};
use xc_ccm_hp::sector::{build_even_sector_matrix, build_odd_sector_matrix, EvennessResult};
use xc_ccm_hp::window::{configured_target, ZeroTarget};

fn num(p: u32, x: i64) -> HpFloat {
    HpFloat::from_i64(p, x)
}

fn nums(p: u32, values: &[i64]) -> Vec<HpFloat> {
    values.iter().map(|v| num(p, *v)).collect()
}

fn dec(p: u32, text: &str) -> HpFloat {
    HpFloat::from_decimal(p, &Decimal::parse(text).unwrap())
}

fn scalar(p: u32, text: &str) -> HpScalar {
    HpScalar::written(text.to_owned(), &dec(p, text))
}

fn unreadable() -> HpScalar {
    HpScalar { text: "?".to_owned(), reading: Err("bad digit".to_owned()) }
}

fn names(n: usize) -> Vec<String> {
    (0..n).map(|i| format!("t{i}")).collect()
}

fn setting(p: u32, n_modes: usize) -> (CcmParams, HighPrecConfig) {
    let mut cfg = HighPrecConfig::for_decimal_digits(40);
    cfg.precision_bits = p;
    cfg.eigenstate_solver = CcmEigenstateSolver::LegacyInverseIteration;
    (CcmParams::from_lambda_sq_integer(13, n_modes), cfg)
}

fn diagnostics(p: u32, residual: HpFloat) -> InverseIterationDiagnostics {
    InverseIterationDiagnostics {
        configured_step_limit: 2_000,
        unshifted_steps: 2_000,
        unshifted_converged: false,
        final_relative_rayleigh_change: Some(dec(p, "1e-90")),
        shifted_refinement: ShiftedRefinementOutcome::Accepted,
        final_relative_residual_norm: residual,
    }
}

fn refinement(p: u32, value: &str) -> RootRefinement {
    RootRefinement {
        value: dec(p, value),
        diagnostics: RootRefinementDiagnostics {
            iterations: 17,
            final_correction: dec(p, "1e-100"),
            residual: dec(p, "1e-110"),
            achieved_decimal_digits: num(p, 100),
        },
    }
}

#[test]
fn auto_retries_only_explicit_krylov_nonconvergence() {
    let retryable = vec!["CCM shift-invert Krylov did not produce an unambiguous converged \
         target: status=Approximate, boundary_cluster=false"
        .to_owned()];
    assert!(is_retryable_auto_krylov_failure(&retryable));
    // A payload that was rejected is no invalid transition.
    let corruption: Vec<String> = vec![];
    assert!(!is_retryable_auto_krylov_failure(&corruption));
    let unrelated_transition = vec!["repository publication batch is incomplete".to_owned()];
    assert!(!is_retryable_auto_krylov_failure(&unrelated_transition));
}

#[test]
fn portable_ccm_hp_result_round_trips_values_status_and_precision() {
    let precision_bits = 512;
    let runtime = HighPrecResult {
        eigenvalues_pos: vec![
            EigenvalueResult::Converged(refinement(
                precision_bits,
                "14.134725141734693790457251983562",
            )),
            EigenvalueResult::Stagnated(refinement(768, "21.022039638771554992628479593896")),
            EigenvalueResult::Approximate(refinement(640, "25.010857580145688763213790992563")),
            EigenvalueResult::Failed { iterations: 9, reason: "test failure".to_owned() },
        ],
        first_positive_root_index: 17,
        weil_min_eigenvalue: dec(precision_bits, "1e-120"),
        xi: vec![dec(384, "-0.125"), dec(640, "0.75")],
        inverse_iteration_diagnostics: diagnostics(precision_bits, dec(precision_bits, "1e-120")),
        precision_bits,
    };
    let codes: Vec<Result<String, String>> = values_to_encode(&runtime)
        .iter()
        .enumerate()
        .map(|(i, _)| Ok(format!("v{i}")))
        .collect();
    assert_eq!(codes.len(), 15);
    let portable = PortableHighPrecResult::from_runtime(
        &runtime,
        &codes,
        "1e-90".to_owned(),
        "1e-120".to_owned(),
    )
    .unwrap();
    assert_eq!(portable.xi[0].precision_bits, 384);
    let reconstructed = portable.to_runtime().unwrap();
    assert_eq!(reconstructed.precision_bits, runtime.precision_bits);
    assert_eq!(reconstructed.weil_min_eigenvalue, runtime.weil_min_eigenvalue);
    assert_eq!(reconstructed.xi, runtime.xi);
    let again = &reconstructed.inverse_iteration_diagnostics;
    let given = &runtime.inverse_iteration_diagnostics;
    assert_eq!(again.configured_step_limit, given.configured_step_limit);
    assert_eq!(again.unshifted_steps, given.unshifted_steps);
    assert_eq!(again.unshifted_converged, given.unshifted_converged);
    assert_eq!(again.final_relative_rayleigh_change, given.final_relative_rayleigh_change);
    assert_eq!(again.shifted_refinement, given.shifted_refinement);
    assert_eq!(again.final_relative_residual_norm, given.final_relative_residual_norm);
    assert_eq!(reconstructed.spectral_root_index_range(), Some((17, 20)));
    assert_eq!(reconstructed.spectral_roots().len(), 4);
    for (actual, expected) in reconstructed.eigenvalues_pos.iter().zip(&runtime.eigenvalues_pos) {
        match (actual, expected) {
            (EigenvalueResult::Converged(actual), EigenvalueResult::Converged(expected))
            | (EigenvalueResult::Stagnated(actual), EigenvalueResult::Stagnated(expected))
            | (EigenvalueResult::Approximate(actual), EigenvalueResult::Approximate(expected)) => {
                assert_eq!(actual.value, expected.value);
                assert_eq!(actual.value.prec(), expected.value.prec());
                assert_eq!(
                    actual.diagnostics.final_correction,
                    expected.diagnostics.final_correction
                );
                assert_eq!(actual.diagnostics.residual, expected.diagnostics.residual);
                assert_eq!(actual.diagnostics.iterations, expected.diagnostics.iterations);
            }
            (
                EigenvalueResult::Failed {
                    iterations: actual_iterations,
                    reason: actual_reason,
                },
                EigenvalueResult::Failed {
                    iterations: expected_iterations,
                    reason: expected_reason,
                },
            ) => {
                assert_eq!(actual_iterations, expected_iterations);
                assert_eq!(actual_reason, expected_reason);
            }
            _ => panic!("saved CCM eigenvalue status changed"),
        }
    }

    let mut failing: Vec<Result<String, String>> = (0..15).map(|i| Ok(format!("v{i}"))).collect();
    failing[14] = Err("not finite".to_owned());
    assert!(PortableHighPrecResult::from_runtime(
        &runtime,
        &failing,
        "1e-90".to_owned(),
        "1e-120".to_owned(),
    )
    .is_err());
}

#[test]
fn scalars_have_to_be_finite_numbers() {
    let p = 64;
    assert_eq!(parse_hp_scalar(&scalar(p, "1.5")).unwrap(), dec(p, "1.5"));
    assert!(parse_hp_scalar(&unreadable()).unwrap_err().message().contains("bad digit"));
    let nan = HpScalar::written("nan".to_owned(), &HpFloat::nan(p));
    assert!(parse_hp_scalar(&nan).is_err());
    assert_eq!(parse_hp_vector(&vec![scalar(p, "1"), scalar(p, "2")]).unwrap(), nums(p, &[1, 2]));
    assert!(parse_hp_vector(&vec![scalar(p, "1"), nan]).is_err());
    let written = write_values(&nums(p, &[3]), &names(1));
    assert_eq!(written[0].text, "t0");
    assert_eq!(parse_hp_scalar(&written[0]).unwrap(), num(p, 3));
}

fn symmetric_form(p: u32) -> Vec<HpFloat> {
    nums(p, &[5, 1, 2, 1, 7, 1, 2, 1, 5])
}

#[test]
fn recorded_forms_and_components_read_back() {
    let p = 192;
    let (params, cfg) = setting(p, 1);
    let tau = symmetric_form(p);
    let record = portable_tau_matrix(&params, &cfg, &tau, &names(9));
    assert_eq!(decode_tau_artifact(&record, &params, &cfg).unwrap(), tau);
    let (other, _) = setting(p, 2);
    assert!(matches!(
        decode_tau_artifact(&record, &other, &cfg),
        Err(TauRejection::Invalid(_))
    ));
    let lopsided =
        portable_tau_matrix(&params, &cfg, &nums(p, &[1, 2, 3, 4, 5, 6, 7, 8, 9]), &names(9));
    assert!(matches!(
        decode_tau_artifact(&lopsided, &params, &cfg),
        Err(TauRejection::Structure(_))
    ));

    let integrals = ComputedArchimedeanIntegrals {
        alpha: nums(p, &[0, 1]),
        beta: nums(p, &[2, 3]),
        gamma: nums(p, &[4, 5]),
    };
    let stored =
        portable_archimedean_integrals(&params, &cfg, &integrals, &names(2), &names(2), &names(2));
    let read = decode_archimedean_integrals(&stored, &params, &cfg).unwrap();
    assert_eq!(read.gamma, integrals.gamma);
    assert!(decode_archimedean_integrals(&stored, &other, &cfg).is_err());

    let primes = portable_prime_component(&params, &cfg, &tau, &names(9));
    assert_eq!(primes.prime_content.len(), prime_powers_up_to(13).len());
    assert_eq!(decode_prime_component(&primes, &params, &cfg).unwrap(), tau);
    let mut fewer = portable_prime_component(&params, &cfg, &tau, &names(9));
    fewer.prime_content.pop();
    assert!(decode_prime_component(&fewer, &params, &cfg).is_err());
}

#[test]
fn recorded_blocks_have_to_follow_from_their_form() {
    let p = 192;
    let (params, cfg) = setting(p, 1);
    let tau = symmetric_form(p);
    let even = build_even_sector_matrix(&tau, 1, p);
    let record = portable_sector_matrix(&params, &cfg, 2, &even, &names(4));
    assert_eq!(decode_even_sector_matrix(&record, &params, &cfg, &tau).unwrap(), even);
    let other = nums(p, &[6, 1, 2, 1, 7, 1, 2, 1, 6]);
    assert!(decode_even_sector_matrix(&record, &params, &cfg, &other).is_err());
    let odd = build_odd_sector_matrix(&tau, 1);
    assert_eq!(odd, nums(p, &[3]));
    let block = portable_sector_matrix(&params, &cfg, 1, &odd, &names(1));
    assert_eq!(decode_odd_sector_matrix(&block, &params, &cfg, &tau).unwrap(), odd);
    assert!(check_odd_projection(&odd, 1).is_ok());
    assert!(check_odd_projection(&nums(p, &[1, 2, 3, 4]), 2).is_err());
}

/// The form with eigenvalues 1, 2 and 3 on the diagonal, and its lowest pair.
fn diagonal_pair(p: u32) -> (Vec<HpFloat>, WeilEigenpair) {
    let tau = nums(p, &[3, 0, 0, 0, 1, 0, 0, 0, 2]);
    let xi = nums(p, &[0, 2, 0]);
    let residual = relative_residual_norm(&tau, 3, &xi, &num(p, 1), p).unwrap();
    let pair = WeilEigenpair {
        eigenvalue: num(p, 1),
        eigenvector: xi,
        diagnostics: diagnostics(p, residual),
    };
    (tau, pair)
}

fn pair_record(params: &CcmParams, cfg: &HighPrecConfig, pair: &WeilEigenpair) -> PortableWeilEigenpair {
    portable_weil_eigenpair(
        params,
        cfg,
        HpScalar::written("1".to_owned(), &pair.eigenvalue),
        write_values(&pair.eigenvector, &names(3)),
        PortableInverseIterationDiagnostics::from_runtime(
            &pair.diagnostics,
            "1e-90".to_owned(),
            "residual".to_owned(),
        ),
        None,
    )
}

#[test]
fn recorded_eigenpairs_read_back_and_replay() {
    let p = 192;
    let (params, cfg) = setting(p, 1);
    let (tau, pair) = diagonal_pair(p);
    let record = pair_record(&params, &cfg, &pair);
    let read = decode_weil_eigenpair(&record, &params, &cfg, &tau, "residual").unwrap();
    assert_eq!(read.eigenvector, pair.eigenvector);
    assert_eq!(read.eigenvalue, pair.eigenvalue);
    let mut claimed = diagonal_pair(p).1;
    claimed.diagnostics.final_relative_residual_norm = dec(p, "1e-50");
    let overstated = pair_record(&params, &cfg, &claimed);
    assert!(decode_weil_eigenpair(&overstated, &params, &cfg, &tau, "residual").is_err());
    let moved = nums(p, &[3, 0, 0, 0, 2, 0, 0, 0, 2]);
    assert!(decode_weil_eigenpair(&record, &params, &cfg, &moved, "residual").is_err());
    let mut natural = setting(p, 1).1;
    natural.set_parity_policy(CcmParityPolicy::Natural);
    assert!(decode_weil_eigenpair(&record, &params, &natural, &tau, "residual").is_err());
    let mut krylov = setting(p, 1).1;
    krylov.eigenstate_solver = CcmEigenstateSolver::ShiftInvertKrylov;
    assert!(decode_weil_eigenpair(&record, &params, &krylov, &tau, "residual").is_err());
    assert!(is_legacy_eigenstate_route(&legacy_eigenstate_route_name()));
    assert!(!is_legacy_eigenstate_route(&"shift_invert_krylov".to_owned()));
}

fn report(p: u32) -> KrylovReport {
    KrylovReport {
        converged: true,
        boundary_cluster: false,
        retained_eigenpairs: 3,
        factorization_id: "lu".to_owned(),
        requested_eigenpairs: 1,
        maximum_subspace_dimension: 8,
        restarts: 2,
        shifted_solves: 16,
        operator_applications: 20,
        maximum_ritz_value_stability: dec(p, "1e-50"),
        scaled_backward_error: dec(p, "1e-60"),
    }
}

#[test]
fn krylov_solves_report_what_they_found() {
    let p = 192;
    let (params, mut cfg) = setting(p, 9);
    cfg.eigenstate_solver = CcmEigenstateSolver::ShiftInvertKrylov;
    assert!(krylov_target_is_unambiguous(&report(p)));
    let mut clustered = report(p);
    clustered.boundary_cluster = true;
    assert!(!krylov_target_is_unambiguous(&clustered));
    let mut open = report(p);
    open.converged = false;
    assert!(!krylov_target_is_unambiguous(&open));
    let evidence = portable_krylov_evidence(
        &cfg,
        &report(p),
        "1e-50".to_owned(),
        "1e-60".to_owned(),
        scalar(p, "1e-58"),
        "canonical".to_owned(),
    );
    assert_eq!(evidence.restarts, 2);
    assert_eq!(evidence.factorization_id, "lu");
    assert_eq!(evidence.seed_identity, "canonical");
    let compatible = krylov_inverse_compatibility_diagnostics(&report(p));
    assert_eq!(compatible.configured_step_limit, 16);
    assert!(krylov_tolerance(192).starts_with("1e-"));
    assert!(krylov_subspace_limit(&params, &cfg) <= 10);
    assert_eq!(check_krylov_subspace(&params, &cfg).unwrap(), krylov_subspace_limit(&params, &cfg));
    let (tiny, _) = setting(p, 1);
    assert!(check_krylov_subspace(&tiny, &cfg).is_err());
    assert!(check_shifted_solve(192, 5, 192, 5, 5).is_ok());
    assert!(check_shifted_solve(192, 5, 193, 5, 5).is_err());
    assert!(check_shifted_solve(192, 5, 192, 4, 5).is_err());
}

#[test]
fn operators_apply_their_rows() {
    let p = 128;
    let entries = nums(p, &[1, 2, 3, 4]);
    let operator =
        BorrowedDenseSymmetricHp { dimension: 2, entries: &entries, precision_bits: p };
    assert_eq!(operator.apply(&nums(p, &[1, 1]), 2).unwrap(), nums(p, &[3, 7]));
    let fault = operator.apply(&nums(p, &[1, 1, 1]), 2).unwrap_err();
    assert_eq!((fault.expected, fault.actual), (2, 3));
    assert!(operator.apply(&nums(p, &[1, 1]), 3).is_err());
}

#[test]
fn continuations_start_from_the_nearest_smaller_pair() {
    let p = 192;
    let (params, mut cfg) = setting(p, 4);
    cfg.eigenstate_solver = CcmEigenstateSolver::ShiftInvertKrylov;
    let key = |n: usize| format!("ccm/weil-eigenpair/13/{n}/192/even/shift_invert_krylov");
    assert_eq!(continuation_key_n_modes(&key(3), &params, &cfg), Some(3));
    assert_eq!(continuation_key_n_modes(&key(4), &params, &cfg), Some(4));
    assert_eq!(continuation_key_n_modes("ccm/tau/13/3/192", &params, &cfg), None);
    let keys: Vec<ContinuationKey> = [1usize, 3, 2, 7]
        .iter()
        .map(|n| ContinuationKey {
            logical_key: key(*n),
            parameters_digest: format!("d{n}"),
        })
        .collect();
    assert_eq!(continuation_order(&keys, &params, &cfg), vec![(1, 3), (2, 2), (0, 1)]);

    let (source, source_cfg) = setting(p, 1);
    let (_, pair) = diagonal_pair(p);
    let record = pair_record(&source, &source_cfg, &pair);
    let start = continuation_start(&record, 1, &params, &source_cfg).unwrap();
    assert_eq!(start, nums(p, &[2, 0, 0, 0, 0]));
    let mut broken = pair_record(&source, &source_cfg, &pair);
    broken.eigenvector[0] = unreadable();
    assert!(continuation_start(&broken, 1, &params, &source_cfg).is_none());
}

fn plan(route: CacheRoute, policy: CcmParityPolicy, acquisition: Acquisition) -> RunPlan {
    RunPlan {
        route,
        solver: CcmEigenstateSolver::LegacyInverseIteration,
        policy,
        warm_start: true,
        acquisition,
    }
}

fn course(p: &RunPlan, answer: &dyn Fn(RunStep) -> RunEvent) -> Vec<RunStep> {
    let mut state = start_run(p).unwrap();
    let mut steps = vec![state.step];
    while state.step != RunStep::Finish && state.step != RunStep::Refuse {
        state = next_step(p, &state, answer(state.step));
        steps.push(state.step);
    }
    steps
}

#[test]
fn runs_take_the_steps_of_their_plan() {
    let standalone = plan(
        CacheRoute::Standalone,
        CcmParityPolicy::AdaptiveEven,
        Acquisition::Independent,
    );
    let cold = |step: RunStep| match step {
        RunStep::LoadPair => RunEvent::PairAccepted(false),
        RunStep::SeekWarmStart => RunEvent::WarmStartFound(true),
        RunStep::CheckPair => RunEvent::PairHolds(true),
        RunStep::DiscoverStarts => RunEvent::StartsFound(4),
        _ => RunEvent::Done,
    };
    assert_eq!(
        course(&standalone, &cold),
        vec![
            RunStep::BuildForm,
            RunStep::LoadPair,
            RunStep::SeekWarmStart,
            RunStep::SolveFull { project: true, warm: true },
            RunStep::SavePair,
            RunStep::CheckPair,
            RunStep::DiscoverStarts,
            RunStep::ComputeWindow,
            RunStep::Finish,
        ]
    );
    let managed = plan(
        CacheRoute::Fabric,
        CcmParityPolicy::EvenSector,
        Acquisition::ReferenceSeeded { count: 2 },
    );
    let stored = |step: RunStep| match step {
        RunStep::CheckPair => RunEvent::PairHolds(true),
        RunStep::ResolveWindow => RunEvent::WindowResolved { projected: false },
        _ => RunEvent::Done,
    };
    assert_eq!(
        course(&managed, &stored),
        vec![
            RunStep::BuildForm,
            RunStep::ResolvePair,
            RunStep::CheckPair,
            RunStep::ResolveSecularSource,
            RunStep::ResolveWindow,
            RunStep::RecordEvidence,
            RunStep::Finish,
        ]
    );
    let refused = |_: RunStep| RunEvent::PairHolds(false);
    assert_eq!(course(&managed, &refused).last(), Some(&RunStep::Refuse));
    let mut krylov = standalone;
    krylov.solver = CcmEigenstateSolver::ShiftInvertKrylov;
    assert!(start_run(&krylov).is_err());
}

#[test]
fn pairs_are_finished_and_checked() {
    let p = 192;
    let (_, mut cfg) = setting(p, 1);
    let (tau, pair) = diagonal_pair(p);
    let finished = finish_pair(
        &tau,
        3,
        num(p, 1),
        &nums(p, &[0, 1, 0]),
        diagnostics(p, num(p, 9)),
        &num(p, 4),
        p,
    )
    .unwrap();
    assert_eq!(finished.eigenvector, nums(p, &[0, 2, 0]));
    assert!(finished.diagnostics.final_relative_residual_norm.is_zero());
    assert!(check_pair(&tau, 3, &finished, &cfg).is_ok());
    let wrong = WeilEigenpair {
        eigenvalue: num(p, 2),
        eigenvector: nums(p, &[0, 2, 0]),
        diagnostics: diagnostics(p, num(p, 0)),
    };
    assert!(check_pair(&tau, 3, &wrong, &cfg).is_err());
    let cached = CachedXi {
        eps_n: pair.eigenvalue.clone(),
        xi: nums(p, &[0, 2, 0]),
        diagnostics: pair.diagnostics.copied(),
    };
    assert!(accepts_stored_pair(&tau, 3, &cached, &cfg));
    cfg.inverse_iter_steps = 10;
    assert!(!accepts_stored_pair(&tau, 3, &cached, &cfg));
    assert_eq!(termination_of(&pair.diagnostics), Some("unshifted limit reached"));
    let mut early = pair.diagnostics.copied();
    early.unshifted_steps = 5;
    assert_eq!(termination_of(&early), Some("early residual-verified shifted rescue"));
    early.unshifted_converged = true;
    assert_eq!(termination_of(&early), None);
}

#[test]
fn windows_are_projected() {
    let p = 128;
    let roots: Vec<EigenvalueResult> = ["14", "21", "25"]
        .iter()
        .map(|v| EigenvalueResult::Converged(refinement(p, v)))
        .collect();
    let chosen = project_roots(&roots, &vec![0, 2]).unwrap();
    assert_eq!(chosen[1].value(), Some(&num(p, 25)));
    assert!(project_roots(&roots, &vec![3]).is_err());
    let seeds = nums(p, &[14, 21, 25]);
    assert_eq!(project_seeds(&seeds, &vec![1]).unwrap(), nums(p, &[21]));
    assert!(project_seeds(&seeds, &vec![5]).is_err());
    assert_eq!(ordinals_of(&vec![0, 2]), vec![1, 3]);
    assert!(source_only_window().artifact_seeds.is_empty());
    let window = seeded_window(17, &seeds, 64);
    assert_eq!(window.result_first_root_index, 17);
    assert_eq!(window.artifact_seeds[0].prec(), 64);
    assert_eq!(window.selected_positions, vec![0, 1, 2]);
    let crossed = vec![
        EigenvalueResult::Converged(refinement(p, "14.1")),
        EigenvalueResult::Converged(refinement(p, "25.2")),
    ];
    assert_eq!(find_crossings(&crossed, &nums(p, &[14, 21])), vec![]);
    assert_eq!(find_crossings(&crossed, &nums(p, &[14, 40])), vec![(1, 0)]);
}

#[test]
fn automatic_solves_ask_before_they_choose() {
    let request = |policy| AutoRequest {
        policy,
        store: StoreMode { consults_exact: true, may_use_seed: true, compares_reference: false },
        n_modes: 40,
        guard_eigenpairs: 2,
        seed_given: false,
    };
    let nothing = AutoKnown { krylov_stored: None, legacy_stored: None, seed_found: None };
    let even = request(CcmParityPolicy::EvenSector);
    assert_eq!(next_auto_step(&even, &nothing), AutoStep::AskKrylov);
    let asked = AutoKnown {
        krylov_stored: Some(false),
        legacy_stored: Some(false),
        seed_found: None,
    };
    assert_eq!(next_auto_step(&even, &asked), AutoStep::SeekSeed);
    let found = AutoKnown { seed_found: Some(true), ..asked };
    match next_auto_step(&even, &found) {
        AutoStep::Take(route) => {
            assert_eq!(route.solver, CcmEigenstateSolver::ShiftInvertKrylov);
            assert_eq!(route.seed, SeedSource::Discovered);
            assert!(route.may_fall_back);
        }
        other => panic!("{other:?}"),
    }
    match next_auto_step(&request(CcmParityPolicy::Natural), &nothing) {
        AutoStep::Take(route) => {
            assert_eq!(route.solver, CcmEigenstateSolver::LegacyInverseIteration);
        }
        other => panic!("{other:?}"),
    }
    let mut cfg = setting(128, 4).1;
    cfg.eigenstate_solver = CcmEigenstateSolver::ShiftInvertKrylov;
    assert!(check_solver_policy(&cfg).is_ok());
    cfg.set_parity_policy(CcmParityPolicy::Natural);
    assert!(check_solver_policy(&cfg).is_err());
}

#[test]
fn stored_prefixes_serve_their_parts() {
    let p = 128;
    let seeded = RootArtifactMode::ReferenceSeededRefinement;
    let tried = prefixes_to_try(seeded, true, true, 3, 2);
    assert!(tried.iter().all(|n| *n >= 4));
    assert!(prefixes_to_try(seeded, false, true, 3, 2).is_empty());
    assert!(prefixes_to_try(RootArtifactMode::Independent, true, true, 3, 2).is_empty());
    let roots: Vec<EigenvalueResult> = ["14", "21", "25", "30"]
        .iter()
        .map(|v| EigenvalueResult::Converged(refinement(p, v)))
        .collect();
    let part = project_prefix(&roots, 3, 2);
    assert_eq!(part.len(), 2);
    assert_eq!(part[0].value(), Some(&num(p, 25)));
}

#[test]
fn assurance_is_asked_for_and_reported() {
    assert!(check_assurance_build(AssuranceLevel::Computed, false).is_ok());
    assert!(check_assurance_build(AssuranceLevel::Certified, false).is_err());
    assert!(check_assurance_build(AssuranceLevel::Certified, true).is_ok());
    assert_eq!(assurance_step(AssuranceLevel::Computed, None), AssuranceStep::Nothing);
    assert_ne!(
        assurance_step(AssuranceLevel::Certified, None),
        assurance_step(AssuranceLevel::Certified, Some(AssuranceLevel::Certified))
    );
    assert_eq!(certification_outcome(true, false), CertificationOutcome::Record);
    assert_eq!(certification_outcome(false, true), CertificationOutcome::KeepUnpublished);
    assert_eq!(certification_outcome(false, false), CertificationOutcome::Fail);
    let whole = CcmParams::from_lambda_sq_integer(13, 1);
    assert!(check_certifiable_source(&whole).is_ok());
    let fractional = CcmParams {
        lambda_sq: LambdaSquared::Fractional { identity: "2.5".to_owned(), floor: 2 },
        n_modes: 1,
    };
    assert!(check_certifiable_source(&fractional).is_err());
    let advanced = IndependentRootDiscoveryOptions::advanced(true, true);
    assert!(check_certified_discovery(true, advanced).is_err());
    assert!(check_certified_discovery(false, advanced).is_ok());
    assert!(!is_sector_resolution_limit(&vec!["outer".to_owned()]));
    assert!(is_sector_resolution_limit(&vec![
        "outer".to_owned(),
        "CCM sector resolution limit: algebraic indices 0 and 1 are not strictly separated"
            .to_owned(),
    ]));
    assert_eq!(
        evenness_source(false, SectorOutcome::Resolved, true),
        EvennessSource::Nowhere
    );
    assert_eq!(
        evenness_source(true, SectorOutcome::Resolved, true),
        EvennessSource::SectorGap
    );
    assert_eq!(
        evenness_source(true, SectorOutcome::NotRequested, true),
        EvennessSource::Store
    );
    assert_eq!(
        evenness_source(true, SectorOutcome::NotRequested, false),
        EvennessSource::Form
    );
}

fn dataset() -> ReferenceZeroDatasetIdentity {
    ReferenceZeroDatasetIdentity {
        schema_version: 1,
        resource_id: "test/reference-zeros.json".to_owned(),
        content_sha256: "5f".repeat(32),
        record_count: 1_000,
        decimal_digits: 100,
    }
}

#[test]
fn sweeps_have_to_rise_in_modes() {
    let p = 192;
    let mut cfg = setting(p, 2).1;
    cfg.eigenstate_solver = CcmEigenstateSolver::ShiftInvertKrylov;
    let point = |lambda: u64, n_modes: usize| CcmIndexedSeededSweepPoint {
        params: CcmParams::from_lambda_sq_integer(lambda, n_modes),
        first_root_index: 1,
        zero_seeds: nums(p, &[14]),
    };
    let check = |points: Vec<CcmIndexedSeededSweepPoint>| {
        validate_continuation_sweep(&points, &cfg, &dataset(), true)
    };
    assert!(check(vec![point(5, 2), point(5, 3)]).is_ok());
    assert!(check(vec![point(5, 3), point(5, 3)]).is_err());
    assert!(check(vec![point(5, 2), point(7, 3)]).is_err());
    assert!(check(vec![]).is_err());
}

#[test]
fn secular_sources_name_their_eigenpair() {
    let (params, cfg) = setting(192, 3);
    let record = secular_record(&params, &cfg, "digest");
    assert!(check_secular_record(&record, &params, &cfg, "digest").is_ok());
    assert!(check_secular_record(&record, &params, &cfg, "other").is_err());
}

#[test]
fn evenness_reads_back() {
    let p = 192;
    let (params, cfg) = setting(p, 3);
    let measured = EvennessResult {
        evenness_deviation: dec(p, "1e-40"),
        natural_eigenvalue: num(p, 1),
        forced_eigenvalue: num(p, 2),
    };
    let words = |deviation: &str| EvennessTexts {
        evenness_deviation: deviation.to_owned(),
        natural_eigenvalue: "1".to_owned(),
        forced_eigenvalue: "2".to_owned(),
    };
    let record = evenness_record(&params, &cfg, &measured, &words("1e-40"));
    let read = decode_evenness_record(&record, &params, &cfg, &words("1e-40")).unwrap();
    assert_eq!(read.evenness_deviation, measured.evenness_deviation);
    assert!(decode_evenness_record(&record, &params, &cfg, &words("2e-40")).is_err());
}

#[test]
fn run_evidence_holds_for_its_own_run_alone() {
    let p = 192;
    let (params, cfg) = setting(p, 3);
    let roots = vec![
        EigenvalueResult::Converged(refinement(p, "14")),
        EigenvalueResult::Stagnated(refinement(p, "21")),
    ];
    let fewer = vec![EigenvalueResult::Converged(refinement(p, "14"))];
    let evidence = diagnostics(p, dec(p, "1e-120"));
    let ordinals = vec![1, 2];
    let eigenvalue_text = "1e-30".to_owned();
    let request = |roots| EvidenceRequest {
        params: &params,
        cfg: &cfg,
        roots,
        first_root_index: 1,
        artifact_mode: RootArtifactMode::Independent,
        semantics: RootWindowSemantics::strict_positive(2),
        selected_root_ordinals: &ordinals,
        eigenvalue_text: &eigenvalue_text,
        inverse_iteration: &evidence,
    };
    let record = run_evidence_record(
        &request(&roots),
        &dec(p, "1e-30"),
        PortableInverseIterationDiagnostics::from_runtime(
            &evidence,
            "1e-90".to_owned(),
            "1e-120".to_owned(),
        ),
    );
    assert_eq!(record.converged_roots, 1);
    assert_eq!(record.stagnated_roots, 1);
    assert_eq!(record.last_root_index, 2);
    assert!(check_run_evidence(&record, &request(&roots)).is_ok());
    assert!(check_run_evidence(&record, &request(&fewer)).is_err());
}

#[test]
fn recorded_ranges_name_their_window() {
    let (params, cfg) = setting(192, 3);
    let stored = vec![PortableRootOutcome::Failed { iterations: 2, reason: "pole".to_owned() }];
    let record = portable_root_range(
        &params,
        &cfg,
        4,
        &vec!["14".to_owned()],
        RootArtifactMode::ReferenceSeededRefinement,
        Some(&dataset()),
        IndependentRootDomain::Positive,
        stored,
    );
    assert_eq!(record.first_root_index, 4);
    assert!(record.reference_seeds_used);
    assert_eq!(record.starting_points, vec!["14".to_owned()]);
    assert_eq!(record.solver, "halley");
    match record.outcomes[0].to_runtime().unwrap() {
        EigenvalueResult::Failed { iterations, .. } => assert_eq!(iterations, 2),
        _ => panic!("a failure stays one"),
    }
}

#[test]
fn managed_solves_follow_policy_and_solver() {
    let mut cfg = HighPrecConfig::for_decimal_digits(40);
    let mut solve = |policy, solver| {
        cfg.set_parity_policy(policy);
        cfg.eigenstate_solver = solver;
        managed_solve(&cfg)
    };
    let krylov = CcmEigenstateSolver::ShiftInvertKrylov;
    let legacy = CcmEigenstateSolver::LegacyInverseIteration;
    assert_eq!(solve(CcmParityPolicy::EvenSector, krylov), ManagedSolve::EvenKrylov);
    assert_eq!(solve(CcmParityPolicy::EvenSector, legacy), ManagedSolve::EvenIteration);
    assert_eq!(
        solve(CcmParityPolicy::AdaptiveEven, legacy),
        ManagedSolve::FullIteration { projects: true }
    );
    assert_eq!(
        solve(CcmParityPolicy::Natural, legacy),
        ManagedSolve::FullIteration { projects: false }
    );
}

#[test]
fn krylov_solves_have_fixed_settings() {
    let params = CcmParams::from_lambda_sq_integer(13, 20);
    let mut cfg = HighPrecConfig::for_decimal_digits(40);
    cfg.krylov_guard_eigenpairs = 2;
    cfg.krylov_subspace_dimension = 30;
    cfg.krylov_maximum_restarts = 9;
    let settings = krylov_settings(&params, &cfg).unwrap();
    assert_eq!(settings.requested_eigenpairs, 1);
    assert_eq!(settings.guard_eigenpairs, 2);
    assert_eq!(settings.maximum_subspace_dimension, 21);
    assert_eq!(settings.maximum_restarts, 9);
    assert_eq!(settings.minimum_restarts, 2);
    assert_eq!(settings.maximum_projected_sweeps, 256);
    cfg.krylov_subspace_dimension = 3;
    assert!(krylov_settings(&params, &cfg).is_err());
}

#[test]
fn a_configuration_without_roots_builds_its_source_alone() {
    let mut cfg = HighPrecConfig::for_decimal_digits(40);
    cfg.n_eigenvalues = 0;
    assert!(configured_target(&cfg).is_none());
    cfg.n_eigenvalues = 7;
    assert!(matches!(configured_target(&cfg), Some(ZeroTarget::FirstK { count: 7 })));
}
