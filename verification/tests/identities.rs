//! Identities of cached artifacts.

use xc_ccm_hp::certificate::{
    certificate_evidence, check_form_certificate, check_root_certificate, RootCertificateHeader,
};
use xc_ccm_hp::config::{
    CcmEigenstateSolver, CcmParams, CcmParity, CcmParityPolicy, CcmRootCertificationOptions,
    CcmSectorEigenvalueRoute, HighPrecConfig, IndependentCcmRootTarget, IndependentRootDomain,
    RootArtifactMode, RootWindowSemantics,
};
use xc_ccm_hp::float::HpFloat;
use xc_ccm_hp::identity::{
    archimedean_integrals_request, certificate_key, certificate_request,
    continued_eigenpair_cache_identity, even_sector_request, evenness_request, factorization_request, last_evidence_index, last_root_index,
    odd_sector_request, prime_component_request, root_range_request, root_range_semantic_key,
    run_evidence_request, sector_eigenvalues_request, sector_gap_request, sector_spectrum_request,
    sector_transform_request, sector_tridiagonal_request, secular_source_request, seed_identity,
    tau_request, weil_eigenpair_cache_identity, weil_eigenpair_request, ArtifactQuality, KeyValue,
    SemanticKey,
};
use xc_ccm_hp::roots::ReferenceZeroDatasetIdentity;

fn parameter<'a>(key: &'a SemanticKey, name: &str) -> Option<&'a KeyValue> {
    key.parameters.iter().find(|p| p.0 == name).map(|p| &p.1)
}

fn text(value: &str) -> KeyValue {
    KeyValue::Text(value.to_owned())
}

#[test]
fn legacy_and_krylov_eigenstate_cache_identities_are_disjoint() {
    let params = CcmParams::from_lambda_sq_integer(13, 120);
    let configure = |solver: CcmEigenstateSolver| {
        let mut cfg = HighPrecConfig::for_decimal_digits(1_000);
        cfg.eigenstate_solver = solver;
        cfg
    };
    let legacy = configure(CcmEigenstateSolver::LegacyInverseIteration);
    let (legacy_semantic, legacy_logical) =
        weil_eigenpair_cache_identity(&params, &legacy).unwrap();
    assert_eq!(
        legacy_logical,
        format!("ccm/weil-eigenpair/13/120/{}/even", legacy.precision_bits)
    );
    assert_eq!(legacy_semantic.semantics_version, "ccm-smallest-weil-eigenpair-v0.13.0-v3");
    let mut parameters: Vec<(String, KeyValue)> = vec![
        ("lambda_squared".to_owned(), text("13")),
        ("n_modes".to_owned(), KeyValue::Number(120)),
        ("precision_bits".to_owned(), KeyValue::Number(legacy.precision_bits as u64)),
        ("scalar_backend".to_owned(), text("rug_mpfr")),
        ("force_even".to_owned(), KeyValue::Flag(true)),
        ("normalization".to_owned(), text("sum_xi_equals_sqrt_log_lambda_squared")),
        ("inverse_iteration_step_limit".to_owned(), KeyValue::Number(2_000)),
    ];
    assert_eq!(legacy_semantic.parameters.len(), parameters.len());
    for (name, value) in parameters.drain(..) {
        assert_eq!(parameter(&legacy_semantic, &name), Some(&value));
    }

    let krylov = configure(CcmEigenstateSolver::ShiftInvertKrylov);
    let (krylov_semantic, krylov_logical) =
        weil_eigenpair_cache_identity(&params, &krylov).unwrap();
    assert_eq!(
        krylov_logical,
        format!(
            "ccm/weil-eigenpair/13/120/{}/even/shift_invert_krylov",
            krylov.precision_bits
        )
    );
    assert_ne!(legacy_semantic, krylov_semantic);
    assert_ne!(legacy_logical, krylov_logical);

    let mut natural = configure(CcmEigenstateSolver::LegacyInverseIteration);
    natural.set_parity_policy(CcmParityPolicy::Natural);
    let (natural_semantic, natural_logical) =
        weil_eigenpair_cache_identity(&params, &natural).unwrap();
    assert_eq!(
        natural_logical,
        format!("ccm/weil-eigenpair/13/120/{}/natural", natural.precision_bits)
    );

    let mut adaptive = configure(CcmEigenstateSolver::LegacyInverseIteration);
    adaptive.set_parity_policy(CcmParityPolicy::AdaptiveEven);
    let (adaptive_semantic, adaptive_logical) =
        weil_eigenpair_cache_identity(&params, &adaptive).unwrap();
    assert_eq!(
        adaptive_logical,
        format!("ccm/weil-eigenpair/13/120/{}/adaptive-even", adaptive.precision_bits)
    );
    assert_eq!(parameter(&adaptive_semantic, "parity_policy"), Some(&text("adaptive-even")));
    assert_eq!(
        adaptive_semantic.semantics_version,
        "ccm-smallest-weil-eigenpair-adaptive-even-v1"
    );
    assert_ne!(legacy_semantic, natural_semantic);
    assert_ne!(legacy_semantic, adaptive_semantic);
    assert_ne!(natural_semantic, adaptive_semantic);
    assert!(
        weil_eigenpair_cache_identity(&params, &configure(CcmEigenstateSolver::Auto)).is_err()
    );
}

fn test_reference_dataset(digest: &str) -> ReferenceZeroDatasetIdentity {
    ReferenceZeroDatasetIdentity {
        schema_version: 1,
        resource_id: "test/reference-zeros.json".to_owned(),
        content_sha256: digest.repeat(32),
        record_count: 1_000,
        decimal_digits: 100,
    }
}

#[test]
fn seeded_and_independent_root_artifacts_have_disjoint_semantic_identity() {
    let params = CcmParams::from_lambda_sq_integer(13, 4);
    let cfg = HighPrecConfig::for_decimal_digits(40);
    let seeds = vec!["14".to_owned()];
    let dataset = test_reference_dataset("1f");
    let key = |mode, reference: Option<&ReferenceZeroDatasetIdentity>, semantics| {
        root_range_semantic_key(&params, &cfg, 1, &seeds, mode, reference, true, semantics)
    };
    let strict = || RootWindowSemantics::strict_positive(seeds.len());
    let independent = key(RootArtifactMode::Independent, None, strict()).unwrap();
    let seeded =
        key(RootArtifactMode::ReferenceSeededRefinement, Some(&dataset), strict()).unwrap();
    assert_eq!(independent.artifact_kind, "ccm_root_discovery_window");
    assert_eq!(independent.semantics_version, "ccm-root-range-v0.13.0-v6");
    assert!(parameter(&independent, "root_domain").is_none());
    assert!(parameter(&independent, "requested_root_count").is_none());
    assert!(parameter(&independent, "allow_incomplete").is_none());
    assert_eq!(seeded.artifact_kind, "ccm_root_refinement");
    assert!(independent.sources.is_empty());
    assert_eq!(
        seeded.sources,
        vec![("reference_zero_dataset".to_owned(), dataset.content_sha256.clone())]
    );
    assert_ne!(independent, seeded);
    let signed = key(
        RootArtifactMode::Independent,
        None,
        RootWindowSemantics::advanced(IndependentRootDomain::Signed, 200, true),
    )
    .unwrap();
    assert_eq!(signed.target.as_deref(), Some("signed_ccm_spectral_roots"));
    assert_eq!(signed.semantics_version, "ccm-root-range-v0.13.3-v7");
    assert_ne!(independent, signed);
    let same_signed_window_for_another_request = key(
        RootArtifactMode::Independent,
        None,
        RootWindowSemantics::advanced(IndependentRootDomain::Signed, 8, false),
    )
    .unwrap();
    assert_eq!(
        signed, same_signed_window_for_another_request,
        "request policy must not duplicate an identical numerical root window"
    );

    let other_dataset = test_reference_dataset("2e");
    let other_seeded =
        key(RootArtifactMode::ReferenceSeededRefinement, Some(&other_dataset), strict()).unwrap();
    assert_ne!(seeded, other_seeded);
    assert!(key(RootArtifactMode::Independent, Some(&dataset), strict()).is_err());
    assert!(key(RootArtifactMode::ReferenceSeededRefinement, None, strict()).is_err());
}

#[test]
fn every_artifact_has_its_own_request() {
    let params = CcmParams::from_lambda_sq_integer(13, 4);
    let mut cfg = HighPrecConfig::for_decimal_digits(40);
    cfg.eigenstate_solver = CcmEigenstateSolver::LegacyInverseIteration;
    let seeds = vec!["14".to_owned(), "21".to_owned()];
    let semantics = RootWindowSemantics::strict_positive(2);
    let requests = vec![
        archimedean_integrals_request(&params, &cfg),
        prime_component_request(&params, &cfg),
        tau_request(&params, &cfg),
        even_sector_request(&params, &cfg, "t"),
        odd_sector_request(&params, &cfg, "t"),
        sector_tridiagonal_request(&params, &cfg, CcmParity::Even, "m"),
        sector_tridiagonal_request(&params, &cfg, CcmParity::Odd, "m"),
        sector_transform_request(&params, &cfg, CcmParity::Even, "m", "t"),
        sector_eigenvalues_request(
            &params,
            &cfg,
            CcmParity::Even,
            5,
            2,
            CcmSectorEigenvalueRoute::Selected,
            "t",
        ),
        sector_spectrum_request(
            &params,
            &cfg,
            CcmParity::Even,
            CcmSectorEigenvalueRoute::Selected,
            2,
            "m",
            "e",
            "t",
            "q",
        ),
        sector_gap_request(&params, &cfg, "e", "o"),
        factorization_request(&params, &cfg, "even", "m"),
        evenness_request(&params, &cfg, "n", "f"),
        secular_source_request(&params, &cfg, "x"),
        weil_eigenpair_request(&params, &cfg, None, None).unwrap(),
        root_range_request(
            &params,
            &cfg,
            1,
            &seeds,
            RootArtifactMode::Independent,
            None,
            true,
            semantics,
        )
        .unwrap(),
        run_evidence_request(
            &params,
            &cfg,
            1,
            2,
            RootArtifactMode::Independent,
            semantics,
            &vec![1, 2],
            "x",
            "r",
        )
        .unwrap(),
    ];
    for (i, a) in requests.iter().enumerate() {
        assert!(a.logical_key.contains("13/4/"), "{}", a.logical_key);
        assert_eq!(a.quality, ArtifactQuality::Validated);
        for b in requests.iter().skip(i + 1) {
            assert_ne!(a.key, b.key);
            assert_ne!(a.logical_key, b.logical_key);
        }
    }
}

#[test]
fn sources_are_part_of_a_request() {
    let params = CcmParams::from_lambda_sq_integer(13, 4);
    let cfg = HighPrecConfig::for_decimal_digits(40);
    let a = even_sector_request(&params, &cfg, "one");
    let b = even_sector_request(&params, &cfg, "two");
    assert_ne!(a.key, b.key);
    assert_eq!(parameter(&a.key, "tau_content_digest"), Some(&text("one")));
}

#[test]
fn complete_eigenvalues_serve_every_prefix() {
    let params = CcmParams::from_lambda_sq_integer(13, 4);
    let cfg = HighPrecConfig::for_decimal_digits(40);
    let request = |requested: usize, route| {
        sector_eigenvalues_request(&params, &cfg, CcmParity::Even, 5, requested, route, "t")
    };
    let complete = CcmSectorEigenvalueRoute::CompleteQr;
    let selected = CcmSectorEigenvalueRoute::Selected;
    assert_eq!(request(2, complete).key, request(4, complete).key);
    assert_ne!(request(2, selected).key, request(4, selected).key);
}

#[test]
fn seeds_are_named_by_their_source() {
    assert_eq!(seed_identity(None), "canonical");
    assert!(seed_identity(Some("abcdef0123456789")).starts_with("from-eigenpair-"));
}

#[test]
fn continued_eigenpairs_are_cached_under_their_predecessor() {
    let params = CcmParams::from_lambda_sq_integer(13, 4);
    let mut cfg = HighPrecConfig::for_decimal_digits(40);
    cfg.eigenstate_solver = CcmEigenstateSolver::ShiftInvertKrylov;
    let own = weil_eigenpair_cache_identity(&params, &cfg).unwrap();
    let one = continued_eigenpair_cache_identity(&params, &cfg, "one").unwrap();
    let two = continued_eigenpair_cache_identity(&params, &cfg, "two").unwrap();
    assert_eq!(one.1, format!("{}/from-eigenpair-one", own.1));
    assert_eq!(one.0.sources, vec![("ccm_weil_eigenpair".to_owned(), "one".to_owned())]);
    assert_eq!(one.0.parameters, own.0.parameters);
    assert_ne!(one.0, two.0);
    assert_ne!(one.1, two.1);
    assert_ne!(one.0, own.0);

    let tag = Some(("seed", "text"));
    let hinted = weil_eigenpair_request(&params, &cfg, None, tag).unwrap();
    let continued = weil_eigenpair_request(&params, &cfg, Some("one"), tag).unwrap();
    assert_eq!((hinted.key, hinted.logical_key), own);
    assert_eq!((continued.key, continued.logical_key), one);
    assert_eq!(hinted.tags, continued.tags);
    cfg.eigenstate_solver = CcmEigenstateSolver::Auto;
    assert!(continued_eigenpair_cache_identity(&params, &cfg, "one").is_err());
}

#[test]
fn certificates_name_their_options() {
    let params = CcmParams::from_lambda_sq_integer(13, 4);
    let cfg = HighPrecConfig::for_decimal_digits(40);
    let options = |count: usize| {
        CcmRootCertificationOptions::for_decimal_digits(
            IndependentCcmRootTarget::Prefix { count },
            30,
        )
        .unwrap()
    };
    let two = certificate_key(&params, &cfg, "s", "w", &options(2));
    let three = certificate_key(&params, &cfg, "s", "w", &options(3));
    assert_ne!(two, three);
    let request = certificate_request(two, &params, &cfg, "s", "d");
    assert_eq!(request.quality, ArtifactQuality::Certified);
}

#[test]
fn ranges_that_do_not_fit_are_refused() {
    assert_eq!(last_root_index(5, 3).unwrap(), 7);
    assert!(last_root_index(usize::MAX, 2).is_err());
    assert!(last_root_index(0, 2).is_err());
    assert!(last_root_index(1, 0).is_err());
    assert_eq!(last_evidence_index(5, 3).unwrap(), 7);
    assert!(last_evidence_index(usize::MAX, 2).is_err());
}

#[test]
fn root_certificates_serve_only_their_source_and_request() {
    let params = CcmParams::from_lambda_sq_integer(13, 10);
    let cfg = HighPrecConfig::for_decimal_digits(40);
    let options = |count: usize| {
        CcmRootCertificationOptions::for_decimal_digits(
            IndependentCcmRootTarget::Prefix { count },
            20,
        )
        .unwrap()
    };
    let header = |cutoff: u64, count: usize, digest: &str| RootCertificateHeader {
        integer_cutoff: cutoff,
        modes: 10,
        precision_bits: cfg.precision_bits,
        isolation_bits: 96,
        target: IndependentCcmRootTarget::Prefix { count },
        width_tolerance: "1e-20".to_owned(),
        maximum_iterations: 2_000,
        source_weights_digest: digest.to_owned(),
    };
    let check = |structure: &Result<(), String>, certificate: RootCertificateHeader| {
        check_root_certificate(structure, &certificate, &params, &cfg, &options(2), "weights")
    };
    let sound: Result<(), String> = Ok(());
    assert!(check(&sound, header(13, 2, "weights")).is_ok());
    for other in [
        header(14, 2, "weights"),
        header(13, 3, "weights"),
        header(13, 2, "others"),
        RootCertificateHeader { modes: 11, ..header(13, 2, "weights") },
        RootCertificateHeader { precision_bits: 64, ..header(13, 2, "weights") },
        RootCertificateHeader { isolation_bits: 64, ..header(13, 2, "weights") },
        RootCertificateHeader { maximum_iterations: 1, ..header(13, 2, "weights") },
        RootCertificateHeader { width_tolerance: "1e-2".to_owned(), ..header(13, 2, "weights") },
    ] {
        let error = check(&sound, other).unwrap_err();
        assert_eq!(
            error.message(),
            "CCM root certificate does not match its exact semantic identity"
        );
    }
    let broken: Result<(), String> = Err("no enclosures".to_owned());
    let error = check(&broken, header(13, 2, "weights")).unwrap_err();
    assert_eq!(error.message(), "no enclosures");
}

#[test]
fn form_certificates_are_recorded_only_when_they_hold() {
    let tau: Vec<HpFloat> = vec![HpFloat::from_i64(64, 1), HpFloat::from_i64(64, 2)];
    let zero = HpFloat::from_i64(64, 0);
    let odd: Vec<HpFloat> = vec![HpFloat::from_i64(64, 1), zero.over(&zero)];
    let sound: Result<(), Vec<String>> = Ok(());
    let failed: Result<(), Vec<String>> = Err(vec!["a".to_owned(), "b".to_owned()]);
    let words = |tau: &Vec<HpFloat>, enclosed: usize, replay, store: bool| {
        check_form_certificate(tau, enclosed, replay, store).unwrap_err().message().to_owned()
    };
    assert!(check_form_certificate(&tau, 2, &sound, true).is_ok());
    assert_eq!(
        words(&tau, 3, &failed, false),
        "cutoff-free certification matrix dimension differs from retained tau matrix"
    );
    assert_eq!(
        words(&odd, 2, &failed, false),
        "retained tau entry 1 cannot be represented exactly"
    );
    assert_eq!(
        words(&tau, 2, &failed, false),
        "portable tau interval certificate failed independent replay: a; b"
    );
    assert_eq!(
        words(&tau, 2, &sound, false),
        "certified assurance requires the toolkit evidence store"
    );
    assert_eq!(certificate_evidence("b".to_owned(), "a".to_owned()), vec!["a", "b"]);
    assert_eq!(certificate_evidence("a".to_owned(), "b".to_owned()), vec!["a", "b"]);
}
