//! Parity sectors, their spectra and gaps, factorizations, states and form components.

use xc_ccm_hp::config::{
    CcmParams, CcmParity, CcmSectorEigenvalueRoute, HighPrecConfig,
};
use xc_ccm_hp::decimal::Decimal;
use xc_ccm_hp::eigenvalues::{
    complete_sector_eigenvalues, cross_checked_sector_eigenvalues, decode_sector_eigenvalues,
    find_unseparated, selected_sector_eigenvalues, selected_sector_step_limit,
    EigenvalueEnclosure, SectorEigenvaluesHp, SturmReplay,
};
use xc_ccm_hp::factorization::{
    decode_factorization, factorization_backward_error, factorization_dimension,
    factors_admissible, judge_factorization, probe_right_hand_side, FactorizationVerdict, LuFactors,
};
use xc_ccm_hp::float::HpFloat;
use xc_ccm_hp::matrix::{
    force_symmetric, is_all_finite, largest_magnitude, matrix_is_exactly_symmetric,
    matrix_row_abs_sum, matrix_row_dot, ordered_square_sum, ordered_sum,
};
use xc_ccm_hp::payload::HpScalar;
use xc_ccm_hp::records::{
    portable_lu_factorization, portable_sector_eigenvalues, portable_sector_gap,
    portable_sector_spectrum, portable_sector_transform, portable_sector_tridiagonal,
    EigenpairTextForms, EnclosureTexts, GapTexts,
};
use xc_ccm_hp::sector::{
    build_even_sector_matrix, build_odd_sector_matrix, embedded_even_continuation_seed,
    evenness_from_natural_state, expand_even_sector_vector, expand_odd_sector_vector,
    hp_invariant_close, reflection_terms,
};
use xc_ccm_hp::spectrum::{
    back_transform_terms, check_gap_replay, check_gap_request, check_spectrum_request,
    compute_sector_gap, compute_sector_spectrum, decode_sector_spectrum, natural_state_of_gap,
    negative_log10_abs, sector_eigenpair_residual_norm, CcmSectorEigenpairHp, CcmSectorGapHp,
    CcmSectorSpectrumHp, GapLogarithms,
};
use xc_ccm_hp::state::{
    evaluate_ccm_form_components_hp, form_row_terms, inner_product_terms, rayleigh_quotient,
    select_ccm_state_hp, CcmFormComponentKind, CcmFormComponentMatrixHp, CcmStateCandidateHp,
    CcmStateCriterion, CcmStateTarget, RayleighSums,
};
use xc_ccm_hp::tridiagonal::{
    decode_sector_transform, decode_sector_tridiagonal, replay_sector_tridiagonal,
    reproduces_tridiagonal, sector_dimension,
    sector_tridiagonal_invariants_match, validate_sector_transform, SectorTransformHp,
    SectorTridiagonalHp, TransformFault, TransformRejection,
};

fn num(p: u32, x: i64) -> HpFloat {
    HpFloat::from_i64(p, x)
}

fn dec(p: u32, text: &str) -> HpFloat {
    HpFloat::from_decimal(p, &Decimal::parse(text).unwrap())
}

fn nums(p: u32, values: &[i64]) -> Vec<HpFloat> {
    values.iter().map(|v| num(p, *v)).collect()
}

fn texts(values: &[&str]) -> Vec<String> {
    values.iter().map(|v| v.to_string()).collect()
}

fn quadratic(m: &Vec<HpFloat>, dim: usize, x: &Vec<HpFloat>, p: u32) -> HpFloat {
    let mut total = num(p, 0);
    let mut norm = num(p, 0);
    for i in 0..dim {
        total = total.plus(&matrix_row_dot(m, x, dim, i, p).times(&x[i]));
        norm = norm.plus(&x[i].times(&x[i]));
    }
    total.over(&norm)
}

#[test]
fn cross_n_seed_preserves_the_even_basis_coordinates() {
    let precision = 192;
    // Full centered coordinates for N=2: [a2, a1, a0, a1, a2].
    let full = nums(precision, &[3, 2, 1, 2, 3]);
    let seed = embedded_even_continuation_seed(&full, 2, 4, precision).unwrap();
    assert_eq!(seed.len(), 5);
    assert_eq!(seed[0], num(precision, 1));
    let sqrt_two = num(precision, 2).sqrt();
    assert_eq!(seed[1], num(precision, 2).times(&sqrt_two));
    assert_eq!(seed[2], num(precision, 3).times(&sqrt_two));
    assert!(seed[3].is_zero());
    assert!(seed[4].is_zero());
    assert!(embedded_even_continuation_seed(&full, 2, 2, precision).is_err());
    assert!(embedded_even_continuation_seed(&full, 3, 4, precision).is_err());
}

#[test]
fn even_sector_projection_preserves_even_quadratic_form() {
    let precision_bits = 256;
    let n_modes = 2;
    let dim = 2 * n_modes + 1;
    let mut tau = nums(precision_bits, &[0; 25]);
    for row in 0..dim {
        for column in row..dim {
            let value = num(precision_bits, ((row + 2) * (column + 3)) as i64);
            tau[row * dim + column] = value.clone();
            tau[column * dim + row] = value;
        }
    }
    let sector = build_even_sector_matrix(&tau, n_modes, precision_bits);
    let y = nums(precision_bits, &[1, 2, -3]);
    let x = expand_even_sector_vector(&y, n_modes, precision_bits);
    let full = quadratic(&tau, dim, &x, precision_bits);
    let reduced = quadratic(&sector, n_modes + 1, &y, precision_bits);
    assert!(full.minus(&reduced).lt_abs(&HpFloat::power_of_two(precision_bits, -240)));
}

#[test]
fn odd_sector_projection_preserves_historical_values_and_quadratic_form() {
    let precision_bits = 256;
    let n_modes = 2;
    let dim = 2 * n_modes + 1;
    let mut tau = nums(precision_bits, &[0; 25]);
    for row in 0..dim {
        let signed_row = row as i64 - n_modes as i64;
        for column in 0..dim {
            let signed_column = column as i64 - n_modes as i64;
            let diagonal = if row == column { 40 } else { 0 };
            let value = diagonal + signed_row * signed_column + (signed_row - signed_column).abs();
            tau[row * dim + column] = num(precision_bits, value);
        }
    }
    assert!(matrix_is_exactly_symmetric(&tau, dim));
    for row in 0..dim {
        for column in 0..dim {
            assert_eq!(
                tau[row * dim + column],
                tau[(dim - 1 - row) * dim + (dim - 1 - column)]
            );
        }
    }

    let sector = build_odd_sector_matrix(&tau, n_modes);
    for k in 1..=n_modes {
        for j in 1..=n_modes {
            let historical = tau[(n_modes + k) * dim + (n_modes + j)]
                .minus(&tau[(n_modes + k) * dim + (n_modes - j)]);
            assert_eq!(sector[(k - 1) * n_modes + (j - 1)], historical);
        }
    }
    assert!(matrix_is_exactly_symmetric(&sector, n_modes));

    let y = nums(precision_bits, &[2, -3]);
    let x = expand_odd_sector_vector(&y, n_modes, precision_bits);
    let full = quadratic(&tau, dim, &x, precision_bits);
    let reduced = quadratic(&sector, n_modes, &y, precision_bits);
    assert!(full.minus(&reduced).lt_abs(&HpFloat::power_of_two(precision_bits, -240)));
}

#[test]
fn expanded_vectors_are_even_or_odd() {
    let p = 128;
    let even = expand_even_sector_vector(&nums(p, &[5, 1, 2]), 2, p);
    let odd = expand_odd_sector_vector(&nums(p, &[1, 2]), 2, p);
    for k in 0..5 {
        assert_eq!(even[k], even[4 - k]);
        assert_eq!(odd[k], odd[4 - k].negated());
    }
    assert_eq!(even[2], num(p, 5));
    assert!(odd[2].is_zero());
    let (differences, squares) = reflection_terms(&even);
    assert!(differences.iter().all(|d| d.is_zero()));
    assert_eq!(squares[2], num(p, 25));
}

#[test]
fn evenness_is_relative_to_the_norm() {
    let p = 128;
    let result =
        evenness_from_natural_state(num(p, 7), num(p, 8), &num(p, 16), &num(p, 64));
    assert_eq!(result.evenness_deviation, dec(p, "0.5"));
    assert_eq!(result.natural_eigenvalue, num(p, 7));
    assert_eq!(result.forced_eigenvalue, num(p, 8));
}

#[test]
fn invariants_are_compared_at_working_precision() {
    let p = 128;
    assert!(hp_invariant_close(&num(p, 3), &num(p, 3), p));
    assert!(!hp_invariant_close(&num(p, 3), &dec(p, "3.001"), p));
}

#[test]
fn matrices_are_summed_in_order() {
    let p = 128;
    let m = nums(p, &[1, -2, 3, -4]);
    assert_eq!(ordered_sum(&m, p), num(p, -2));
    assert_eq!(ordered_square_sum(num(p, 1), &m), num(p, 31));
    assert_eq!(largest_magnitude(&m, p), num(p, 4));
    assert_eq!(matrix_row_dot(&m, &nums(p, &[1, 1]), 2, 1, p), num(p, -1));
    assert_eq!(matrix_row_abs_sum(&m, 2, 1, p), num(p, 7));
    assert!(is_all_finite(&m));
    assert!(!is_all_finite(&vec![HpFloat::nan(p)]));
    let mut half = nums(p, &[1, 2, 4, 5]);
    force_symmetric(&mut half, 2);
    assert!(matrix_is_exactly_symmetric(&half, 2));
    assert_eq!(half[1], num(p, 3));
    assert!(!matrix_is_exactly_symmetric(&m, 2));
}

fn banded(p: u32, scale: &HpFloat) -> Vec<HpFloat> {
    nums(p, &[4, 1, 0, 0, 1, 6, 2, 0, 0, 2, 9, 1, 0, 0, 1, 12])
        .iter()
        .map(|v| v.times(scale))
        .collect()
}

fn bands(p: u32, scale: &HpFloat) -> SectorTridiagonalHp {
    SectorTridiagonalHp {
        diagonal: nums(p, &[4, 6, 9, 12]).iter().map(|v| v.times(scale)).collect(),
        off_diagonal: nums(p, &[1, 2, 1]).iter().map(|v| v.times(scale)).collect(),
    }
}

fn unit_basis(p: u32, dim: usize) -> Vec<HpFloat> {
    (0..dim * dim).map(|i| num(p, if i / dim == i % dim { 1 } else { 0 })).collect()
}

#[test]
fn sector_transform_validation_uses_requested_precision_and_matrix_scale() {
    let precision_bits = 256;
    let dimension = 4;
    let scale = dec(precision_bits, "1e40");
    let matrix = banded(precision_bits, &scale);
    let tridiagonal = bands(precision_bits, &scale);
    let transform = SectorTransformHp { basis: unit_basis(precision_bits, dimension) };
    validate_sector_transform(&matrix, &tridiagonal, &transform, dimension, precision_bits)
        .unwrap();

    let mut corrupted = transform;
    corrupted.basis[0] = corrupted.basis[0].plus(&dec(precision_bits, "1e-20"));
    assert!(validate_sector_transform(
        &matrix,
        &tridiagonal,
        &corrupted,
        dimension,
        precision_bits,
    )
    .is_err());
}

#[test]
fn transform_faults_are_told_apart() {
    let p = 128;
    let one = num(p, 1);
    let matrix = banded(p, &one);
    let tridiagonal = bands(p, &one);
    let check = |basis: Vec<HpFloat>, t: &SectorTridiagonalHp| {
        validate_sector_transform(&matrix, t, &SectorTransformHp { basis }, 4, p).unwrap_err()
    };
    assert!(matches!(check(vec![], &tridiagonal), TransformFault::Dimensions));
    let mut long = unit_basis(p, 4);
    long[0] = num(p, 2);
    let fault = check(long, &tridiagonal);
    assert!(matches!(fault, TransformFault::Norm { column: 0, .. }));
    assert_eq!(
        fault.message("3", "0.5"),
        "basis column 0 norm error 3 exceeds requested-precision tolerance 0.5"
    );
    assert_eq!(
        TransformRejection::Fault(fault).message("3", "0.5"),
        "CCM sector transform failed orthogonality or A Q = Q T replay: basis column 0 norm error 3 exceeds requested-precision tolerance 0.5"
    );
    let mut other = bands(p, &one);
    other.diagonal[2] = num(p, 10);
    assert!(matches!(
        check(unit_basis(p, 4), &other),
        TransformFault::Similarity { .. }
    ));
}

fn setting(p: u32) -> (CcmParams, HighPrecConfig) {
    let mut cfg = HighPrecConfig::for_decimal_digits(40);
    cfg.precision_bits = p;
    (CcmParams::from_lambda_sq_integer(13, 3), cfg)
}

#[test]
fn recorded_tridiagonal_and_transform_read_back() {
    let p = 192;
    let one = num(p, 1);
    let (params, cfg) = setting(p);
    let matrix = banded(p, &one);
    let t = bands(p, &one);
    assert_eq!(sector_dimension(CcmParity::Even, 3), 4);
    assert_eq!(sector_dimension(CcmParity::Odd, 3), 3);
    assert!(sector_tridiagonal_invariants_match(&matrix, &t, 4, p));
    let record = portable_sector_tridiagonal(
        &params,
        &cfg,
        CcmParity::Even,
        4,
        &t,
        &texts(&["4", "6", "9", "12"]),
        &texts(&["1", "2", "1"]),
    );
    let read = decode_sector_tridiagonal(&record, &params, &cfg, CcmParity::Even, 4).unwrap();
    assert_eq!(read.diagonal, t.diagonal);
    assert_eq!(read.off_diagonal, t.off_diagonal);
    assert!(decode_sector_tridiagonal(&record, &params, &cfg, CcmParity::Odd, 4).is_err());
    let even = CcmParity::Even;
    assert!(replay_sector_tridiagonal(&record, &params, &cfg, even, 4, &matrix).is_ok());
    let other: Vec<HpFloat> = (0..16).map(|_| HpFloat::from_i64(p, 7)).collect();
    let error = replay_sector_tridiagonal(&record, &params, &cfg, even, 4, &other).unwrap_err();
    assert_eq!(error.message(), "CCM sector tridiagonal failed trace or Frobenius replay");
    assert!(reproduces_tridiagonal(&t, &read).is_ok());
    let mut moved = bands(p, &one);
    moved.off_diagonal[0] = num(p, 3);
    assert!(reproduces_tridiagonal(&t, &moved).is_err());
    assert!(!sector_tridiagonal_invariants_match(&matrix, &moved, 4, p));

    let transform = SectorTransformHp { basis: unit_basis(p, 4) };
    let names: Vec<String> = (0..16).map(|i| format!("b{i}")).collect();
    let stored =
        portable_sector_transform(&params, &cfg, CcmParity::Even, 4, &transform, &names);
    let basis =
        decode_sector_transform(&stored, &params, &cfg, CcmParity::Even, 4, &matrix, &t).unwrap();
    assert_eq!(basis.basis, transform.basis);
    match decode_sector_transform(&stored, &params, &cfg, CcmParity::Even, 4, &matrix, &moved) {
        Err(TransformRejection::Fault(_)) => {}
        _ => panic!("a transform has to reduce its matrix"),
    }
}

fn enclosure(p: u32, index: usize, lower: &str, upper: &str) -> EigenvalueEnclosure {
    EigenvalueEnclosure {
        index,
        lower: dec(p, lower),
        upper: dec(p, upper),
        lower_count: index,
        upper_count: index + 1,
        iterations: 60,
    }
}

#[test]
fn selected_complete_and_cross_checked_sector_routes_reconcile() {
    let precision_bits = 192;
    let selected = selected_sector_eigenvalues(vec![
        enclosure(precision_bits, 0, "1.75", "2.25"),
        enclosure(precision_bits, 1, "4.75", "5.25"),
    ]);
    let complete = complete_sector_eigenvalues(nums(precision_bits, &[2, 5, 9]));
    let cross_checked = cross_checked_sector_eigenvalues(
        nums(precision_bits, &[2, 5, 9]),
        vec![
            enclosure(precision_bits, 0, "1.75", "2.25"),
            enclosure(precision_bits, 1, "4.75", "5.25"),
        ],
        3,
    )
    .unwrap();

    assert!(!selected.complete);
    assert_eq!(selected.values.len(), 2);
    assert_eq!(selected.selected_enclosures.len(), 2);
    assert!(complete.complete);
    assert_eq!(complete.values.len(), 3);
    assert!(complete.selected_enclosures.is_empty());
    assert!(cross_checked.complete);
    assert_eq!(cross_checked.values, complete.values);
    assert_eq!(cross_checked.selected_enclosures.len(), 2);
    for enclosure in &selected.selected_enclosures {
        assert!(enclosure.lower.le(&complete.values[enclosure.index]));
        assert!(complete.values[enclosure.index].le(&enclosure.upper));
    }
    assert_eq!(selected.values[0], num(precision_bits, 2));
    assert!(cross_checked_sector_eigenvalues(
        nums(precision_bits, &[2, 7, 9]),
        vec![enclosure(precision_bits, 1, "4.75", "5.25")],
        3,
    )
    .is_err());
}

#[test]
fn recorded_eigenvalues_read_back_and_are_checked() {
    let p = 192;
    let (params, cfg) = setting(p);
    let t = SectorTridiagonalHp {
        diagonal: nums(p, &[2, 5, 9]),
        off_diagonal: nums(p, &[0, 0]),
    };
    let complete = complete_sector_eigenvalues(nums(p, &[2, 5, 9]));
    let record = portable_sector_eigenvalues(
        &complete,
        &params,
        &cfg,
        CcmParity::Odd,
        3,
        2,
        &texts(&["2", "5", "9"]),
        &vec![],
    );
    let route = CcmSectorEigenvalueRoute::CompleteQr;
    let read = decode_sector_eigenvalues(
        &record, &params, &cfg, CcmParity::Odd, 3, 2, route, &t, &vec![],
    )
    .unwrap();
    assert_eq!(read.values, complete.values);
    assert!(read.complete);
    let wrong = SectorTridiagonalHp {
        diagonal: nums(p, &[2, 5, 10]),
        off_diagonal: nums(p, &[0, 0]),
    };
    assert!(decode_sector_eigenvalues(
        &record, &params, &cfg, CcmParity::Odd, 3, 2, route, &wrong, &vec![],
    )
    .is_err());

    let narrow = |index: usize, value: i64| {
        let gap = HpFloat::power_of_two(p, -150);
        EigenvalueEnclosure {
            index,
            lower: num(p, value).minus(&gap),
            upper: num(p, value).plus(&gap),
            lower_count: index,
            upper_count: index + 1,
            iterations: 160,
        }
    };
    let selected = selected_sector_eigenvalues(vec![narrow(0, 2), narrow(1, 5)]);
    let names = vec![
        EnclosureTexts { lower: "l0".to_owned(), upper: "u0".to_owned() },
        EnclosureTexts { lower: "l1".to_owned(), upper: "u1".to_owned() },
    ];
    let stored = portable_sector_eigenvalues(
        &selected,
        &params,
        &cfg,
        CcmParity::Odd,
        3,
        2,
        &texts(&["2", "5"]),
        &names,
    );
    let count = |lower: usize, upper: usize| SturmReplay { lower: Ok(lower), upper: Ok(upper) };
    let decode = |counts: Vec<SturmReplay>| {
        decode_sector_eigenvalues(
            &stored,
            &params,
            &cfg,
            CcmParity::Odd,
            3,
            2,
            CcmSectorEigenvalueRoute::Selected,
            &t,
            &counts,
        )
    };
    assert_eq!(decode(vec![count(0, 1), count(1, 2)]).unwrap().values, selected.values);
    assert!(decode(vec![count(0, 1), count(1, 3)]).is_err());
    assert!(decode(vec![
        count(0, 1),
        SturmReplay { lower: Err("pivot".to_owned()), upper: Ok(2) },
    ])
    .is_err());
    assert_eq!(find_unseparated(&nums(p, &[2, 5, 9])), None);
    assert_eq!(find_unseparated(&nums(p, &[2, 5, 5])), Some(1));
}

fn diagonal_spectrum(p: u32) -> (Vec<HpFloat>, SectorEigenvaluesHp, Vec<Vec<HpFloat>>) {
    let matrix = nums(p, &[2, 0, 0, 0, 5, 0, 0, 0, 9]);
    let eigenvalues = complete_sector_eigenvalues(nums(p, &[2, 5, 9]));
    let vectors = vec![nums(p, &[1, 0, 0]), nums(p, &[0, 1, 0])];
    (matrix, eigenvalues, vectors)
}

#[test]
fn recorded_spectra_read_back_and_replay() {
    let p = 192;
    let (params, cfg) = setting(p);
    let (matrix, eigenvalues, vectors) = diagonal_spectrum(p);
    let spectrum =
        compute_sector_spectrum(&matrix, 3, CcmParity::Odd, &eigenvalues, vectors, p).unwrap();
    assert_eq!(spectrum.eigenpairs.len(), 2);
    assert_eq!(spectrum.eigenpairs[1].algebraic_index, 1);
    assert_eq!(spectrum.eigenpairs[1].eigenvalue, num(p, 5));
    assert!(spectrum.eigenpairs[1].residual_norm.is_zero());
    assert_eq!(spectrum.complete_eigenvalues.as_ref().unwrap().len(), 3);
    let form = |value: &str, vector: &[&str]| EigenpairTextForms {
        eigenvalue: value.to_owned(),
        eigenvector: texts(vector),
        residual: "0".to_owned(),
    };
    let record = portable_sector_spectrum(
        &spectrum,
        &params,
        &cfg,
        &vec![form("2", &["1", "0", "0"]), form("5", &["0", "1", "0"])],
    );
    let decode = |requested: usize, m: &Vec<HpFloat>| {
        decode_sector_spectrum(
            &record,
            &params,
            &cfg,
            CcmParity::Odd,
            CcmSectorEigenvalueRoute::CompleteQr,
            m,
            3,
            requested,
        )
    };
    let read = decode(2, &matrix).unwrap();
    assert_eq!(read.eigenpairs[0].eigenvector, spectrum.eigenpairs[0].eigenvector);
    assert!(decode(1, &matrix).is_err());
    let other = nums(p, &[3, 0, 0, 0, 5, 0, 0, 0, 9]);
    assert!(decode(2, &other).is_err());
    assert!(check_spectrum_request(3, 0, 3).is_err());
    assert!(check_spectrum_request(3, 2, 1).is_err());
    assert!(check_spectrum_request(3, 2, 2).is_ok());
    let norm =
        sector_eigenpair_residual_norm(&other, 3, &num(p, 2), &nums(p, &[1, 0, 0]), p).unwrap();
    assert!(!norm.is_zero());
    let transform = SectorTransformHp { basis: nums(p, &[1, 2, 3, 4]) };
    assert_eq!(
        back_transform_terms(&transform, &nums(p, &[5, 6]), 2, 1),
        nums(p, &[15, 24])
    );
}

fn lowest(p: u32, parity: CcmParity, values: [&str; 2]) -> CcmSectorSpectrumHp {
    let pair = |index: usize, value: &str| CcmSectorEigenpairHp {
        algebraic_index: index,
        eigenvalue: dec(p, value),
        eigenvector: vec![num(p, 1)],
        residual_norm: num(p, 0),
    };
    CcmSectorSpectrumHp {
        parity,
        dimension: 1,
        eigenvalue_route: CcmSectorEigenvalueRoute::Selected,
        complete_eigenvalues: None,
        eigenpairs: vec![pair(0, values[0]), pair(1, values[1])],
    }
}

fn gap_of(p: u32) -> CcmSectorGapHp {
    // log10 of 1e-16 - 1e-20 is -16 + log10(0.9999).
    let logs = GapLogarithms {
        even: num(p, -20),
        odd: num(p, -16),
        difference: dec(p, "-16.000043431619807510388968"),
    };
    compute_sector_gap(
        lowest(p, CcmParity::Even, ["1e-20", "2"]),
        lowest(p, CcmParity::Odd, ["1e-16", "3"]),
        &logs,
        p,
    )
    .unwrap()
}

#[test]
fn sector_gap_uses_depth_difference_not_eigenvalue_subtraction() {
    let precision_bits = 256;
    let gap = gap_of(precision_bits);
    let expected = num(precision_bits, 4);
    let error = gap.gap_log.minus(&expected);
    assert!(error.lt_abs(&HpFloat::power_of_two(precision_bits, -240)));
    assert_eq!(gap.ordering, 1);
    assert!(gap.even_simple);
    assert_ne!(gap.gap_log, gap.difference_depth);
    assert_eq!(gap.d_even, num(precision_bits, 20));
    assert_eq!(gap.d_odd, num(precision_bits, 16));
}

#[test]
fn gaps_are_replayed_from_their_record() {
    let p = 192;
    let (params, cfg) = setting(p);
    let forms = |gap_log: &str| GapTexts {
        lambda_even: "1e-20".to_owned(),
        lambda_odd: "1e-16".to_owned(),
        d_even: "20".to_owned(),
        d_odd: "16".to_owned(),
        gap_log: gap_log.to_owned(),
        lambda_difference: "9.999e-17".to_owned(),
        difference_depth: "16.00004".to_owned(),
        even_simplicity_margin: "2".to_owned(),
    };
    let gap = gap_of(p);
    let record = portable_sector_gap(&gap, &params, &cfg, "e", "o", forms("4"));
    let again = portable_sector_gap(&gap, &params, &cfg, "e", "o", forms("4"));
    let other = portable_sector_gap(&gap, &params, &cfg, "e", "o", forms("5"));
    assert!(check_gap_replay(&record, &again).is_ok());
    assert!(check_gap_replay(&record, &other).is_err());
    assert!(check_gap_request(2, 3).is_ok());
    assert!(check_gap_request(1, 3).is_err());
    assert!(check_gap_request(4, 3).is_err());
    assert!(negative_log10_abs(&num(p, 0), &num(p, 0), p).is_err());
    assert_eq!(negative_log10_abs(&dec(p, "0.1"), &num(p, -1), p).unwrap(), num(p, 1));
}

#[test]
fn the_natural_state_is_the_lower_of_both_sectors() {
    let p = 192;
    let mut gap = gap_of(p);
    gap.even.eigenpairs[0].eigenvector = nums(p, &[1, 0]);
    gap.odd.eigenpairs[0].eigenvector = nums(p, &[1]);
    let (value, vector) = natural_state_of_gap(&gap, 1, p).unwrap();
    assert_eq!(value, dec(p, "1e-20"));
    assert_eq!(vector, nums(p, &[0, 1, 0]));
}

fn solve_two(factors: &LuFactors, rhs: &Vec<HpFloat>) -> Vec<HpFloat> {
    let b0 = rhs[factors.perm[0]].clone();
    let b1 = rhs[factors.perm[1]].minus(&factors.lu[2].times(&b0));
    let x1 = b1.over(&factors.lu[3]);
    let x0 = b0.minus(&factors.lu[1].times(&x1)).over(&factors.lu[0]);
    vec![x0, x1]
}

#[test]
fn ill_conditioned_lu_is_validated_by_backward_error() {
    let precision = 256;
    let one = num(precision, 1);
    let one_plus_delta = one.plus(&dec(precision, "1e-70"));
    let matrix = vec![one.clone(), one.clone(), one.clone(), one_plus_delta.clone()];
    let factors = LuFactors {
        lu: vec![one.clone(), one.clone(), one.clone(), one_plus_delta.minus(&one)],
        perm: vec![0, 1],
    };
    let solution = solve_two(&factors, &probe_right_hand_side(2, precision));
    let backward_error =
        factorization_backward_error(&matrix, &factors, 2, precision, &solution).unwrap();
    let tolerance = HpFloat::power_of_two(precision, -((precision / 4) as i64));
    assert!(backward_error.lt(&tolerance), "backward-stable LU was rejected");
    assert!(matches!(
        judge_factorization(&matrix, &factors, 2, precision, &solution),
        FactorizationVerdict::Accepted
    ));

    let invalid_permutation = LuFactors { lu: factors.lu, perm: vec![0, 0] };
    assert!(factorization_backward_error(&matrix, &invalid_permutation, 2, precision, &solution)
        .is_none());
}

#[test]
fn factorizations_are_judged_and_read_back() {
    let p = 192;
    let (params, cfg) = setting(p);
    let matrix = nums(p, &[2, 0, 0, 4]);
    let good = LuFactors { lu: nums(p, &[2, 0, 0, 4]), perm: vec![0, 1] };
    assert!(factors_admissible(&matrix, &good, 2));
    assert!(!factors_admissible(&matrix, &good, 3));
    let far = nums(p, &[1_000, 1_000]);
    let verdict = judge_factorization(&matrix, &good, 2, p, &far);
    assert!(matches!(verdict, FactorizationVerdict::Inaccurate { .. }));
    assert_eq!(
        verdict.message("0.9", "0.1").unwrap(),
        "CCM factorization failed its normwise backward-error check: error=0.9, tolerance=0.1"
    );
    assert_eq!(factorization_dimension("even", 3), 4);
    assert_eq!(factorization_dimension("full", 3), 7);
    let names = texts(&["2", "0", "0", "4"]);
    let record = portable_lu_factorization(&params, &cfg, "even", 2, &good, &names);
    let read = decode_factorization(&record, &params, &cfg, "even", 2).unwrap();
    assert_eq!(read.lu, good.lu);
    assert_eq!(read.perm, vec![0, 1]);
    assert!(decode_factorization(&record, &params, &cfg, "full", 2).is_err());
    let mut broken = portable_lu_factorization(&params, &cfg, "even", 2, &good, &names);
    broken.lu[0] = HpScalar { text: "x".to_owned(), reading: Err("bad digit".to_owned()) };
    assert!(decode_factorization(&broken, &params, &cfg, "even", 2).is_err());
}

#[test]
fn ccm_state_targets_are_distinct_and_retained_in_results() {
    let precision = 192;
    let candidate = |index, value, parity| CcmStateCandidateHp {
        algebraic_index: index,
        eigenvalue: num(precision, value),
        eigenvector: vec![num(precision, 1)],
        parity,
    };
    let candidates = vec![
        candidate(0, -4, CcmParity::Even),
        candidate(1, -1, CcmParity::Odd),
        candidate(2, 2, CcmParity::Even),
        candidate(3, 3, CcmParity::Odd),
    ];
    let ground = select_ccm_state_hp(CcmStateTarget::AlgebraicGround, &candidates).unwrap();
    let positive = select_ccm_state_hp(CcmStateTarget::SmallestPositive, &candidates).unwrap();
    let nearest = select_ccm_state_hp(CcmStateTarget::NearestZero, &candidates).unwrap();
    let odd_positive = select_ccm_state_hp(
        CcmStateTarget::ParityRestricted {
            parity: CcmParity::Odd,
            criterion: CcmStateCriterion::SmallestPositive,
        },
        &candidates,
    )
    .unwrap();
    assert_eq!(ground.algebraic_index, 0);
    assert_eq!(positive.algebraic_index, 2);
    assert_eq!(nearest.algebraic_index, 1);
    assert_eq!(odd_positive.algebraic_index, 3);
    assert_eq!(odd_positive.parity, CcmParity::Odd);
    assert!(matches!(
        odd_positive.requested_target,
        CcmStateTarget::ParityRestricted { .. }
    ));

    let tied = vec![candidate(0, -2, CcmParity::Even), candidate(1, 2, CcmParity::Even)];
    assert!(select_ccm_state_hp(CcmStateTarget::NearestZero, &tied).is_err());
    let negative = vec![candidate(0, -2, CcmParity::Even)];
    assert!(select_ccm_state_hp(CcmStateTarget::SmallestPositive, &negative).is_err());
    assert!(select_ccm_state_hp(CcmStateTarget::AlgebraicGround, &vec![]).is_err());
}

fn sums_of(m: &Vec<HpFloat>, v: &Vec<HpFloat>, p: u32) -> RayleighSums {
    let applied: Vec<HpFloat> =
        (0..v.len()).map(|row| ordered_sum(&form_row_terms(m, v, row, p), p)).collect();
    RayleighSums {
        numerator: ordered_sum(&inner_product_terms(v, &applied, p), p),
        denominator: ordered_sum(&inner_product_terms(v, v, p), p),
    }
}

fn component(kind: CcmFormComponentKind, sign: i32, m: Vec<HpFloat>) -> CcmFormComponentMatrixHp {
    CcmFormComponentMatrixHp { kind, signed_coefficient: sign, matrix_row_major: m }
}

#[test]
fn ccm_form_components_reconstruct_total_on_the_same_vector() {
    let precision = 192;
    let diagonal = |left: i64, right: i64| nums(precision, &[left, 0, 0, right]);
    let components = vec![
        component(CcmFormComponentKind::Archimedean, 1, diagonal(10, 14)),
        component(CcmFormComponentKind::Prime, -1, diagonal(2, 4)),
        component(CcmFormComponentKind::Pole, 1, diagonal(1, 1)),
        component(CcmFormComponentKind::Other, 1, diagonal(1, 3)),
    ];
    let total = diagonal(10, 14);
    let vector = nums(precision, &[1, 2]);
    let total_sums = sums_of(&total, &vector, precision);
    let component_sums: Vec<RayleighSums> =
        components.iter().map(|c| sums_of(&c.matrix_row_major, &vector, precision)).collect();
    let contributions: Vec<HpFloat> = components
        .iter()
        .zip(&component_sums)
        .map(|(c, s)| {
            rayleigh_quotient(s, precision).unwrap().times_int(c.signed_coefficient as i64)
        })
        .collect();
    let contribution_sum = ordered_sum(&contributions, precision);
    let report = evaluate_ccm_form_components_hp(
        &total,
        &components,
        &vector,
        precision,
        &total_sums,
        &component_sums,
        &contribution_sum,
    )
    .unwrap();
    assert_eq!(report.components.len(), 4);
    assert!(report.cancellation_residual.lt(&dec(precision, "1e-50")));
    assert_eq!(report.total_value, num(precision, 66).over_int(5));
    assert_eq!(report.components[1].rayleigh_value, num(precision, 18).over_int(5));

    let twice = vec![
        component(CcmFormComponentKind::Prime, 1, diagonal(1, 1)),
        component(CcmFormComponentKind::Prime, -1, diagonal(2, 4)),
        component(CcmFormComponentKind::Pole, 1, diagonal(1, 1)),
        component(CcmFormComponentKind::Other, 1, diagonal(1, 3)),
    ];
    assert!(evaluate_ccm_form_components_hp(
        &total,
        &twice,
        &vector,
        precision,
        &total_sums,
        &component_sums,
        &contribution_sum,
    )
    .is_err());
    let still = RayleighSums { numerator: num(precision, 1), denominator: num(precision, 0) };
    assert!(rayleigh_quotient(&still, precision).is_err());
}

#[test]
fn selected_eigenvalues_take_two_steps_a_bit() {
    assert_eq!(selected_sector_step_limit(256), 512);
    assert_eq!(selected_sector_step_limit(0), 0);
}

#[test]
fn expansions_keep_the_norm() {
    let p = 256;
    let square = |v: &Vec<HpFloat>| {
        v.iter().fold(num(p, 0), |sum, entry| sum.plus(&entry.times(entry)))
    };
    let bound = HpFloat::power_of_two(p, -240);
    let even = nums(p, &[1, 2, -3]);
    let expanded = expand_even_sector_vector(&even, 2, p);
    assert!(square(&even).minus(&square(&expanded)).lt_abs(&bound));
    let odd = nums(p, &[2, -3]);
    let expanded = expand_odd_sector_vector(&odd, 2, p);
    assert!(square(&odd).minus(&square(&expanded)).lt_abs(&bound));
}
