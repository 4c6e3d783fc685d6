//! Assembly of the form: integrals, prime kernels, components and band concentration.

use xc_ccm_hp::assembly::{
    assemble_tau_components, build_tau_components, compute_archimedean_integrals_l,
    compute_kappa_half, compute_prime_component_matrix, distinct_quadrature_points,
    node_arguments, normalize_eigenvector, prime_phases, quadrature_points_per_mode,
    rho_hp_with_guard, signed_alpha, ComputedArchimedeanIntegrals, ComputedCcmMatrixComponents,
    NodeArguments, NodeValues, PrimeKernel,
};
use xc_ccm_hp::concentration::{
    band_arguments, band_concentration_matrix, band_quadrature_points, concentrated_position,
    deflate_form, dropped_modes, plunge_cancellation, plunge_eigenvalue, sinc_hp,
};
use xc_ccm_hp::config::{ExactLambdaSquaredHp, HighPrecConfig, LambdaSquaredMode};
use xc_ccm_hp::decimal::Decimal;
use xc_ccm_hp::exact::{
    check_lambda_squared, localized_weil_form_exact_hp, CcmLowModeSolverPlanner,
    CcmLowModeSolverRequest,
};
use xc_ccm_hp::float::HpFloat;
use xc_ccm_hp::matrix::matrix_is_exactly_symmetric;
use xc_ccm_hp::primes::prime_powers_up_to;
use xc_ccm_hp::route::AssuranceLevel;

const PI: &str = "3.141592653589793238462643383279502884197169399375105820974944592307816406286208\
    99862803482534211706798214808651328230664709384460955058223172535940813";
const EULER: &str = "0.577215664901532860606512090082402431042159335939923598805767234884867726777664\
    670936947063291746749514631447249807082480960504014486542836224173997645";
/// Logarithm of `4 pi (13 - 1) / (13 + 1)`.
const LN_KAPPA: &str = "2.376873567142032488685016209206934390884201044236965597150967283652233066260449\
    92568717050749060633212292259015051677119074901820345058123628093710932";
const LN_2: &str = "0.693147180559945309417232121458176568075500134360255254120680009493393621969694\
    715605863326996418687542001481020570685733685520235758130557032670751635";
const LN_3: &str = "1.098612288668109691395245236922525704647490557822749451734694333637494293218608\
    96687361575481373208878797002906595786574236800422593051982105280187077";
const LN_5: &str = "1.609437912434100374600759333226187639525601354268517721912647891474178987707657\
    76463013387809317961079996630302171556289972400522932467619963361661746";
const LN_7: &str = "1.945910149055313305105352743443179729637084729581861188459390149937579862752069\
    26778765849858787152699306169420585114091172375225767778684314895809516";
const LN_11: &str = "2.397895272798370544061943577965129299821706853937417175218567709130573623913236\
    71307505470800263479141471572588813799852225556915859578739535530239080";
const LN_13: &str = "2.564949357461536736053487441565318604805267944760207116419045510663464667324410\
    17939957466344048948876925819209276272163153215449198658701382526811697";
const LN_17: &str = "2.833213344056216080249534617873126535588203012585744787297237737882292575800931\
    28091209486803750294751834826204718705729139759284194673836429975456574";
const LN_19: &str = "2.944438979166440460009027431887853537237379261299128818537960236409292702064197\
    28871415838381573989579704063322075013634902195379068132061126463332854";

/// Working precision of the elementary functions of the tests.
const WORK: u32 = 420;

fn num(p: u32, x: i64) -> HpFloat {
    HpFloat::from_i64(p, x)
}

fn dec(p: u32, text: &str) -> HpFloat {
    HpFloat::from_decimal(p, &Decimal::parse(text).unwrap())
}

fn decs(p: u32, values: &[&str]) -> Vec<HpFloat> {
    values.iter().map(|t| dec(p, t)).collect()
}

/// The series `1 + x + x^2/2! + ...`, after halving the argument eight times.
fn exp(x: &HpFloat) -> HpFloat {
    let y = x.at(WORK).over_int(256);
    let mut total = num(WORK, 1);
    let mut term = num(WORK, 1);
    for k in 1..90 {
        term = term.times(&y).over_int(k);
        total = total.plus(&term);
    }
    for _ in 0..8 {
        total = total.times(&total);
    }
    total.at(x.prec())
}

fn sinh(x: &HpFloat) -> HpFloat {
    let up = exp(&x.at(WORK));
    let down = exp(&x.at(WORK).negated());
    up.minus(&down).over_int(2).at(x.prec())
}

fn series(x: &HpFloat, first: i64) -> HpFloat {
    let two_pi = dec(WORK, PI).times_int(2);
    let mut y = x.at(WORK);
    while two_pi.lt(&y) {
        y = y.minus(&two_pi);
    }
    while y.lt(&two_pi.negated()) {
        y = y.plus(&two_pi);
    }
    let square = y.times(&y).negated();
    let mut term = if first == 0 { num(WORK, 1) } else { y };
    let mut total = term.clone();
    let mut k = first;
    for _ in 0..90 {
        term = term.times(&square).over_int((k + 1) * (k + 2));
        total = total.plus(&term);
        k += 2;
    }
    total.at(x.prec())
}

fn sin(x: &HpFloat) -> HpFloat {
    series(x, 1)
}

fn cos(x: &HpFloat) -> HpFloat {
    series(x, 0)
}

fn values_at(a: &NodeArguments) -> NodeValues {
    NodeValues {
        sine: sin(&a.phase),
        cosine: cos(&a.phase),
        sinh: sinh(&a.x),
        exp_half: exp(&a.half),
        exp_negative_half: exp(&a.negative_half),
    }
}

fn log_of(p: u32, n: u64) -> HpFloat {
    match n {
        2 => dec(p, LN_2),
        3 => dec(p, LN_3),
        5 => dec(p, LN_5),
        7 => dec(p, LN_7),
        11 => dec(p, LN_11),
        13 => dec(p, LN_13),
        17 => dec(p, LN_17),
        19 => dec(p, LN_19),
        4 => dec(WORK, LN_2).times_int(2).at(p),
        8 => dec(WORK, LN_2).times_int(3).at(p),
        16 => dec(WORK, LN_2).times_int(4).at(p),
        9 => dec(WORK, LN_3).times_int(2).at(p),
        _ => panic!("no logarithm of {n}"),
    }
}

fn kernels(n_modes: usize, pi: &HpFloat, l: &HpFloat, p: u32) -> Vec<PrimeKernel> {
    prime_powers_up_to(19)
        .iter()
        .map(|c| {
            let log_power = log_of(p, c.power);
            let phases = prime_phases(n_modes, pi, l, &log_power, p);
            PrimeKernel {
                power: c.power,
                log_power,
                log_prime: log_of(p, c.prime),
                sines: phases.iter().map(sin).collect(),
                cosines: phases.iter().map(cos).collect(),
            }
        })
        .collect()
}

#[test]
fn elementary_functions_of_the_tests_hold() {
    let p = 256;
    let e = dec(p, "2.7182818284590452353602874713526624977572470936999595749669676277240766303");
    assert!(exp(&num(p, 1)).minus(&e).lt_abs(&dec(p, "1e-70")));
    let sixth = dec(p, PI).over_int(6);
    assert!(sin(&sixth).minus(&dec(p, "0.5")).lt_abs(&dec(p, "1e-70")));
    assert!(cos(&sixth.times_int(2)).minus(&dec(p, "0.5")).lt_abs(&dec(p, "1e-70")));
}

#[test]
fn fused_archimedean_integrals_are_bit_identical_to_separate_evaluators() {
    let precision = 256;
    let pi = dec(precision, PI);
    let l = dec(precision, LN_13);
    let nodes = decs(precision, &["-0.91", "-0.43", "0", "0.37", "0.88"]);
    let weights = decs(precision, &["0.12", "0.23", "0.31", "0.22", "0.12"]);
    let half_l = l.over_int(2);
    let guard = dec(precision, "1e-30");
    let log_argument = dec(precision, LN_KAPPA);
    let kappa_half = compute_kappa_half(&log_argument, &dec(precision, EULER));
    for mode in 0..=6 {
        let values: Vec<NodeValues> = nodes
            .iter()
            .map(|node| values_at(&node_arguments(mode, &pi, &l, node, precision)))
            .collect();
        let fused = compute_archimedean_integrals_l(
            mode, &pi, &l, precision, &nodes, &weights, &values, &kappa_half,
        );

        let frequency = pi.times_int(2).times(&num(precision, mode)).over(&l);
        let integrate = |f: &dyn Fn(&HpFloat) -> HpFloat| {
            let mut total = num(precision, 0);
            for (node, weight) in nodes.iter().zip(&weights) {
                let x = node.plus_int(1).times(&half_l);
                total = total.plus(&weight.times(&f(&x)));
            }
            total.times(&half_l)
        };
        let rho = |x: &HpFloat| {
            rho_hp_with_guard(x, &guard, &exp(&x.over_int(2)), &sinh(x), precision)
        };
        let alpha = if mode == 0 {
            num(precision, 0)
        } else {
            integrate(&|x| sin(&frequency.times(x)).times(&rho(x))).over(&pi)
        };
        let beta =
            integrate(&|x| x.times(&cos(&frequency.times(x))).times(&rho(x))).over(&l);
        let gamma = integrate(&|x| {
            cos(&frequency.times(x)).minus(&exp(&x.over_int(-2))).times(&rho(x))
        })
        .plus(&kappa_half);
        assert_eq!(fused.0, alpha, "alpha changed at mode {mode}");
        assert_eq!(fused.1, beta, "beta changed at mode {mode}");
        assert_eq!(fused.2, gamma, "gamma changed at mode {mode}");
    }
}

#[test]
fn precomputed_prime_kernels_are_bit_identical_to_reference() {
    for precision in [128, 257] {
        let pi = dec(precision, PI);
        let l = dec(precision, LN_13);
        for n_modes in 0..=4usize {
            let dim = 2 * n_modes + 1;
            let tables = kernels(n_modes, &pi, &l, precision);
            let optimized = compute_prime_component_matrix(n_modes, &tables, &pi, &l, precision);
            assert_eq!(
                optimized.len(),
                dim * dim,
                "matrix shape changed at precision={precision}, N={n_modes}"
            );
            for row in 0..dim {
                for column in 0..dim {
                    let n = row as i64 - n_modes as i64;
                    let m = column as i64 - n_modes as i64;
                    let omega_n = pi.times_int(2).times(&num(precision, n)).over(&l);
                    let omega_m = pi.times_int(2).times(&num(precision, m)).over(&l);
                    let mut sum = num(precision, 0);
                    for table in &tables {
                        let kernel = if n == m {
                            num(precision, 1)
                                .minus(&table.log_power.over(&l))
                                .times_int(2)
                                .times(&cos(&omega_n.times(&table.log_power)))
                        } else {
                            sin(&omega_m.times(&table.log_power))
                                .minus(&sin(&omega_n.times(&table.log_power)))
                                .over(&pi.times(&num(precision, n - m)))
                        };
                        let root = HpFloat::from_u64(precision, table.power).sqrt();
                        sum = sum.plus(&kernel.times(&table.log_prime).over(&root));
                    }
                    assert_eq!(
                        optimized[row * dim + column],
                        sum,
                        "prime component changed at precision={precision}, N={n_modes}, \
                         cell={row},{column}"
                    );
                }
            }
            assert!(matrix_is_exactly_symmetric(&optimized, dim));
        }
    }
}

#[test]
fn the_kernel_is_expanded_near_its_pole() {
    let p = 128;
    let guard = dec(p, "1e-30");
    let tiny = dec(p, "1e-31");
    let near = rho_hp_with_guard(&tiny, &guard, &num(p, 1), &num(p, 1), p);
    let expected = num(p, 1).over(&tiny).over_int(2).plus(&dec(p, "0.25"));
    assert_eq!(near, expected);
    assert_eq!(
        rho_hp_with_guard(&num(p, 1), &guard, &num(p, 3), &num(p, 2), p),
        dec(p, "0.75")
    );
}

#[test]
fn quadrature_grows_with_the_mode() {
    let mut cfg = HighPrecConfig::for_decimal_digits(40);
    cfg.precision_bits = 200;
    cfg.quad_points = 102;
    let points = quadrature_points_per_mode(4, &cfg);
    assert_eq!(points, vec![102, 103, 106, 109, 112]);
    assert_eq!(distinct_quadrature_points(&vec![5, 5, 7, 9, 9]), vec![5, 7, 9]);
    assert_eq!(band_quadrature_points(4, &cfg), 102);
    assert_eq!(band_quadrature_points(40, &cfg), 384);
}

fn small_integrals(p: u32) -> ComputedArchimedeanIntegrals {
    ComputedArchimedeanIntegrals {
        alpha: decs(p, &["0", "0.25"]),
        beta: decs(p, &["0.5", "0.125"]),
        gamma: decs(p, &["3", "4"]),
    }
}

#[test]
fn components_add_up_to_the_form() {
    let p = 192;
    let pi = dec(p, PI);
    let l = dec(p, LN_13);
    let integrals = small_integrals(p);
    assert_eq!(signed_alpha(&integrals.alpha, -1, p), dec(p, "-0.25"));
    assert!(signed_alpha(&integrals.alpha, 7, p).is_zero());
    let tables = kernels(1, &pi, &l, p);
    let with =
        build_tau_components(1, &pi, &l, &num(p, 1), &integrals, Some(&tables), p);
    let without = build_tau_components(1, &pi, &l, &num(p, 1), &integrals, None, p);
    assert!(without.prime.iter().all(|v| v.is_zero()));
    assert!(matrix_is_exactly_symmetric(&with.archimedean, 3));
    assert!(matrix_is_exactly_symmetric(&with.prime, 3));
    let tau = assemble_tau_components(&with, p);
    for i in 0..9 {
        assert_eq!(
            tau[i],
            with.pole[i].minus(&with.archimedean[i]).minus(&with.prime[i])
        );
    }
}

#[test]
fn eigenvectors_are_normalized_to_the_square_root_of_the_length() {
    let p = 192;
    let l = num(p, 9);
    let scaled = normalize_eigenvector(&vec![num(p, 1), num(p, 2), num(p, 1)], &l, p);
    assert_eq!(scaled, decs(p, &["0.75", "1.5", "0.75"]));
}

#[test]
fn exact_fractional_lambda_squared_drives_hp_assembly_and_evidence() {
    let integer = ExactLambdaSquaredHp::new(Decimal::parse("13").unwrap(), 13).unwrap();
    assert_eq!(integer.mode, LambdaSquaredMode::Integer);

    let fractional = ExactLambdaSquaredHp::new(
        Decimal::parse("13.0000000000000000000000000000000000001").unwrap(),
        13,
    )
    .unwrap();
    assert_eq!(fractional.mode, LambdaSquaredMode::Fractional);
    assert!(ExactLambdaSquaredHp::new(Decimal::parse("14.1").unwrap(), 13).is_err());

    let mut cfg = HighPrecConfig::for_decimal_digits(50);
    cfg.quad_points = 96;
    let p = cfg.precision_bits;
    let components = ComputedCcmMatrixComponents {
        pole: vec![num(p, 7)],
        archimedean: vec![num(p, 2)],
        prime: vec![num(p, 1)],
    };
    let exact = localized_weil_form_exact_hp(fractional, 0, &cfg, true, &components);
    assert_eq!(exact.matrix.len(), 1);
    assert_eq!(exact.matrix[0], num(p, 4));
    assert_eq!(exact.evidence.n_modes, 0);
    assert_eq!(exact.evidence.precision_bits, cfg.precision_bits);
    assert_eq!(exact.evidence.lambda_squared.prime_cutoff, 13);
    assert_eq!(
        exact.evidence.lambda_squared.decimal.as_str(),
        "13.0000000000000000000000000000000000001"
    );
    assert_eq!(exact.evidence.prime_content.len(), 9);
    assert_eq!(exact.evidence.prime_content.last().unwrap().power, 13);
    assert!(check_lambda_squared(&num(p, 0)).is_err());
    assert!(check_lambda_squared(&dec(p, "1.5")).is_ok());
}

#[test]
fn ccm_domain_planner_selects_guarded_hp_low_mode_route() {
    let request = CcmLowModeSolverRequest {
        matrix_dimension: 5,
        requested_modes: 2,
        assurance: AssuranceLevel::Computed,
        matrix_materialized: true,
    };
    let planner = CcmLowModeSolverPlanner;
    assert_eq!(planner.domain_id(), "ccm_weil_low_modes");
    let input = planner.solver_input(&request);
    assert!(input.smallest_magnitude);
    assert!(!input.generalized);
    assert_eq!(input.dimension, 5);
    assert_eq!(input.requested_eigenpairs, 2);
    assert!(!planner.planning_rationale(&request).is_empty());
}

#[test]
fn band_matrices_are_symmetric_sums_over_the_nodes() {
    let p = 160;
    let pi = dec(p, PI);
    let l = dec(p, LN_13);
    let omega = num(p, 15);
    let nodes = decs(p, &["-0.5", "0.25"]);
    let weights = decs(p, &["1", "0.5"]);
    let sines: Vec<Vec<HpFloat>> = nodes
        .iter()
        .map(|node| band_arguments(1, &pi, &l, &omega, node, p).iter().map(sin).collect())
        .collect();
    let band = band_concentration_matrix(1, &pi, &l, &omega, &nodes, &weights, &sines, p);
    assert!(matrix_is_exactly_symmetric(&band, 3));
    assert!(band.iter().all(|v| v.is_finite()));
    assert_eq!(sinc_hp(&num(p, 0), &num(p, 0), p), num(p, 1));
    assert_eq!(sinc_hp(&num(p, 4), &num(p, 2), p), dec(p, "0.5"));
}

#[test]
fn deflation_lifts_the_dropped_modes() {
    let p = 128;
    let m: Vec<HpFloat> = [1, 0, 0, 2].iter().map(|v| num(p, *v)).collect();
    let lifted = deflate_form(&m, &vec![vec![num(p, 1), num(p, 0)]], 2, p);
    assert!(num(p, 2).lt(&lifted[0]));
    assert_eq!(lifted[3], num(p, 2));
    assert!(lifted[1].is_zero());
    assert_eq!(dropped_modes(9, 5), 5);
    assert_eq!(dropped_modes(2, 5), 2);
    assert_eq!(concentrated_position(5, 0), 4);
    let split = plunge_cancellation(dec(p, "0.25"), num(p, 3), p);
    assert_eq!(split.eps_n, dec(p, "0.25"));
    assert_eq!(split.arch_rayleigh.minus(&split.prime_rayleigh), split.eps_n);
    assert_eq!(plunge_eigenvalue(&vec![num(p, 4), num(p, 5)]).unwrap(), num(p, 4));
    assert!(plunge_eigenvalue(&vec![]).is_err());
}
