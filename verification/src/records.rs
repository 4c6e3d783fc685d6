//! Records of computed parts: how each is written, and that what was written reads back.

use crate::assembly::{ComputedArchimedeanIntegrals, IntegralsView};
use crate::components::{
    block_identity_holds, even_block_reading, integrals_reading, odd_block_reading,
    prime_identity_holds, prime_reading, structural_fault, tau_reading,
    PortableArchimedeanIntegrals, PortablePrimeComponent, PortableSectorMatrix, PortableTauMatrix,
    TauRejectionView,
};
use crate::config::{
    lambda_squared_cache_identity, CcmParams, CcmParity, CcmSectorEigenvalueRoute, HighPrecConfig,
};
use crate::eigenvalues::{
    eigenvalues_identity_holds, eigenvalues_reading, enclosure_count, enclosures_reading, escapes,
    first_unseparated, spectrum_keeps_invariants, stored_enclosures, value_count, CountsView,
    EigenvalueEnclosure, EigenvaluesView, EnclosureView, PortableSectorEigenvalueEnclosure,
    PortableSectorEigenvalues, SectorEigenvaluesHp, StoredEnclosure,
};
use crate::factorization::{factors_reading, LuFactors, PortableLuFactorization};
use crate::float::HpFloat;
use crate::identity::copy_ordinals;
use crate::matrix::{all_finite, symmetric, vals};
use crate::payload::{
    finite_vector, names_source, readings, scalars, strings, HpScalar, ScalarView,
};
use crate::primes::prime_powers_up_to;
use crate::rounding::{class_order, HpValue};
use crate::sector::{even_sector, odd_sector};
use crate::spectrum::{
    pair_tolerance, pairs_reading, residual_norm, spectrum_identity_holds, spectrum_reading,
    CcmSectorGapHp, CcmSectorSpectrumHp, EigenpairView, PortableSectorGap, PortableSectorSpectrum,
    SpectrumView,
};
use crate::tridiagonal::{
    all_equal, transform_fault, transform_reading, tridiagonal_reading, PortableSectorTransform,
    PortableSectorTridiagonal, SectorTransformHp, SectorTridiagonalHp, TransformRejectionView,
    TridiagonalView,
};
use vstd::prelude::*;
use vstd::string::*;

verus! {

/// Values with their texts, as they are stored.
pub open spec fn written(values: Seq<HpValue>, texts: Seq<Seq<char>>) -> Seq<ScalarView> {
    Seq::new(
        values.len(),
        |i: int| ScalarView { text: texts[i], reading: Ok::<HpValue, Seq<char>>(values[i]) },
    )
}

/// Stores values with their texts.
pub fn write_values(values: &Vec<HpFloat>, texts: &Vec<String>) -> (r: Vec<HpScalar>)
    requires
        texts.len() == values.len(),
    ensures
        scalars(r@) == written(vals(values@), strings(texts@)),
{
    let mut out: Vec<HpScalar> = Vec::with_capacity(values.len());
    let mut i: usize = 0;
    while i < values.len()
        invariant
            i <= values.len(),
            texts.len() == values.len(),
            out.len() == i,
            forall|k: int|
                0 <= k < i ==> (#[trigger] out@[k])@ == (ScalarView {
                    text: texts@[k]@,
                    reading: Ok::<HpValue, Seq<char>>(values@[k]@),
                }),
        decreases values.len() - i,
    {
        out.push(HpScalar::written(texts[i].clone(), &values[i]));
        i = i + 1;
    }
    assert(scalars(out@) =~= written(vals(values@), strings(texts@)));
    out
}

/// Finite values that are written read back.
pub proof fn law_written_values_read_back(values: Seq<HpValue>, texts: Seq<Seq<char>>)
    requires
        all_finite(values),
    ensures
        finite_vector(written(values, texts), values.len()) == Ok::<Seq<HpValue>, Seq<char>>(values),
{
    lemma_written_prefix(values, texts, values.len());
    assert(values.take(values.len() as int) =~= values);
}

proof fn lemma_written_prefix(values: Seq<HpValue>, texts: Seq<Seq<char>>, n: nat)
    requires
        all_finite(values),
        n <= values.len(),
    ensures
        finite_vector(written(values, texts), n) == Ok::<Seq<HpValue>, Seq<char>>(
            values.take(n as int),
        ),
    decreases n,
{
    if n > 0 {
        lemma_written_prefix(values, texts, (n - 1) as nat);
        assert(values[n - 1].is_finite());
        assert(values.take(n as int) =~= values.take(n - 1).push(values[n - 1]));
    } else {
        assert(values.take(0) =~= Seq::<HpValue>::empty());
    }
}

proof fn lemma_written_readings(words: Seq<char>, values: Seq<HpValue>, texts: Seq<Seq<char>>, n: nat)
    requires
        n <= values.len(),
    ensures
        readings(words, written(values, texts), n) == Ok::<Seq<HpValue>, Seq<char>>(
            values.take(n as int),
        ),
    decreases n,
{
    if n > 0 {
        lemma_written_readings(words, values, texts, (n - 1) as nat);
        assert(values.take(n as int) =~= values.take(n - 1).push(values[n - 1]));
    } else {
        assert(values.take(0) =~= Seq::<HpValue>::empty());
    }
}

/// The record of a form.
pub fn portable_tau_matrix(
    params: &CcmParams,
    cfg: &HighPrecConfig,
    tau: &Vec<HpFloat>,
    texts: &Vec<String>,
) -> (r: PortableTauMatrix)
    requires
        texts.len() == tau.len(),
    ensures
        r.schema_version == 2,
        names_source(r.lambda_squared@, r.n_modes, r.precision_bits, *params, *cfg),
        scalars(r.entries@) == written(vals(tau@), strings(texts@)),
{
    PortableTauMatrix {
        schema_version: 2,
        lambda_squared: lambda_squared_cache_identity(params),
        n_modes: params.n_modes,
        precision_bits: cfg.precision_bits,
        entries: write_values(tau, texts),
    }
}

/// A form without structural fault that is recorded reads back.
pub proof fn law_recorded_form_reads_back(
    a: PortableTauMatrix,
    params: CcmParams,
    cfg: HighPrecConfig,
    tau: Seq<HpValue>,
    texts: Seq<Seq<char>>,
)
    requires
        a.schema_version == 2,
        names_source(a.lambda_squared@, a.n_modes, a.precision_bits, params, cfg),
        scalars(a.entries@) == written(tau, texts),
        tau.len() == (2 * params.n_modes + 1) * (2 * params.n_modes + 1),
        structural_fault(tau, params.n_modes as int, cfg.precision_bits as nat) is None,
    ensures
        tau_reading(a, params, cfg.precision_bits) == Ok::<Seq<HpValue>, TauRejectionView>(tau),
{
    assert(scalars(a.entries@).len() == a.entries@.len());
    lemma_written_readings(
        "CCM tau payload contains an invalid HP scalar: "@,
        tau,
        texts,
        tau.len(),
    );
    assert(tau.take(tau.len() as int) =~= tau);
}

/// The record of archimedean integrals.
pub fn portable_archimedean_integrals(
    params: &CcmParams,
    cfg: &HighPrecConfig,
    integrals: &ComputedArchimedeanIntegrals,
    alpha_texts: &Vec<String>,
    beta_texts: &Vec<String>,
    gamma_texts: &Vec<String>,
) -> (r: PortableArchimedeanIntegrals)
    requires
        alpha_texts.len() == integrals.alpha.len(),
        beta_texts.len() == integrals.beta.len(),
        gamma_texts.len() == integrals.gamma.len(),
    ensures
        r.schema_version == 1,
        names_source(r.lambda_squared@, r.n_modes, r.precision_bits, *params, *cfg),
        scalars(r.alpha@) == written(vals(integrals.alpha@), strings(alpha_texts@)),
        scalars(r.beta@) == written(vals(integrals.beta@), strings(beta_texts@)),
        scalars(r.gamma@) == written(vals(integrals.gamma@), strings(gamma_texts@)),
{
    PortableArchimedeanIntegrals {
        schema_version: 1,
        lambda_squared: lambda_squared_cache_identity(params),
        n_modes: params.n_modes,
        precision_bits: cfg.precision_bits,
        alpha: write_values(&integrals.alpha, alpha_texts),
        beta: write_values(&integrals.beta, beta_texts),
        gamma: write_values(&integrals.gamma, gamma_texts),
    }
}

/// Finite integrals, one of each per nonnegative mode, that are recorded read back.
pub proof fn law_recorded_integrals_read_back(
    a: PortableArchimedeanIntegrals,
    params: CcmParams,
    cfg: HighPrecConfig,
    integrals: IntegralsView,
    alpha_texts: Seq<Seq<char>>,
    beta_texts: Seq<Seq<char>>,
    gamma_texts: Seq<Seq<char>>,
)
    requires
        a.schema_version == 1,
        names_source(a.lambda_squared@, a.n_modes, a.precision_bits, params, cfg),
        scalars(a.alpha@) == written(integrals.alpha, alpha_texts),
        scalars(a.beta@) == written(integrals.beta, beta_texts),
        scalars(a.gamma@) == written(integrals.gamma, gamma_texts),
        all_finite(integrals.alpha),
        all_finite(integrals.beta),
        all_finite(integrals.gamma),
        integrals.alpha.len() == params.n_modes + 1,
        integrals.beta.len() == params.n_modes + 1,
        integrals.gamma.len() == params.n_modes + 1,
    ensures
        integrals_reading(a, params, cfg) == Ok::<IntegralsView, Seq<char>>(integrals),
{
    assert(scalars(a.alpha@).len() == a.alpha@.len());
    assert(scalars(a.beta@).len() == a.beta@.len());
    assert(scalars(a.gamma@).len() == a.gamma@.len());
    law_written_values_read_back(integrals.alpha, alpha_texts);
    law_written_values_read_back(integrals.beta, beta_texts);
    law_written_values_read_back(integrals.gamma, gamma_texts);
}

/// The record of a prime component.
pub fn portable_prime_component(
    params: &CcmParams,
    cfg: &HighPrecConfig,
    entries: &Vec<HpFloat>,
    texts: &Vec<String>,
) -> (r: PortablePrimeComponent)
    requires
        texts.len() == entries.len(),
        entries@.len() == (2 * params.n_modes + 1) * (2 * params.n_modes + 1),
    ensures
        prime_identity_holds(r, *params, *cfg),
        scalars(r.entries@) == written(vals(entries@), strings(texts@)),
{
    let entries: Vec<HpScalar> = write_values(entries, texts);
    assert(scalars(entries@).len() == entries@.len());
    PortablePrimeComponent {
        schema_version: 1,
        lambda_squared: lambda_squared_cache_identity(params),
        prime_cutoff: params.lambda_sq_int(),
        n_modes: params.n_modes,
        precision_bits: cfg.precision_bits,
        prime_content: prime_powers_up_to(params.lambda_sq_int()),
        entries,
    }
}

/// A finite symmetric prime component that is recorded reads back.
pub proof fn law_recorded_primes_read_back(
    a: PortablePrimeComponent,
    params: CcmParams,
    cfg: HighPrecConfig,
    entries: Seq<HpValue>,
    texts: Seq<Seq<char>>,
)
    requires
        prime_identity_holds(a, params, cfg),
        scalars(a.entries@) == written(entries, texts),
        all_finite(entries),
        symmetric(entries, 2 * params.n_modes + 1),
    ensures
        prime_reading(a, params, cfg) == Ok::<Seq<HpValue>, Seq<char>>(entries),
{
    assert(scalars(a.entries@).len() == a.entries@.len());
    law_written_values_read_back(entries, texts);
}

/// The record of a parity block.
pub fn portable_sector_matrix(
    params: &CcmParams,
    cfg: &HighPrecConfig,
    dimension: usize,
    entries: &Vec<HpFloat>,
    texts: &Vec<String>,
) -> (r: PortableSectorMatrix)
    requires
        texts.len() == entries.len(),
        entries@.len() == dimension * dimension,
    ensures
        block_identity_holds(r, *params, *cfg, dimension as int),
        scalars(r.entries@) == written(vals(entries@), strings(texts@)),
{
    let entries: Vec<HpScalar> = write_values(entries, texts);
    assert(scalars(entries@).len() == entries@.len());
    PortableSectorMatrix {
        schema_version: 1,
        lambda_squared: lambda_squared_cache_identity(params),
        n_modes: params.n_modes,
        precision_bits: cfg.precision_bits,
        dimension,
        entries,
    }
}

proof fn lemma_finite_agrees(v: Seq<HpValue>)
    requires
        all_finite(v),
    ensures
        all_equal(v, v),
{
    reveal(class_order);
    assert forall|i: int| 0 <= i < v.len() implies (#[trigger] v[i]).eqv(v[i]) by {
        assert(v[i].is_finite());
    }
}

/// The even block of a form, where it is finite, reads back from its record.
pub proof fn law_recorded_even_block_reads_back(
    a: PortableSectorMatrix,
    params: CcmParams,
    cfg: HighPrecConfig,
    tau: Seq<HpValue>,
    texts: Seq<Seq<char>>,
)
    requires
        block_identity_holds(a, params, cfg, params.n_modes + 1),
        scalars(a.entries@) == written(
            even_sector(tau, params.n_modes as int, cfg.precision_bits as nat),
            texts,
        ),
        all_finite(even_sector(tau, params.n_modes as int, cfg.precision_bits as nat)),
    ensures
        even_block_reading(a, params, cfg, tau) == Ok::<Seq<HpValue>, Seq<char>>(
            even_sector(tau, params.n_modes as int, cfg.precision_bits as nat),
        ),
{
    let block = even_sector(tau, params.n_modes as int, cfg.precision_bits as nat);
    assert(scalars(a.entries@).len() == a.entries@.len());
    law_written_values_read_back(block, texts);
    lemma_finite_agrees(block);
}

/// The odd block of a form, where it is finite and symmetric, reads back from its record.
pub proof fn law_recorded_odd_block_reads_back(
    a: PortableSectorMatrix,
    params: CcmParams,
    cfg: HighPrecConfig,
    tau: Seq<HpValue>,
    texts: Seq<Seq<char>>,
)
    requires
        block_identity_holds(a, params, cfg, params.n_modes as int),
        scalars(a.entries@) == written(odd_sector(tau, params.n_modes as int), texts),
        all_finite(odd_sector(tau, params.n_modes as int)),
        symmetric(odd_sector(tau, params.n_modes as int), params.n_modes as int),
    ensures
        odd_block_reading(a, params, cfg, tau) == Ok::<Seq<HpValue>, Seq<char>>(
            odd_sector(tau, params.n_modes as int),
        ),
{
    let block = odd_sector(tau, params.n_modes as int);
    assert(scalars(a.entries@).len() == a.entries@.len());
    law_written_values_read_back(block, texts);
    lemma_finite_agrees(block);
}

/// The record of a tridiagonal reduction.
pub fn portable_sector_tridiagonal(
    params: &CcmParams,
    cfg: &HighPrecConfig,
    parity: CcmParity,
    dimension: usize,
    tridiagonal: &SectorTridiagonalHp,
    diagonal_texts: &Vec<String>,
    off_diagonal_texts: &Vec<String>,
) -> (r: PortableSectorTridiagonal)
    requires
        diagonal_texts.len() == tridiagonal.diagonal.len(),
        off_diagonal_texts.len() == tridiagonal.off_diagonal.len(),
    ensures
        r.schema_version == 1,
        names_source(r.lambda_squared@, r.n_modes, r.precision_bits, *params, *cfg),
        r.parity == parity,
        r.dimension == dimension,
        scalars(r.diagonal@) == written(tridiagonal@.diagonal, strings(diagonal_texts@)),
        scalars(r.off_diagonal@) == written(tridiagonal@.off_diagonal, strings(off_diagonal_texts@)),
{
    PortableSectorTridiagonal {
        schema_version: 1,
        lambda_squared: lambda_squared_cache_identity(params),
        n_modes: params.n_modes,
        precision_bits: cfg.precision_bits,
        parity,
        dimension,
        diagonal: write_values(&tridiagonal.diagonal, diagonal_texts),
        off_diagonal: write_values(&tridiagonal.off_diagonal, off_diagonal_texts),
    }
}

/// A finite reduction that is recorded reads back.
pub proof fn law_recorded_tridiagonal_reads_back(
    a: PortableSectorTridiagonal,
    params: CcmParams,
    cfg: HighPrecConfig,
    parity: CcmParity,
    dimension: int,
    t: TridiagonalView,
    diagonal_texts: Seq<Seq<char>>,
    off_diagonal_texts: Seq<Seq<char>>,
)
    requires
        a.schema_version == 1,
        names_source(a.lambda_squared@, a.n_modes, a.precision_bits, params, cfg),
        a.parity == parity,
        a.dimension == dimension,
        scalars(a.diagonal@) == written(t.diagonal, diagonal_texts),
        scalars(a.off_diagonal@) == written(t.off_diagonal, off_diagonal_texts),
        t.fits(dimension),
        all_finite(t.diagonal),
        all_finite(t.off_diagonal),
    ensures
        tridiagonal_reading(a, params, cfg, parity, dimension) == Ok::<TridiagonalView, Seq<char>>(
            t,
        ),
{
    assert(scalars(a.diagonal@).len() == a.diagonal@.len());
    assert(scalars(a.off_diagonal@).len() == a.off_diagonal@.len());
    law_written_values_read_back(t.diagonal, diagonal_texts);
    law_written_values_read_back(t.off_diagonal, off_diagonal_texts);
}

/// The record of a basis.
pub fn portable_sector_transform(
    params: &CcmParams,
    cfg: &HighPrecConfig,
    parity: CcmParity,
    dimension: usize,
    transform: &SectorTransformHp,
    texts: &Vec<String>,
) -> (r: PortableSectorTransform)
    requires
        texts.len() == transform.basis.len(),
    ensures
        r.schema_version == 1,
        names_source(r.lambda_squared@, r.n_modes, r.precision_bits, *params, *cfg),
        r.parity == parity,
        r.dimension == dimension,
        scalars(r.basis@) == written(vals(transform.basis@), strings(texts@)),
{
    PortableSectorTransform {
        schema_version: 1,
        lambda_squared: lambda_squared_cache_identity(params),
        n_modes: params.n_modes,
        precision_bits: cfg.precision_bits,
        parity,
        dimension,
        basis: write_values(&transform.basis, texts),
    }
}

/// A finite basis without fault that is recorded reads back.
pub proof fn law_recorded_transform_reads_back(
    a: PortableSectorTransform,
    params: CcmParams,
    cfg: HighPrecConfig,
    parity: CcmParity,
    dimension: int,
    matrix: Seq<HpValue>,
    t: TridiagonalView,
    basis: Seq<HpValue>,
    texts: Seq<Seq<char>>,
)
    requires
        a.schema_version == 1,
        names_source(a.lambda_squared@, a.n_modes, a.precision_bits, params, cfg),
        a.parity == parity,
        a.dimension == dimension,
        scalars(a.basis@) == written(basis, texts),
        basis.len() == dimension * dimension,
        all_finite(basis),
        transform_fault(matrix, t, basis, dimension, cfg.precision_bits as nat) is None,
    ensures
        transform_reading(a, params, cfg, parity, dimension, matrix, t) == Ok::<
            Seq<HpValue>,
            TransformRejectionView,
        >(basis),
{
    assert(scalars(a.basis@).len() == a.basis@.len());
    law_written_values_read_back(basis, texts);
}

/// The texts of an enclosure.
#[derive(Debug)]
pub struct EnclosureTexts {
    pub lower: String,
    pub upper: String,
}

/// An enclosure with the texts of its ends, as it is stored.
pub open spec fn written_enclosure(e: EigenvalueEnclosure, t: EnclosureTexts) -> StoredEnclosure {
    StoredEnclosure {
        index: e.index as nat,
        lower: ScalarView { text: t.lower@, reading: Ok::<HpValue, Seq<char>>(e.lower@) },
        upper: ScalarView { text: t.upper@, reading: Ok::<HpValue, Seq<char>>(e.upper@) },
        lower_count: e.lower_count as nat,
        upper_count: e.upper_count as nat,
        iterations: e.iterations as nat,
    }
}

/// The record of the eigenvalues of a block.
pub fn portable_sector_eigenvalues(
    values: &SectorEigenvaluesHp,
    params: &CcmParams,
    cfg: &HighPrecConfig,
    parity: CcmParity,
    dimension: usize,
    requested_eigenvalues: usize,
    texts: &Vec<String>,
    enclosure_texts: &Vec<EnclosureTexts>,
) -> (r: PortableSectorEigenvalues)
    requires
        texts.len() == values.values.len(),
        enclosure_texts.len() == values.selected_enclosures.len(),
    ensures
        r.schema_version == 1,
        names_source(r.lambda_squared@, r.n_modes, r.precision_bits, *params, *cfg),
        r.parity == parity,
        r.dimension == dimension,
        r.route == values.route,
        r.complete == values.complete,
        r.requested_eigenvalues == requested_eigenvalues,
        scalars(r.eigenvalues@) == written(vals(values.values@), strings(texts@)),
        stored_enclosures(r.selected_enclosures@) == Seq::new(
            values.selected_enclosures@.len(),
            |i: int| written_enclosure(values.selected_enclosures@[i], enclosure_texts@[i]),
        ),
        values.complete == !(values.route is Selected) && values.values@.len() == value_count(
            values.route,
            requested_eigenvalues as int,
            dimension as int,
        ) && values.selected_enclosures@.len() == enclosure_count(
            values.route,
            requested_eigenvalues as int,
        ) ==> eigenvalues_identity_holds(
            r,
            *params,
            *cfg,
            parity,
            dimension as int,
            requested_eigenvalues as int,
            values.route,
        ),
{
    let mut enclosures: Vec<PortableSectorEigenvalueEnclosure> = Vec::with_capacity(
        values.selected_enclosures.len(),
    );
    let mut i: usize = 0;
    while i < values.selected_enclosures.len()
        invariant
            i <= values.selected_enclosures.len(),
            enclosure_texts.len() == values.selected_enclosures.len(),
            enclosures.len() == i,
            forall|k: int|
                0 <= k < i ==> (#[trigger] enclosures@[k])@ == written_enclosure(
                    values.selected_enclosures@[k],
                    enclosure_texts@[k],
                ),
        decreases values.selected_enclosures.len() - i,
    {
        let e: &EigenvalueEnclosure = &values.selected_enclosures[i];
        enclosures.push(
            PortableSectorEigenvalueEnclosure {
                index: e.index,
                lower: HpScalar::written(enclosure_texts[i].lower.clone(), &e.lower),
                upper: HpScalar::written(enclosure_texts[i].upper.clone(), &e.upper),
                lower_count: e.lower_count,
                upper_count: e.upper_count,
                iterations: e.iterations,
            },
        );
        i = i + 1;
    }
    assert(stored_enclosures(enclosures@) =~= Seq::new(
        values.selected_enclosures@.len(),
        |k: int| written_enclosure(values.selected_enclosures@[k], enclosure_texts@[k]),
    ));
    let eigenvalues: Vec<HpScalar> = write_values(&values.values, texts);
    assert(scalars(eigenvalues@).len() == eigenvalues@.len());
    assert(stored_enclosures(enclosures@).len() == enclosures@.len());
    PortableSectorEigenvalues {
        schema_version: 1,
        lambda_squared: lambda_squared_cache_identity(params),
        n_modes: params.n_modes,
        precision_bits: cfg.precision_bits,
        parity,
        dimension,
        route: values.route,
        complete: values.complete,
        requested_eigenvalues,
        eigenvalues,
        selected_enclosures: enclosures,
    }
}

/// The texts of an eigenpair.
#[derive(Debug)]
pub struct EigenpairTextForms {
    pub eigenvalue: String,
    pub eigenvector: Vec<String>,
    pub residual: String,
}

/// The record of the low spectrum of a block.
pub fn portable_sector_spectrum(
    spectrum: &CcmSectorSpectrumHp,
    params: &CcmParams,
    cfg: &HighPrecConfig,
    texts: &Vec<EigenpairTextForms>,
) -> (r: PortableSectorSpectrum)
    requires
        texts.len() == spectrum.eigenpairs.len(),
        forall|i: int|
            0 <= i < texts@.len() ==> (#[trigger] texts@[i]).eigenvector@.len()
                == spectrum.eigenpairs@[i].eigenvector@.len(),
    ensures
        spectrum_identity_holds(
            r,
            *params,
            *cfg,
            spectrum.parity,
            spectrum.eigenvalue_route,
            spectrum.dimension as int,
            spectrum.eigenpairs@.len() as int,
        ),
        forall|i: int|
            0 <= i < spectrum.eigenpairs@.len() ==> {
                let pair = spectrum.eigenpairs@[i];
                &&& (#[trigger] r.eigenvalues@[i])@ == (ScalarView {
                    text: texts@[i].eigenvalue@,
                    reading: Ok::<HpValue, Seq<char>>(pair.eigenvalue@),
                })
                &&& scalars(r.eigenvectors@[i]@) == written(
                    vals(pair.eigenvector@),
                    strings(texts@[i].eigenvector@),
                )
                &&& r.residual_norms@[i]@ == (ScalarView {
                    text: texts@[i].residual@,
                    reading: Ok::<HpValue, Seq<char>>(pair.residual_norm@),
                })
            },
{
    let mut eigenvalues: Vec<HpScalar> = Vec::with_capacity(texts.len());
    let mut eigenvectors: Vec<Vec<HpScalar>> = Vec::with_capacity(texts.len());
    let mut residual_norms: Vec<HpScalar> = Vec::with_capacity(texts.len());
    let mut i: usize = 0;
    while i < texts.len()
        invariant
            i <= texts.len(),
            texts.len() == spectrum.eigenpairs.len(),
            forall|k: int|
                0 <= k < texts@.len() ==> (#[trigger] texts@[k]).eigenvector@.len()
                    == spectrum.eigenpairs@[k].eigenvector@.len(),
            eigenvalues.len() == i,
            eigenvectors.len() == i,
            residual_norms.len() == i,
            forall|k: int|
                0 <= k < i ==> {
                    let pair = spectrum.eigenpairs@[k];
                    &&& (#[trigger] eigenvalues@[k])@ == (ScalarView {
                        text: texts@[k].eigenvalue@,
                        reading: Ok::<HpValue, Seq<char>>(pair.eigenvalue@),
                    })
                    &&& scalars(eigenvectors@[k]@) == written(
                        vals(pair.eigenvector@),
                        strings(texts@[k].eigenvector@),
                    )
                    &&& residual_norms@[k]@ == (ScalarView {
                        text: texts@[k].residual@,
                        reading: Ok::<HpValue, Seq<char>>(pair.residual_norm@),
                    })
                },
        decreases texts.len() - i,
    {
        assert(texts@[i as int].eigenvector@.len() == spectrum.eigenpairs@[i as int].eigenvector@.len());
        eigenvalues.push(
            HpScalar::written(texts[i].eigenvalue.clone(), &spectrum.eigenpairs[i].eigenvalue),
        );
        eigenvectors.push(
            write_values(&spectrum.eigenpairs[i].eigenvector, &texts[i].eigenvector),
        );
        residual_norms.push(
            HpScalar::written(texts[i].residual.clone(), &spectrum.eigenpairs[i].residual_norm),
        );
        i = i + 1;
    }
    PortableSectorSpectrum {
        schema_version: 1,
        lambda_squared: lambda_squared_cache_identity(params),
        n_modes: params.n_modes,
        precision_bits: cfg.precision_bits,
        parity: spectrum.parity,
        eigenvalue_route: spectrum.eigenvalue_route,
        dimension: spectrum.dimension,
        requested_eigenpairs: spectrum.eigenpairs.len(),
        eigenvalues,
        eigenvectors,
        residual_norms,
    }
}

/// Scalars that read as finite values.
proof fn lemma_finite_scalars(s: Seq<ScalarView>, v: Seq<HpValue>, n: nat)
    requires
        n <= s.len(),
        s.len() == v.len(),
        all_finite(v),
        forall|i: int| 0 <= i < s.len() ==> (#[trigger] s[i]).reading == Ok::<HpValue, Seq<char>>(v[i]),
    ensures
        finite_vector(s, n) == Ok::<Seq<HpValue>, Seq<char>>(v.take(n as int)),
    decreases n,
{
    if n > 0 {
        lemma_finite_scalars(s, v, (n - 1) as nat);
        assert(v[n - 1].is_finite());
        assert(s[n - 1].reading == Ok::<HpValue, Seq<char>>(v[n - 1]));
        assert(v.take(n as int) =~= v.take(n - 1).push(v[n - 1]));
    } else {
        assert(v.take(0) =~= Seq::<HpValue>::empty());
    }
}

/// The eigenvalues of pairs.
pub open spec fn pair_values(pairs: Seq<EigenpairView>) -> Seq<HpValue> {
    Seq::new(pairs.len(), |i: int| pairs[i].eigenvalue)
}

/// The residuals of pairs.
pub open spec fn pair_residuals(pairs: Seq<EigenpairView>) -> Seq<HpValue> {
    Seq::new(pairs.len(), |i: int| pairs[i].residual)
}

/// Whether a stored spectrum holds pairs.
pub open spec fn stores_pairs(a: PortableSectorSpectrum, pairs: Seq<EigenpairView>) -> bool {
    &&& a.eigenvalues@.len() == pairs.len()
    &&& a.eigenvectors@.len() == pairs.len()
    &&& a.residual_norms@.len() == pairs.len()
    &&& forall|i: int|
        0 <= i < pairs.len() ==> {
            &&& (#[trigger] a.eigenvalues@[i])@.reading == Ok::<HpValue, Seq<char>>(
                pairs[i].eigenvalue,
            )
            &&& exists|texts: Seq<Seq<char>>|
                scalars(a.eigenvectors@[i]@) == #[trigger] written(pairs[i].eigenvector, texts)
            &&& a.residual_norms@[i]@.reading == Ok::<HpValue, Seq<char>>(pairs[i].residual)
        }
}

/// Whether a pair solves a block: its residual is the one that is measured, it is within the
/// tolerance, and everything is finite.
pub open spec fn pair_solves(x: EigenpairView, index: int, m: Seq<HpValue>, dim: int, p: nat) -> bool {
    &&& x.index == index
    &&& x.eigenvalue.is_finite()
    &&& x.eigenvector.len() == dim
    &&& all_finite(x.eigenvector)
    &&& x.residual == residual_norm(m, dim, x.eigenvalue, x.eigenvector, p)
    &&& x.residual.is_finite()
    &&& !pair_tolerance(p).lt(x.residual)
}

proof fn lemma_pairs_read_back(
    a: PortableSectorSpectrum,
    pairs: Seq<EigenpairView>,
    m: Seq<HpValue>,
    dim: int,
    p: nat,
    n: nat,
)
    requires
        n <= pairs.len(),
        stores_pairs(a, pairs),
        m.len() == dim * dim,
        forall|i: int| 0 <= i < pairs.len() ==> pair_solves(#[trigger] pairs[i], i, m, dim, p),
    ensures
        pairs_reading(a.eigenvectors@, pair_values(pairs), pair_residuals(pairs), m, dim, p, n) == Ok::<
            Seq<EigenpairView>,
            Seq<char>,
        >(pairs.take(n as int)),
    decreases n,
{
    if n > 0 {
        let i = n - 1;
        lemma_pairs_read_back(a, pairs, m, dim, p, i as nat);
        assert(pair_solves(pairs[i], i, m, dim, p));
        assert(a.eigenvalues@[i]@.reading == Ok::<HpValue, Seq<char>>(pairs[i].eigenvalue));
        let texts = choose|texts: Seq<Seq<char>>|
            scalars(a.eigenvectors@[i]@) == #[trigger] written(pairs[i].eigenvector, texts);
        law_written_values_read_back(pairs[i].eigenvector, texts);
        reveal(class_order);
        assert(pairs[i].residual.eqv(pairs[i].residual));
        assert(pairs.take(n as int) =~= pairs.take(i).push(pairs[i]));
    } else {
        assert(pairs.take(0) =~= Seq::<EigenpairView>::empty());
    }
}

/// Strictly rising pairs that solve their block read back from their record.
pub proof fn law_recorded_spectrum_reads_back(
    a: PortableSectorSpectrum,
    params: CcmParams,
    cfg: HighPrecConfig,
    parity: CcmParity,
    route: CcmSectorEigenvalueRoute,
    m: Seq<HpValue>,
    dimension: int,
    pairs: Seq<EigenpairView>,
)
    requires
        spectrum_identity_holds(a, params, cfg, parity, route, dimension, pairs.len() as int),
        stores_pairs(a, pairs),
        m.len() == dimension * dimension,
        dimension >= 0,
        first_unseparated(pair_values(pairs), 0) is None,
        forall|i: int|
            0 <= i < pairs.len() ==> pair_solves(
                #[trigger] pairs[i],
                i,
                m,
                dimension,
                cfg.precision_bits as nat,
            ),
    ensures
        spectrum_reading(a, params, cfg, parity, route, m, dimension, pairs.len() as int) == Ok::<
            SpectrumView,
            Seq<char>,
        >(
            (SpectrumView {
                parity,
                dimension: dimension as nat,
                route,
                complete: None,
                pairs,
            }),
        ),
{
    let p = cfg.precision_bits as nat;
    let values = pair_values(pairs);
    let residuals = pair_residuals(pairs);
    assert forall|i: int| 0 <= i < values.len() implies (#[trigger] values[i]).is_finite() by {
        assert(pair_solves(pairs[i], i, m, dimension, p));
    }
    assert forall|i: int| 0 <= i < residuals.len() implies (#[trigger] residuals[i]).is_finite() by {
        assert(pair_solves(pairs[i], i, m, dimension, p));
    }
    assert forall|i: int| 0 <= i < pairs.len() implies (#[trigger] scalars(
        a.residual_norms@,
    )[i]).reading == Ok::<HpValue, Seq<char>>(residuals[i]) by {
        assert(a.eigenvalues@[i]@.reading == Ok::<HpValue, Seq<char>>(pairs[i].eigenvalue));
    }
    lemma_finite_scalars(scalars(a.eigenvalues@), values, values.len());
    lemma_finite_scalars(scalars(a.residual_norms@), residuals, residuals.len());
    assert(values.take(values.len() as int) =~= values);
    assert(residuals.take(residuals.len() as int) =~= residuals);
    lemma_pairs_read_back(a, pairs, m, dimension, p, pairs.len());
    assert(pairs.take(pairs.len() as int) =~= pairs);
}

/// A list of enclosures whose counts replay reads back.
proof fn lemma_enclosures_read_back(
    stored: Seq<StoredEnclosure>,
    found: Seq<EnclosureView>,
    values: Seq<HpValue>,
    counts: Seq<CountsView>,
    n: nat,
)
    requires
        n <= stored.len(),
        stored.len() == found.len(),
        forall|i: int|
            0 <= i < stored.len() ==> enclosure_holds(
                #[trigger] stored[i],
                found[i],
                i,
                values[i],
                counts[i],
            ),
    ensures
        enclosures_reading(stored, values, counts, n) == Ok::<Seq<EnclosureView>, Seq<char>>(
            found.take(n as int),
        ),
    decreases n,
{
    if n > 0 {
        lemma_enclosures_read_back(stored, found, values, counts, (n - 1) as nat);
        assert(enclosure_holds(stored[n - 1], found[n - 1], n - 1, values[n - 1], counts[n - 1]));
        assert(found.take(n as int) =~= found.take(n - 1).push(found[n - 1]));
    } else {
        assert(found.take(0) =~= Seq::<EnclosureView>::empty());
    }
}

/// Whether a stored enclosure is a finite, indexed and nonempty one that holds its value and
/// whose counts replay.
pub open spec fn enclosure_holds(
    s: StoredEnclosure,
    e: EnclosureView,
    index: int,
    value: HpValue,
    counts: CountsView,
) -> bool {
    &&& s.index == e.index && s.lower_count == e.lower_count && s.upper_count == e.upper_count
        && s.iterations == e.iterations
    &&& s.lower.reading == Ok::<HpValue, Seq<char>>(e.lower)
    &&& s.upper.reading == Ok::<HpValue, Seq<char>>(e.upper)
    &&& e.lower.is_finite() && e.upper.is_finite() && !e.upper.le(e.lower)
    &&& e.index == index && e.lower_count <= index < e.upper_count && e.iterations > 0
    &&& !escapes(value, e.lower, e.upper)
    &&& counts.lower == Ok::<nat, Seq<char>>(e.lower_count)
    &&& counts.upper == Ok::<nat, Seq<char>>(e.upper_count)
}

/// Strictly rising finite eigenvalues, with enclosures that hold and, where the list is complete,
/// the invariants of their matrix, read back from their record.
pub proof fn law_recorded_eigenvalues_read_back(
    a: PortableSectorEigenvalues,
    params: CcmParams,
    cfg: HighPrecConfig,
    parity: CcmParity,
    dimension: int,
    requested: int,
    t: TridiagonalView,
    counts: Seq<CountsView>,
    values: Seq<HpValue>,
    found: Seq<EnclosureView>,
    texts: Seq<Seq<char>>,
)
    requires
        eigenvalues_identity_holds(a, params, cfg, parity, dimension, requested, a.route),
        scalars(a.eigenvalues@) == written(values, texts),
        all_finite(values),
        first_unseparated(values, 0) is None,
        found.len() == a.selected_enclosures@.len(),
        forall|i: int|
            0 <= i < found.len() ==> enclosure_holds(
                #[trigger] stored_enclosures(a.selected_enclosures@)[i],
                found[i],
                i,
                values[i],
                counts[i],
            ),
        a.complete ==> spectrum_keeps_invariants(values, t, cfg.precision_bits as nat),
    ensures
        eigenvalues_reading(
            a,
            params,
            cfg,
            parity,
            dimension,
            requested,
            a.route,
            t,
            counts,
        ) == Ok::<EigenvaluesView, Seq<char>>(
            (EigenvaluesView {
                route: a.route,
                complete: a.complete,
                values,
                enclosures: found,
            }),
        ),
{
    let stored = stored_enclosures(a.selected_enclosures@);
    assert(scalars(a.eigenvalues@).len() == a.eigenvalues@.len());
    law_written_values_read_back(values, texts);
    lemma_enclosures_read_back(stored, found, values, counts, stored.len());
    assert(found.take(found.len() as int) =~= found);
}

/// The texts of a gap.
#[derive(Debug)]
pub struct GapTexts {
    pub lambda_even: String,
    pub lambda_odd: String,
    pub d_even: String,
    pub d_odd: String,
    pub gap_log: String,
    pub lambda_difference: String,
    pub difference_depth: String,
    pub even_simplicity_margin: String,
}

/// The record of a gap, bound to the two spectra that it compares.
pub fn portable_sector_gap(
    result: &CcmSectorGapHp,
    params: &CcmParams,
    cfg: &HighPrecConfig,
    even_digest: &str,
    odd_digest: &str,
    texts: GapTexts,
) -> (r: PortableSectorGap)
    ensures
        r == (PortableSectorGap {
            schema_version: 1,
            lambda_squared: r.lambda_squared,
            n_modes: params.n_modes,
            precision_bits: cfg.precision_bits,
            even_spectrum_content_digest: r.even_spectrum_content_digest,
            odd_spectrum_content_digest: r.odd_spectrum_content_digest,
            lambda_even: texts.lambda_even,
            lambda_odd: texts.lambda_odd,
            d_even: texts.d_even,
            d_odd: texts.d_odd,
            gap_log: texts.gap_log,
            lambda_difference: texts.lambda_difference,
            difference_depth: texts.difference_depth,
            ordering: result.ordering,
            even_simple: result.even_simple,
            even_simplicity_margin: texts.even_simplicity_margin,
        }),
        r.lambda_squared@ == params.identity(),
        r.even_spectrum_content_digest@ == even_digest@,
        r.odd_spectrum_content_digest@ == odd_digest@,
{
    PortableSectorGap {
        schema_version: 1,
        lambda_squared: lambda_squared_cache_identity(params),
        n_modes: params.n_modes,
        precision_bits: cfg.precision_bits,
        even_spectrum_content_digest: even_digest.to_owned(),
        odd_spectrum_content_digest: odd_digest.to_owned(),
        lambda_even: texts.lambda_even,
        lambda_odd: texts.lambda_odd,
        d_even: texts.d_even,
        d_odd: texts.d_odd,
        gap_log: texts.gap_log,
        lambda_difference: texts.lambda_difference,
        difference_depth: texts.difference_depth,
        ordering: result.ordering,
        even_simple: result.even_simple,
        even_simplicity_margin: texts.even_simplicity_margin,
    }
}

/// The record of a factorization.
pub fn portable_lu_factorization(
    params: &CcmParams,
    cfg: &HighPrecConfig,
    subspace: &str,
    dimension: usize,
    factors: &LuFactors,
    texts: &Vec<String>,
) -> (r: PortableLuFactorization)
    requires
        texts.len() == factors.lu.len(),
    ensures
        r.schema_version == 1,
        names_source(r.lambda_squared@, r.n_modes, r.precision_bits, *params, *cfg),
        r.subspace@ == subspace@,
        r.dimension == dimension,
        scalars(r.lu@) == written(vals(factors.lu@), strings(texts@)),
        r.permutation@ == factors.perm@,
{
    PortableLuFactorization {
        schema_version: 1,
        lambda_squared: lambda_squared_cache_identity(params),
        n_modes: params.n_modes,
        precision_bits: cfg.precision_bits,
        subspace: subspace.to_owned(),
        dimension,
        lu: write_values(&factors.lu, texts),
        permutation: copy_ordinals(&factors.perm),
    }
}

/// Finite factors of the right sizes that are recorded read back.
pub proof fn law_recorded_factors_read_back(
    a: PortableLuFactorization,
    params: CcmParams,
    cfg: HighPrecConfig,
    subspace: Seq<char>,
    dimension: int,
    lu: Seq<HpValue>,
    texts: Seq<Seq<char>>,
)
    requires
        a.schema_version == 1,
        names_source(a.lambda_squared@, a.n_modes, a.precision_bits, params, cfg),
        a.subspace@ == subspace,
        a.dimension == dimension,
        scalars(a.lu@) == written(lu, texts),
        lu.len() == dimension * dimension,
        a.permutation@.len() == dimension,
        all_finite(lu),
    ensures
        factors_reading(a, params, cfg, subspace, dimension) == Ok::<Seq<HpValue>, Seq<char>>(lu),
{
    assert(scalars(a.lu@).len() == a.lu@.len());
    law_written_values_read_back(lu, texts);
}

} // verus!
