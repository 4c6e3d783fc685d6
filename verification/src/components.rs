//! Stored parts of the form: the full matrix, the archimedean integrals, the prime component
//! and the parity blocks, and what each has to pass when it is read.

use crate::assembly::{ComputedArchimedeanIntegrals, IntegralsView};
use crate::config::{CcmParams, HighPrecConfig};
use crate::error::CcmError;
use crate::float::HpFloat;
use crate::matrix::{flat_index, matrix_is_exactly_symmetric, symmetric, vals};
use crate::payload::{
    finite_vector, names_source, parse_hp_vector, read_all, readings, scalars, source_matches,
    HpScalar,
};
use crate::primes::{lists_prime_powers, prime_powers_up_to, PrimePowerContent};
use crate::rounding::{hp_pow2, HpValue};
use crate::sector::{build_even_sector_matrix, build_odd_sector_matrix, even_sector, odd_sector};
use crate::text::{number_text, push_number};
use crate::tridiagonal::{all_equal, is_square_of, values_equal};
use vstd::prelude::*;
use vstd::string::*;

verus! {

/// Largest departure from symmetry of a stored form.
pub open spec fn symmetry_tolerance(p: nat) -> HpValue {
    hp_pow2(p, 8 - p)
}

/// Largest departure from symmetry of a stored form.
pub fn cache_tol(prec: u32) -> (r: HpFloat)
    requires
        prec >= 1,
    ensures
        r@ == symmetry_tolerance(prec as nat),
{
    HpFloat::power_of_two(prec, 8 - prec as i64)
}

/// What is wrong with the structure of a form, as mathematics.
pub enum StructureView {
    Length { len: nat, dim: nat },
    NotANumber { at: int },
    Infinite { at: int },
    Asymmetric { row: int, column: int, difference: HpValue },
}

/// What is wrong with the structure of a form.
#[derive(Debug)]
pub enum StructuralFault {
    Length { len: usize, dim: usize },
    NotANumber { at: usize },
    Infinite { at: usize },
    Asymmetric { row: usize, column: usize, difference: HpFloat },
}

impl View for StructuralFault {
    type V = StructureView;

    open spec fn view(&self) -> StructureView {
        match self {
            StructuralFault::Length { len, dim } => StructureView::Length {
                len: *len as nat,
                dim: *dim as nat,
            },
            StructuralFault::NotANumber { at } => StructureView::NotANumber { at: *at as int },
            StructuralFault::Infinite { at } => StructureView::Infinite { at: *at as int },
            StructuralFault::Asymmetric { row, column, difference } => StructureView::Asymmetric {
                row: *row as int,
                column: *column as int,
                difference: difference@,
            },
        }
    }
}

impl StructureView {
    /// The words of the fault, given the texts of the difference and of the tolerance that it
    /// exceeds.
    pub open spec fn words(self, difference: Seq<char>, tolerance: Seq<char>) -> Seq<char> {
        match self {
            StructureView::Length { len, dim } => "matrix length "@ + number_text(len)
                + " != expected "@ + number_text(dim) + "², = "@ + number_text(dim * dim),
            StructureView::NotANumber { at } => "entry "@ + number_text(at as nat) + " is NaN"@,
            StructureView::Infinite { at } => "entry "@ + number_text(at as nat)
                + " is infinite"@,
            StructureView::Asymmetric { row, column, difference: _ } => {
                let i = number_text(row as nat);
                let j = number_text(column as nat);
                "asymmetry at ("@ + i + ","@ + j + "): τ["@ + i + ","@ + j + "] - τ["@ + j + ","@ + i
                    + "] = "@ + difference + " (tol "@ + tolerance + ")"@
            },
        }
    }
}

impl StructuralFault {
    /// The words of the fault, given the texts of the difference and of the tolerance that it
    /// exceeds.
    pub fn message(&self, difference: &str, tolerance: &str) -> (r: String)
        requires
            self@ matches StructureView::Length { dim, .. } ==> dim * dim <= u64::MAX,
        ensures
            r@ == self@.words(difference@, tolerance@),
    {
        match self {
            StructuralFault::Length { len, dim } => {
                let mut t: String = "matrix length ".to_owned();
                push_number(&mut t, *len as u64);
                t.append(" != expected ");
                push_number(&mut t, *dim as u64);
                t.append("², = ");
                push_number(&mut t, *dim as u64 * *dim as u64);
                t
            },
            StructuralFault::NotANumber { at } => {
                let mut t: String = "entry ".to_owned();
                push_number(&mut t, *at as u64);
                t.append(" is NaN");
                t
            },
            StructuralFault::Infinite { at } => {
                let mut t: String = "entry ".to_owned();
                push_number(&mut t, *at as u64);
                t.append(" is infinite");
                t
            },
            StructuralFault::Asymmetric { row, column, difference: _ } => {
                let mut t: String = "asymmetry at (".to_owned();
                push_number(&mut t, *row as u64);
                t.append(",");
                push_number(&mut t, *column as u64);
                t.append("): τ[");
                push_number(&mut t, *row as u64);
                t.append(",");
                push_number(&mut t, *column as u64);
                t.append("] - τ[");
                push_number(&mut t, *column as u64);
                t.append(",");
                push_number(&mut t, *row as u64);
                t.append("] = ");
                t.append(difference);
                t.append(" (tol ");
                t.append(tolerance);
                t.append(")");
                t
            },
        }
    }
}

/// First entry, at or after a position, that is not finite.
pub open spec fn first_non_finite(s: Seq<HpValue>, from: int) -> Option<StructureView>
    decreases s.len() - from,
{
    if from < 0 || from >= s.len() {
        None
    } else if s[from].is_nan() {
        Some(StructureView::NotANumber { at: from })
    } else if s[from].is_infinite() {
        Some(StructureView::Infinite { at: from })
    } else {
        first_non_finite(s, from + 1)
    }
}

/// Magnitude of the difference of two mirrored entries.
pub open spec fn mirror_difference(m: Seq<HpValue>, dim: int, row: int, column: int) -> HpValue {
    m[row * dim + column].minus(m[column * dim + row]).abs()
}

/// First pair of mirrored entries of a row, at or after a column, that differ too much.
pub open spec fn row_asymmetry(m: Seq<HpValue>, dim: int, row: int, from: int, p: nat) -> Option<
    StructureView,
>
    decreases dim - from,
{
    if from >= dim {
        None
    } else if !mirror_difference(m, dim, row, from).lt_abs(symmetry_tolerance(p)) {
        Some(
            StructureView::Asymmetric {
                row,
                column: from,
                difference: mirror_difference(m, dim, row, from),
            },
        )
    } else {
        row_asymmetry(m, dim, row, from + 1, p)
    }
}

/// First pair of mirrored entries, at or after a row, that differ too much.
pub open spec fn first_asymmetry(m: Seq<HpValue>, dim: int, from: int, p: nat) -> Option<
    StructureView,
>
    decreases dim - from,
{
    if from >= dim {
        None
    } else if row_asymmetry(m, dim, from, from + 1, p) is Some {
        row_asymmetry(m, dim, from, from + 1, p)
    } else {
        first_asymmetry(m, dim, from + 1, p)
    }
}

/// First fault of a form: its size, then its entries, then its symmetry.
pub open spec fn structural_fault(m: Seq<HpValue>, n_modes: int, p: nat) -> Option<StructureView> {
    let dim = 2 * n_modes + 1;
    if m.len() != dim * dim {
        Some(StructureView::Length { len: m.len(), dim: dim as nat })
    } else if first_non_finite(m, 0) is Some {
        first_non_finite(m, 0)
    } else {
        first_asymmetry(m, dim, 0, p)
    }
}

fn find_non_finite(m: &Vec<HpFloat>) -> (r: Option<StructuralFault>)
    ensures
        match r {
            None => first_non_finite(vals(m@), 0) is None,
            Some(f) => first_non_finite(vals(m@), 0) == Some(f@),
        },
{
    let ghost s = vals(m@);
    let mut k: usize = 0;
    while k < m.len()
        invariant
            k <= m.len(),
            s == vals(m@),
            first_non_finite(s, 0) == first_non_finite(s, k as int),
        decreases m.len() - k,
    {
        if m[k].is_nan() {
            return Some(StructuralFault::NotANumber { at: k });
        }
        if m[k].is_infinite() {
            return Some(StructuralFault::Infinite { at: k });
        }
        k = k + 1;
    }
    None
}

fn find_row_asymmetry(m: &Vec<HpFloat>, dim: usize, row: usize, tolerance: &HpFloat, p: u32) -> (r:
    Option<StructuralFault>)
    requires
        m.len() == dim * dim,
        row < dim,
        tolerance@ == symmetry_tolerance(p as nat),
    ensures
        match r {
            None => row_asymmetry(vals(m@), dim as int, row as int, row + 1, p as nat) is None,
            Some(f) => row_asymmetry(vals(m@), dim as int, row as int, row + 1, p as nat) == Some(
                f@,
            ),
        },
{
    let ghost s = vals(m@);
    let ghost goal = row_asymmetry(s, dim as int, row as int, row + 1, p as nat);
    let mut column: usize = row + 1;
    while column < dim
        invariant
            row < column <= dim,
            m.len() == dim * dim,
            s == vals(m@),
            tolerance@ == symmetry_tolerance(p as nat),
            goal == row_asymmetry(s, dim as int, row as int, row + 1, p as nat),
            goal == row_asymmetry(s, dim as int, row as int, column as int, p as nat),
        decreases dim - column,
    {
        let a: usize = flat_index(dim, row, column, m.len());
        let b: usize = flat_index(dim, column, row, m.len());
        let difference: HpFloat = m[a].minus(&m[b]).abs();
        if !difference.lt_abs(tolerance) {
            return Some(StructuralFault::Asymmetric { row, column, difference });
        }
        column = column + 1;
    }
    None
}

/// First fault of a form: its size, then its entries, then its symmetry.
pub fn structural_check(tau: &Vec<HpFloat>, n_modes: usize, prec: u32) -> (r: Option<
    StructuralFault,
>)
    requires
        prec >= 1,
        2 * n_modes + 1 <= usize::MAX,
    ensures
        match r {
            None => structural_fault(vals(tau@), n_modes as int, prec as nat) is None,
            Some(f) => structural_fault(vals(tau@), n_modes as int, prec as nat) == Some(f@),
        },
{
    let dim: usize = 2 * n_modes + 1;
    if !is_square_of(tau.len(), dim) {
        return Some(StructuralFault::Length { len: tau.len(), dim });
    }
    match find_non_finite(tau) {
        Some(f) => {
            return Some(f);
        },
        None => {},
    }
    let ghost s = vals(tau@);
    let ghost goal = first_asymmetry(s, dim as int, 0, prec as nat);
    let tolerance: HpFloat = cache_tol(prec);
    let mut row: usize = 0;
    while row < dim
        invariant
            row <= dim,
            tau.len() == dim * dim,
            dim == 2 * n_modes + 1,
            s == vals(tau@),
            tolerance@ == symmetry_tolerance(prec as nat),
            first_non_finite(s, 0) is None,
            goal == first_asymmetry(s, dim as int, 0, prec as nat),
            goal == first_asymmetry(s, dim as int, row as int, prec as nat),
        decreases dim - row,
    {
        match find_row_asymmetry(tau, dim, row, &tolerance, prec) {
            Some(f) => {
                return Some(f);
            },
            None => {},
        }
        row = row + 1;
    }
    None
}

proof fn lemma_rows_hold(m: Seq<HpValue>, dim: int, from: int, row: int, p: nat)
    requires
        0 <= from <= row < dim,
        first_asymmetry(m, dim, from, p) is None,
    ensures
        row_asymmetry(m, dim, row, row + 1, p) is None,
    decreases row - from,
{
    if from < row {
        lemma_rows_hold(m, dim, from + 1, row, p);
    }
}

proof fn lemma_columns_hold(m: Seq<HpValue>, dim: int, row: int, from: int, column: int, p: nat)
    requires
        from <= column < dim,
        row_asymmetry(m, dim, row, from, p) is None,
    ensures
        mirror_difference(m, dim, row, column).lt_abs(symmetry_tolerance(p)),
    decreases column - from,
{
    if from < column {
        lemma_columns_hold(m, dim, row, from + 1, column, p);
    }
}

/// A form that passes the check has finite entries only, and every mirrored pair agrees to
/// within the tolerance.
pub proof fn law_checked_form_is_sound(m: Seq<HpValue>, n_modes: int, p: nat)
    requires
        structural_fault(m, n_modes, p) is None,
        n_modes >= 0,
    ensures
        ({
            let dim = 2 * n_modes + 1;
            &&& m.len() == dim * dim
            &&& forall|k: int| 0 <= k < m.len() ==> (#[trigger] m[k]).is_finite()
            &&& forall|i: int, j: int|
                0 <= i < j < dim ==> (#[trigger] mirror_difference(m, dim, i, j)).lt_abs(
                    symmetry_tolerance(p),
                )
        }),
{
    let dim = 2 * n_modes + 1;
    lemma_all_finite(m, 0);
    assert forall|i: int, j: int| 0 <= i < j < dim implies (#[trigger] mirror_difference(
        m,
        dim,
        i,
        j,
    )).lt_abs(symmetry_tolerance(p)) by {
        lemma_rows_hold(m, dim, 0, i, p);
        lemma_columns_hold(m, dim, i, i + 1, j, p);
    }
}

proof fn lemma_all_finite(m: Seq<HpValue>, from: int)
    requires
        0 <= from,
        first_non_finite(m, from) is None,
    ensures
        forall|k: int| from <= k < m.len() ==> (#[trigger] m[k]).is_finite(),
    decreases m.len() - from,
{
    if from < m.len() {
        lemma_all_finite(m, from + 1);
    }
}

/// A form of the right size with finite entries, whose mirrored pairs all agree to within the
/// tolerance, passes the check.
pub proof fn law_sound_form_passes(m: Seq<HpValue>, n_modes: int, p: nat)
    requires
        n_modes >= 0,
        m.len() == (2 * n_modes + 1) * (2 * n_modes + 1),
        forall|k: int| 0 <= k < m.len() ==> (#[trigger] m[k]).is_finite(),
        forall|i: int, j: int|
            0 <= i < j < 2 * n_modes + 1 ==> (#[trigger] mirror_difference(
                m,
                2 * n_modes + 1,
                i,
                j,
            )).lt_abs(symmetry_tolerance(p)),
    ensures
        structural_fault(m, n_modes, p) is None,
{
    lemma_none_non_finite(m, 0);
    lemma_none_asymmetric(m, 2 * n_modes + 1, 0, p);
}

proof fn lemma_none_non_finite(m: Seq<HpValue>, from: int)
    requires
        0 <= from,
        forall|k: int| 0 <= k < m.len() ==> (#[trigger] m[k]).is_finite(),
    ensures
        first_non_finite(m, from) is None,
    decreases m.len() - from,
{
    if from < m.len() {
        assert(m[from].is_finite());
        lemma_none_non_finite(m, from + 1);
    }
}

proof fn lemma_none_asymmetric(m: Seq<HpValue>, dim: int, from: int, p: nat)
    requires
        0 <= from,
        forall|i: int, j: int|
            0 <= i < j < dim ==> (#[trigger] mirror_difference(m, dim, i, j)).lt_abs(
                symmetry_tolerance(p),
            ),
    ensures
        first_asymmetry(m, dim, from, p) is None,
    decreases dim - from,
{
    if from < dim {
        lemma_row_symmetric(m, dim, from, from + 1, p);
        lemma_none_asymmetric(m, dim, from + 1, p);
    }
}

proof fn lemma_row_symmetric(m: Seq<HpValue>, dim: int, row: int, from: int, p: nat)
    requires
        0 <= row < from,
        forall|i: int, j: int|
            0 <= i < j < dim ==> (#[trigger] mirror_difference(m, dim, i, j)).lt_abs(
                symmetry_tolerance(p),
            ),
    ensures
        row_asymmetry(m, dim, row, from, p) is None,
    decreases dim - from,
{
    if from < dim {
        assert(mirror_difference(m, dim, row, from).lt_abs(symmetry_tolerance(p)));
        lemma_row_symmetric(m, dim, row, from + 1, p);
    }
}

/// A stored form.
#[derive(Debug)]
pub struct PortableTauMatrix {
    pub schema_version: u32,
    pub lambda_squared: String,
    pub n_modes: usize,
    pub precision_bits: u32,
    pub entries: Vec<HpScalar>,
}

/// Why a stored form is rejected, as mathematics.
pub enum TauRejectionView {
    Words(Seq<char>),
    Structure(StructureView),
}

/// Why a stored form is rejected.
#[derive(Debug)]
pub enum TauRejection {
    Invalid(CcmError),
    Structure(StructuralFault),
}

impl View for TauRejection {
    type V = TauRejectionView;

    open spec fn view(&self) -> TauRejectionView {
        match self {
            TauRejection::Invalid(e) => TauRejectionView::Words(e.text()),
            TauRejection::Structure(f) => TauRejectionView::Structure(f@),
        }
    }
}

impl TauRejectionView {
    /// The words of the rejection, given the texts of a difference and of the tolerance that it
    /// exceeds.
    pub open spec fn words(self, difference: Seq<char>, tolerance: Seq<char>) -> Seq<char> {
        match self {
            TauRejectionView::Words(words) => words,
            TauRejectionView::Structure(f) => "CCM tau payload failed structural validation: "@
                + f.words(difference, tolerance),
        }
    }
}

impl TauRejection {
    /// The words of the rejection, given the texts of a difference and of the tolerance that it
    /// exceeds.
    pub fn message(&self, difference: &str, tolerance: &str) -> (r: String)
        requires
            self@ matches TauRejectionView::Structure(StructureView::Length { dim, .. }) ==> dim
                * dim <= u64::MAX,
        ensures
            r@ == self@.words(difference@, tolerance@),
    {
        match self {
            TauRejection::Invalid(e) => e.message().to_owned(),
            TauRejection::Structure(f) => {
                let mut t: String = "CCM tau payload failed structural validation: ".to_owned();
                let fault: String = f.message(difference, tolerance);
                t.append(fault.as_str());
                t
            },
        }
    }
}

/// What reading a stored form gives.
pub open spec fn tau_reading(a: PortableTauMatrix, params: CcmParams, prec: u32) -> Result<
    Seq<HpValue>,
    TauRejectionView,
> {
    let dim = 2 * params.n_modes + 1;
    if a.schema_version != 2 || a.lambda_squared@ != params.identity() || a.n_modes
        != params.n_modes || a.precision_bits != prec || a.entries@.len() != dim * dim {
        Err(
            TauRejectionView::Words(
                "CCM tau payload does not match its semantic identity"@,
            ),
        )
    } else {
        match readings(
            "CCM tau payload contains an invalid HP scalar: "@,
            scalars(a.entries@),
            a.entries@.len(),
        ) {
            Err(m) => Err(TauRejectionView::Words(m)),
            Ok(m) => match structural_fault(m, params.n_modes as int, prec as nat) {
                Some(f) => Err(TauRejectionView::Structure(f)),
                None => Ok(m),
            },
        }
    }
}

/// Reads a stored form and checks its structure.
pub fn decode_tau_artifact(artifact: &PortableTauMatrix, params: &CcmParams, cfg: &HighPrecConfig) -> (r:
    Result<Vec<HpFloat>, TauRejection>)
    requires
        cfg.precision_bits >= 1,
        2 * params.n_modes + 1 <= usize::MAX,
    ensures
        match r {
            Ok(v) => tau_reading(*artifact, *params, cfg.precision_bits) == Ok::<
                Seq<HpValue>,
                TauRejectionView,
            >(vals(v@)),
            Err(e) => tau_reading(*artifact, *params, cfg.precision_bits) == Err::<
                Seq<HpValue>,
                TauRejectionView,
            >(e@) && (e is Invalid ==> e->Invalid_0 is InvalidManifest),
        },
{
    let dim: usize = 2 * params.n_modes + 1;
    if artifact.schema_version != 2 || !source_matches(
        &artifact.lambda_squared,
        artifact.n_modes,
        artifact.precision_bits,
        params,
        cfg,
    ) || !is_square_of(artifact.entries.len(), dim) {
        return Err(
            TauRejection::Invalid(
                CcmError::invalid("CCM tau payload does not match its semantic identity"),
            ),
        );
    }
    let tau: Vec<HpFloat> = match read_all(
        "CCM tau payload contains an invalid HP scalar: ",
        &artifact.entries,
    ) {
        Ok(v) => v,
        Err(e) => {
            return Err(TauRejection::Invalid(e));
        },
    };
    match structural_check(&tau, params.n_modes, cfg.precision_bits) {
        Some(f) => Err(TauRejection::Structure(f)),
        None => Ok(tau),
    }
}

/// Stored archimedean integrals.
#[derive(Debug)]
pub struct PortableArchimedeanIntegrals {
    pub schema_version: u32,
    pub lambda_squared: String,
    pub n_modes: usize,
    pub precision_bits: u32,
    pub alpha: Vec<HpScalar>,
    pub beta: Vec<HpScalar>,
    pub gamma: Vec<HpScalar>,
}

/// What reading stored integrals gives.
pub open spec fn integrals_reading(
    a: PortableArchimedeanIntegrals,
    params: CcmParams,
    cfg: HighPrecConfig,
) -> Result<IntegralsView, Seq<char>> {
    let expected = params.n_modes + 1;
    let alpha = finite_vector(scalars(a.alpha@), a.alpha@.len());
    let beta = finite_vector(scalars(a.beta@), a.beta@.len());
    let gamma = finite_vector(scalars(a.gamma@), a.gamma@.len());
    if a.schema_version != 1 || !names_source(
        a.lambda_squared@,
        a.n_modes,
        a.precision_bits,
        params,
        cfg,
    ) || a.alpha@.len() != expected || a.beta@.len() != expected || a.gamma@.len() != expected {
        Err("CCM archimedean-integral payload does not match its semantic identity"@)
    } else if alpha is Err {
        Err(alpha->Err_0)
    } else if beta is Err {
        Err(beta->Err_0)
    } else if gamma is Err {
        Err(gamma->Err_0)
    } else {
        Ok(IntegralsView { alpha: alpha->Ok_0, beta: beta->Ok_0, gamma: gamma->Ok_0 })
    }
}

/// Reads stored integrals.
pub fn decode_archimedean_integrals(
    artifact: &PortableArchimedeanIntegrals,
    params: &CcmParams,
    cfg: &HighPrecConfig,
) -> (r: Result<ComputedArchimedeanIntegrals, CcmError>)
    requires
        params.n_modes < usize::MAX,
    ensures
        match r {
            Ok(v) => integrals_reading(*artifact, *params, *cfg) == Ok::<IntegralsView, Seq<char>>(
                v@,
            ),
            Err(e) => e is InvalidManifest && integrals_reading(*artifact, *params, *cfg) == Err::<
                IntegralsView,
                Seq<char>,
            >(e.text()),
        },
{
    let expected: usize = params.n_modes + 1;
    if artifact.schema_version != 1 || !source_matches(
        &artifact.lambda_squared,
        artifact.n_modes,
        artifact.precision_bits,
        params,
        cfg,
    ) || artifact.alpha.len() != expected || artifact.beta.len() != expected
        || artifact.gamma.len() != expected {
        return Err(
            CcmError::invalid(
                "CCM archimedean-integral payload does not match its semantic identity",
            ),
        );
    }
    let alpha: Vec<HpFloat> = match parse_hp_vector(&artifact.alpha) {
        Ok(v) => v,
        Err(e) => {
            return Err(e);
        },
    };
    let beta: Vec<HpFloat> = match parse_hp_vector(&artifact.beta) {
        Ok(v) => v,
        Err(e) => {
            return Err(e);
        },
    };
    let gamma: Vec<HpFloat> = match parse_hp_vector(&artifact.gamma) {
        Ok(v) => v,
        Err(e) => {
            return Err(e);
        },
    };
    Ok(ComputedArchimedeanIntegrals { alpha, beta, gamma })
}

/// A stored prime component.
#[derive(Debug)]
pub struct PortablePrimeComponent {
    pub schema_version: u32,
    pub lambda_squared: String,
    pub prime_cutoff: u64,
    pub n_modes: usize,
    pub precision_bits: u32,
    pub prime_content: Vec<PrimePowerContent>,
    pub entries: Vec<HpScalar>,
}

/// Whether a stored prime component is the one that a reader asks for: among the rest, its
/// content is every prime power up to the cutoff.
pub open spec fn prime_identity_holds(
    a: PortablePrimeComponent,
    params: CcmParams,
    cfg: HighPrecConfig,
) -> bool {
    let dim = 2 * params.n_modes + 1;
    &&& a.schema_version == 1
    &&& names_source(a.lambda_squared@, a.n_modes, a.precision_bits, params, cfg)
    &&& a.prime_cutoff == params.cutoff()
    &&& lists_prime_powers(a.prime_content@, params.cutoff() as int)
    &&& a.entries@.len() == dim * dim
}

/// What reading a stored prime component gives.
pub open spec fn prime_reading(
    a: PortablePrimeComponent,
    params: CcmParams,
    cfg: HighPrecConfig,
) -> Result<Seq<HpValue>, Seq<char>> {
    if !prime_identity_holds(a, params, cfg) {
        Err("CCM prime-component payload does not match its semantic identity"@)
    } else {
        match finite_vector(scalars(a.entries@), a.entries@.len()) {
            Err(m) => Err(m),
            Ok(m) => if symmetric(m, 2 * params.n_modes + 1) {
                Ok(m)
            } else {
                Err("CCM prime-component payload is not exactly symmetric"@)
            },
        }
    }
}

fn same_content(a: &Vec<PrimePowerContent>, b: &Vec<PrimePowerContent>) -> (r: bool)
    ensures
        r == (a@ == b@),
{
    if a.len() != b.len() {
        return false;
    }
    let mut i: usize = 0;
    while i < a.len()
        invariant
            i <= a.len(),
            a.len() == b.len(),
            forall|k: int| 0 <= k < i ==> a@[k] == b@[k],
        decreases a.len() - i,
    {
        if a[i] != b[i] {
            assert(a@[i as int] != b@[i as int]);
            return false;
        }
        i = i + 1;
    }
    assert(a@ =~= b@);
    true
}

/// Reads a stored prime component.
pub fn decode_prime_component(
    artifact: &PortablePrimeComponent,
    params: &CcmParams,
    cfg: &HighPrecConfig,
) -> (r: Result<Vec<HpFloat>, CcmError>)
    requires
        2 * params.n_modes + 1 <= usize::MAX,
    ensures
        match r {
            Ok(v) => prime_reading(*artifact, *params, *cfg) == Ok::<Seq<HpValue>, Seq<char>>(
                vals(v@),
            ),
            Err(e) => e is InvalidManifest && prime_reading(*artifact, *params, *cfg) == Err::<
                Seq<HpValue>,
                Seq<char>,
            >(e.text()),
        },
{
    let dim: usize = 2 * params.n_modes + 1;
    let expected: Vec<PrimePowerContent> = prime_powers_up_to(params.lambda_sq_int());
    let same: bool = same_content(&artifact.prime_content, &expected);
    proof {
        if lists_prime_powers(artifact.prime_content@, params.cutoff() as int) {
            crate::primes::law_prime_powers_are_one_list(
                artifact.prime_content@,
                expected@,
                params.cutoff() as int,
            );
        }
    }
    if artifact.schema_version != 1 || !source_matches(
        &artifact.lambda_squared,
        artifact.n_modes,
        artifact.precision_bits,
        params,
        cfg,
    ) || artifact.prime_cutoff != params.lambda_sq_int() || !same || !is_square_of(
        artifact.entries.len(),
        dim,
    ) {
        return Err(
            CcmError::invalid("CCM prime-component payload does not match its semantic identity"),
        );
    }
    let matrix: Vec<HpFloat> = match parse_hp_vector(&artifact.entries) {
        Ok(v) => v,
        Err(e) => {
            return Err(e);
        },
    };
    if !matrix_is_exactly_symmetric(&matrix, dim) {
        return Err(CcmError::invalid("CCM prime-component payload is not exactly symmetric"));
    }
    Ok(matrix)
}

/// A stored parity block.
#[derive(Debug)]
pub struct PortableSectorMatrix {
    pub schema_version: u32,
    pub lambda_squared: String,
    pub n_modes: usize,
    pub precision_bits: u32,
    pub dimension: usize,
    pub entries: Vec<HpScalar>,
}

/// Whether a stored block is the one that a reader asks for.
pub open spec fn block_identity_holds(
    a: PortableSectorMatrix,
    params: CcmParams,
    cfg: HighPrecConfig,
    dimension: int,
) -> bool {
    &&& a.schema_version == 1
    &&& names_source(a.lambda_squared@, a.n_modes, a.precision_bits, params, cfg)
    &&& a.dimension == dimension
    &&& a.entries@.len() == dimension * dimension
}

/// What reading a stored even block gives.
pub open spec fn even_block_reading(
    a: PortableSectorMatrix,
    params: CcmParams,
    cfg: HighPrecConfig,
    tau: Seq<HpValue>,
) -> Result<Seq<HpValue>, Seq<char>> {
    if !block_identity_holds(a, params, cfg, params.n_modes + 1) {
        Err("CCM even-sector matrix does not match its semantic identity"@)
    } else {
        match finite_vector(scalars(a.entries@), a.entries@.len()) {
            Err(m) => Err(m),
            Ok(m) => if all_equal(
                m,
                even_sector(tau, params.n_modes as int, cfg.precision_bits as nat),
            ) {
                Ok(m)
            } else {
                Err("CCM even-sector matrix is inconsistent with its full tau dependency"@)
            },
        }
    }
}

/// What reading a stored odd block gives.
pub open spec fn odd_block_reading(
    a: PortableSectorMatrix,
    params: CcmParams,
    cfg: HighPrecConfig,
    tau: Seq<HpValue>,
) -> Result<Seq<HpValue>, Seq<char>> {
    if !block_identity_holds(a, params, cfg, params.n_modes as int) {
        Err("CCM odd-sector matrix does not match its semantic identity"@)
    } else {
        match finite_vector(scalars(a.entries@), a.entries@.len()) {
            Err(m) => Err(m),
            Ok(m) => if all_equal(m, odd_sector(tau, params.n_modes as int)) && symmetric(
                m,
                params.n_modes as int,
            ) {
                Ok(m)
            } else {
                Err("CCM odd-sector matrix is inconsistent with its full tau dependency"@)
            },
        }
    }
}

fn block_identity_matches(
    a: &PortableSectorMatrix,
    params: &CcmParams,
    cfg: &HighPrecConfig,
    dimension: usize,
) -> (r: bool)
    ensures
        r == block_identity_holds(*a, *params, *cfg, dimension as int),
{
    a.schema_version == 1 && source_matches(
        &a.lambda_squared,
        a.n_modes,
        a.precision_bits,
        params,
        cfg,
    ) && a.dimension == dimension && is_square_of(a.entries.len(), dimension)
}

/// Whether a form has the size that its number of modes asks for.
pub open spec fn form_sized(tau: Seq<HpValue>, n_modes: int) -> bool {
    tau.len() == (2 * n_modes + 1) * (2 * n_modes + 1)
}

/// Reads a stored even block and compares it with what the form projects to.
pub fn decode_even_sector_matrix(
    artifact: &PortableSectorMatrix,
    params: &CcmParams,
    cfg: &HighPrecConfig,
    tau: &Vec<HpFloat>,
) -> (r: Result<Vec<HpFloat>, CcmError>)
    requires
        cfg.precision_bits >= 1,
        form_sized(vals(tau@), params.n_modes as int),
        2 * params.n_modes + 1 <= usize::MAX,
    ensures
        match r {
            Ok(v) => even_block_reading(*artifact, *params, *cfg, vals(tau@)) == Ok::<
                Seq<HpValue>,
                Seq<char>,
            >(vals(v@)),
            Err(e) => e is InvalidManifest && even_block_reading(
                *artifact,
                *params,
                *cfg,
                vals(tau@),
            ) == Err::<Seq<HpValue>, Seq<char>>(e.text()),
        },
{
    if !block_identity_matches(artifact, params, cfg, params.n_modes + 1) {
        return Err(
            CcmError::invalid("CCM even-sector matrix does not match its semantic identity"),
        );
    }
    let decoded: Vec<HpFloat> = match parse_hp_vector(&artifact.entries) {
        Ok(v) => v,
        Err(e) => {
            return Err(e);
        },
    };
    let expected: Vec<HpFloat> = build_even_sector_matrix(tau, params.n_modes, cfg.precision_bits);
    if !values_equal(&decoded, &expected) {
        return Err(
            CcmError::invalid(
                "CCM even-sector matrix is inconsistent with its full tau dependency",
            ),
        );
    }
    Ok(decoded)
}

/// Reads a stored odd block and compares it with what the form projects to.
pub fn decode_odd_sector_matrix(
    artifact: &PortableSectorMatrix,
    params: &CcmParams,
    cfg: &HighPrecConfig,
    tau: &Vec<HpFloat>,
) -> (r: Result<Vec<HpFloat>, CcmError>)
    requires
        form_sized(vals(tau@), params.n_modes as int),
        2 * params.n_modes + 1 <= usize::MAX,
    ensures
        match r {
            Ok(v) => odd_block_reading(*artifact, *params, *cfg, vals(tau@)) == Ok::<
                Seq<HpValue>,
                Seq<char>,
            >(vals(v@)),
            Err(e) => e is InvalidManifest && odd_block_reading(
                *artifact,
                *params,
                *cfg,
                vals(tau@),
            ) == Err::<Seq<HpValue>, Seq<char>>(e.text()),
        },
{
    if !block_identity_matches(artifact, params, cfg, params.n_modes) {
        return Err(
            CcmError::invalid("CCM odd-sector matrix does not match its semantic identity"),
        );
    }
    let decoded: Vec<HpFloat> = match parse_hp_vector(&artifact.entries) {
        Ok(v) => v,
        Err(e) => {
            return Err(e);
        },
    };
    let expected: Vec<HpFloat> = build_odd_sector_matrix(tau, params.n_modes);
    if !values_equal(&decoded, &expected) || !matrix_is_exactly_symmetric(
        &decoded,
        params.n_modes,
    ) {
        return Err(
            CcmError::invalid(
                "CCM odd-sector matrix is inconsistent with its full tau dependency",
            ),
        );
    }
    Ok(decoded)
}

/// Refuses an odd block that is not exactly symmetric.
pub fn check_odd_projection(sector: &Vec<HpFloat>, dimension: usize) -> (r: Result<(), CcmError>)
    requires
        sector.len() == dimension * dimension,
    ensures
        r is Ok == symmetric(vals(sector@), dimension as int),
        r matches Err(e) ==> e.rejects("CCM odd-sector projection is not exactly symmetric"@),
{
    if matrix_is_exactly_symmetric(sector, dimension) {
        Ok(())
    } else {
        Err(CcmError::invalid("CCM odd-sector projection is not exactly symmetric"))
    }
}

} // verus!
