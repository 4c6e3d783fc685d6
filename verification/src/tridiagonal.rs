//! Tridiagonal reductions of the parity blocks: stored forms, invariants, and the replay of
//! the basis that brings a block to tridiagonal form.

use crate::config::{CcmParams, CcmParity, HighPrecConfig, GUARD_BITS};
use crate::error::CcmError;
use crate::float::HpFloat;
use crate::matrix::{
    accumulate, entry_squares, flat_index, largest, matrix_row_abs_sum, ordered_square_sum,
    ordered_sum, row_abs_sum, sum_of, vals,
};
use crate::payload::{
    finite_vector, names_source, parse_hp_vector, scalars, source_matches, HpScalar,
};
use crate::rounding::{hp_int, hp_pow2, hp_word, HpValue};
use crate::sector::{close, hp_invariant_close};
use crate::text::{number_text, push_number};
use vstd::prelude::*;
use vstd::string::*;

verus! {

/// A symmetric tridiagonal matrix.
#[derive(Debug)]
pub struct SectorTridiagonalHp {
    pub diagonal: Vec<HpFloat>,
    pub off_diagonal: Vec<HpFloat>,
}

/// A symmetric tridiagonal matrix, as mathematics.
pub struct TridiagonalView {
    pub diagonal: Seq<HpValue>,
    pub off_diagonal: Seq<HpValue>,
}

impl View for SectorTridiagonalHp {
    type V = TridiagonalView;

    open spec fn view(&self) -> TridiagonalView {
        TridiagonalView {
            diagonal: vals(self.diagonal@),
            off_diagonal: vals(self.off_diagonal@),
        }
    }
}

impl TridiagonalView {
    /// Whether the matrix has a given dimension.
    pub open spec fn fits(self, dimension: int) -> bool {
        self.diagonal.len() == dimension && self.off_diagonal.len() + 1 == dimension
    }
}

/// Dimension of a parity block.
pub open spec fn sector_size(parity: CcmParity, n_modes: int) -> int {
    match parity {
        CcmParity::Even => n_modes + 1,
        CcmParity::Odd => n_modes,
    }
}

/// Dimension of a parity block.
pub fn sector_dimension(parity: CcmParity, n_modes: usize) -> (r: usize)
    requires
        n_modes < usize::MAX,
    ensures
        r == sector_size(parity, n_modes as int),
{
    match parity {
        CcmParity::Even => n_modes + 1,
        CcmParity::Odd => n_modes,
    }
}

/// A stored tridiagonal reduction.
#[derive(Debug)]
pub struct PortableSectorTridiagonal {
    pub schema_version: u32,
    pub lambda_squared: String,
    pub n_modes: usize,
    pub precision_bits: u32,
    pub parity: CcmParity,
    pub dimension: usize,
    pub diagonal: Vec<HpScalar>,
    pub off_diagonal: Vec<HpScalar>,
}

/// What reading a stored reduction gives.
pub open spec fn tridiagonal_reading(
    a: PortableSectorTridiagonal,
    params: CcmParams,
    cfg: HighPrecConfig,
    parity: CcmParity,
    dimension: int,
) -> Result<TridiagonalView, Seq<char>> {
    if a.schema_version != 1 || !names_source(
        a.lambda_squared@,
        a.n_modes,
        a.precision_bits,
        params,
        cfg,
    ) || a.parity != parity || a.dimension != dimension || a.diagonal@.len() != dimension
        || a.off_diagonal@.len() + 1 != dimension {
        Err("CCM sector tridiagonal does not match its semantic identity"@)
    } else {
        match finite_vector(scalars(a.diagonal@), a.diagonal@.len()) {
            Err(m) => Err(m),
            Ok(diagonal) => match finite_vector(scalars(a.off_diagonal@), a.off_diagonal@.len()) {
                Err(m) => Err(m),
                Ok(off_diagonal) => Ok(TridiagonalView { diagonal, off_diagonal }),
            },
        }
    }
}

/// Reads a stored reduction.
pub fn decode_sector_tridiagonal(
    artifact: &PortableSectorTridiagonal,
    params: &CcmParams,
    cfg: &HighPrecConfig,
    parity: CcmParity,
    dimension: usize,
) -> (r: Result<SectorTridiagonalHp, CcmError>)
    ensures
        match r {
            Ok(v) => tridiagonal_reading(*artifact, *params, *cfg, parity, dimension as int) == Ok::<
                TridiagonalView,
                Seq<char>,
            >(v@) && v@.fits(dimension as int),
            Err(e) => e is InvalidManifest && tridiagonal_reading(
                *artifact,
                *params,
                *cfg,
                parity,
                dimension as int,
            ) == Err::<TridiagonalView, Seq<char>>(e.text()),
        },
{
    if artifact.schema_version != 1 || !source_matches(
        &artifact.lambda_squared,
        artifact.n_modes,
        artifact.precision_bits,
        params,
        cfg,
    ) || artifact.parity != parity || artifact.dimension != dimension || artifact.diagonal.len()
        != dimension || dimension == 0 || artifact.off_diagonal.len() != dimension - 1 {
        return Err(
            CcmError::invalid("CCM sector tridiagonal does not match its semantic identity"),
        );
    }
    let diagonal: Vec<HpFloat> = match parse_hp_vector(&artifact.diagonal) {
        Ok(v) => v,
        Err(e) => {
            return Err(e);
        },
    };
    let off_diagonal: Vec<HpFloat> = match parse_hp_vector(&artifact.off_diagonal) {
        Ok(v) => v,
        Err(e) => {
            return Err(e);
        },
    };
    Ok(SectorTridiagonalHp { diagonal, off_diagonal })
}

/// The diagonal of a row-major matrix, as a function of the row.
pub open spec fn diagonal_entries(m: Seq<HpValue>, dim: int) -> spec_fn(int) -> HpValue {
    |row: int| m[row * dim + row]
}

/// Trace of a row-major matrix.
pub open spec fn trace(m: Seq<HpValue>, dim: int, p: nat) -> HpValue {
    accumulate(hp_int(p, 0), diagonal_entries(m, dim), dim as nat)
}

/// Sum of the squares of the entries.
pub open spec fn square_sum(m: Seq<HpValue>, p: nat) -> HpValue {
    accumulate(hp_int(p, 0), entry_squares(m), m.len())
}

/// Twice the squares of the elements.
pub open spec fn doubled_squares(s: Seq<HpValue>) -> spec_fn(int) -> HpValue {
    |i: int| s[i].times(s[i]).times(hp_word(2))
}

/// Sum of the squares of all entries of a symmetric tridiagonal matrix.
pub open spec fn tridiagonal_square_sum(t: TridiagonalView, p: nat) -> HpValue {
    accumulate(square_sum(t.diagonal, p), doubled_squares(t.off_diagonal), t.off_diagonal.len())
}

/// Whether a reduction keeps the trace and the square sum of its matrix.
pub open spec fn reduction_keeps_invariants(
    m: Seq<HpValue>,
    t: TridiagonalView,
    dim: int,
    p: nat,
) -> bool {
    &&& m.len() == dim * dim
    &&& t.fits(dim)
    &&& close(trace(m, dim, p), sum_of(t.diagonal, p), p)
    &&& close(square_sum(m, p), tridiagonal_square_sum(t, p), p)
}

/// `dim * dim == len`, whatever the sizes.
pub fn is_square_of(len: usize, dim: usize) -> (r: bool)
    ensures
        r == (len == dim * dim),
{
    match dim.checked_mul(dim) {
        None => false,
        Some(v) => v == len,
    }
}

fn matrix_trace(m: &Vec<HpFloat>, dim: usize, p: u32) -> (r: HpFloat)
    requires
        p >= 1,
        m.len() == dim * dim,
    ensures
        r@ == trace(vals(m@), dim as int, p as nat),
{
    let mut acc: HpFloat = HpFloat::zero(p);
    let mut row: usize = 0;
    while row < dim
        invariant
            row <= dim,
            m.len() == dim * dim,
            acc@ == accumulate(
                hp_int(p as nat, 0),
                diagonal_entries(vals(m@), dim as int),
                row as nat,
            ),
        decreases dim - row,
    {
        let k: usize = flat_index(dim, row, row, m.len());
        acc = acc.plus(&m[k]);
        row = row + 1;
    }
    acc
}

/// Sum of the squares of all entries of a symmetric tridiagonal matrix.
pub fn tridiagonal_squares(t: &SectorTridiagonalHp, p: u32) -> (r: HpFloat)
    requires
        p >= 1,
    ensures
        r@ == tridiagonal_square_sum(t@, p as nat),
{
    let start: HpFloat = ordered_square_sum(HpFloat::zero(p), &t.diagonal);
    let ghost base = start@;
    let mut acc: HpFloat = start;
    let mut i: usize = 0;
    while i < t.off_diagonal.len()
        invariant
            i <= t.off_diagonal.len(),
            acc@ == accumulate(base, doubled_squares(vals(t.off_diagonal@)), i as nat),
        decreases t.off_diagonal.len() - i,
    {
        acc = acc.plus(&t.off_diagonal[i].times(&t.off_diagonal[i]).times_word(2));
        i = i + 1;
    }
    acc
}

/// Whether a reduction keeps the trace and the square sum of its matrix.
pub fn sector_tridiagonal_invariants_match(
    matrix: &Vec<HpFloat>,
    tridiagonal: &SectorTridiagonalHp,
    dimension: usize,
    precision_bits: u32,
) -> (r: bool)
    requires
        precision_bits >= 1,
    ensures
        r == reduction_keeps_invariants(
            vals(matrix@),
            tridiagonal@,
            dimension as int,
            precision_bits as nat,
        ),
{
    if !is_square_of(matrix.len(), dimension) || tridiagonal.diagonal.len() != dimension
        || dimension == 0 || tridiagonal.off_diagonal.len() != dimension - 1 {
        return false;
    }
    let matrix_sum: HpFloat = matrix_trace(matrix, dimension, precision_bits);
    let matrix_squares: HpFloat = ordered_square_sum(HpFloat::zero(precision_bits), matrix);
    let reduced_sum: HpFloat = ordered_sum(&tridiagonal.diagonal, precision_bits);
    let reduced_squares: HpFloat = tridiagonal_squares(tridiagonal, precision_bits);
    hp_invariant_close(&matrix_sum, &reduced_sum, precision_bits) && hp_invariant_close(
        &matrix_squares,
        &reduced_squares,
        precision_bits,
    )
}

/// What reading a stored reduction of a matrix gives: it also has to keep the trace and the
/// square sum of that matrix.
pub open spec fn replayed_reduction(
    a: PortableSectorTridiagonal,
    params: CcmParams,
    cfg: HighPrecConfig,
    parity: CcmParity,
    dimension: int,
    matrix: Seq<HpValue>,
) -> Result<TridiagonalView, Seq<char>> {
    match tridiagonal_reading(a, params, cfg, parity, dimension) {
        Err(m) => Err(m),
        Ok(t) => if reduction_keeps_invariants(matrix, t, dimension, cfg.precision_bits as nat) {
            Ok(t)
        } else {
            Err("CCM sector tridiagonal failed trace or Frobenius replay"@)
        },
    }
}

/// Reads a stored reduction of a matrix, and replays it against that matrix.
pub fn replay_sector_tridiagonal(
    artifact: &PortableSectorTridiagonal,
    params: &CcmParams,
    cfg: &HighPrecConfig,
    parity: CcmParity,
    dimension: usize,
    matrix: &Vec<HpFloat>,
) -> (r: Result<SectorTridiagonalHp, CcmError>)
    requires
        cfg.precision_bits >= 1,
    ensures
        ({
            let goal = replayed_reduction(
                *artifact,
                *params,
                *cfg,
                parity,
                dimension as int,
                vals(matrix@),
            );
            match r {
                Ok(v) => goal == Ok::<TridiagonalView, Seq<char>>(v@) && v@.fits(dimension as int),
                Err(e) => e is InvalidManifest && goal == Err::<TridiagonalView, Seq<char>>(
                    e.text(),
                ),
            }
        }),
{
    match decode_sector_tridiagonal(artifact, params, cfg, parity, dimension) {
        Err(e) => Err(e),
        Ok(v) => if sector_tridiagonal_invariants_match(matrix, &v, dimension, cfg.precision_bits) {
            Ok(v)
        } else {
            Err(CcmError::invalid("CCM sector tridiagonal failed trace or Frobenius replay"))
        },
    }
}

/// Whether two vectors hold equal values throughout.
pub open spec fn all_equal(a: Seq<HpValue>, b: Seq<HpValue>) -> bool {
    a.len() == b.len() && forall|i: int| 0 <= i < a.len() ==> (#[trigger] a[i]).eqv(b[i])
}

/// Whether two vectors hold equal values throughout.
pub fn values_equal(a: &Vec<HpFloat>, b: &Vec<HpFloat>) -> (r: bool)
    ensures
        r == all_equal(vals(a@), vals(b@)),
{
    if a.len() != b.len() {
        return false;
    }
    let mut i: usize = 0;
    while i < a.len()
        invariant
            i <= a.len(),
            a.len() == b.len(),
            forall|k: int| 0 <= k < i ==> (#[trigger] vals(a@)[k]).eqv(vals(b@)[k]),
        decreases a.len() - i,
    {
        if !a[i].eqv(&b[i]) {
            assert(!vals(a@)[i as int].eqv(vals(b@)[i as int]));
            return false;
        }
        i = i + 1;
    }
    true
}

/// Checks that a repeated reduction gives the stored one.
pub fn reproduces_tridiagonal(computed: &SectorTridiagonalHp, stored: &SectorTridiagonalHp) -> (r:
    Result<(), CcmError>)
    ensures
        r is Ok == (all_equal(computed@.diagonal, stored@.diagonal) && all_equal(
            computed@.off_diagonal,
            stored@.off_diagonal,
        )),
        r matches Err(e) ==> e.rejects(
            "CCM Householder basis did not reproduce the cached tridiagonal"@,
        ),
{
    if values_equal(&computed.diagonal, &stored.diagonal) && values_equal(
        &computed.off_diagonal,
        &stored.off_diagonal,
    ) {
        Ok(())
    } else {
        Err(CcmError::invalid("CCM Householder basis did not reproduce the cached tridiagonal"))
    }
}

/// An orthogonal basis in row-major order, one vector per column.
#[derive(Debug)]
pub struct SectorTransformHp {
    pub basis: Vec<HpFloat>,
}

/// Tolerance of the basis checks: the requested precision, without its guard bits.
pub open spec fn basis_tolerance(p: nat) -> HpValue {
    hp_pow2(
        p,
        -(if p > GUARD_BITS {
            p - GUARD_BITS
        } else {
            1
        }),
    )
}

/// Products of two columns, as a function of the row.
pub open spec fn column_products(q: Seq<HpValue>, dim: int, a: int, b: int) -> spec_fn(
    int,
) -> HpValue {
    |row: int| q[row * dim + a].times(q[row * dim + b])
}

/// Inner product of two columns.
pub open spec fn column_dot(q: Seq<HpValue>, dim: int, a: int, b: int, p: nat) -> HpValue {
    accumulate(hp_int(p, 0), column_products(q, dim, a, b), dim as nat)
}

/// Departure of a column from unit length.
pub open spec fn norm_error(q: Seq<HpValue>, dim: int, column: int, p: nat) -> HpValue {
    column_dot(q, dim, column, column, p).minus(hp_word(1)).abs()
}

/// Departure of a column from being orthogonal to the next.
pub open spec fn adjacent_error(q: Seq<HpValue>, dim: int, column: int, p: nat) -> HpValue {
    column_dot(q, dim, column, column + 1, p).abs()
}

/// Products of a row of a matrix and a column of a basis, as a function of the inner index.
pub open spec fn replay_products(
    m: Seq<HpValue>,
    q: Seq<HpValue>,
    dim: int,
    row: int,
    column: int,
) -> spec_fn(int) -> HpValue {
    |inner: int| m[row * dim + inner].times(q[inner * dim + column])
}

/// Entry of the basis times the tridiagonal matrix.
pub open spec fn basis_times_tridiagonal(
    q: Seq<HpValue>,
    t: TridiagonalView,
    dim: int,
    row: int,
    column: int,
) -> HpValue {
    let middle = q[row * dim + column].times(t.diagonal[column]);
    let left = if column > 0 {
        middle.plus(q[row * dim + (column - 1)].times(t.off_diagonal[column - 1]))
    } else {
        middle
    };
    if column + 1 < dim {
        left.plus(q[row * dim + (column + 1)].times(t.off_diagonal[column]))
    } else {
        left
    }
}

/// Residual of `A Q = Q T` at one entry.
pub open spec fn similarity_residual(
    m: Seq<HpValue>,
    q: Seq<HpValue>,
    t: TridiagonalView,
    dim: int,
    row: int,
    column: int,
    p: nat,
) -> HpValue {
    accumulate(hp_int(p, 0), replay_products(m, q, dim, row, column), dim as nat).minus(
        basis_times_tridiagonal(q, t, dim, row, column),
    ).abs()
}

/// Absolute row sums, as a function of the row.
pub open spec fn row_sums(m: Seq<HpValue>, dim: int, p: nat) -> spec_fn(int) -> HpValue {
    |row: int| row_abs_sum(m, dim, row, p)
}

/// Tolerance of the similarity: the basis tolerance at the scale of the matrix.
pub open spec fn similarity_tolerance(m: Seq<HpValue>, dim: int, p: nat) -> HpValue {
    basis_tolerance(p).times(largest(hp_int(p, 1), row_sums(m, dim, p), dim as nat))
}

/// Why a basis is rejected, as mathematics.
pub enum TransformFaultView {
    Dimensions,
    Norm { column: int, error: HpValue, tolerance: HpValue },
    Adjacent { column: int, error: HpValue, tolerance: HpValue },
    Similarity { row: int, column: int, residual: HpValue, tolerance: HpValue },
}

/// Why a basis is rejected.
#[derive(Debug)]
pub enum TransformFault {
    Dimensions,
    Norm { column: usize, error: HpFloat, tolerance: HpFloat },
    Adjacent { column: usize, error: HpFloat, tolerance: HpFloat },
    Similarity { row: usize, column: usize, residual: HpFloat, tolerance: HpFloat },
}

impl View for TransformFault {
    type V = TransformFaultView;

    open spec fn view(&self) -> TransformFaultView {
        match self {
            TransformFault::Dimensions => TransformFaultView::Dimensions,
            TransformFault::Norm { column, error, tolerance } => TransformFaultView::Norm {
                column: *column as int,
                error: error@,
                tolerance: tolerance@,
            },
            TransformFault::Adjacent { column, error, tolerance } => TransformFaultView::Adjacent {
                column: *column as int,
                error: error@,
                tolerance: tolerance@,
            },
            TransformFault::Similarity { row, column, residual, tolerance } => {
                TransformFaultView::Similarity {
                    row: *row as int,
                    column: *column as int,
                    residual: residual@,
                    tolerance: tolerance@,
                }
            },
        }
    }
}

impl TransformFaultView {
    /// The words of the fault, given the texts of the error and of the tolerance that it
    /// exceeds.
    pub open spec fn words(self, error: Seq<char>, tolerance: Seq<char>) -> Seq<char> {
        match self {
            TransformFaultView::Dimensions => "matrix or basis dimensions are inconsistent"@,
            TransformFaultView::Norm { column, .. } => "basis column "@ + number_text(
                column as nat,
            ) + " norm error "@ + error + " exceeds requested-precision tolerance "@ + tolerance,
            TransformFaultView::Adjacent { column, .. } => "basis columns "@ + number_text(
                column as nat,
            ) + " and "@ + number_text((column + 1) as nat) + " inner-product error "@ + error
                + " exceeds requested-precision tolerance "@ + tolerance,
            TransformFaultView::Similarity { row, column, .. } => "A Q = Q T residual at row "@
                + number_text(row as nat) + ", column "@ + number_text(column as nat) + " is "@
                + error + " and exceeds scale-aware tolerance "@ + tolerance,
        }
    }
}

impl TransformFault {
    /// The words of the fault, given the texts of the error and of the tolerance that it
    /// exceeds.
    pub fn message(&self, error: &str, tolerance: &str) -> (r: String)
        requires
            self@ matches TransformFaultView::Adjacent { column, .. } ==> column < usize::MAX,
        ensures
            r@ == self@.words(error@, tolerance@),
    {
        match self {
            TransformFault::Dimensions => "matrix or basis dimensions are inconsistent".to_owned(),
            TransformFault::Norm { column, .. } => {
                let mut t: String = "basis column ".to_owned();
                push_number(&mut t, *column as u64);
                t.append(" norm error ");
                t.append(error);
                t.append(" exceeds requested-precision tolerance ");
                t.append(tolerance);
                t
            },
            TransformFault::Adjacent { column, .. } => {
                let mut t: String = "basis columns ".to_owned();
                push_number(&mut t, *column as u64);
                t.append(" and ");
                push_number(&mut t, (*column + 1) as u64);
                t.append(" inner-product error ");
                t.append(error);
                t.append(" exceeds requested-precision tolerance ");
                t.append(tolerance);
                t
            },
            TransformFault::Similarity { row, column, .. } => {
                let mut t: String = "A Q = Q T residual at row ".to_owned();
                push_number(&mut t, *row as u64);
                t.append(", column ");
                push_number(&mut t, *column as u64);
                t.append(" is ");
                t.append(error);
                t.append(" and exceeds scale-aware tolerance ");
                t.append(tolerance);
                t
            },
        }
    }
}

/// First departure from orthonormality at or after a column.
pub open spec fn basis_fault(q: Seq<HpValue>, dim: int, from: int, p: nat) -> Option<
    TransformFaultView,
>
    decreases dim - from,
{
    if from < 0 || from >= dim {
        None
    } else if basis_tolerance(p).lt(norm_error(q, dim, from, p)) {
        Some(
            TransformFaultView::Norm {
                column: from,
                error: norm_error(q, dim, from, p),
                tolerance: basis_tolerance(p),
            },
        )
    } else if from + 1 < dim && basis_tolerance(p).lt(adjacent_error(q, dim, from, p)) {
        Some(
            TransformFaultView::Adjacent {
                column: from,
                error: adjacent_error(q, dim, from, p),
                tolerance: basis_tolerance(p),
            },
        )
    } else {
        basis_fault(q, dim, from + 1, p)
    }
}

/// First failure of `A Q = Q T` in a column, at or after a row.
pub open spec fn similarity_fault(
    m: Seq<HpValue>,
    q: Seq<HpValue>,
    t: TridiagonalView,
    dim: int,
    column: int,
    from: int,
    p: nat,
) -> Option<TransformFaultView>
    decreases dim - from,
{
    if from < 0 || from >= dim {
        None
    } else if similarity_tolerance(m, dim, p).lt(
        similarity_residual(m, q, t, dim, from, column, p),
    ) {
        Some(
            TransformFaultView::Similarity {
                row: from,
                column,
                residual: similarity_residual(m, q, t, dim, from, column, p),
                tolerance: similarity_tolerance(m, dim, p),
            },
        )
    } else {
        similarity_fault(m, q, t, dim, column, from + 1, p)
    }
}

/// First fault of a basis: its sizes, then its orthonormality, then the similarity in the
/// first, the central and the last column.
pub open spec fn transform_fault(
    m: Seq<HpValue>,
    t: TridiagonalView,
    q: Seq<HpValue>,
    dim: int,
    p: nat,
) -> Option<TransformFaultView> {
    if m.len() != dim * dim || q.len() != dim * dim {
        Some(TransformFaultView::Dimensions)
    } else if basis_fault(q, dim, 0, p) is Some {
        basis_fault(q, dim, 0, p)
    } else if similarity_fault(m, q, t, dim, 0, 0, p) is Some {
        similarity_fault(m, q, t, dim, 0, 0, p)
    } else if similarity_fault(m, q, t, dim, dim / 2, 0, p) is Some {
        similarity_fault(m, q, t, dim, dim / 2, 0, p)
    } else {
        similarity_fault(m, q, t, dim, dim - 1, 0, p)
    }
}

fn basis_column_dot(q: &Vec<HpFloat>, dim: usize, a: usize, b: usize, p: u32) -> (r: HpFloat)
    requires
        p >= 1,
        q.len() == dim * dim,
        a < dim,
        b < dim,
    ensures
        r@ == column_dot(vals(q@), dim as int, a as int, b as int, p as nat),
{
    let mut acc: HpFloat = HpFloat::zero(p);
    let mut row: usize = 0;
    while row < dim
        invariant
            row <= dim,
            q.len() == dim * dim,
            a < dim,
            b < dim,
            acc@ == accumulate(
                hp_int(p as nat, 0),
                column_products(vals(q@), dim as int, a as int, b as int),
                row as nat,
            ),
        decreases dim - row,
    {
        let i: usize = flat_index(dim, row, a, q.len());
        let j: usize = flat_index(dim, row, b, q.len());
        acc = acc.plus(&q[i].times(&q[j]));
        row = row + 1;
    }
    acc
}

fn basis_tolerance_value(p: u32) -> (r: HpFloat)
    requires
        p >= 1,
    ensures
        r@ == basis_tolerance(p as nat),
{
    let bits: i64 = if p > GUARD_BITS {
        (p - GUARD_BITS) as i64
    } else {
        1
    };
    HpFloat::power_of_two(p, -bits)
}

fn find_basis_fault(q: &Vec<HpFloat>, dim: usize, p: u32) -> (r: Option<TransformFault>)
    requires
        p >= 1,
        q.len() == dim * dim,
    ensures
        match r {
            None => basis_fault(vals(q@), dim as int, 0, p as nat) is None,
            Some(f) => basis_fault(vals(q@), dim as int, 0, p as nat) == Some(f@),
        },
{
    let ghost s = vals(q@);
    let ghost goal = basis_fault(s, dim as int, 0, p as nat);
    let tolerance: HpFloat = basis_tolerance_value(p);
    let mut column: usize = 0;
    while column < dim
        invariant
            column <= dim,
            p >= 1,
            q.len() == dim * dim,
            s == vals(q@),
            tolerance@ == basis_tolerance(p as nat),
            goal == basis_fault(s, dim as int, 0, p as nat),
            goal == basis_fault(s, dim as int, column as int, p as nat),
        decreases dim - column,
    {
        let norm: HpFloat = basis_column_dot(q, dim, column, column, p).minus_int(1).abs();
        if tolerance.lt(&norm) {
            return Some(TransformFault::Norm { column, error: norm, tolerance });
        }
        if column + 1 < dim {
            let adjacent: HpFloat = basis_column_dot(q, dim, column, column + 1, p).abs();
            if tolerance.lt(&adjacent) {
                return Some(TransformFault::Adjacent { column, error: adjacent, tolerance });
            }
        }
        column = column + 1;
    }
    None
}

fn replay_residual(
    m: &Vec<HpFloat>,
    q: &Vec<HpFloat>,
    t: &SectorTridiagonalHp,
    dim: usize,
    row: usize,
    column: usize,
    p: u32,
) -> (r: HpFloat)
    requires
        p >= 1,
        m.len() == dim * dim,
        q.len() == dim * dim,
        t@.fits(dim as int),
        row < dim,
        column < dim,
    ensures
        r@ == similarity_residual(
            vals(m@),
            vals(q@),
            t@,
            dim as int,
            row as int,
            column as int,
            p as nat,
        ),
{
    let mut left: HpFloat = HpFloat::zero(p);
    let mut inner: usize = 0;
    while inner < dim
        invariant
            inner <= dim,
            m.len() == dim * dim,
            q.len() == dim * dim,
            row < dim,
            column < dim,
            left@ == accumulate(
                hp_int(p as nat, 0),
                replay_products(vals(m@), vals(q@), dim as int, row as int, column as int),
                inner as nat,
            ),
        decreases dim - inner,
    {
        let i: usize = flat_index(dim, row, inner, m.len());
        let j: usize = flat_index(dim, inner, column, q.len());
        left = left.plus(&m[i].times(&q[j]));
        inner = inner + 1;
    }
    let at: usize = flat_index(dim, row, column, q.len());
    let mut right: HpFloat = q[at].times(&t.diagonal[column]);
    if column > 0 {
        let before: usize = flat_index(dim, row, column - 1, q.len());
        right = right.plus(&q[before].times(&t.off_diagonal[column - 1]));
    }
    if column + 1 < dim {
        let after: usize = flat_index(dim, row, column + 1, q.len());
        right = right.plus(&q[after].times(&t.off_diagonal[column]));
    }
    left.minus(&right).abs()
}

fn similarity_tolerance_value(m: &Vec<HpFloat>, dim: usize, p: u32) -> (r: HpFloat)
    requires
        p >= 1,
        m.len() == dim * dim,
    ensures
        r@ == similarity_tolerance(vals(m@), dim as int, p as nat),
{
    let mut scale: HpFloat = HpFloat::from_u64(p, 1);
    let mut row: usize = 0;
    while row < dim
        invariant
            row <= dim,
            p >= 1,
            m.len() == dim * dim,
            scale@ == largest(
                hp_int(p as nat, 1),
                row_sums(vals(m@), dim as int, p as nat),
                row as nat,
            ),
        decreases dim - row,
    {
        let sum: HpFloat = matrix_row_abs_sum(m, dim, row, p);
        if scale.lt(&sum) {
            scale = sum;
        }
        row = row + 1;
    }
    basis_tolerance_value(p).times(&scale)
}

fn find_similarity_fault(
    m: &Vec<HpFloat>,
    q: &Vec<HpFloat>,
    t: &SectorTridiagonalHp,
    dim: usize,
    column: usize,
    tolerance: &HpFloat,
    p: u32,
) -> (r: Option<TransformFault>)
    requires
        p >= 1,
        m.len() == dim * dim,
        q.len() == dim * dim,
        t@.fits(dim as int),
        column < dim,
        tolerance@ == similarity_tolerance(vals(m@), dim as int, p as nat),
    ensures
        ({
            let goal = similarity_fault(
                vals(m@),
                vals(q@),
                t@,
                dim as int,
                column as int,
                0,
                p as nat,
            );
            match r {
                None => goal is None,
                Some(f) => goal == Some(f@),
            }
        }),
{
    let ghost a = vals(m@);
    let ghost b = vals(q@);
    let ghost goal = similarity_fault(a, b, t@, dim as int, column as int, 0, p as nat);
    let mut row: usize = 0;
    while row < dim
        invariant
            row <= dim,
            p >= 1,
            m.len() == dim * dim,
            q.len() == dim * dim,
            t@.fits(dim as int),
            column < dim,
            a == vals(m@),
            b == vals(q@),
            tolerance@ == similarity_tolerance(a, dim as int, p as nat),
            goal == similarity_fault(a, b, t@, dim as int, column as int, 0, p as nat),
            goal == similarity_fault(a, b, t@, dim as int, column as int, row as int, p as nat),
        decreases dim - row,
    {
        let residual: HpFloat = replay_residual(m, q, t, dim, row, column, p);
        if tolerance.lt(&residual) {
            return Some(
                TransformFault::Similarity { row, column, residual, tolerance: tolerance.clone() },
            );
        }
        row = row + 1;
    }
    None
}

/// Checks a basis: unit columns, adjacent columns orthogonal, and `A Q = Q T` in the first,
/// the central and the last column.
pub fn validate_sector_transform(
    matrix: &Vec<HpFloat>,
    tridiagonal: &SectorTridiagonalHp,
    transform: &SectorTransformHp,
    dimension: usize,
    precision_bits: u32,
) -> (r: Result<(), TransformFault>)
    requires
        precision_bits >= 1,
        matrix@.len() == dimension * dimension && transform.basis@.len() == dimension * dimension
            ==> tridiagonal@.fits(dimension as int),
    ensures
        ({
            let goal = transform_fault(
                vals(matrix@),
                tridiagonal@,
                vals(transform.basis@),
                dimension as int,
                precision_bits as nat,
            );
            match r {
                Ok(_) => goal is None,
                Err(f) => goal == Some(f@),
            }
        }),
{
    if !is_square_of(matrix.len(), dimension) || !is_square_of(transform.basis.len(), dimension) {
        return Err(TransformFault::Dimensions);
    }
    match find_basis_fault(&transform.basis, dimension, precision_bits) {
        Some(f) => {
            return Err(f);
        },
        None => {},
    }
    let tolerance: HpFloat = similarity_tolerance_value(matrix, dimension, precision_bits);
    match find_similarity_fault(
        matrix,
        &transform.basis,
        tridiagonal,
        dimension,
        0,
        &tolerance,
        precision_bits,
    ) {
        Some(f) => {
            return Err(f);
        },
        None => {},
    }
    if dimension / 2 != 0 {
        match find_similarity_fault(
            matrix,
            &transform.basis,
            tridiagonal,
            dimension,
            dimension / 2,
            &tolerance,
            precision_bits,
        ) {
            Some(f) => {
                return Err(f);
            },
            None => {},
        }
    }
    if dimension - 1 != dimension / 2 {
        match find_similarity_fault(
            matrix,
            &transform.basis,
            tridiagonal,
            dimension,
            dimension - 1,
            &tolerance,
            precision_bits,
        ) {
            Some(f) => {
                return Err(f);
            },
            None => {},
        }
    }
    Ok(())
}

/// An accepted basis has unit columns, each orthogonal to the next, up to the tolerance.
pub proof fn law_accepted_basis_is_orthonormal(q: Seq<HpValue>, dim: int, from: int, p: nat)
    requires
        0 <= from,
        basis_fault(q, dim, from, p) is None,
    ensures
        forall|column: int|
            from <= column < dim ==> !basis_tolerance(p).lt(
                #[trigger] norm_error(q, dim, column, p),
            ),
        forall|column: int|
            from <= column < dim - 1 ==> !basis_tolerance(p).lt(
                #[trigger] adjacent_error(q, dim, column, p),
            ),
    decreases dim - from,
{
    if from < dim {
        law_accepted_basis_is_orthonormal(q, dim, from + 1, p);
    }
}

/// A basis whose columns have unit norm, each orthogonal to the next, up to the tolerance, is
/// not faulted.
pub proof fn law_orthonormal_basis_is_accepted(q: Seq<HpValue>, dim: int, from: int, p: nat)
    requires
        0 <= from,
        forall|column: int|
            from <= column < dim ==> !basis_tolerance(p).lt(
                #[trigger] norm_error(q, dim, column, p),
            ),
        forall|column: int|
            from <= column < dim - 1 ==> !basis_tolerance(p).lt(
                #[trigger] adjacent_error(q, dim, column, p),
            ),
    ensures
        basis_fault(q, dim, from, p) is None,
    decreases dim - from,
{
    if from < dim {
        assert(!basis_tolerance(p).lt(norm_error(q, dim, from, p)));
        if from + 1 < dim {
            assert(!basis_tolerance(p).lt(adjacent_error(q, dim, from, p)));
        }
        law_orthonormal_basis_is_accepted(q, dim, from + 1, p);
    }
}

/// A column is free of faults exactly where no entry of `A Q - Q T` in it is above the
/// tolerance.
proof fn lemma_column_agrees(
    m: Seq<HpValue>,
    q: Seq<HpValue>,
    t: TridiagonalView,
    dim: int,
    column: int,
    from: int,
    p: nat,
)
    requires
        0 <= from,
    ensures
        similarity_fault(m, q, t, dim, column, from, p) is None <==> (forall|row: int|
            from <= row < dim ==> !similarity_tolerance(m, dim, p).lt(
                #[trigger] similarity_residual(m, q, t, dim, row, column, p),
            )),
    decreases dim - from,
{
    if from < dim {
        lemma_column_agrees(m, q, t, dim, column, from + 1, p);
        let limit = similarity_tolerance(m, dim, p);
        if !limit.lt(similarity_residual(m, q, t, dim, from, column, p)) {
            assert((forall|row: int|
                from <= row < dim ==> !limit.lt(
                    #[trigger] similarity_residual(m, q, t, dim, row, column, p),
                )) <==> (forall|row: int|
                from + 1 <= row < dim ==> !limit.lt(
                    #[trigger] similarity_residual(m, q, t, dim, row, column, p),
                )));
        }
    }
}

/// A basis is accepted exactly where the sizes fit, its columns are orthonormal up to the
/// tolerance, and no entry of `A Q - Q T` in the first, the central or the last column is above
/// the tolerance that goes with the scale of the form.
pub proof fn law_accepted_transform_reduces_the_form(
    m: Seq<HpValue>,
    t: TridiagonalView,
    q: Seq<HpValue>,
    dim: int,
    p: nat,
)
    ensures
        transform_fault(m, t, q, dim, p) is None <==> {
            &&& m.len() == dim * dim
            &&& q.len() == dim * dim
            &&& forall|column: int|
                0 <= column < dim ==> !basis_tolerance(p).lt(
                    #[trigger] norm_error(q, dim, column, p),
                )
            &&& forall|column: int|
                0 <= column < dim - 1 ==> !basis_tolerance(p).lt(
                    #[trigger] adjacent_error(q, dim, column, p),
                )
            &&& forall|row: int, column: int|
                0 <= row < dim && (column == 0 || column == dim / 2 || column == dim - 1)
                    ==> !similarity_tolerance(m, dim, p).lt(
                    #[trigger] similarity_residual(m, q, t, dim, row, column, p),
                )
        },
{
    lemma_column_agrees(m, q, t, dim, 0, 0, p);
    lemma_column_agrees(m, q, t, dim, dim / 2, 0, p);
    lemma_column_agrees(m, q, t, dim, dim - 1, 0, p);
    if basis_fault(q, dim, 0, p) is None {
        law_accepted_basis_is_orthonormal(q, dim, 0, p);
    } else if (forall|column: int|
        0 <= column < dim ==> !basis_tolerance(p).lt(#[trigger] norm_error(q, dim, column, p)))
        && (forall|column: int|
        0 <= column < dim - 1 ==> !basis_tolerance(p).lt(
            #[trigger] adjacent_error(q, dim, column, p),
        )) {
        law_orthonormal_basis_is_accepted(q, dim, 0, p);
    }
}

/// A stored basis.
#[derive(Debug)]
pub struct PortableSectorTransform {
    pub schema_version: u32,
    pub lambda_squared: String,
    pub n_modes: usize,
    pub precision_bits: u32,
    pub parity: CcmParity,
    pub dimension: usize,
    pub basis: Vec<HpScalar>,
}

/// Why a stored basis is rejected, as mathematics.
pub enum TransformRejectionView {
    Words(Seq<char>),
    Fault(TransformFaultView),
}

/// Why a stored basis is rejected.
#[derive(Debug)]
pub enum TransformRejection {
    Invalid(CcmError),
    Fault(TransformFault),
}

impl View for TransformRejection {
    type V = TransformRejectionView;

    open spec fn view(&self) -> TransformRejectionView {
        match self {
            TransformRejection::Invalid(e) => TransformRejectionView::Words(e.text()),
            TransformRejection::Fault(f) => TransformRejectionView::Fault(f@),
        }
    }
}

impl TransformRejectionView {
    /// The words of the rejection, given the texts of the error and of the tolerance that it
    /// exceeds.
    pub open spec fn words(self, error: Seq<char>, tolerance: Seq<char>) -> Seq<char> {
        match self {
            TransformRejectionView::Words(words) => words,
            TransformRejectionView::Fault(f) =>
                "CCM sector transform failed orthogonality or A Q = Q T replay: "@ + f.words(
                error,
                tolerance,
            ),
        }
    }
}

impl TransformRejection {
    /// The words of the rejection, given the texts of the error and of the tolerance that it
    /// exceeds.
    pub fn message(&self, error: &str, tolerance: &str) -> (r: String)
        requires
            self@ matches TransformRejectionView::Fault(
                TransformFaultView::Adjacent { column, .. },
            ) ==> column < usize::MAX,
        ensures
            r@ == self@.words(error@, tolerance@),
    {
        match self {
            TransformRejection::Invalid(e) => e.message().to_owned(),
            TransformRejection::Fault(f) => {
                let mut t: String =
                    "CCM sector transform failed orthogonality or A Q = Q T replay: ".to_owned();
                let fault: String = f.message(error, tolerance);
                t.append(fault.as_str());
                t
            },
        }
    }
}

/// What reading a stored basis gives.
pub open spec fn transform_reading(
    a: PortableSectorTransform,
    params: CcmParams,
    cfg: HighPrecConfig,
    parity: CcmParity,
    dimension: int,
    matrix: Seq<HpValue>,
    t: TridiagonalView,
) -> Result<Seq<HpValue>, TransformRejectionView> {
    if a.schema_version != 1 || !names_source(
        a.lambda_squared@,
        a.n_modes,
        a.precision_bits,
        params,
        cfg,
    ) || a.parity != parity || a.dimension != dimension || a.basis@.len() != dimension * dimension {
        Err(
            TransformRejectionView::Words(
                "CCM sector transform does not match its semantic identity"@,
            ),
        )
    } else {
        match finite_vector(scalars(a.basis@), a.basis@.len()) {
            Err(m) => Err(TransformRejectionView::Words(m)),
            Ok(q) => match transform_fault(matrix, t, q, dimension, cfg.precision_bits as nat) {
                Some(f) => Err(TransformRejectionView::Fault(f)),
                None => Ok(q),
            },
        }
    }
}

/// Reads a stored basis and replays it.
pub fn decode_sector_transform(
    artifact: &PortableSectorTransform,
    params: &CcmParams,
    cfg: &HighPrecConfig,
    parity: CcmParity,
    dimension: usize,
    matrix: &Vec<HpFloat>,
    tridiagonal: &SectorTridiagonalHp,
) -> (r: Result<SectorTransformHp, TransformRejection>)
    requires
        cfg.precision_bits >= 1,
        tridiagonal@.fits(dimension as int),
    ensures
        ({
            let goal = transform_reading(
                *artifact,
                *params,
                *cfg,
                parity,
                dimension as int,
                vals(matrix@),
                tridiagonal@,
            );
            match r {
                Ok(v) => goal == Ok::<Seq<HpValue>, TransformRejectionView>(vals(v.basis@)),
                Err(e) => goal == Err::<Seq<HpValue>, TransformRejectionView>(e@) && (e is Invalid
                    ==> e->Invalid_0 is InvalidManifest),
            }
        }),
{
    if artifact.schema_version != 1 || !source_matches(
        &artifact.lambda_squared,
        artifact.n_modes,
        artifact.precision_bits,
        params,
        cfg,
    ) || artifact.parity != parity || artifact.dimension != dimension || !is_square_of(
        artifact.basis.len(),
        dimension,
    ) {
        return Err(
            TransformRejection::Invalid(
                CcmError::invalid("CCM sector transform does not match its semantic identity"),
            ),
        );
    }
    let basis: Vec<HpFloat> = match parse_hp_vector(&artifact.basis) {
        Ok(v) => v,
        Err(e) => {
            return Err(TransformRejection::Invalid(e));
        },
    };
    let transform: SectorTransformHp = SectorTransformHp { basis };
    match validate_sector_transform(matrix, tridiagonal, &transform, dimension, cfg.precision_bits) {
        Err(f) => Err(TransformRejection::Fault(f)),
        Ok(_) => Ok(transform),
    }
}

} // verus!
