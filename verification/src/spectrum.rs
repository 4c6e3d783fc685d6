//! Low spectra of the parity blocks, their replay, and the gap between the two parities.

use crate::config::{CcmParams, CcmParity, CcmSectorEigenvalueRoute, HighPrecConfig};
use crate::eigenvalues::{find_unseparated, first_unseparated, SectorEigenvaluesHp};
use crate::error::CcmError;
use crate::float::HpFloat;
use crate::matrix::{
    accumulate, copy_values, flat_index, lemma_build_ends, lemma_extend, matrix_row_dot, row_dot,
    vals,
};
use crate::order::{law_difference_tells_order, law_numbers_are_comparable, law_order_is_total};
use crate::payload::{
    finite_vector, names_source, parse_hp_vector, scalars, source_matches, HpScalar, ScalarView,
};
use crate::rounding::{hp_int, hp_pow2, hp_word, HpValue};
use crate::sector::{
    even_expansion, expand_even_sector_vector, expand_odd_sector_vector, odd_expansion, sqrt_two,
};
use crate::text::text_equal;
use crate::tridiagonal::{is_square_of, SectorTransformHp};
use vstd::prelude::*;

verus! {

/// One algebraically indexed eigenpair of a parity block.
#[derive(Debug)]
pub struct CcmSectorEigenpairHp {
    pub algebraic_index: usize,
    pub eigenvalue: HpFloat,
    pub eigenvector: Vec<HpFloat>,
    pub residual_norm: HpFloat,
}

/// An eigenpair, as mathematics.
pub struct EigenpairView {
    pub index: nat,
    pub eigenvalue: HpValue,
    pub eigenvector: Seq<HpValue>,
    pub residual: HpValue,
}

impl View for CcmSectorEigenpairHp {
    type V = EigenpairView;

    open spec fn view(&self) -> EigenpairView {
        EigenpairView {
            index: self.algebraic_index as nat,
            eigenvalue: self.eigenvalue@,
            eigenvector: vals(self.eigenvector@),
            residual: self.residual_norm@,
        }
    }
}

pub open spec fn eigenpairs(s: Seq<CcmSectorEigenpairHp>) -> Seq<EigenpairView> {
    Seq::new(s.len(), |i: int| s[i]@)
}

/// Ordered low spectrum of one parity block.
#[derive(Debug)]
pub struct CcmSectorSpectrumHp {
    pub parity: CcmParity,
    pub dimension: usize,
    pub eigenvalue_route: CcmSectorEigenvalueRoute,
    /// The complete spectrum, where the route computes it.
    pub complete_eigenvalues: Option<Vec<HpFloat>>,
    pub eigenpairs: Vec<CcmSectorEigenpairHp>,
}

/// A low spectrum, as mathematics.
pub struct SpectrumView {
    pub parity: CcmParity,
    pub dimension: nat,
    pub route: CcmSectorEigenvalueRoute,
    pub complete: Option<Seq<HpValue>>,
    pub pairs: Seq<EigenpairView>,
}

impl View for CcmSectorSpectrumHp {
    type V = SpectrumView;

    open spec fn view(&self) -> SpectrumView {
        SpectrumView {
            parity: self.parity,
            dimension: self.dimension as nat,
            route: self.eigenvalue_route,
            complete: match self.complete_eigenvalues {
                None => None,
                Some(v) => Some(vals(v@)),
            },
            pairs: eigenpairs(self.eigenpairs@),
        }
    }
}

/// Squared residuals of `A v = x v`, as a function of the row.
pub open spec fn residual_squares(
    m: Seq<HpValue>,
    dim: int,
    x: HpValue,
    v: Seq<HpValue>,
    p: nat,
) -> spec_fn(int) -> HpValue {
    |row: int|
        {
            let d = row_dot(m, v, dim, row, p).minus(v[row].times(x));
            d.times(d)
        }
}

/// Norm of the residual of an eigenpair.
pub open spec fn residual_norm(
    m: Seq<HpValue>,
    dim: int,
    x: HpValue,
    v: Seq<HpValue>,
    p: nat,
) -> HpValue {
    accumulate(hp_int(p, 0), residual_squares(m, dim, x, v, p), dim as nat).sqrt()
}

/// Norm of the residual of an eigenpair.
pub fn sector_eigenpair_residual_norm(
    matrix: &Vec<HpFloat>,
    dimension: usize,
    eigenvalue: &HpFloat,
    eigenvector: &Vec<HpFloat>,
    precision_bits: u32,
) -> (r: Result<HpFloat, CcmError>)
    requires
        precision_bits >= 1,
    ensures
        r is Ok == (matrix@.len() == dimension * dimension && eigenvector@.len() == dimension),
        match r {
            Ok(v) => v@ == residual_norm(
                vals(matrix@),
                dimension as int,
                eigenvalue@,
                vals(eigenvector@),
                precision_bits as nat,
            ),
            Err(e) => e.refuses("sector eigenpair dimensions do not match the matrix"@),
        },
{
    if !is_square_of(matrix.len(), dimension) || eigenvector.len() != dimension {
        return Err(CcmError::refused("sector eigenpair dimensions do not match the matrix"));
    }
    let mut acc: HpFloat = HpFloat::zero(precision_bits);
    let mut row: usize = 0;
    while row < dimension
        invariant
            row <= dimension,
            precision_bits >= 1,
            matrix@.len() == dimension * dimension,
            eigenvector@.len() == dimension,
            acc@ == accumulate(
                hp_int(precision_bits as nat, 0),
                residual_squares(
                    vals(matrix@),
                    dimension as int,
                    eigenvalue@,
                    vals(eigenvector@),
                    precision_bits as nat,
                ),
                row as nat,
            ),
        decreases dimension - row,
    {
        let applied: HpFloat = matrix_row_dot(matrix, eigenvector, dimension, row, precision_bits);
        let d: HpFloat = applied.minus(&eigenvector[row].times(eigenvalue));
        acc = acc.plus(&d.times(&d));
        row = row + 1;
    }
    Ok(acc.sqrt())
}

/// Products of a row of a basis and a vector.
pub open spec fn transform_terms(q: Seq<HpValue>, v: Seq<HpValue>, dim: int, row: int) -> Seq<
    HpValue,
> {
    Seq::new(dim as nat, |column: int| q[row * dim + column].times(v[column]))
}

/// The terms whose sum is one entry of a vector taken back to the block's own basis.
pub fn back_transform_terms(
    transform: &SectorTransformHp,
    vector: &Vec<HpFloat>,
    dimension: usize,
    row: usize,
) -> (r: Vec<HpFloat>)
    requires
        transform.basis@.len() == dimension * dimension,
        vector.len() == dimension,
        row < dimension,
    ensures
        vals(r@) == transform_terms(
            vals(transform.basis@),
            vals(vector@),
            dimension as int,
            row as int,
        ),
{
    let ghost goal = transform_terms(
        vals(transform.basis@),
        vals(vector@),
        dimension as int,
        row as int,
    );
    let mut out: Vec<HpFloat> = Vec::with_capacity(dimension);
    let mut column: usize = 0;
    proof {
        lemma_build_ends(goal);
    }
    while column < dimension
        invariant
            column <= dimension,
            row < dimension,
            transform.basis@.len() == dimension * dimension,
            vector.len() == dimension,
            out.len() == column,
            goal == transform_terms(
                vals(transform.basis@),
                vals(vector@),
                dimension as int,
                row as int,
            ),
            vals(out@) == goal.take(column as int),
        decreases dimension - column,
    {
        let k: usize = flat_index(dimension, row, column, transform.basis.len());
        let x: HpFloat = transform.basis[k].times(&vector[column]);
        proof {
            lemma_extend(out@, x, goal);
        }
        out.push(x);
        column = column + 1;
    }
    proof {
        lemma_build_ends(goal);
    }
    out
}

/// Whether a spectrum request stays inside the block.
pub open spec fn spectrum_request_holds(dimension: int, requested: int, available: int) -> bool {
    dimension != 0 && requested != 0 && requested <= dimension && available >= requested
}

/// Refuses a spectrum request that leaves the block.
pub fn check_spectrum_request(dimension: usize, requested: usize, available: usize) -> (r: Result<
    (),
    CcmError,
>)
    ensures
        r is Ok == spectrum_request_holds(dimension as int, requested as int, available as int),
        r matches Err(e) ==> e.refuses(
            "requested CCM sector spectrum is outside the sector dimension"@,
        ),
{
    if dimension == 0 || requested == 0 || requested > dimension || available < requested {
        Err(CcmError::refused("requested CCM sector spectrum is outside the sector dimension"))
    } else {
        Ok(())
    }
}

/// The eigenpairs that values and vectors make, with their residuals.
pub open spec fn paired(
    m: Seq<HpValue>,
    dim: int,
    values: Seq<HpValue>,
    vectors: Seq<Vec<HpFloat>>,
    p: nat,
) -> Seq<EigenpairView> {
    Seq::new(
        vectors.len(),
        |i: int|
            EigenpairView {
                index: i as nat,
                eigenvalue: values[i],
                eigenvector: vals(vectors[i]@),
                residual: residual_norm(m, dim, values[i], vals(vectors[i]@), p),
            },
    )
}

/// What assembling a spectrum gives.
pub open spec fn assembled_spectrum(
    m: Seq<HpValue>,
    dim: int,
    parity: CcmParity,
    route: CcmSectorEigenvalueRoute,
    complete: bool,
    values: Seq<HpValue>,
    vectors: Seq<Vec<HpFloat>>,
    p: nat,
) -> SpectrumView {
    SpectrumView {
        parity,
        dimension: dim as nat,
        route,
        complete: if complete {
            Some(values)
        } else {
            None
        },
        pairs: paired(m, dim, values, vectors, p),
    }
}

/// Assembles a spectrum from its eigenvalues and the eigenvectors that were found for the
/// lowest of them.
pub fn compute_sector_spectrum(
    matrix: &Vec<HpFloat>,
    dimension: usize,
    parity: CcmParity,
    eigenvalues: &SectorEigenvaluesHp,
    eigenvectors: Vec<Vec<HpFloat>>,
    precision_bits: u32,
) -> (r: Result<CcmSectorSpectrumHp, CcmError>)
    requires
        precision_bits >= 1,
        matrix@.len() == dimension * dimension,
        forall|i: int|
            0 <= i < eigenvectors@.len() ==> (#[trigger] eigenvectors@[i])@.len() == dimension,
    ensures
        r is Ok == spectrum_request_holds(
            dimension as int,
            eigenvectors@.len() as int,
            eigenvalues@.values.len() as int,
        ),
        match r {
            Ok(v) => v@ == assembled_spectrum(
                vals(matrix@),
                dimension as int,
                parity,
                eigenvalues@.route,
                eigenvalues@.complete,
                eigenvalues@.values,
                eigenvectors@,
                precision_bits as nat,
            ),
            Err(e) => e.refuses(
                "requested CCM sector spectrum is outside the sector dimension"@,
            ),
        },
{
    match check_spectrum_request(dimension, eigenvectors.len(), eigenvalues.values.len()) {
        Err(e) => {
            return Err(e);
        },
        Ok(_) => {},
    }
    let ghost goal = paired(
        vals(matrix@),
        dimension as int,
        eigenvalues@.values,
        eigenvectors@,
        precision_bits as nat,
    );
    let count: usize = eigenvectors.len();
    let mut pairs: Vec<CcmSectorEigenpairHp> = Vec::with_capacity(count);
    let mut i: usize = 0;
    while i < count
        invariant
            i <= count,
            count == eigenvectors.len(),
            count <= eigenvalues.values.len(),
            precision_bits >= 1,
            matrix@.len() == dimension * dimension,
            forall|k: int|
                0 <= k < eigenvectors@.len() ==> (#[trigger] eigenvectors@[k])@.len() == dimension,
            pairs.len() == i,
            goal == paired(
                vals(matrix@),
                dimension as int,
                eigenvalues@.values,
                eigenvectors@,
                precision_bits as nat,
            ),
            forall|k: int| 0 <= k < i ==> (#[trigger] eigenpairs(pairs@)[k]) == goal[k],
        decreases count - i,
    {
        let residual_norm: HpFloat = match sector_eigenpair_residual_norm(
            matrix,
            dimension,
            &eigenvalues.values[i],
            &eigenvectors[i],
            precision_bits,
        ) {
            Ok(v) => v,
            Err(e) => {
                return Err(e);
            },
        };
        let pair: CcmSectorEigenpairHp = CcmSectorEigenpairHp {
            algebraic_index: i,
            eigenvalue: eigenvalues.values[i].clone(),
            eigenvector: copy_values(&eigenvectors[i]),
            residual_norm,
        };
        let ghost before = pairs@;
        pairs.push(pair);
        assert forall|k: int| 0 <= k < i + 1 implies (#[trigger] eigenpairs(pairs@)[k])
            == goal[k] by {
            if k < i {
                assert(eigenpairs(before)[k] == goal[k]);
            }
        }
        i = i + 1;
    }
    assert(eigenpairs(pairs@) =~= goal);
    Ok(
        CcmSectorSpectrumHp {
            parity,
            dimension,
            eigenvalue_route: eigenvalues.route,
            complete_eigenvalues: if eigenvalues.complete {
                Some(copy_values(&eigenvalues.values))
            } else {
                None
            },
            eigenpairs: pairs,
        },
    )
}

/// A stored low spectrum.
#[derive(Debug)]
pub struct PortableSectorSpectrum {
    pub schema_version: u32,
    pub lambda_squared: String,
    pub n_modes: usize,
    pub precision_bits: u32,
    pub parity: CcmParity,
    pub eigenvalue_route: CcmSectorEigenvalueRoute,
    pub dimension: usize,
    pub requested_eigenpairs: usize,
    pub eigenvalues: Vec<HpScalar>,
    pub eigenvectors: Vec<Vec<HpScalar>>,
    pub residual_norms: Vec<HpScalar>,
}

/// Whether a stored spectrum is the one that a reader asks for.
pub open spec fn spectrum_identity_holds(
    a: PortableSectorSpectrum,
    params: CcmParams,
    cfg: HighPrecConfig,
    parity: CcmParity,
    route: CcmSectorEigenvalueRoute,
    dimension: int,
    requested: int,
) -> bool {
    &&& a.schema_version == 1
    &&& names_source(a.lambda_squared@, a.n_modes, a.precision_bits, params, cfg)
    &&& a.parity == parity
    &&& a.eigenvalue_route == route
    &&& a.dimension == dimension
    &&& a.requested_eigenpairs == requested
    &&& a.eigenvalues@.len() == requested
    &&& a.eigenvectors@.len() == requested
    &&& a.residual_norms@.len() == requested
}

/// Checks the identity of a stored spectrum.
pub fn validate_sector_spectrum_identity(
    artifact: &PortableSectorSpectrum,
    params: &CcmParams,
    cfg: &HighPrecConfig,
    parity: CcmParity,
    eigenvalue_route: CcmSectorEigenvalueRoute,
    dimension: usize,
    requested_eigenpairs: usize,
) -> (r: Result<(), CcmError>)
    ensures
        r is Ok == spectrum_identity_holds(
            *artifact,
            *params,
            *cfg,
            parity,
            eigenvalue_route,
            dimension as int,
            requested_eigenpairs as int,
        ),
        r matches Err(e) ==> e.rejects(
            "CCM sector spectrum does not match its semantic identity"@,
        ),
{
    if artifact.schema_version != 1 || !source_matches(
        &artifact.lambda_squared,
        artifact.n_modes,
        artifact.precision_bits,
        params,
        cfg,
    ) || artifact.parity != parity || artifact.eigenvalue_route != eigenvalue_route
        || artifact.dimension != dimension || artifact.requested_eigenpairs != requested_eigenpairs
        || artifact.eigenvalues.len() != requested_eigenpairs || artifact.eigenvectors.len()
        != requested_eigenpairs || artifact.residual_norms.len() != requested_eigenpairs {
        Err(CcmError::invalid("CCM sector spectrum does not match its semantic identity"))
    } else {
        Ok(())
    }
}

/// Largest residual that an eigenpair may have: a quarter of the precision.
pub open spec fn pair_tolerance(p: nat) -> HpValue {
    hp_pow2(
        p,
        -(if p / 4 > 8 {
            (p / 4) as int
        } else {
            8
        }),
    )
}

/// The eigenpair that stored scalars hold, or the words of its rejection.
pub open spec fn pair_reading(
    stored: Seq<ScalarView>,
    index: int,
    value: HpValue,
    stored_residual: HpValue,
    m: Seq<HpValue>,
    dim: int,
    p: nat,
) -> Result<EigenpairView, Seq<char>> {
    match finite_vector(stored, stored.len()) {
        Err(e) => Err(e),
        Ok(v) => {
            let residual = residual_norm(m, dim, value, v, p);
            if v.len() != dim {
                Err("CCM sector eigenvector has the wrong dimension"@)
            } else if m.len() != dim * dim {
                Err("sector eigenpair dimensions do not match the matrix"@)
            } else if pair_tolerance(p).lt(residual) || !residual.eqv(stored_residual) {
                Err("CCM sector eigenpair failed exact residual replay"@)
            } else {
                Ok(EigenpairView { index: index as nat, eigenvalue: value, eigenvector: v, residual })
            }
        },
    }
}

/// The first `n` eigenpairs, or the words of the first rejection.
pub open spec fn pairs_reading(
    stored: Seq<Vec<HpScalar>>,
    values: Seq<HpValue>,
    residuals: Seq<HpValue>,
    m: Seq<HpValue>,
    dim: int,
    p: nat,
    n: nat,
) -> Result<Seq<EigenpairView>, Seq<char>>
    decreases n,
{
    if n == 0 {
        Ok(Seq::<EigenpairView>::empty())
    } else {
        match pairs_reading(stored, values, residuals, m, dim, p, (n - 1) as nat) {
            Err(e) => Err(e),
            Ok(s) => match pair_reading(
                scalars(stored[n - 1]@),
                n - 1,
                values[n - 1],
                residuals[n - 1],
                m,
                dim,
                p,
            ) {
                Err(e) => Err(e),
                Ok(x) => Ok(s.push(x)),
            },
        }
    }
}

/// What reading a stored spectrum gives.
pub open spec fn spectrum_reading(
    a: PortableSectorSpectrum,
    params: CcmParams,
    cfg: HighPrecConfig,
    parity: CcmParity,
    route: CcmSectorEigenvalueRoute,
    m: Seq<HpValue>,
    dimension: int,
    requested: int,
) -> Result<SpectrumView, Seq<char>> {
    if !spectrum_identity_holds(a, params, cfg, parity, route, dimension, requested) {
        Err("CCM sector spectrum does not match its semantic identity"@)
    } else {
        match finite_vector(scalars(a.eigenvalues@), a.eigenvalues@.len()) {
            Err(e) => Err(e),
            Ok(values) => if first_unseparated(values, 0) is Some {
                Err("CCM sector spectrum is not strictly ordered"@)
            } else {
                match finite_vector(scalars(a.residual_norms@), a.residual_norms@.len()) {
                    Err(e) => Err(e),
                    Ok(residuals) => match pairs_reading(
                        a.eigenvectors@,
                        values,
                        residuals,
                        m,
                        dimension,
                        cfg.precision_bits as nat,
                        requested as nat,
                    ) {
                        Err(e) => Err(e),
                        Ok(pairs) => Ok(
                            SpectrumView {
                                parity,
                                dimension: dimension as nat,
                                route,
                                complete: None,
                                pairs,
                            },
                        ),
                    },
                }
            },
        }
    }
}

fn pair_tolerance_value(p: u32) -> (r: HpFloat)
    requires
        p >= 1,
    ensures
        r@ == pair_tolerance(p as nat),
{
    let bits: i64 = if p / 4 > 8 {
        (p / 4) as i64
    } else {
        8
    };
    HpFloat::power_of_two(p, -bits)
}

fn decode_pair(
    stored: &Vec<HpScalar>,
    index: usize,
    value: &HpFloat,
    stored_residual: &HpFloat,
    matrix: &Vec<HpFloat>,
    dimension: usize,
    p: u32,
) -> (r: Result<CcmSectorEigenpairHp, CcmError>)
    requires
        p >= 1,
    ensures
        ({
            let goal = pair_reading(
                scalars(stored@),
                index as int,
                value@,
                stored_residual@,
                vals(matrix@),
                dimension as int,
                p as nat,
            );
            match r {
                Ok(v) => goal == Ok::<EigenpairView, Seq<char>>(v@),
                Err(e) => e is InvalidManifest && goal == Err::<EigenpairView, Seq<char>>(
                    e.text(),
                ),
            }
        }),
{
    let eigenvector: Vec<HpFloat> = match parse_hp_vector(stored) {
        Ok(v) => v,
        Err(e) => {
            return Err(e);
        },
    };
    if eigenvector.len() != dimension {
        return Err(CcmError::invalid("CCM sector eigenvector has the wrong dimension"));
    }
    let residual: HpFloat = match sector_eigenpair_residual_norm(
        matrix,
        dimension,
        value,
        &eigenvector,
        p,
    ) {
        Ok(v) => v,
        Err(_) => {
            return Err(CcmError::invalid("sector eigenpair dimensions do not match the matrix"));
        },
    };
    if pair_tolerance_value(p).lt(&residual) || !residual.eqv(stored_residual) {
        return Err(CcmError::invalid("CCM sector eigenpair failed exact residual replay"));
    }
    Ok(
        CcmSectorEigenpairHp {
            algebraic_index: index,
            eigenvalue: value.clone(),
            eigenvector,
            residual_norm: residual,
        },
    )
}

proof fn lemma_pairs_rejected(
    stored: Seq<Vec<HpScalar>>,
    values: Seq<HpValue>,
    residuals: Seq<HpValue>,
    m: Seq<HpValue>,
    dim: int,
    p: nat,
    n: nat,
    total: nat,
)
    requires
        n <= total,
        pairs_reading(stored, values, residuals, m, dim, p, n) is Err,
    ensures
        pairs_reading(stored, values, residuals, m, dim, p, total) == pairs_reading(
            stored,
            values,
            residuals,
            m,
            dim,
            p,
            n,
        ),
    decreases total,
{
    if n < total {
        lemma_pairs_rejected(stored, values, residuals, m, dim, p, n, (total - 1) as nat);
    }
}

fn decode_pairs(
    stored: &Vec<Vec<HpScalar>>,
    values: &Vec<HpFloat>,
    residuals: &Vec<HpFloat>,
    matrix: &Vec<HpFloat>,
    dimension: usize,
    p: u32,
) -> (r: Result<Vec<CcmSectorEigenpairHp>, CcmError>)
    requires
        p >= 1,
        stored.len() == values.len(),
        stored.len() == residuals.len(),
    ensures
        ({
            let goal = pairs_reading(
                stored@,
                vals(values@),
                vals(residuals@),
                vals(matrix@),
                dimension as int,
                p as nat,
                stored@.len(),
            );
            match r {
                Ok(v) => goal == Ok::<Seq<EigenpairView>, Seq<char>>(eigenpairs(v@)),
                Err(e) => e is InvalidManifest && goal == Err::<Seq<EigenpairView>, Seq<char>>(
                    e.text(),
                ),
            }
        }),
{
    let ghost a = vals(values@);
    let ghost b = vals(residuals@);
    let ghost m = vals(matrix@);
    let mut out: Vec<CcmSectorEigenpairHp> = Vec::with_capacity(stored.len());
    let mut i: usize = 0;
    assert(eigenpairs(out@) =~= Seq::<EigenpairView>::empty());
    while i < stored.len()
        invariant
            i <= stored.len(),
            p >= 1,
            stored.len() == values.len(),
            stored.len() == residuals.len(),
            a == vals(values@),
            b == vals(residuals@),
            m == vals(matrix@),
            pairs_reading(stored@, a, b, m, dimension as int, p as nat, i as nat) == Ok::<
                Seq<EigenpairView>,
                Seq<char>,
            >(eigenpairs(out@)),
        decreases stored.len() - i,
    {
        match decode_pair(&stored[i], i, &values[i], &residuals[i], matrix, dimension, p) {
            Err(e) => {
                proof {
                    lemma_pairs_rejected(
                        stored@,
                        a,
                        b,
                        m,
                        dimension as int,
                        p as nat,
                        (i + 1) as nat,
                        stored@.len(),
                    );
                }
                return Err(e);
            },
            Ok(x) => {
                let ghost before = out@;
                out.push(x);
                assert(eigenpairs(out@) =~= eigenpairs(before).push(x@));
            },
        }
        i = i + 1;
    }
    Ok(out)
}

/// Reads a stored spectrum and replays the residual of every eigenpair.
pub fn decode_sector_spectrum(
    artifact: &PortableSectorSpectrum,
    params: &CcmParams,
    cfg: &HighPrecConfig,
    parity: CcmParity,
    eigenvalue_route: CcmSectorEigenvalueRoute,
    matrix: &Vec<HpFloat>,
    dimension: usize,
    requested_eigenpairs: usize,
) -> (r: Result<CcmSectorSpectrumHp, CcmError>)
    requires
        cfg.precision_bits >= 1,
    ensures
        ({
            let goal = spectrum_reading(
                *artifact,
                *params,
                *cfg,
                parity,
                eigenvalue_route,
                vals(matrix@),
                dimension as int,
                requested_eigenpairs as int,
            );
            match r {
                Ok(v) => goal == Ok::<SpectrumView, Seq<char>>(v@),
                Err(e) => e is InvalidManifest && goal == Err::<SpectrumView, Seq<char>>(e.text()),
            }
        }),
{
    match validate_sector_spectrum_identity(
        artifact,
        params,
        cfg,
        parity,
        eigenvalue_route,
        dimension,
        requested_eigenpairs,
    ) {
        Err(e) => {
            return Err(e);
        },
        Ok(_) => {},
    }
    let values: Vec<HpFloat> = match parse_hp_vector(&artifact.eigenvalues) {
        Ok(v) => v,
        Err(e) => {
            return Err(e);
        },
    };
    match find_unseparated(&values) {
        Some(_) => {
            return Err(CcmError::invalid("CCM sector spectrum is not strictly ordered"));
        },
        None => {},
    }
    let residuals: Vec<HpFloat> = match parse_hp_vector(&artifact.residual_norms) {
        Ok(v) => v,
        Err(e) => {
            return Err(e);
        },
    };
    match decode_pairs(
        &artifact.eigenvectors,
        &values,
        &residuals,
        matrix,
        dimension,
        cfg.precision_bits,
    ) {
        Err(e) => Err(e),
        Ok(pairs) => Ok(
            CcmSectorSpectrumHp {
                parity,
                dimension,
                eigenvalue_route,
                complete_eigenvalues: None,
                eigenpairs: pairs,
            },
        ),
    }
}

/// Every eigenpair of an accepted spectrum has the stored residual, within the tolerance.
pub proof fn law_accepted_pairs_replay(
    stored: Seq<Vec<HpScalar>>,
    values: Seq<HpValue>,
    residuals: Seq<HpValue>,
    m: Seq<HpValue>,
    dim: int,
    p: nat,
    n: nat,
)
    ensures
        pairs_reading(stored, values, residuals, m, dim, p, n) matches Ok(s) ==> s.len() == n
            && forall|i: int|
            0 <= i < n ==> {
                &&& (#[trigger] s[i]).index == i
                &&& s[i].eigenvalue == values[i]
                &&& s[i].residual == residual_norm(m, dim, values[i], s[i].eigenvector, p)
                &&& s[i].residual.eqv(residuals[i])
                &&& !pair_tolerance(p).lt(s[i].residual)
            },
    decreases n,
{
    if n > 0 {
        law_accepted_pairs_replay(stored, values, residuals, m, dim, p, (n - 1) as nat);
    }
}

/// Comparison of the lowest even and odd states.
#[derive(Debug)]
pub struct CcmSectorGapHp {
    pub even: CcmSectorSpectrumHp,
    pub odd: CcmSectorSpectrumHp,
    pub lambda_even: HpFloat,
    pub lambda_odd: HpFloat,
    pub d_even: HpFloat,
    pub d_odd: HpFloat,
    pub gap_log: HpFloat,
    pub lambda_difference: HpFloat,
    pub difference_depth: HpFloat,
    pub ordering: i8,
    pub even_simple: bool,
    pub even_simplicity_margin: HpFloat,
}

/// A gap, as mathematics.
pub struct GapView {
    pub even: SpectrumView,
    pub odd: SpectrumView,
    pub lambda_even: HpValue,
    pub lambda_odd: HpValue,
    pub d_even: HpValue,
    pub d_odd: HpValue,
    pub gap_log: HpValue,
    pub lambda_difference: HpValue,
    pub difference_depth: HpValue,
    pub ordering: int,
    pub even_simple: bool,
    pub margin: HpValue,
}

impl View for CcmSectorGapHp {
    type V = GapView;

    open spec fn view(&self) -> GapView {
        GapView {
            even: self.even@,
            odd: self.odd@,
            lambda_even: self.lambda_even@,
            lambda_odd: self.lambda_odd@,
            d_even: self.d_even@,
            d_odd: self.d_odd@,
            gap_log: self.gap_log@,
            lambda_difference: self.lambda_difference@,
            difference_depth: self.difference_depth@,
            ordering: self.ordering as int,
            even_simple: self.even_simple,
            margin: self.even_simplicity_margin@,
        }
    }
}

/// Decimal logarithms of the magnitudes that a gap needs: of the lowest even value, the lowest
/// odd value, and their difference.
#[derive(Debug)]
pub struct GapLogarithms {
    pub even: HpFloat,
    pub odd: HpFloat,
    pub difference: HpFloat,
}

/// Whether a value has a finite logarithmic depth.
pub open spec fn has_depth(x: HpValue) -> bool {
    !x.abs().is_zero() && x.abs().is_finite()
}

/// Whether two spectra can be compared.
pub open spec fn comparable_spectra(even: SpectrumView, odd: SpectrumView) -> bool {
    even.parity is Even && odd.parity is Odd && even.pairs.len() >= 2 && odd.pairs.len() >= 2
}

/// Sign of a value; zero where it has none.
pub open spec fn sign(x: HpValue) -> int {
    if hp_word(0).lt(x) {
        1
    } else if x.lt(hp_word(0)) {
        -1
    } else {
        0
    }
}

/// What comparing two spectra gives.
pub open spec fn gap(
    even: SpectrumView,
    odd: SpectrumView,
    log_even: HpValue,
    log_odd: HpValue,
    log_difference: HpValue,
    p: nat,
) -> Result<GapView, Seq<char>> {
    let lambda_even = even.pairs[0].eigenvalue;
    let lambda_odd = odd.pairs[0].eigenvalue;
    let difference = lambda_odd.minus(lambda_even);
    let margin = even.pairs[1].eigenvalue.minus(lambda_even);
    if !comparable_spectra(even, odd) {
        Err("CCM sector-gap analysis requires two ordered eigenpairs per parity sector"@)
    } else if !has_depth(lambda_even) || !has_depth(lambda_odd) || !has_depth(difference) {
        Err("CCM logarithmic depth requires a finite nonzero value"@)
    } else {
        let d_even = log_even.negated().at(p);
        let d_odd = log_odd.negated().at(p);
        Ok(
            GapView {
                even,
                odd,
                lambda_even,
                lambda_odd,
                d_even,
                d_odd,
                gap_log: d_even.minus(d_odd),
                lambda_difference: difference,
                difference_depth: log_difference.negated().at(p),
                ordering: sign(difference),
                even_simple: hp_word(0).lt(margin),
                margin,
            },
        )
    }
}

/// Depth of a value, from the decimal logarithm of its magnitude.
pub fn negative_log10_abs(value: &HpFloat, log10_magnitude: &HpFloat, precision_bits: u32) -> (r:
    Result<HpFloat, CcmError>)
    requires
        precision_bits >= 1,
    ensures
        r is Ok == has_depth(value@),
        match r {
            Ok(v) => v@ == log10_magnitude@.negated().at(precision_bits as nat),
            Err(e) => e.refuses("CCM logarithmic depth requires a finite nonzero value"@),
        },
{
    let magnitude: HpFloat = value.abs();
    if magnitude.is_zero() || !magnitude.is_finite() {
        return Err(CcmError::refused("CCM logarithmic depth requires a finite nonzero value"));
    }
    Ok(log10_magnitude.negated().at(precision_bits))
}

/// Compares the lowest even and odd states.
pub fn compute_sector_gap(
    even: CcmSectorSpectrumHp,
    odd: CcmSectorSpectrumHp,
    logarithms: &GapLogarithms,
    precision_bits: u32,
) -> (r: Result<CcmSectorGapHp, CcmError>)
    requires
        precision_bits >= 1,
    ensures
        ({
            let goal = gap(
                even@,
                odd@,
                logarithms.even@,
                logarithms.odd@,
                logarithms.difference@,
                precision_bits as nat,
            );
            match r {
                Ok(v) => goal == Ok::<GapView, Seq<char>>(v@),
                Err(e) => e is Refused && goal == Err::<GapView, Seq<char>>(e.text()),
            }
        }),
{
    if even.parity != CcmParity::Even || odd.parity != CcmParity::Odd || even.eigenpairs.len() < 2
        || odd.eigenpairs.len() < 2 {
        return Err(
            CcmError::refused(
                "CCM sector-gap analysis requires two ordered eigenpairs per parity sector",
            ),
        );
    }
    assert(even@.pairs[0] == even.eigenpairs@[0]@);
    assert(even@.pairs[1] == even.eigenpairs@[1]@);
    assert(odd@.pairs[0] == odd.eigenpairs@[0]@);
    let lambda_even: HpFloat = even.eigenpairs[0].eigenvalue.clone();
    let lambda_odd: HpFloat = odd.eigenpairs[0].eigenvalue.clone();
    let d_even: HpFloat = match negative_log10_abs(&lambda_even, &logarithms.even, precision_bits) {
        Ok(v) => v,
        Err(e) => {
            return Err(e);
        },
    };
    let d_odd: HpFloat = match negative_log10_abs(&lambda_odd, &logarithms.odd, precision_bits) {
        Ok(v) => v,
        Err(e) => {
            return Err(e);
        },
    };
    let gap_log: HpFloat = d_even.minus(&d_odd);
    let lambda_difference: HpFloat = lambda_odd.minus(&lambda_even);
    let difference_depth: HpFloat = match negative_log10_abs(
        &lambda_difference,
        &logarithms.difference,
        precision_bits,
    ) {
        Ok(v) => v,
        Err(e) => {
            return Err(e);
        },
    };
    let zero: HpFloat = HpFloat::from_i64(64, 0);
    let ordering: i8 = if zero.lt(&lambda_difference) {
        1
    } else if lambda_difference.lt(&zero) {
        -1
    } else {
        0
    };
    let even_simplicity_margin: HpFloat = even.eigenpairs[1].eigenvalue.minus(&lambda_even);
    let even_simple: bool = zero.lt(&even_simplicity_margin);
    Ok(
        CcmSectorGapHp {
            even,
            odd,
            lambda_even,
            lambda_odd,
            d_even,
            d_odd,
            gap_log,
            lambda_difference,
            difference_depth,
            ordering,
            even_simple,
            even_simplicity_margin,
        },
    )
}

/// Refuses a gap analysis of fewer than two, or more than `n_modes`, eigenpairs.
pub fn check_gap_request(requested_eigenpairs: usize, n_modes: usize) -> (r: Result<(), CcmError>)
    ensures
        r is Ok == (2 <= requested_eigenpairs <= n_modes),
        r matches Err(e) ==> e.refuses(
            "CCM sector-gap analysis requires between two and N eigenpairs per sector"@,
        ),
{
    if requested_eigenpairs < 2 || requested_eigenpairs > n_modes {
        Err(
            CcmError::refused(
                "CCM sector-gap analysis requires between two and N eigenpairs per sector",
            ),
        )
    } else {
        Ok(())
    }
}

/// The eigenvalue of the lower of the two lowest states, and its vector in full coordinates.
pub open spec fn natural_state(g: GapView, n: int, p: nat) -> Option<(HpValue, Seq<HpValue>)> {
    if g.ordering == 1 {
        Some((g.lambda_even, even_expansion(g.even.pairs[0].eigenvector, n, p)))
    } else if g.ordering == -1 {
        Some((g.lambda_odd, odd_expansion(g.odd.pairs[0].eigenvector, n, p)))
    } else {
        None
    }
}

/// The lower of the two lowest states, in full coordinates.
pub fn natural_state_of_gap(gap: &CcmSectorGapHp, n_modes: usize, precision_bits: u32) -> (r:
    Result<(HpFloat, Vec<HpFloat>), CcmError>)
    requires
        precision_bits >= 1,
        2 * n_modes + 1 <= usize::MAX,
        gap.even.eigenpairs@.len() >= 1,
        gap.odd.eigenpairs@.len() >= 1,
        gap.even.eigenpairs@[0].eigenvector@.len() == n_modes + 1,
        gap.odd.eigenpairs@[0].eigenvector@.len() == n_modes,
    ensures
        match r {
            Ok(v) => natural_state(gap@, n_modes as int, precision_bits as nat) == Some(
                (v.0@, vals(v.1@)),
            ),
            Err(e) => natural_state(gap@, n_modes as int, precision_bits as nat) is None
                && e.refuses(
                "CCM natural evenness is ambiguous at an even/odd degeneracy"@,
            ),
        },
{
    assert(gap@.even.pairs[0] == gap.even.eigenpairs@[0]@);
    assert(gap@.odd.pairs[0] == gap.odd.eigenpairs@[0]@);
    if gap.ordering == 1 {
        Ok(
            (
                gap.lambda_even.clone(),
                expand_even_sector_vector(
                    &gap.even.eigenpairs[0].eigenvector,
                    n_modes,
                    precision_bits,
                ),
            ),
        )
    } else if gap.ordering == -1 {
        Ok(
            (
                gap.lambda_odd.clone(),
                expand_odd_sector_vector(
                    &gap.odd.eigenpairs[0].eigenvector,
                    n_modes,
                    precision_bits,
                ),
            ),
        )
    } else {
        Err(
            CcmError::refused("CCM natural evenness is ambiguous at an even/odd degeneracy"),
        )
    }
}

/// A stored gap.
#[derive(Debug)]
pub struct PortableSectorGap {
    pub schema_version: u32,
    pub lambda_squared: String,
    pub n_modes: usize,
    pub precision_bits: u32,
    pub even_spectrum_content_digest: String,
    pub odd_spectrum_content_digest: String,
    pub lambda_even: String,
    pub lambda_odd: String,
    pub d_even: String,
    pub d_odd: String,
    pub gap_log: String,
    pub lambda_difference: String,
    pub difference_depth: String,
    pub ordering: i8,
    pub even_simple: bool,
    pub even_simplicity_margin: String,
}

/// Whether two stored gaps are the same in every field.
pub open spec fn same_gap(a: PortableSectorGap, b: PortableSectorGap) -> bool {
    &&& a.schema_version == b.schema_version
    &&& a.lambda_squared@ == b.lambda_squared@
    &&& a.n_modes == b.n_modes
    &&& a.precision_bits == b.precision_bits
    &&& a.even_spectrum_content_digest@ == b.even_spectrum_content_digest@
    &&& a.odd_spectrum_content_digest@ == b.odd_spectrum_content_digest@
    &&& a.lambda_even@ == b.lambda_even@
    &&& a.lambda_odd@ == b.lambda_odd@
    &&& a.d_even@ == b.d_even@
    &&& a.d_odd@ == b.d_odd@
    &&& a.gap_log@ == b.gap_log@
    &&& a.lambda_difference@ == b.lambda_difference@
    &&& a.difference_depth@ == b.difference_depth@
    &&& a.ordering == b.ordering
    &&& a.even_simple == b.even_simple
    &&& a.even_simplicity_margin@ == b.even_simplicity_margin@
}

fn same_text(a: &String, b: &String) -> (r: bool)
    ensures
        r == (a@ == b@),
{
    text_equal(a.as_str(), b.as_str())
}

/// Accepts a stored gap only where it is what its spectra replay to.
pub fn check_gap_replay(artifact: &PortableSectorGap, expected: &PortableSectorGap) -> (r: Result<
    (),
    CcmError,
>)
    ensures
        r is Ok == same_gap(*artifact, *expected),
        r matches Err(e) ==> e.rejects(
            "CCM sector-gap payload does not replay from its sector spectra"@,
        ),
{
    let a: &PortableSectorGap = artifact;
    let b: &PortableSectorGap = expected;
    if a.schema_version == b.schema_version && same_text(&a.lambda_squared, &b.lambda_squared)
        && a.n_modes == b.n_modes && a.precision_bits == b.precision_bits && same_text(
        &a.even_spectrum_content_digest,
        &b.even_spectrum_content_digest,
    ) && same_text(&a.odd_spectrum_content_digest, &b.odd_spectrum_content_digest) && same_text(
        &a.lambda_even,
        &b.lambda_even,
    ) && same_text(&a.lambda_odd, &b.lambda_odd) && same_text(&a.d_even, &b.d_even) && same_text(
        &a.d_odd,
        &b.d_odd,
    ) && same_text(&a.gap_log, &b.gap_log) && same_text(
        &a.lambda_difference,
        &b.lambda_difference,
    ) && same_text(&a.difference_depth, &b.difference_depth) && a.ordering == b.ordering
        && a.even_simple == b.even_simple && same_text(
        &a.even_simplicity_margin,
        &b.even_simplicity_margin,
    ) {
        Ok(())
    } else {
        Err(
            CcmError::invalid("CCM sector-gap payload does not replay from its sector spectra"),
        )
    }
}

/// The ordering of a gap tells which of the two lowest states is the lower one, and the natural
/// state is that one: its eigenvalue is above neither of the two lowest eigenvalues, and it is
/// reported as simple only where the next even eigenvalue is larger.
pub proof fn law_ordering_tells_the_lower_state(
    even: SpectrumView,
    odd: SpectrumView,
    log_even: HpValue,
    log_odd: HpValue,
    log_difference: HpValue,
    n: int,
    p: nat,
)
    requires
        even.pairs.len() >= 2,
        odd.pairs.len() >= 2,
        even.pairs[0].eigenvalue.wf(),
        even.pairs[1].eigenvalue.wf(),
        odd.pairs[0].eigenvalue.wf(),
        even.pairs[1].eigenvalue.is_finite(),
    ensures
        gap(even, odd, log_even, log_odd, log_difference, p) matches Ok(g) ==> {
            let lowest_even = even.pairs[0].eigenvalue;
            let lowest_odd = odd.pairs[0].eigenvalue;
            let state = natural_state(g, n, p);
            &&& g.lambda_even == lowest_even && g.lambda_odd == lowest_odd
            &&& g.ordering == 1 <==> lowest_even.lt(lowest_odd)
            &&& g.ordering == -1 <==> lowest_odd.lt(lowest_even)
            &&& state is Some
            &&& !lowest_even.lt((state->0).0) && !lowest_odd.lt((state->0).0)
            &&& lowest_even.lt(lowest_odd) ==> (state->0).0 == lowest_even
            &&& lowest_odd.lt(lowest_even) ==> (state->0).0 == lowest_odd
            &&& g.even_simple ==> lowest_even.lt(even.pairs[1].eigenvalue)
            &&& g.even_simple == hp_word(0).lt(g.margin)
        },
{
    let lowest_even = even.pairs[0].eigenvalue;
    let lowest_odd = odd.pairs[0].eigenvalue;
    if gap(even, odd, log_even, log_odd, log_difference, p) is Ok {
        law_difference_tells_order(lowest_odd, lowest_even);
        law_difference_tells_order(even.pairs[1].eigenvalue, lowest_even);
        law_numbers_are_comparable(lowest_odd);
        law_numbers_are_comparable(lowest_even);
        law_order_is_total(lowest_odd, lowest_even);
        law_order_is_total(lowest_odd, lowest_odd);
        law_order_is_total(lowest_even, lowest_even);
    }
}

/// The vector of the natural state comes from the sector of the lower state: an even one is the
/// same on both sides of its middle, which is the first entry of the lowest even vector; an odd
/// one changes its sign from side to side, and its middle is zero.
pub proof fn law_natural_state_has_its_parity(
    even: SpectrumView,
    odd: SpectrumView,
    log_even: HpValue,
    log_odd: HpValue,
    log_difference: HpValue,
    n: int,
    k: int,
    p: nat,
)
    requires
        1 <= k <= n,
        even.pairs.len() >= 2,
        odd.pairs.len() >= 2,
        even.pairs[0].eigenvalue.wf(),
        even.pairs[1].eigenvalue.wf(),
        odd.pairs[0].eigenvalue.wf(),
        even.pairs[1].eigenvalue.is_finite(),
    ensures
        gap(even, odd, log_even, log_odd, log_difference, p) matches Ok(g) ==> {
            let lowest_even = even.pairs[0].eigenvalue;
            let lowest_odd = odd.pairs[0].eigenvalue;
            let v = (natural_state(g, n, p)->0).1;
            &&& v.len() == 2 * n + 1
            &&& lowest_even.lt(lowest_odd) ==> {
                &&& v[n] == even.pairs[0].eigenvector[0]
                &&& v[n + k] == v[n - k]
                &&& v[n + k] == even.pairs[0].eigenvector[k].over(sqrt_two(p))
            }
            &&& lowest_odd.lt(lowest_even) ==> {
                &&& v[n].is_zero()
                &&& v[n - k] == v[n + k].negated()
                &&& v[n + k] == odd.pairs[0].eigenvector[k - 1].over(sqrt_two(p))
            }
        },
{
    law_ordering_tells_the_lower_state(even, odd, log_even, log_odd, log_difference, n, p);
}

} // verus!
