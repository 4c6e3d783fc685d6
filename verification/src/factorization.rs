//! Stored LU factorizations: their admissibility and their normwise backward error.

use crate::config::{CcmParams, HighPrecConfig};
use crate::error::CcmError;
use crate::float::HpFloat;
use crate::matrix::{
    all_finite, is_all_finite, largest, largest_magnitude, lemma_build_ends, lemma_extend,
    magnitude_of, matrix_row_abs_sum, matrix_row_dot, row_dot, vals,
};
use crate::payload::{
    finite_vector, names_source, parse_hp_vector, scalars, source_matches, HpScalar,
};
use crate::rounding::{hp_int, hp_pow2, HpValue};
use crate::text::text_equal;
use crate::tridiagonal::{is_square_of, row_sums};
use vstd::prelude::*;
use vstd::string::*;

verus! {

/// Combined triangular factors in row-major order, with the row permutation.
#[derive(Debug)]
pub struct LuFactors {
    pub lu: Vec<HpFloat>,
    pub perm: Vec<usize>,
}

/// Whether a sequence holds every number below its length once.
pub open spec fn is_permutation(s: Seq<usize>) -> bool {
    &&& forall|i: int| 0 <= i < s.len() ==> (#[trigger] s[i]) < s.len()
    &&& forall|i: int, j: int| 0 <= i < j < s.len() ==> s[i] != s[j]
}

/// Whether factors can stand for a finite matrix of a given dimension.
pub open spec fn admissible(m: Seq<HpValue>, lu: Seq<HpValue>, perm: Seq<usize>, dim: int) -> bool {
    &&& m.len() == dim * dim
    &&& lu.len() == dim * dim
    &&& perm.len() == dim
    &&& is_permutation(perm)
    &&& all_finite(m)
    &&& all_finite(lu)
}

fn check_permutation(perm: &Vec<usize>) -> (r: bool)
    ensures
        r == is_permutation(perm@),
{
    let dim: usize = perm.len();
    let mut seen: Vec<bool> = Vec::with_capacity(dim);
    let mut k: usize = 0;
    while k < dim
        invariant
            k <= dim,
            seen.len() == k,
            forall|j: int| 0 <= j < k ==> !(#[trigger] seen@[j]),
        decreases dim - k,
    {
        seen.push(false);
        k = k + 1;
    }
    let mut i: usize = 0;
    while i < dim
        invariant
            i <= dim,
            dim == perm.len(),
            seen.len() == dim,
            forall|j: int| 0 <= j < i ==> (#[trigger] perm@[j]) < dim,
            forall|a: int, b: int| 0 <= a < b < i ==> perm@[a] != perm@[b],
            forall|v: int|
                0 <= v < dim ==> (#[trigger] seen@[v] == exists|a: int|
                    0 <= a < i && perm@[a] == v),
        decreases dim - i,
    {
        let v: usize = perm[i];
        if v >= dim {
            return false;
        }
        if seen[v] {
            assert(exists|a: int| 0 <= a < i && perm@[a] == v);
            let ghost a = choose|a: int| 0 <= a < i && perm@[a] == v;
            assert(perm@[a] == perm@[i as int]);
            return false;
        }
        let ghost before = seen@;
        seen.set(v, true);
        assert forall|w: int| 0 <= w < dim implies (#[trigger] seen@[w] == exists|a: int|
            0 <= a < i + 1 && perm@[a] == w) by {
            if w == v {
                assert(perm@[i as int] == w);
            } else {
                assert(seen@[w] == before[w]);
                if before[w] {
                    let a = choose|a: int| 0 <= a < i && perm@[a] == w;
                    assert(0 <= a < i + 1 && perm@[a] == w);
                }
            }
        }
        assert forall|a: int, b: int| 0 <= a < b < i + 1 implies perm@[a] != perm@[b] by {
            if b == i && perm@[a] == perm@[b] {
                assert(before[v as int]);
            }
        }
        i = i + 1;
    }
    true
}

/// Whether factors can stand for a finite matrix of a given dimension.
pub fn factors_admissible(matrix: &Vec<HpFloat>, factors: &LuFactors, dimension: usize) -> (r: bool)
    ensures
        r == admissible(vals(matrix@), vals(factors.lu@), factors.perm@, dimension as int),
{
    is_square_of(matrix.len(), dimension) && is_square_of(factors.lu.len(), dimension)
        && factors.perm.len() == dimension && check_permutation(&factors.perm) && is_all_finite(
        matrix,
    ) && is_all_finite(&factors.lu)
}

/// `1, 2, .., dim` at a precision.
pub open spec fn ramp(dim: int, p: nat) -> Seq<HpValue> {
    Seq::new(dim as nat, |i: int| hp_int(p, i + 1))
}

/// The right-hand side with which a factorization is tried.
pub fn probe_right_hand_side(dimension: usize, precision_bits: u32) -> (r: Vec<HpFloat>)
    requires
        precision_bits >= 1,
    ensures
        vals(r@) == ramp(dimension as int, precision_bits as nat),
{
    let ghost goal = ramp(dimension as int, precision_bits as nat);
    let mut out: Vec<HpFloat> = Vec::with_capacity(dimension);
    let mut i: usize = 0;
    proof {
        lemma_build_ends(goal);
    }
    while i < dimension
        invariant
            i <= dimension,
            precision_bits >= 1,
            out.len() == i,
            goal == ramp(dimension as int, precision_bits as nat),
            vals(out@) == goal.take(i as int),
        decreases dimension - i,
    {
        let x: HpFloat = HpFloat::from_u64(precision_bits, i as u64 + 1);
        proof {
            lemma_extend(out@, x, goal);
        }
        out.push(x);
        i = i + 1;
    }
    proof {
        lemma_build_ends(goal);
    }
    out
}

/// Residuals of a solution, as a function of the row.
pub open spec fn solve_residuals(m: Seq<HpValue>, x: Seq<HpValue>, dim: int, p: nat) -> spec_fn(
    int,
) -> HpValue {
    |row: int| row_dot(m, x, dim, row, p).minus(ramp(dim, p)[row]).abs()
}

/// Normwise backward error of a solution: the largest residual over the scale of the system.
pub open spec fn backward_error(m: Seq<HpValue>, x: Seq<HpValue>, dim: int, p: nat) -> Option<
    HpValue,
> {
    let scale = largest(hp_int(p, 0), row_sums(m, dim, p), dim as nat).times(
        magnitude_of(x, p),
    ).plus(magnitude_of(ramp(dim, p), p));
    if scale.is_zero() || !scale.is_finite() {
        None
    } else {
        Some(largest(hp_int(p, 0), solve_residuals(m, x, dim, p), dim as nat).over(scale))
    }
}

/// Backward error of factors, given the solution that they produced for the probe; `None`
/// where the factors, the solution or the scale do not hold up.
pub open spec fn factors_error(
    m: Seq<HpValue>,
    lu: Seq<HpValue>,
    perm: Seq<usize>,
    x: Seq<HpValue>,
    dim: int,
    p: nat,
) -> Option<HpValue> {
    if !admissible(m, lu, perm, dim) || !all_finite(x) {
        None
    } else {
        backward_error(m, x, dim, p)
    }
}

/// Backward error of factors, given the solution that they produced for the probe.
pub fn factorization_backward_error(
    matrix: &Vec<HpFloat>,
    factors: &LuFactors,
    dimension: usize,
    precision_bits: u32,
    solution: &Vec<HpFloat>,
) -> (r: Option<HpFloat>)
    requires
        precision_bits >= 1,
        solution.len() == dimension,
    ensures
        ({
            let goal = factors_error(
                vals(matrix@),
                vals(factors.lu@),
                factors.perm@,
                vals(solution@),
                dimension as int,
                precision_bits as nat,
            );
            match r {
                None => goal is None,
                Some(v) => goal == Some(v@),
            }
        }),
{
    if !factors_admissible(matrix, factors, dimension) || !is_all_finite(solution) {
        return None;
    }
    let rhs: Vec<HpFloat> = probe_right_hand_side(dimension, precision_bits);
    let ghost p = precision_bits as nat;
    let ghost dim = dimension as int;
    let ghost m = vals(matrix@);
    let ghost x = vals(solution@);
    let mut maximum_residual: HpFloat = HpFloat::zero(precision_bits);
    let mut matrix_norm: HpFloat = HpFloat::zero(precision_bits);
    let mut row: usize = 0;
    while row < dimension
        invariant
            row <= dimension,
            precision_bits >= 1,
            p == precision_bits,
            dim == dimension,
            m == vals(matrix@),
            x == vals(solution@),
            matrix@.len() == dimension * dimension,
            solution.len() == dimension,
            rhs.len() == dimension,
            vals(rhs@) == ramp(dim, p),
            maximum_residual@ == largest(
                hp_int(p, 0),
                solve_residuals(m, x, dim, p),
                row as nat,
            ),
            matrix_norm@ == largest(hp_int(p, 0), row_sums(m, dim, p), row as nat),
        decreases dimension - row,
    {
        let row_sum: HpFloat = matrix_row_abs_sum(matrix, dimension, row, precision_bits);
        if matrix_norm.lt(&row_sum) {
            matrix_norm = row_sum;
        }
        assert(vals(rhs@)[row as int] == rhs@[row as int]@);
        let residual: HpFloat = matrix_row_dot(
            matrix,
            solution,
            dimension,
            row,
            precision_bits,
        ).minus(&rhs[row]).abs();
        if maximum_residual.lt(&residual) {
            maximum_residual = residual;
        }
        row = row + 1;
    }
    let solution_norm: HpFloat = largest_magnitude(solution, precision_bits);
    let rhs_norm: HpFloat = largest_magnitude(&rhs, precision_bits);
    let scale: HpFloat = matrix_norm.times(&solution_norm).plus(&rhs_norm);
    if scale.is_zero() || !scale.is_finite() {
        return None;
    }
    Some(maximum_residual.over(&scale))
}

/// A stored factorization.
#[derive(Debug)]
pub struct PortableLuFactorization {
    pub schema_version: u32,
    pub lambda_squared: String,
    pub n_modes: usize,
    pub precision_bits: u32,
    pub subspace: String,
    pub dimension: usize,
    pub lu: Vec<HpScalar>,
    pub permutation: Vec<usize>,
}

/// Dimension of the matrix that is factored: the even block, or the full form.
pub open spec fn factored_size(subspace: Seq<char>, n_modes: int) -> int {
    if subspace == "even"@ {
        n_modes + 1
    } else {
        2 * n_modes + 1
    }
}

/// Dimension of the matrix that is factored.
pub fn factorization_dimension(subspace: &str, n_modes: usize) -> (r: usize)
    requires
        2 * n_modes + 1 <= usize::MAX,
    ensures
        r == factored_size(subspace@, n_modes as int),
{
    if text_equal(subspace, "even") {
        n_modes + 1
    } else {
        2 * n_modes + 1
    }
}

/// The factors that a stored record holds, or the words of its rejection.
pub open spec fn factors_reading(
    a: PortableLuFactorization,
    params: CcmParams,
    cfg: HighPrecConfig,
    subspace: Seq<char>,
    dimension: int,
) -> Result<Seq<HpValue>, Seq<char>> {
    if a.schema_version != 1 || !names_source(
        a.lambda_squared@,
        a.n_modes,
        a.precision_bits,
        params,
        cfg,
    ) || a.subspace@ != subspace || a.dimension != dimension || a.lu@.len() != dimension * dimension
        || a.permutation@.len() != dimension {
        Err("CCM factorization does not match its semantic identity"@)
    } else {
        finite_vector(scalars(a.lu@), a.lu@.len())
    }
}

/// Reads stored factors; their backward error is judged by [`judge_factorization`].
pub fn decode_factorization(
    artifact: &PortableLuFactorization,
    params: &CcmParams,
    cfg: &HighPrecConfig,
    subspace: &str,
    dimension: usize,
) -> (r: Result<LuFactors, CcmError>)
    ensures
        ({
            let goal = factors_reading(*artifact, *params, *cfg, subspace@, dimension as int);
            match r {
                Ok(v) => goal == Ok::<Seq<HpValue>, Seq<char>>(vals(v.lu@)) && v.perm@
                    == artifact.permutation@,
                Err(e) => e is InvalidManifest && goal == Err::<Seq<HpValue>, Seq<char>>(e.text()),
            }
        }),
{
    if artifact.schema_version != 1 || !source_matches(
        &artifact.lambda_squared,
        artifact.n_modes,
        artifact.precision_bits,
        params,
        cfg,
    ) || !text_equal(artifact.subspace.as_str(), subspace) || artifact.dimension != dimension
        || !is_square_of(artifact.lu.len(), dimension) || artifact.permutation.len() != dimension {
        return Err(CcmError::invalid("CCM factorization does not match its semantic identity"));
    }
    match parse_hp_vector(&artifact.lu) {
        Err(e) => Err(e),
        Ok(lu) => {
            let mut perm: Vec<usize> = Vec::with_capacity(dimension);
            let mut i: usize = 0;
            while i < artifact.permutation.len()
                invariant
                    i <= artifact.permutation.len(),
                    perm@ == artifact.permutation@.take(i as int),
                decreases artifact.permutation.len() - i,
            {
                perm.push(artifact.permutation[i]);
                i = i + 1;
            }
            assert(perm@ =~= artifact.permutation@);
            Ok(LuFactors { lu, perm })
        },
    }
}

/// Largest backward error of an accepted factorization.
pub open spec fn factorization_tolerance(p: nat) -> HpValue {
    hp_pow2(p, -((p / 4) as int))
}

/// Judgement of a factorization.
#[derive(Debug)]
pub enum FactorizationVerdict {
    Accepted,
    /// Dimensions, permutation or values do not hold up.
    Malformed(CcmError),
    /// The backward error is too large.
    Inaccurate { error: HpFloat, tolerance: HpFloat },
}

impl FactorizationVerdict {
    /// The words of the verdict, given the texts of the backward error and of its tolerance;
    /// `None` where the factors are accepted.
    pub open spec fn words(self, error: Seq<char>, tolerance: Seq<char>) -> Option<Seq<char>> {
        match self {
            FactorizationVerdict::Accepted => None,
            FactorizationVerdict::Malformed(e) => Some(e.text()),
            FactorizationVerdict::Inaccurate { .. } => Some(
                "CCM factorization failed its normwise backward-error check: error="@ + error
                    + ", tolerance="@ + tolerance,
            ),
        }
    }

    /// The words of the verdict, given the texts of the backward error and of its tolerance;
    /// `None` where the factors are accepted.
    pub fn message(&self, error: &str, tolerance: &str) -> (r: Option<String>)
        ensures
            match r {
                None => self.words(error@, tolerance@) is None,
                Some(t) => self.words(error@, tolerance@) == Some(t@),
            },
    {
        match self {
            FactorizationVerdict::Accepted => None,
            FactorizationVerdict::Malformed(e) => Some(e.message().to_owned()),
            FactorizationVerdict::Inaccurate { .. } => {
                let mut t: String =
                    "CCM factorization failed its normwise backward-error check: error=".to_owned();
                t.append(error);
                t.append(", tolerance=");
                t.append(tolerance);
                Some(t)
            },
        }
    }
}

/// Judges factors by their backward error on the probe.
pub fn judge_factorization(
    matrix: &Vec<HpFloat>,
    factors: &LuFactors,
    dimension: usize,
    precision_bits: u32,
    solution: &Vec<HpFloat>,
) -> (r: FactorizationVerdict)
    requires
        precision_bits >= 1,
        solution.len() == dimension,
    ensures
        ({
            let error = factors_error(
                vals(matrix@),
                vals(factors.lu@),
                factors.perm@,
                vals(solution@),
                dimension as int,
                precision_bits as nat,
            );
            let tolerance = factorization_tolerance(precision_bits as nat);
            match r {
                FactorizationVerdict::Malformed(e) => error is None && e.rejects(
                    "CCM factorization has invalid dimensions, permutation, or finite values"@,
                ),
                FactorizationVerdict::Accepted => error is Some && error->0.lt(tolerance),
                FactorizationVerdict::Inaccurate { error: x, tolerance: y } => error == Some(x@)
                    && y@ == tolerance && !x@.lt(tolerance),
            }
        }),
{
    match factorization_backward_error(matrix, factors, dimension, precision_bits, solution) {
        None => FactorizationVerdict::Malformed(
            CcmError::invalid(
                "CCM factorization has invalid dimensions, permutation, or finite values",
            ),
        ),
        Some(error) => {
            let bits: i64 = (precision_bits / 4) as i64;
            let tolerance: HpFloat = HpFloat::power_of_two(precision_bits, -bits);
            if error.lt(&tolerance) {
                FactorizationVerdict::Accepted
            } else {
                FactorizationVerdict::Inaccurate { error, tolerance }
            }
        },
    }
}

} // verus!
