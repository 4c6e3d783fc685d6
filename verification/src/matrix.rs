//! Row-major square matrices and vectors of floating-point values, and the
//! ordered sums and maxima that run over them.

use crate::float::HpFloat;
use crate::rounding::{hp_int, hp_word, HpValue};
use vstd::arithmetic::div_mod::*;
use vstd::arithmetic::mul::*;
use vstd::prelude::*;

verus! {

/// The values that a sequence of floats denotes.
pub open spec fn vals(s: Seq<HpFloat>) -> Seq<HpValue> {
    Seq::new(s.len(), |i: int| s[i]@)
}

/// Left-to-right sum of `f(0), .., f(n - 1)` onto `init`, rounding at each step.
pub open spec fn accumulate(init: HpValue, f: spec_fn(int) -> HpValue, n: nat) -> HpValue
    decreases n,
{
    if n == 0 {
        init
    } else {
        accumulate(init, f, (n - 1) as nat).plus(f(n - 1))
    }
}

/// `init`, replaced by each of `f(0), .., f(n - 1)` in turn that is larger.
pub open spec fn largest(init: HpValue, f: spec_fn(int) -> HpValue, n: nat) -> HpValue
    decreases n,
{
    if n == 0 {
        init
    } else {
        let m = largest(init, f, (n - 1) as nat);
        if m.lt(f(n - 1)) {
            f(n - 1)
        } else {
            m
        }
    }
}

/// The elements of a sequence, as a function of the index.
pub open spec fn entries(s: Seq<HpValue>) -> spec_fn(int) -> HpValue {
    |i: int| s[i]
}

/// The magnitudes of the elements.
pub open spec fn entry_magnitudes(s: Seq<HpValue>) -> spec_fn(int) -> HpValue {
    |i: int| s[i].abs()
}

/// The squares of the elements.
pub open spec fn entry_squares(s: Seq<HpValue>) -> spec_fn(int) -> HpValue {
    |i: int| s[i].times(s[i])
}

/// Sum of the elements at precision `p`.
pub open spec fn sum_of(s: Seq<HpValue>, p: nat) -> HpValue {
    accumulate(hp_int(p, 0), entries(s), s.len())
}

/// Largest magnitude at precision `p`, at least zero.
pub open spec fn magnitude_of(s: Seq<HpValue>, p: nat) -> HpValue {
    largest(hp_int(p, 0), entry_magnitudes(s), s.len())
}

/// Products of one matrix row with a vector.
pub open spec fn row_products(m: Seq<HpValue>, v: Seq<HpValue>, dim: int, row: int) -> spec_fn(
    int,
) -> HpValue {
    |j: int| m[row * dim + j].times(v[j])
}

/// One entry of a matrix-vector product, summed left to right.
pub open spec fn row_dot(m: Seq<HpValue>, v: Seq<HpValue>, dim: int, row: int, p: nat) -> HpValue {
    accumulate(hp_int(p, 0), row_products(m, v, dim, row), dim as nat)
}

/// Magnitudes of one matrix row.
pub open spec fn row_magnitudes(m: Seq<HpValue>, dim: int, row: int) -> spec_fn(int) -> HpValue {
    |j: int| m[row * dim + j].abs()
}

/// Absolute row sum.
pub open spec fn row_abs_sum(m: Seq<HpValue>, dim: int, row: int, p: nat) -> HpValue {
    accumulate(hp_int(p, 0), row_magnitudes(m, dim, row), dim as nat)
}

pub open spec fn all_finite(s: Seq<HpValue>) -> bool {
    forall|i: int| 0 <= i < s.len() ==> (#[trigger] s[i]).is_finite()
}

/// Each entry equals its mirror image.
pub open spec fn symmetric(m: Seq<HpValue>, dim: int) -> bool {
    &&& m.len() == dim * dim
    &&& forall|i: int, j: int|
        0 <= i < j < dim ==> (#[trigger] m[i * dim + j]).eqv(#[trigger] m[j * dim + i])
}

/// Mean of an upper entry and its mirror image.
pub open spec fn mirror_mean(upper: HpValue, lower: HpValue) -> HpValue {
    upper.plus(lower).over(hp_word(2))
}

/// Entry `(i, j)` after mirrored pairs have been replaced by their mean.
pub open spec fn symmetrized_cell(m: Seq<HpValue>, dim: int, i: int, j: int) -> HpValue {
    if i == j {
        m[i * dim + j]
    } else if i < j {
        mirror_mean(m[i * dim + j], m[j * dim + i])
    } else {
        mirror_mean(m[j * dim + i], m[i * dim + j])
    }
}

pub open spec fn symmetrized(m: Seq<HpValue>, dim: int) -> Seq<HpValue> {
    Seq::new((dim * dim) as nat, |k: int| symmetrized_cell(m, dim, k / dim, k % dim))
}

/// Row and column of a flat index.
pub proof fn lemma_cell(dim: int, i: int, j: int)
    requires
        0 <= i < dim,
        0 <= j < dim,
    ensures
        0 <= i * dim + j < dim * dim,
        (i * dim + j) / dim == i,
        (i * dim + j) % dim == j,
{
    assert(0 <= i * dim + j < dim * dim) by (nonlinear_arith)
        requires
            0 <= i,
            i + 1 <= dim,
            0 <= j < dim,
    ;
    assert(i * dim + j == dim * i + j) by (nonlinear_arith);
    lemma_fundamental_div_mod_converse(i * dim + j, dim, i, j);
}

/// A flat index below `dim * dim` has a row and a column below `dim`.
pub proof fn lemma_flat(dim: int, k: int)
    requires
        dim > 0,
        0 <= k < dim * dim,
    ensures
        0 <= k / dim < dim,
        0 <= k % dim < dim,
        k == (k / dim) * dim + k % dim,
{
    lemma_fundamental_div_mod(k, dim);
    lemma_mod_bound(k, dim);
    let q = k / dim;
    assert(dim * q == q * dim) by (nonlinear_arith);
    assert(0 <= q < dim) by (nonlinear_arith)
        requires
            k == dim * q + k % dim,
            0 <= k % dim < dim,
            0 <= k < dim * dim,
            dim > 0,
    ;
}

/// A matrix is no longer than its number of entries, so neither is its dimension.
pub proof fn lemma_dim_le(dim: int)
    requires
        dim >= 0,
    ensures
        dim <= dim * dim,
{
    assert(dim <= dim * dim) by (nonlinear_arith)
        requires
            dim >= 0,
    ;
}

/// `row * dim + column`.
pub fn flat_index(dim: usize, row: usize, column: usize, len: usize) -> (r: usize)
    requires
        row < dim,
        column < dim,
        len == dim * dim,
    ensures
        r == row * dim + column,
        r < len,
{
    proof {
        lemma_cell(dim as int, row as int, column as int);
        assert(row * dim <= row * dim + column);
    }
    row * dim + column
}

/// Appending the next target value extends the part of the target that is built.
pub proof fn lemma_extend(s: Seq<HpFloat>, x: HpFloat, t: Seq<HpValue>)
    requires
        s.len() < t.len(),
        vals(s) == t.take(s.len() as int),
        t[s.len() as int] == x@,
    ensures
        vals(s.push(x)) == t.take(s.len() as int + 1),
{
    let u = s.push(x);
    assert forall|i: int| 0 <= i < u.len() implies vals(u)[i] == t.take(s.len() as int + 1)[i] by {
        if i < s.len() {
            assert(vals(s)[i] == t.take(s.len() as int)[i]);
        }
    }
    assert(vals(u) =~= t.take(s.len() as int + 1));
}

/// An empty start and a full end of such a construction.
pub proof fn lemma_build_ends(t: Seq<HpValue>)
    ensures
        vals(Seq::<HpFloat>::empty()) == t.take(0),
        t.take(t.len() as int) == t,
{
    assert(vals(Seq::<HpFloat>::empty()) =~= t.take(0));
    assert(t.take(t.len() as int) =~= t);
}

/// Copies a vector.
pub fn copy_values(s: &Vec<HpFloat>) -> (r: Vec<HpFloat>)
    ensures
        vals(r@) == vals(s@),
{
    let mut r: Vec<HpFloat> = Vec::with_capacity(s.len());
    let mut i: usize = 0;
    proof {
        lemma_build_ends(vals(s@));
    }
    while i < s.len()
        invariant
            i <= s.len(),
            r.len() == i,
            vals(r@) == vals(s@).take(i as int),
        decreases s.len() - i,
    {
        let x: HpFloat = s[i].clone();
        proof {
            lemma_extend(r@, x, vals(s@));
        }
        r.push(x);
        i = i + 1;
    }
    r
}

/// Whether every element is finite.
pub fn is_all_finite(s: &Vec<HpFloat>) -> (r: bool)
    ensures
        r == all_finite(vals(s@)),
{
    let mut i: usize = 0;
    while i < s.len()
        invariant
            i <= s.len(),
            forall|k: int| 0 <= k < i ==> (#[trigger] vals(s@)[k]).is_finite(),
        decreases s.len() - i,
    {
        if !s[i].is_finite() {
            assert(!vals(s@)[i as int].is_finite());
            return false;
        }
        i = i + 1;
    }
    true
}

/// Whether the matrix equals its mirror image, entry by entry.
pub fn matrix_is_exactly_symmetric(matrix: &Vec<HpFloat>, dimension: usize) -> (r: bool)
    requires
        dimension * dimension <= usize::MAX,
    ensures
        r == symmetric(vals(matrix@), dimension as int),
{
    let ghost m = vals(matrix@);
    if matrix.len() != dimension * dimension {
        return false;
    }
    let mut i: usize = 0;
    while i < dimension
        invariant
            i <= dimension,
            m == vals(matrix@),
            matrix.len() == dimension * dimension,
            forall|a: int, b: int|
                0 <= a < i && a < b < dimension ==> (#[trigger] m[a * dimension + b]).eqv(
                    #[trigger] m[b * dimension + a],
                ),
        decreases dimension - i,
    {
        let mut j: usize = i + 1;
        while j < dimension
            invariant
                i < j <= dimension,
                m == vals(matrix@),
                matrix.len() == dimension * dimension,
                forall|a: int, b: int|
                    (0 <= a < i && a < b < dimension) || (a == i && i < b < j) ==> (
                    #[trigger] m[a * dimension + b]).eqv(#[trigger] m[b * dimension + a]),
            decreases dimension - j,
        {
            let up: usize = flat_index(dimension, i, j, matrix.len());
            let down: usize = flat_index(dimension, j, i, matrix.len());
            if !matrix[up].eqv(&matrix[down]) {
                proof {
                    assert(m[i * dimension + j] == matrix@[up as int]@);
                    assert(m[j * dimension + i] == matrix@[down as int]@);
                }
                return false;
            }
            j = j + 1;
        }
        i = i + 1;
    }
    true
}

/// Replaces mirrored pairs by their mean; the diagonal stays.
pub fn force_symmetric(matrix: &mut Vec<HpFloat>, dim: usize)
    requires
        old(matrix).len() == dim * dim,
    ensures
        vals(final(matrix)@) == symmetrized(vals(old(matrix)@), dim as int),
        final(matrix).len() == old(matrix).len(),
{
    let ghost m = vals(matrix@);
    let n: usize = matrix.len();
    let ghost target = symmetrized(m, dim as int);
    let mut out: Vec<HpFloat> = Vec::with_capacity(n);
    let mut k: usize = 0;
    proof {
        lemma_build_ends(target);
    }
    while k < n
        invariant
            k <= n,
            n == dim * dim,
            matrix.len() == n,
            m == vals(matrix@),
            target == symmetrized(m, dim as int),
            out.len() == k,
            vals(out@) == target.take(k as int),
        decreases n - k,
    {
        proof {
            if dim == 0 {
                assert(false);
            }
            lemma_flat(dim as int, k as int);
        }
        let i: usize = k / dim;
        let j: usize = k % dim;
        let mirror: usize = flat_index(dim, j, i, n);
        let cell: HpFloat = if i == j {
            matrix[k].clone()
        } else if i < j {
            matrix[k].plus(&matrix[mirror]).over_int(2)
        } else {
            matrix[mirror].plus(&matrix[k]).over_int(2)
        };
        assert(m[i * dim + j] == matrix@[k as int]@);
        assert(m[j * dim + i] == matrix@[mirror as int]@);
        proof {
            assert(target[k as int] == symmetrized_cell(m, dim as int, i as int, j as int));
            lemma_extend(out@, cell, target);
        }
        out.push(cell);
        k = k + 1;
    }
    *matrix = out;
}

/// Adds `f(0), .., f(n - 1)` in order, where the terms are the elements themselves.
pub fn ordered_sum(s: &Vec<HpFloat>, p: u32) -> (r: HpFloat)
    requires
        p >= 1,
    ensures
        r@ == sum_of(vals(s@), p as nat),
{
    let mut acc: HpFloat = HpFloat::zero(p);
    let mut i: usize = 0;
    while i < s.len()
        invariant
            i <= s.len(),
            acc@ == accumulate(hp_int(p as nat, 0), entries(vals(s@)), i as nat),
        decreases s.len() - i,
    {
        acc = acc.plus(&s[i]);
        i = i + 1;
    }
    acc
}

/// Sum of squares onto `init`, in order.
pub fn ordered_square_sum(init: HpFloat, s: &Vec<HpFloat>) -> (r: HpFloat)
    ensures
        r@ == accumulate(init@, entry_squares(vals(s@)), s@.len()),
{
    let ghost start = init@;
    let mut acc: HpFloat = init;
    let mut i: usize = 0;
    while i < s.len()
        invariant
            i <= s.len(),
            acc@ == accumulate(start, entry_squares(vals(s@)), i as nat),
        decreases s.len() - i,
    {
        acc = acc.plus(&s[i].times(&s[i]));
        i = i + 1;
    }
    acc
}

/// Largest magnitude of a vector.
pub fn largest_magnitude(s: &Vec<HpFloat>, p: u32) -> (r: HpFloat)
    requires
        p >= 1,
    ensures
        r@ == magnitude_of(vals(s@), p as nat),
{
    let mut acc: HpFloat = HpFloat::zero(p);
    let mut i: usize = 0;
    while i < s.len()
        invariant
            i <= s.len(),
            acc@ == largest(hp_int(p as nat, 0), entry_magnitudes(vals(s@)), i as nat),
        decreases s.len() - i,
    {
        let a: HpFloat = s[i].abs();
        if acc.lt(&a) {
            acc = a;
        }
        i = i + 1;
    }
    acc
}

/// One entry of a matrix-vector product.
pub fn matrix_row_dot(m: &Vec<HpFloat>, v: &Vec<HpFloat>, dim: usize, row: usize, p: u32) -> (r:
    HpFloat)
    requires
        p >= 1,
        m.len() == dim * dim,
        v.len() == dim,
        row < dim,
    ensures
        r@ == row_dot(vals(m@), vals(v@), dim as int, row as int, p as nat),
{
    let mut acc: HpFloat = HpFloat::zero(p);
    let mut j: usize = 0;
    while j < dim
        invariant
            j <= dim,
            row < dim,
            m.len() == dim * dim,
            v.len() == dim,
            acc@ == accumulate(
                hp_int(p as nat, 0),
                row_products(vals(m@), vals(v@), dim as int, row as int),
                j as nat,
            ),
        decreases dim - j,
    {
        let k: usize = flat_index(dim, row, j, m.len());
        acc = acc.plus(&m[k].times(&v[j]));
        j = j + 1;
    }
    acc
}

/// Absolute sum of one row.
pub fn matrix_row_abs_sum(m: &Vec<HpFloat>, dim: usize, row: usize, p: u32) -> (r: HpFloat)
    requires
        p >= 1,
        m.len() == dim * dim,
        row < dim,
    ensures
        r@ == row_abs_sum(vals(m@), dim as int, row as int, p as nat),
{
    let mut acc: HpFloat = HpFloat::zero(p);
    let mut j: usize = 0;
    while j < dim
        invariant
            j <= dim,
            row < dim,
            m.len() == dim * dim,
            acc@ == accumulate(
                hp_int(p as nat, 0),
                row_magnitudes(vals(m@), dim as int, row as int),
                j as nat,
            ),
        decreases dim - j,
    {
        let k: usize = flat_index(dim, row, j, m.len());
        acc = acc.plus(&m[k].abs());
        j = j + 1;
    }
    acc
}

} // verus!
