//! Reflection-parity sectors of the Weil form: projection, expansion and measures of parity.

use crate::error::CcmError;
use crate::float::HpFloat;
use crate::matrix::{
    flat_index, force_symmetric, lemma_build_ends, lemma_dim_le, lemma_extend, lemma_flat,
    symmetrized, vals,
};
use crate::rounding::{hp_int, hp_pow2, hp_word, HpValue};
use vstd::prelude::*;

verus! {

/// The square root of two at precision `p`.
pub open spec fn sqrt_two(p: nat) -> HpValue {
    hp_int(p, 2).sqrt()
}

/// Entry `(k, j)` of the form restricted to the even basis, before mirrored pairs are averaged.
pub open spec fn even_cell(tau: Seq<HpValue>, n: int, p: nat, k: int, j: int) -> HpValue {
    let full = 2 * n + 1;
    if k == 0 && j == 0 {
        tau[n * full + n]
    } else if k == 0 || j == 0 {
        let m = k + j;
        tau[n * full + (n - m)].plus(tau[n * full + (n + m)]).over(sqrt_two(p))
    } else {
        tau[(n - k) * full + (n - j)].plus(tau[(n - k) * full + (n + j)]).plus(
            tau[(n + k) * full + (n - j)],
        ).plus(tau[(n + k) * full + (n + j)]).over(hp_word(2))
    }
}

/// The form restricted to the even basis, before mirrored pairs are averaged.
pub open spec fn even_projection(tau: Seq<HpValue>, n: int, p: nat) -> Seq<HpValue> {
    Seq::new(
        ((n + 1) * (n + 1)) as nat,
        |c: int| even_cell(tau, n, p, c / (n + 1), c % (n + 1)),
    )
}

/// The form restricted to the basis `e_0, (e_k + e_-k) / sqrt 2`.
pub open spec fn even_sector(tau: Seq<HpValue>, n: int, p: nat) -> Seq<HpValue> {
    symmetrized(even_projection(tau, n, p), n + 1)
}

/// Entry of the form restricted to the odd basis, for modes `k` and `j` from one.
pub open spec fn odd_cell(tau: Seq<HpValue>, n: int, k: int, j: int) -> HpValue {
    let full = 2 * n + 1;
    tau[(n + k) * full + (n + j)].minus(tau[(n + k) * full + (n - j)])
}

/// The form restricted to the basis `(e_k - e_-k) / sqrt 2`.
pub open spec fn odd_sector(tau: Seq<HpValue>, n: int) -> Seq<HpValue> {
    Seq::new((n * n) as nat, |c: int| odd_cell(tau, n, c / n + 1, c % n + 1))
}

/// An even vector in full coordinates: `v_0` in the middle, `v_k / sqrt 2` at both sides.
pub open spec fn even_expansion(v: Seq<HpValue>, n: int, p: nat) -> Seq<HpValue> {
    Seq::new(
        (2 * n + 1) as nat,
        |i: int|
            if i == n {
                v[0]
            } else if i < n {
                v[n - i].over(sqrt_two(p))
            } else {
                v[i - n].over(sqrt_two(p))
            },
    )
}

/// An odd vector in full coordinates: `v_k / sqrt 2` above the middle, its negative below.
pub open spec fn odd_expansion(v: Seq<HpValue>, n: int, p: nat) -> Seq<HpValue> {
    Seq::new(
        (2 * n + 1) as nat,
        |i: int|
            if i == n {
                hp_int(p, 0)
            } else if i < n {
                v[n - i - 1].over(sqrt_two(p)).negated()
            } else {
                v[i - n - 1].over(sqrt_two(p))
            },
    )
}

/// The even coordinates of a full state, padded with zeros to a larger mode count.
pub open spec fn continuation_seed(full: Seq<HpValue>, source: int, target: int, p: nat) -> Seq<
    HpValue,
> {
    Seq::new(
        (target + 1) as nat,
        |m: int|
            if m == 0 {
                full[source].at(p)
            } else if m <= source {
                full[source - m].at(p).plus(full[source + m]).over(sqrt_two(p))
            } else {
                hp_int(p, 0)
            },
    )
}

/// Restricts the full Weil form to the even basis.
pub fn build_even_sector_matrix(tau: &Vec<HpFloat>, n_modes: usize, prec: u32) -> (r: Vec<HpFloat>)
    requires
        prec >= 1,
        tau.len() == (2 * n_modes + 1) * (2 * n_modes + 1),
    ensures
        vals(r@) == even_sector(vals(tau@), n_modes as int, prec as nat),
{
    let ghost n = n_modes as int;
    let ghost t = vals(tau@);
    proof {
        lemma_dim_le(2 * n + 1);
        assert((n + 1) * (n + 1) <= (2 * n + 1) * (2 * n + 1)) by (nonlinear_arith)
            requires
                n >= 0,
        ;
    }
    let full: usize = 2 * n_modes + 1;
    let even: usize = n_modes + 1;
    let total: usize = even * even;
    let root: HpFloat = HpFloat::from_u64(prec, 2).sqrt();
    let ghost target = even_projection(t, n, prec as nat);
    let mut out: Vec<HpFloat> = Vec::with_capacity(total);
    let mut c: usize = 0;
    proof {
        lemma_build_ends(target);
    }
    while c < total
        invariant
            c <= total,
            total == even * even,
            even == n_modes + 1,
            full == 2 * n_modes + 1,
            tau.len() == full * full,
            n == n_modes,
            t == vals(tau@),
            root@ == sqrt_two(prec as nat),
            target == even_projection(t, n, prec as nat),
            target.len() == total,
            out.len() == c,
            vals(out@) == target.take(c as int),
        decreases total - c,
    {
        proof {
            lemma_flat(even as int, c as int);
        }
        let k: usize = c / even;
        let j: usize = c % even;
        let cell: HpFloat = if k == 0 && j == 0 {
            tau[flat_index(full, n_modes, n_modes, tau.len())].clone()
        } else if k == 0 || j == 0 {
            let m: usize = k + j;
            let left: usize = flat_index(full, n_modes, n_modes - m, tau.len());
            let right: usize = flat_index(full, n_modes, n_modes + m, tau.len());
            tau[left].plus(&tau[right]).over(&root)
        } else {
            let a: usize = flat_index(full, n_modes - k, n_modes - j, tau.len());
            let b: usize = flat_index(full, n_modes - k, n_modes + j, tau.len());
            let d: usize = flat_index(full, n_modes + k, n_modes - j, tau.len());
            let e: usize = flat_index(full, n_modes + k, n_modes + j, tau.len());
            tau[a].plus(&tau[b]).plus(&tau[d]).plus(&tau[e]).over_int(2)
        };
        proof {
            assert(cell@ == even_cell(t, n, prec as nat, k as int, j as int));
            assert(target[c as int] == even_cell(t, n, prec as nat, k as int, j as int));
            lemma_extend(out@, cell, target);
        }
        out.push(cell);
        c = c + 1;
    }
    force_symmetric(&mut out, even);
    out
}

/// Restricts the full Weil form to the odd basis.
pub fn build_odd_sector_matrix(tau: &Vec<HpFloat>, n_modes: usize) -> (r: Vec<HpFloat>)
    requires
        tau.len() == (2 * n_modes + 1) * (2 * n_modes + 1),
    ensures
        vals(r@) == odd_sector(vals(tau@), n_modes as int),
{
    let ghost n = n_modes as int;
    let ghost t = vals(tau@);
    proof {
        lemma_dim_le(2 * n + 1);
        assert(n * n <= (2 * n + 1) * (2 * n + 1)) by (nonlinear_arith)
            requires
                n >= 0,
        ;
    }
    let full: usize = 2 * n_modes + 1;
    let total: usize = n_modes * n_modes;
    let ghost target = odd_sector(t, n);
    let mut out: Vec<HpFloat> = Vec::with_capacity(total);
    let mut c: usize = 0;
    proof {
        lemma_build_ends(target);
    }
    while c < total
        invariant
            c <= total,
            total == n_modes * n_modes,
            full == 2 * n_modes + 1,
            tau.len() == full * full,
            n == n_modes,
            t == vals(tau@),
            target == odd_sector(t, n),
            target.len() == total,
            out.len() == c,
            vals(out@) == target.take(c as int),
        decreases total - c,
    {
        proof {
            if n == 0 {
                assert(false);
            }
            lemma_flat(n, c as int);
        }
        let k: usize = c / n_modes + 1;
        let j: usize = c % n_modes + 1;
        let plus: usize = flat_index(full, n_modes + k, n_modes + j, tau.len());
        let minus: usize = flat_index(full, n_modes + k, n_modes - j, tau.len());
        let cell: HpFloat = tau[plus].minus(&tau[minus]);
        proof {
            assert(target[c as int] == odd_cell(t, n, k as int, j as int));
            lemma_extend(out@, cell, target);
        }
        out.push(cell);
        c = c + 1;
    }
    out
}

/// Expands an even-sector vector to full coordinates.
pub fn expand_even_sector_vector(vector: &Vec<HpFloat>, n_modes: usize, prec: u32) -> (r: Vec<
    HpFloat,
>)
    requires
        prec >= 1,
        vector.len() == n_modes + 1,
        2 * n_modes + 1 <= usize::MAX,
    ensures
        vals(r@) == even_expansion(vals(vector@), n_modes as int, prec as nat),
{
    let ghost target = even_expansion(vals(vector@), n_modes as int, prec as nat);
    let total: usize = 2 * n_modes + 1;
    let root: HpFloat = HpFloat::from_u64(prec, 2).sqrt();
    let mut out: Vec<HpFloat> = Vec::with_capacity(total);
    let mut i: usize = 0;
    proof {
        lemma_build_ends(target);
    }
    while i < total
        invariant
            i <= total,
            total == 2 * n_modes + 1,
            vector.len() == n_modes + 1,
            root@ == sqrt_two(prec as nat),
            target == even_expansion(vals(vector@), n_modes as int, prec as nat),
            out.len() == i,
            vals(out@) == target.take(i as int),
        decreases total - i,
    {
        let x: HpFloat = if i == n_modes {
            vector[0].clone()
        } else if i < n_modes {
            vector[n_modes - i].over(&root)
        } else {
            vector[i - n_modes].over(&root)
        };
        proof {
            lemma_extend(out@, x, target);
        }
        out.push(x);
        i = i + 1;
    }
    out
}

/// Expands an odd-sector vector to full coordinates.
pub fn expand_odd_sector_vector(vector: &Vec<HpFloat>, n_modes: usize, prec: u32) -> (r: Vec<
    HpFloat,
>)
    requires
        prec >= 1,
        vector.len() == n_modes,
        2 * n_modes + 1 <= usize::MAX,
    ensures
        vals(r@) == odd_expansion(vals(vector@), n_modes as int, prec as nat),
{
    let ghost target = odd_expansion(vals(vector@), n_modes as int, prec as nat);
    let total: usize = 2 * n_modes + 1;
    let root: HpFloat = HpFloat::from_u64(prec, 2).sqrt();
    let mut out: Vec<HpFloat> = Vec::with_capacity(total);
    let mut i: usize = 0;
    proof {
        lemma_build_ends(target);
    }
    while i < total
        invariant
            i <= total,
            prec >= 1,
            total == 2 * n_modes + 1,
            vector.len() == n_modes,
            root@ == sqrt_two(prec as nat),
            target == odd_expansion(vals(vector@), n_modes as int, prec as nat),
            out.len() == i,
            vals(out@) == target.take(i as int),
        decreases total - i,
    {
        let x: HpFloat = if i == n_modes {
            HpFloat::zero(prec)
        } else if i < n_modes {
            vector[n_modes - i - 1].over(&root).negated()
        } else {
            vector[i - n_modes - 1].over(&root)
        };
        proof {
            lemma_extend(out@, x, target);
        }
        out.push(x);
        i = i + 1;
    }
    out
}

/// Even-sector coordinates of a state, carried to a larger mode count.
pub fn embedded_even_continuation_seed(
    full_state: &Vec<HpFloat>,
    source_n: usize,
    target_n: usize,
    precision_bits: u32,
) -> (r: Result<Vec<HpFloat>, CcmError>)
    requires
        precision_bits >= 1,
        2 * source_n + 1 <= usize::MAX,
        target_n < usize::MAX,
    ensures
        r is Ok == (target_n > source_n && full_state.len() == 2 * source_n + 1),
        r matches Ok(seed) ==> vals(seed@) == continuation_seed(
            vals(full_state@),
            source_n as int,
            target_n as int,
            precision_bits as nat,
        ),
        r matches Err(e) ==> e.refuses(
            "cross-N continuation requires a valid full state and strictly increasing N"@,
        ),
{
    if target_n <= source_n || full_state.len() != 2 * source_n + 1 {
        return Err(
            CcmError::refused(
                "cross-N continuation requires a valid full state and strictly increasing N",
            ),
        );
    }
    let ghost target = continuation_seed(
        vals(full_state@),
        source_n as int,
        target_n as int,
        precision_bits as nat,
    );
    let root: HpFloat = HpFloat::from_u64(precision_bits, 2).sqrt();
    let mut out: Vec<HpFloat> = Vec::with_capacity(target_n + 1);
    let mut m: usize = 0;
    proof {
        lemma_build_ends(target);
    }
    while m < target_n + 1
        invariant
            m <= target_n + 1,
            target_n < usize::MAX,
            precision_bits >= 1,
            source_n < target_n,
            full_state.len() == 2 * source_n + 1,
            root@ == sqrt_two(precision_bits as nat),
            target == continuation_seed(
                vals(full_state@),
                source_n as int,
                target_n as int,
                precision_bits as nat,
            ),
            out.len() == m,
            vals(out@) == target.take(m as int),
        decreases target_n + 1 - m,
    {
        let x: HpFloat = if m == 0 {
            full_state[source_n].at(precision_bits)
        } else if m <= source_n {
            full_state[source_n - m].at(precision_bits).plus(&full_state[source_n + m]).over(&root)
        } else {
            HpFloat::zero(precision_bits)
        };
        proof {
            lemma_extend(out@, x, target);
        }
        out.push(x);
        m = m + 1;
    }
    Ok(out)
}

/// Squares of the differences between a vector and its reflection.
pub open spec fn reflection_squares(xi: Seq<HpValue>) -> Seq<HpValue> {
    Seq::new(
        xi.len(),
        |i: int|
            {
                let d = xi[i].minus(xi[xi.len() - 1 - i]);
                d.times(d)
            },
    )
}

/// Squares of the entries.
pub open spec fn squares(xi: Seq<HpValue>) -> Seq<HpValue> {
    Seq::new(xi.len(), |i: int| xi[i].times(xi[i]))
}

/// The terms whose two sums measure how far a state is from even: squared reflection
/// differences, and squared entries.
pub fn reflection_terms(xi: &Vec<HpFloat>) -> (r: (Vec<HpFloat>, Vec<HpFloat>))
    ensures
        vals(r.0@) == reflection_squares(vals(xi@)),
        vals(r.1@) == squares(vals(xi@)),
{
    let ghost ta = reflection_squares(vals(xi@));
    let ghost tb = squares(vals(xi@));
    let n: usize = xi.len();
    let mut a: Vec<HpFloat> = Vec::with_capacity(n);
    let mut b: Vec<HpFloat> = Vec::with_capacity(n);
    let mut i: usize = 0;
    proof {
        lemma_build_ends(ta);
        lemma_build_ends(tb);
    }
    while i < n
        invariant
            i <= n,
            n == xi.len(),
            ta == reflection_squares(vals(xi@)),
            tb == squares(vals(xi@)),
            a.len() == i,
            b.len() == i,
            vals(a@) == ta.take(i as int),
            vals(b@) == tb.take(i as int),
        decreases n - i,
    {
        let d: HpFloat = xi[i].minus(&xi[n - 1 - i]);
        let x: HpFloat = d.times(&d);
        let y: HpFloat = xi[i].times(&xi[i]);
        proof {
            lemma_extend(a@, x, ta);
            lemma_extend(b@, y, tb);
        }
        a.push(x);
        b.push(y);
        i = i + 1;
    }
    (a, b)
}

/// Result of the evenness measurement.
#[derive(Debug)]
pub struct EvennessResult {
    /// Norm of the state minus its reflection, relative to its own norm. Zero means even.
    pub evenness_deviation: HpFloat,
    /// Smallest eigenvalue without a parity constraint.
    pub natural_eigenvalue: HpFloat,
    /// Smallest eigenvalue on even states.
    pub forced_eigenvalue: HpFloat,
}

/// Relative deviation from the two sums of squares.
pub open spec fn deviation(differences: HpValue, norms: HpValue) -> HpValue {
    if norms.sqrt().is_zero() {
        differences.sqrt()
    } else {
        differences.sqrt().over(norms.sqrt())
    }
}

/// Evenness of a natural state, from the sums of the terms of [`reflection_terms`].
pub fn evenness_from_natural_state(
    natural_eigenvalue: HpFloat,
    forced_eigenvalue: HpFloat,
    difference_sum: &HpFloat,
    norm_sum: &HpFloat,
) -> (r: EvennessResult)
    ensures
        r.evenness_deviation@ == deviation(difference_sum@, norm_sum@),
        r.natural_eigenvalue@ == natural_eigenvalue@,
        r.forced_eigenvalue@ == forced_eigenvalue@,
{
    let root: HpFloat = difference_sum.sqrt();
    let norm: HpFloat = norm_sum.sqrt();
    let evenness_deviation: HpFloat = if norm.is_zero() {
        root
    } else {
        root.over(&norm)
    };
    EvennessResult { evenness_deviation, natural_eigenvalue, forced_eigenvalue }
}

/// Whether two invariants agree to a quarter of the precision, at their own scale.
pub open spec fn close(left: HpValue, right: HpValue, p: nat) -> bool {
    let scale = if left.abs().lt(right.abs()) {
        right.abs()
    } else {
        left.abs()
    };
    let bits = if p / 4 > 8 {
        p / 4
    } else {
        8
    };
    left.minus(right).abs().le(scale.plus(hp_word(1)).times(hp_pow2(p, -(bits as int))))
}

/// Whether two invariants agree to a quarter of the precision, at their own scale.
pub fn hp_invariant_close(left: &HpFloat, right: &HpFloat, precision_bits: u32) -> (r: bool)
    requires
        precision_bits >= 1,
    ensures
        r == close(left@, right@, precision_bits as nat),
{
    let difference: HpFloat = left.minus(right).abs();
    let mut scale: HpFloat = left.abs();
    let right_scale: HpFloat = right.abs();
    if scale.lt(&right_scale) {
        scale = right_scale;
    }
    let bits: i64 = if precision_bits / 4 > 8 {
        (precision_bits / 4) as i64
    } else {
        8
    };
    let bound: HpFloat = scale.plus_int(1).times(&HpFloat::power_of_two(precision_bits, -bits));
    difference.le(&bound)
}

} // verus!
