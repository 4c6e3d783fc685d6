//! Band concentration of the basis, the restriction of the archimedean form to the complement
//! of a band, and the cancellation between the archimedean and the prime form.

use crate::assembly::{form_fits, form_sizes, frequency_of_mode, full_size, mode_at, mode_frequency};
use crate::config::HighPrecConfig;
use crate::decimal::{hp_decimal, Decimal, DecimalValue};
use crate::error::CcmError;
use crate::float::HpFloat;
use crate::matrix::{
    accumulate, force_symmetric, largest, lemma_build_ends, lemma_cell, lemma_extend, lemma_flat,
    matrix_row_abs_sum, symmetrized, vals,
};
use crate::rounding::{hp_int, hp_word, HpValue};
use crate::tridiagonal::row_sums;
use vstd::prelude::*;

verus! {

/// Decimal places below which the cardinal sine is one.
pub const SINC_GUARD_PLACES: u16 = 40;

/// The cardinal sine, from the sine of its argument.
pub open spec fn sinc(t: HpValue, sine: HpValue, p: nat) -> HpValue {
    if t.lt_abs(
        hp_decimal(
            p,
            DecimalValue { neg: false, digits: 1, exponent: -(SINC_GUARD_PLACES as int) },
        ),
    ) {
        hp_int(p, 1)
    } else {
        sine.over(t)
    }
}

/// The cardinal sine, from the sine of its argument.
pub fn sinc_hp(t: &HpFloat, sine: &HpFloat, prec: u32) -> (r: HpFloat)
    requires
        prec >= 1,
    ensures
        r@ == sinc(t@, sine@, prec as nat),
{
    let tiny: HpFloat = HpFloat::from_decimal(prec, &Decimal::tenths(SINC_GUARD_PLACES));
    if t.lt_abs(&tiny) {
        HpFloat::from_u64(prec, 1)
    } else {
        sine.over(t)
    }
}

/// Number of quadrature points of the band integral.
pub fn band_quadrature_points(n_modes: usize, cfg: &HighPrecConfig) -> (r: usize)
    requires
        8 * n_modes + 64 <= usize::MAX,
    ensures
        r == if cfg.quad_points > 8 * n_modes + 64 {
            cfg.quad_points as int
        } else {
            8 * n_modes + 64
        },
{
    let wanted: usize = 8 * n_modes + 64;
    if cfg.quad_points > wanted {
        cfg.quad_points
    } else {
        wanted
    }
}

/// Argument of the cardinal sine of a position at a node of the band.
pub open spec fn band_argument(
    pi: HpValue,
    l: HpValue,
    omega: HpValue,
    node: HpValue,
    mode: int,
    p: nat,
) -> HpValue {
    mode_frequency(pi, l, mode, p).minus(node.times(omega)).times(l.over(hp_word(2)))
}

/// Arguments of the cardinal sines at a node, one for every mode.
pub open spec fn band_row(
    pi: HpValue,
    l: HpValue,
    omega: HpValue,
    node: HpValue,
    n_modes: int,
    p: nat,
) -> Seq<HpValue> {
    Seq::new(
        full_size(n_modes) as nat,
        |i: int| band_argument(pi, l, omega, node, i - n_modes, p),
    )
}

/// Arguments of the cardinal sines at a node, one for every mode.
pub fn band_arguments(
    n_modes: usize,
    pi: &HpFloat,
    l: &HpFloat,
    omega: &HpFloat,
    node: &HpFloat,
    prec: u32,
) -> (r: Vec<HpFloat>)
    requires
        prec >= 1,
        form_fits(n_modes as int),
    ensures
        vals(r@) == band_row(pi@, l@, omega@, node@, n_modes as int, prec as nat),
{
    let ghost goal = band_row(pi@, l@, omega@, node@, n_modes as int, prec as nat);
    let (dim, _): (usize, usize) = form_sizes(n_modes);
    let half: HpFloat = l.over_int(2);
    let xi: HpFloat = node.times(omega);
    let mut out: Vec<HpFloat> = Vec::with_capacity(dim);
    let mut i: usize = 0;
    proof {
        lemma_build_ends(goal);
    }
    while i < dim
        invariant
            i <= dim,
            prec >= 1,
            form_fits(n_modes as int),
            dim == full_size(n_modes as int),
            half@ == l@.over(hp_word(2)),
            xi@ == node@.times(omega@),
            goal == band_row(pi@, l@, omega@, node@, n_modes as int, prec as nat),
            out.len() == i,
            vals(out@) == goal.take(i as int),
        decreases dim - i,
    {
        let x: HpFloat = frequency_of_mode(pi, l, mode_at(i, n_modes), prec).minus(&xi).times(
            &half,
        );
        proof {
            lemma_extend(out@, x, goal);
        }
        out.push(x);
        i = i + 1;
    }
    proof {
        lemma_build_ends(goal);
    }
    out
}

/// The band integral at its nodes: weights, and cardinal sines of every position.
pub struct BandView {
    pub weights: Seq<HpValue>,
    pub sincs: Seq<Seq<HpValue>>,
}

/// The cardinal sines of a row of arguments.
pub open spec fn sinc_row(arguments: Seq<HpValue>, sines: Seq<HpValue>, p: nat) -> Seq<HpValue> {
    Seq::new(arguments.len(), |i: int| sinc(arguments[i], sines[i], p))
}

/// The band at its nodes, with the sines that the caller evaluated.
pub open spec fn band(
    pi: HpValue,
    l: HpValue,
    omega: HpValue,
    nodes: Seq<HpValue>,
    weights: Seq<HpValue>,
    sines: Seq<Vec<HpFloat>>,
    n_modes: int,
    p: nat,
) -> BandView {
    let front = l.over(hp_word(2)).over(pi).times(omega);
    BandView {
        weights: Seq::new(nodes.len(), |q: int| weights[q].times(front)),
        sincs: Seq::new(
            nodes.len(),
            |q: int| sinc_row(band_row(pi, l, omega, nodes[q], n_modes, p), vals(sines[q]@), p),
        ),
    }
}

/// Terms of one entry, as a function of the node.
pub open spec fn band_terms(b: BandView, low: int, high: int) -> spec_fn(int) -> HpValue {
    |q: int| b.sincs[q][low].times(b.weights[q]).times(b.sincs[q][high])
}

/// Entry of the concentration matrix: summed in the upper triangle, mirrored below.
pub open spec fn band_cell(b: BandView, row: int, column: int, p: nat) -> HpValue {
    if row <= column {
        accumulate(hp_int(p, 0), band_terms(b, row, column), b.weights.len())
    } else {
        accumulate(hp_int(p, 0), band_terms(b, column, row), b.weights.len())
    }
}

/// The concentration matrix in row-major order.
pub open spec fn band_matrix(b: BandView, dim: int, p: nat) -> Seq<HpValue> {
    Seq::new((dim * dim) as nat, |k: int| band_cell(b, k / dim, k % dim, p))
}

/// A concentration matrix is exactly symmetric.
pub proof fn law_band_matrix_is_symmetric(b: BandView, dim: int, i: int, j: int, p: nat)
    requires
        0 <= i < dim,
        0 <= j < dim,
    ensures
        band_matrix(b, dim, p)[i * dim + j] == band_matrix(b, dim, p)[j * dim + i],
{
    lemma_cell(dim, i, j);
    lemma_cell(dim, j, i);
}

fn sincs_at(arguments: &Vec<HpFloat>, sines: &Vec<HpFloat>, prec: u32) -> (r: Vec<HpFloat>)
    requires
        prec >= 1,
        arguments.len() == sines.len(),
    ensures
        vals(r@) == sinc_row(vals(arguments@), vals(sines@), prec as nat),
{
    let ghost goal = sinc_row(vals(arguments@), vals(sines@), prec as nat);
    let mut out: Vec<HpFloat> = Vec::with_capacity(arguments.len());
    let mut i: usize = 0;
    proof {
        lemma_build_ends(goal);
    }
    while i < arguments.len()
        invariant
            i <= arguments.len(),
            prec >= 1,
            arguments.len() == sines.len(),
            goal == sinc_row(vals(arguments@), vals(sines@), prec as nat),
            out.len() == i,
            vals(out@) == goal.take(i as int),
        decreases arguments.len() - i,
    {
        let x: HpFloat = sinc_hp(&arguments[i], &sines[i], prec);
        proof {
            lemma_extend(out@, x, goal);
        }
        out.push(x);
        i = i + 1;
    }
    proof {
        lemma_build_ends(goal);
    }
    out
}

fn band_entry(
    weights: &Vec<HpFloat>,
    sincs: &Vec<Vec<HpFloat>>,
    low: usize,
    high: usize,
    prec: u32,
    Ghost(b): Ghost<BandView>,
) -> (r: HpFloat)
    requires
        prec >= 1,
        weights.len() == sincs.len(),
        b.weights == vals(weights@),
        b.sincs.len() == sincs@.len(),
        forall|q: int|
            0 <= q < sincs@.len() ==> vals((#[trigger] sincs@[q])@) == b.sincs[q] && low
                < sincs@[q]@.len() && high < sincs@[q]@.len(),
    ensures
        r@ == accumulate(
            hp_int(prec as nat, 0),
            band_terms(b, low as int, high as int),
            b.weights.len(),
        ),
{
    let mut acc: HpFloat = HpFloat::zero(prec);
    let mut q: usize = 0;
    while q < weights.len()
        invariant
            q <= weights.len(),
            weights.len() == sincs.len(),
            b.weights == vals(weights@),
            b.sincs.len() == sincs@.len(),
            forall|k: int|
                0 <= k < sincs@.len() ==> vals((#[trigger] sincs@[k])@) == b.sincs[k] && low
                    < sincs@[k]@.len() && high < sincs@[k]@.len(),
            acc@ == accumulate(
                hp_int(prec as nat, 0),
                band_terms(b, low as int, high as int),
                q as nat,
            ),
        decreases weights.len() - q,
    {
        let s: &Vec<HpFloat> = &sincs[q];
        assert(vals(sincs@[q as int]@) == b.sincs[q as int]);
        acc = acc.plus(&s[low].times(&weights[q]).times(&s[high]));
        q = q + 1;
    }
    acc
}

/// The concentration matrix of a band, from the sines of the arguments at every node.
pub fn band_concentration_matrix(
    n_modes: usize,
    pi: &HpFloat,
    l: &HpFloat,
    omega: &HpFloat,
    nodes: &Vec<HpFloat>,
    weights: &Vec<HpFloat>,
    sines: &Vec<Vec<HpFloat>>,
    prec: u32,
) -> (r: Vec<HpFloat>)
    requires
        prec >= 1,
        form_fits(n_modes as int),
        nodes.len() == weights.len(),
        nodes.len() == sines.len(),
        forall|q: int|
            0 <= q < sines@.len() ==> (#[trigger] sines@[q])@.len() == full_size(n_modes as int),
    ensures
        vals(r@) == band_matrix(
            band(
                pi@,
                l@,
                omega@,
                vals(nodes@),
                vals(weights@),
                sines@,
                n_modes as int,
                prec as nat,
            ),
            full_size(n_modes as int),
            prec as nat,
        ),
{
    let ghost p = prec as nat;
    let ghost b = band(
        pi@,
        l@,
        omega@,
        vals(nodes@),
        vals(weights@),
        sines@,
        n_modes as int,
        p,
    );
    let (dim, total): (usize, usize) = form_sizes(n_modes);
    let front: HpFloat = l.over_int(2).over(pi).times(omega);
    let mut scaled: Vec<HpFloat> = Vec::with_capacity(nodes.len());
    let mut sincs: Vec<Vec<HpFloat>> = Vec::with_capacity(nodes.len());
    let mut q: usize = 0;
    proof {
        lemma_build_ends(b.weights);
    }
    while q < nodes.len()
        invariant
            q <= nodes.len(),
            prec >= 1,
            p == prec,
            form_fits(n_modes as int),
            dim == full_size(n_modes as int),
            nodes.len() == weights.len(),
            nodes.len() == sines.len(),
            forall|k: int|
                0 <= k < sines@.len() ==> (#[trigger] sines@[k])@.len() == full_size(
                    n_modes as int,
                ),
            front@ == l@.over(hp_word(2)).over(pi@).times(omega@),
            b == band(
                pi@,
                l@,
                omega@,
                vals(nodes@),
                vals(weights@),
                sines@,
                n_modes as int,
                p,
            ),
            scaled.len() == q,
            vals(scaled@) == b.weights.take(q as int),
            sincs.len() == q,
            forall|k: int|
                0 <= k < q ==> vals((#[trigger] sincs@[k])@) == b.sincs[k] && sincs@[k]@.len()
                    == dim,
        decreases nodes.len() - q,
    {
        let w: HpFloat = weights[q].times(&front);
        proof {
            lemma_extend(scaled@, w, b.weights);
        }
        scaled.push(w);
        let arguments: Vec<HpFloat> = band_arguments(n_modes, pi, l, omega, &nodes[q], prec);
        assert(arguments@.len() == vals(arguments@).len());
        assert(sines@[q as int]@.len() == full_size(n_modes as int));
        let row: Vec<HpFloat> = sincs_at(&arguments, &sines[q], prec);
        assert(row@.len() == vals(row@).len());
        sincs.push(row);
        q = q + 1;
    }
    proof {
        lemma_build_ends(b.weights);
    }
    let ghost goal = band_matrix(b, dim as int, p);
    let mut out: Vec<HpFloat> = Vec::with_capacity(total);
    let mut k: usize = 0;
    proof {
        lemma_build_ends(goal);
        assert(vals(scaled@) =~= b.weights);
    }
    while k < total
        invariant
            k <= total,
            prec >= 1,
            p == prec,
            dim == full_size(n_modes as int),
            dim > 0,
            total == dim * dim,
            goal == band_matrix(b, dim as int, p),
            b.weights == vals(scaled@),
            b.sincs.len() == sincs@.len(),
            scaled.len() == sincs.len(),
            forall|i: int|
                0 <= i < sincs@.len() ==> vals((#[trigger] sincs@[i])@) == b.sincs[i]
                    && sincs@[i]@.len() == dim,
            out.len() == k,
            vals(out@) == goal.take(k as int),
        decreases total - k,
    {
        proof {
            lemma_flat(dim as int, k as int);
        }
        let row: usize = k / dim;
        let column: usize = k % dim;
        let x: HpFloat = if row <= column {
            band_entry(&scaled, &sincs, row, column, prec, Ghost(b))
        } else {
            band_entry(&scaled, &sincs, column, row, prec, Ghost(b))
        };
        proof {
            lemma_extend(out@, x, goal);
        }
        out.push(x);
        k = k + 1;
    }
    proof {
        lemma_build_ends(goal);
    }
    out
}

/// A form restricted to the complement of a band.
#[derive(Debug)]
pub struct SoninRestriction {
    /// Concentration ratios, ascending.
    pub chi: Vec<HpFloat>,
    /// Spectrum after the concentrated modes are shifted out.
    pub spectrum: Vec<HpFloat>,
    pub n_dropped: usize,
}

/// Number of modes that can be dropped.
pub fn dropped_modes(n_drop: usize, dim: usize) -> (r: usize)
    ensures
        r == if n_drop < dim {
            n_drop
        } else {
            dim
        },
{
    if n_drop < dim {
        n_drop
    } else {
        dim
    }
}

/// Position, among ascending ratios, of the `k`-th most concentrated mode.
pub fn concentrated_position(dim: usize, k: usize) -> (r: usize)
    requires
        k < dim,
    ensures
        r == dim - 1 - k,
{
    dim - 1 - k
}

/// Shift that takes a mode above the spectrum: ten times a bound on it, and one.
pub open spec fn deflation_shift(m: Seq<HpValue>, dim: int, p: nat) -> HpValue {
    largest(hp_int(p, 0), row_sums(m, dim, p), dim as nat).times(hp_word(10)).plus(hp_word(1))
}

/// Shifts added to an entry, as a function of the mode.
pub open spec fn deflation_terms(v: Seq<Vec<HpFloat>>, sigma: HpValue, row: int, column: int) -> spec_fn(
    int,
) -> HpValue {
    |k: int| vals(v[k]@)[row].times(sigma).times(vals(v[k]@)[column])
}

/// The form with modes shifted, before mirrored entries are averaged.
pub open spec fn shifted_form(m: Seq<HpValue>, v: Seq<Vec<HpFloat>>, sigma: HpValue, dim: int) -> Seq<
    HpValue,
> {
    Seq::new(
        (dim * dim) as nat,
        |c: int| accumulate(m[c], deflation_terms(v, sigma, c / dim, c % dim), v.len()),
    )
}

/// A form with modes shifted above its spectrum.
pub open spec fn deflated(m: Seq<HpValue>, v: Seq<Vec<HpFloat>>, dim: int, p: nat) -> Seq<HpValue> {
    symmetrized(shifted_form(m, v, deflation_shift(m, dim, p), dim), dim)
}

fn deflation_shift_value(m: &Vec<HpFloat>, dim: usize, prec: u32) -> (r: HpFloat)
    requires
        prec >= 1,
        m.len() == dim * dim,
    ensures
        r@ == deflation_shift(vals(m@), dim as int, prec as nat),
{
    let mut sigma: HpFloat = HpFloat::zero(prec);
    let mut row: usize = 0;
    while row < dim
        invariant
            row <= dim,
            prec >= 1,
            m.len() == dim * dim,
            sigma@ == largest(
                hp_int(prec as nat, 0),
                row_sums(vals(m@), dim as int, prec as nat),
                row as nat,
            ),
        decreases dim - row,
    {
        let sum: HpFloat = matrix_row_abs_sum(m, dim, row, prec);
        if sigma.lt(&sum) {
            sigma = sum;
        }
        row = row + 1;
    }
    sigma.times_word(10).plus_int(1)
}

/// Shifts modes above the spectrum of a form.
pub fn deflate_form(m: &Vec<HpFloat>, modes: &Vec<Vec<HpFloat>>, dim: usize, prec: u32) -> (r: Vec<
    HpFloat,
>)
    requires
        prec >= 1,
        dim > 0,
        m.len() == dim * dim,
        forall|k: int| 0 <= k < modes@.len() ==> (#[trigger] modes@[k])@.len() == dim,
    ensures
        vals(r@) == deflated(vals(m@), modes@, dim as int, prec as nat),
{
    let sigma: HpFloat = deflation_shift_value(m, dim, prec);
    let ghost goal = shifted_form(vals(m@), modes@, sigma@, dim as int);
    let total: usize = m.len();
    let mut out: Vec<HpFloat> = Vec::with_capacity(total);
    let mut c: usize = 0;
    proof {
        lemma_build_ends(goal);
    }
    while c < total
        invariant
            c <= total,
            dim > 0,
            total == m.len(),
            m.len() == dim * dim,
            forall|k: int| 0 <= k < modes@.len() ==> (#[trigger] modes@[k])@.len() == dim,
            goal == shifted_form(vals(m@), modes@, sigma@, dim as int),
            out.len() == c,
            vals(out@) == goal.take(c as int),
        decreases total - c,
    {
        proof {
            lemma_flat(dim as int, c as int);
        }
        let row: usize = c / dim;
        let column: usize = c % dim;
        let mut acc: HpFloat = m[c].clone();
        let mut k: usize = 0;
        while k < modes.len()
            invariant
                k <= modes.len(),
                c < m.len(),
                row < dim,
                column < dim,
                forall|i: int| 0 <= i < modes@.len() ==> (#[trigger] modes@[i])@.len() == dim,
                acc@ == accumulate(
                    vals(m@)[c as int],
                    deflation_terms(modes@, sigma@, row as int, column as int),
                    k as nat,
                ),
            decreases modes.len() - k,
        {
            let v: &Vec<HpFloat> = &modes[k];
            assert(modes@[k as int]@.len() == dim);
            acc = acc.plus(&v[row].times(&sigma).times(&v[column]));
            k = k + 1;
        }
        proof {
            lemma_extend(out@, acc, goal);
        }
        out.push(acc);
        c = c + 1;
    }
    proof {
        lemma_build_ends(goal);
        assert(vals(out@).len() == out@.len());
    }
    force_symmetric(&mut out, dim);
    out
}

/// First positive value at or after a position.
pub open spec fn first_positive(s: Seq<HpValue>, from: int) -> Option<HpValue>
    decreases s.len() - from,
{
    if from < 0 || from >= s.len() {
        None
    } else if hp_word(0).lt(s[from]) {
        Some(s[from])
    } else {
        first_positive(s, from + 1)
    }
}

/// The smallest positive of ascending eigenvalues.
pub fn plunge_eigenvalue(eigenvalues: &Vec<HpFloat>) -> (r: Result<HpFloat, CcmError>)
    ensures
        match r {
            Ok(v) => first_positive(vals(eigenvalues@), 0) == Some(v@),
            Err(e) => first_positive(vals(eigenvalues@), 0) is None && e.refuses(
                "no positive eigenvalue (Weil form indefinite?)"@,
            ),
        },
{
    let ghost s = vals(eigenvalues@);
    let zero: HpFloat = HpFloat::from_i64(64, 0);
    let mut i: usize = 0;
    while i < eigenvalues.len()
        invariant
            i <= eigenvalues.len(),
            zero@ == hp_word(0),
            s == vals(eigenvalues@),
            first_positive(s, 0) == first_positive(s, i as int),
        decreases eigenvalues.len() - i,
    {
        if zero.lt(&eigenvalues[i]) {
            return Ok(eigenvalues[i].clone());
        }
        i = i + 1;
    }
    Err(CcmError::refused("no positive eigenvalue (Weil form indefinite?)"))
}

/// Split of the smallest positive eigenvalue into its archimedean and its prime part.
#[derive(Debug)]
pub struct PlungeCancellation {
    pub eps_n: HpFloat,
    pub arch_rayleigh: HpFloat,
    pub prime_rayleigh: HpFloat,
}

/// The prime part of a split: the archimedean quotient less the full one.
pub open spec fn prime_part(full: HpValue, archimedean: HpValue, p: nat) -> HpValue {
    archimedean.at(p).minus(full)
}

/// The split, from the Rayleigh quotients of the full and the archimedean form.
pub fn plunge_cancellation(full_rayleigh: HpFloat, arch_rayleigh: HpFloat, prec: u32) -> (r:
    PlungeCancellation)
    requires
        prec >= 1,
    ensures
        r.eps_n@ == full_rayleigh@,
        r.arch_rayleigh@ == arch_rayleigh@,
        r.prime_rayleigh@ == prime_part(full_rayleigh@, arch_rayleigh@, prec as nat),
{
    let prime_rayleigh: HpFloat = arch_rayleigh.at(prec).minus(&full_rayleigh);
    PlungeCancellation { eps_n: full_rayleigh, arch_rayleigh, prime_rayleigh }
}

} // verus!
