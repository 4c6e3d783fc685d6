//! Assembly of the localized Weil form: quadrature of the archimedean integrals, the pole,
//! archimedean and prime components, and their combination.
//!
//! Elementary functions are evaluated by the caller: a function here computes the arguments,
//! and another takes the values.

use crate::config::HighPrecConfig;
use crate::decimal::{hp_decimal, Decimal, DecimalValue};
use crate::float::HpFloat;
use crate::matrix::{
    accumulate, lemma_build_ends, lemma_dim_le, lemma_extend, lemma_flat, ordered_sum, sum_of, vals,
};
use crate::rounding::{hp_int, hp_word, HpValue};
use vstd::prelude::*;

verus! {

/// Decimal places below which the kernel is replaced by its expansion at zero.
pub const SINGULARITY_GUARD_PLACES: u16 = 30;

/// Number of quadrature points for a mode: the configured number, or what the mode's
/// oscillation and the precision need.
pub open spec fn points_for(base: int, extra: int, n: int) -> int {
    if base > 3 * n + extra {
        base
    } else {
        3 * n + extra
    }
}

/// Quadrature points of every mode from zero to `n_modes`.
pub fn quadrature_points_per_mode(n_modes: usize, cfg: &HighPrecConfig) -> (r: Vec<usize>)
    requires
        3 * n_modes + cfg.precision_bits <= usize::MAX,
        n_modes < usize::MAX,
    ensures
        r.len() == n_modes + 1,
        forall|n: int|
            0 <= n <= n_modes ==> (#[trigger] r@[n]) == points_for(
                cfg.quad_points as int,
                cfg.precision_bits as int / 2,
                n,
            ),
{
    let extra: usize = (cfg.precision_bits / 2) as usize;
    let mut out: Vec<usize> = Vec::with_capacity(n_modes + 1);
    let mut n: usize = 0;
    while n <= n_modes
        invariant
            n <= n_modes + 1,
            n_modes < usize::MAX,
            3 * n_modes + cfg.precision_bits <= usize::MAX,
            extra == cfg.precision_bits as int / 2,
            out.len() == n,
            forall|k: int|
                0 <= k < n ==> (#[trigger] out@[k]) == points_for(
                    cfg.quad_points as int,
                    cfg.precision_bits as int / 2,
                    k,
                ),
        decreases n_modes + 1 - n,
    {
        let wanted: usize = 3 * n + extra;
        out.push(
            if cfg.quad_points > wanted {
                cfg.quad_points
            } else {
                wanted
            },
        );
        n = n + 1;
    }
    out
}

/// Whether a sequence strictly rises.
pub open spec fn strictly_rising(s: Seq<usize>) -> bool {
    forall|i: int, j: int| 0 <= i < j < s.len() ==> (#[trigger] s[i]) < (#[trigger] s[j])
}

/// Whether a sequence never falls.
pub open spec fn never_falls(s: Seq<usize>) -> bool {
    forall|i: int, j: int| 0 <= i <= j < s.len() ==> (#[trigger] s[i]) <= (#[trigger] s[j])
}

/// The different numbers of quadrature points, in rising order: each table is needed once.
pub fn distinct_quadrature_points(points: &Vec<usize>) -> (r: Vec<usize>)
    requires
        never_falls(points@),
    ensures
        strictly_rising(r@),
        forall|i: int| 0 <= i < points@.len() ==> r@.contains(#[trigger] points@[i]),
        forall|i: int| 0 <= i < r@.len() ==> points@.contains(#[trigger] r@[i]),
{
    let mut out: Vec<usize> = Vec::new();
    let mut i: usize = 0;
    while i < points.len()
        invariant
            i <= points.len(),
            never_falls(points@),
            strictly_rising(out@),
            out.len() > 0 <==> i > 0,
            i > 0 ==> out@[out@.len() - 1] == points@[i - 1],
            forall|k: int| 0 <= k < i ==> out@.contains(#[trigger] points@[k]),
            forall|k: int| 0 <= k < out@.len() ==> points@.contains(#[trigger] out@[k]),
        decreases points.len() - i,
    {
        let x: usize = points[i];
        let ghost before = out@;
        if out.len() == 0 || out[out.len() - 1] < x {
            out.push(x);
            assert forall|k: int| 0 <= k < i + 1 implies out@.contains(#[trigger] points@[k]) by {
                if k < i {
                    let j = choose|j: int| 0 <= j < before.len() && before[j] == points@[k];
                    assert(out@[j] == points@[k]);
                } else {
                    assert(out@[before.len() as int] == x);
                }
            }
        } else {
            assert(points@[i - 1] <= points@[i as int]);
            assert(out@[out@.len() - 1] == x);
        }
        i = i + 1;
    }
    out
}

/// The number of points never falls with the mode.
pub proof fn law_points_never_fall(base: int, extra: int, fewer: int, more: int)
    requires
        fewer <= more,
    ensures
        points_for(base, extra, fewer) <= points_for(base, extra, more),
{
}

/// `2 pi n / l` with the mode in the middle.
pub open spec fn mode_frequency(pi: HpValue, l: HpValue, n: int, p: nat) -> HpValue {
    pi.times(hp_word(2)).times(hp_int(p, n)).over(l)
}

/// `2 pi n / l`.
pub fn frequency_of_mode(pi: &HpFloat, l: &HpFloat, n: i64, prec: u32) -> (r: HpFloat)
    requires
        prec >= 1,
    ensures
        r@ == mode_frequency(pi@, l@, n as int, prec as nat),
{
    pi.times_word(2).times(&HpFloat::from_i64(prec, n)).over(l)
}

/// A node taken from `[-1, 1]` to `[0, l]`.
pub open spec fn mapped_node(node: HpValue, half_l: HpValue) -> HpValue {
    node.plus(hp_word(1)).times(half_l)
}

/// The arguments of the elementary functions at one node.
#[derive(Debug)]
pub struct NodeArguments {
    /// Argument of the sine and the cosine.
    pub phase: HpFloat,
    /// Argument of the hyperbolic sine.
    pub x: HpFloat,
    /// Arguments of the two exponentials.
    pub half: HpFloat,
    pub negative_half: HpFloat,
}

/// The values of the elementary functions at one node.
#[derive(Debug)]
pub struct NodeValues {
    pub sine: HpFloat,
    pub cosine: HpFloat,
    pub sinh: HpFloat,
    pub exp_half: HpFloat,
    pub exp_negative_half: HpFloat,
}

/// The phase of a mode at a point.
pub open spec fn node_phase(pi: HpValue, l: HpValue, n: int, x: HpValue, p: nat) -> HpValue {
    mode_frequency(pi, l, n, p).times(x)
}

/// Half of a point, and its negative.
pub open spec fn node_halves(x: HpValue) -> (HpValue, HpValue) {
    (x.over(hp_word(2)), x.over(hp_word(-2)))
}

/// The arguments at a node for a mode.
pub fn node_arguments(n: i64, pi: &HpFloat, l: &HpFloat, node: &HpFloat, prec: u32) -> (r:
    NodeArguments)
    requires
        prec >= 1,
    ensures
        ({
            let x = mapped_node(node@, l@.over(hp_word(2)));
            &&& r.x@ == x
            &&& r.phase@ == node_phase(pi@, l@, n as int, x, prec as nat)
            &&& r.half@ == node_halves(x).0
            &&& r.negative_half@ == node_halves(x).1
        }),
{
    let x: HpFloat = node.plus_int(1).times(&l.over_int(2));
    let phase: HpFloat = frequency_of_mode(pi, l, n, prec).times(&x);
    let half: HpFloat = x.over_int(2);
    let negative_half: HpFloat = x.over_int(-2);
    NodeArguments { phase, x, half, negative_half }
}

/// Guard below which the kernel is replaced by its expansion at zero.
pub open spec fn singularity_guard(p: nat) -> HpValue {
    hp_decimal(
        p,
        DecimalValue { neg: false, digits: 1, exponent: -(SINGULARITY_GUARD_PLACES as int) },
    )
}

/// The kernel `exp(x/2) / (2 sinh x)`; near zero, `1/(2x) + 1/4`.
pub open spec fn rho(x: HpValue, exp_half: HpValue, sinh: HpValue, p: nat) -> HpValue {
    if x.lt_abs(singularity_guard(p)) {
        hp_int(x.prec, 1).over(x).over(hp_word(2)).plus(hp_int(p, 1).over(hp_word(4)))
    } else {
        exp_half.over(sinh.times(hp_word(2)))
    }
}

/// The kernel, from the values of its exponential and its hyperbolic sine.
pub fn rho_hp_with_guard(
    x: &HpFloat,
    guard: &HpFloat,
    exp_half: &HpFloat,
    sinh: &HpFloat,
    prec: u32,
) -> (r: HpFloat)
    requires
        prec >= 1,
        guard@ == singularity_guard(prec as nat),
    ensures
        r@ == rho(x@, exp_half@, sinh@, prec as nat),
{
    if x.lt_abs(guard) {
        let quarter: HpFloat = HpFloat::from_u64(prec, 1).over_int(4);
        HpFloat::from_u64(x.prec(), 1).over(x).over_int(2).plus(&quarter)
    } else {
        exp_half.over(&sinh.times_word(2))
    }
}

/// The values of a rule at one node, as mathematics.
pub struct NodeView {
    pub x: HpValue,
    pub weight: HpValue,
    pub sine: HpValue,
    pub cosine: HpValue,
    pub sinh: HpValue,
    pub exp_half: HpValue,
    pub exp_negative_half: HpValue,
}

/// The nodes of a rule, taken to `[0, l]`, with their weights and function values.
pub open spec fn rule_nodes(
    nodes: Seq<HpFloat>,
    weights: Seq<HpFloat>,
    values: Seq<NodeValues>,
    l: HpValue,
) -> Seq<NodeView> {
    Seq::new(
        nodes.len(),
        |q: int|
            NodeView {
                x: mapped_node(nodes[q]@, l.over(hp_word(2))),
                weight: weights[q]@,
                sine: values[q].sine@,
                cosine: values[q].cosine@,
                sinh: values[q].sinh@,
                exp_half: values[q].exp_half@,
                exp_negative_half: values[q].exp_negative_half@,
            },
    )
}

impl NodeView {
    pub open spec fn kernel(self, p: nat) -> HpValue {
        rho(self.x, self.exp_half, self.sinh, p)
    }
}

/// Weighted terms of the sine integral, as a function of the node.
pub open spec fn alpha_terms(s: Seq<NodeView>, p: nat) -> spec_fn(int) -> HpValue {
    |q: int| s[q].weight.times(s[q].sine.times(s[q].kernel(p)))
}

/// Weighted terms of the first-moment integral.
pub open spec fn beta_terms(s: Seq<NodeView>, p: nat) -> spec_fn(int) -> HpValue {
    |q: int| s[q].weight.times(s[q].x.times(s[q].cosine).times(s[q].kernel(p)))
}

/// Weighted terms of the regularized cosine integral.
pub open spec fn gamma_terms(s: Seq<NodeView>, p: nat) -> spec_fn(int) -> HpValue {
    |q: int|
        s[q].weight.times(s[q].cosine.minus(s[q].exp_negative_half).times(s[q].kernel(p)))
}

/// The sine integral of a mode.
pub open spec fn alpha_value(s: Seq<NodeView>, n: int, pi: HpValue, l: HpValue, p: nat) -> HpValue {
    let sum = if n == 0 {
        hp_int(p, 0)
    } else {
        accumulate(hp_int(p, 0), alpha_terms(s, p), s.len())
    };
    sum.times(l.over(hp_word(2))).over(pi)
}

/// The first-moment integral of a mode.
pub open spec fn beta_value(s: Seq<NodeView>, l: HpValue, p: nat) -> HpValue {
    accumulate(hp_int(p, 0), beta_terms(s, p), s.len()).times(l.over(hp_word(2))).over(l)
}

/// The regularized cosine integral of a mode.
pub open spec fn gamma_value(s: Seq<NodeView>, l: HpValue, kappa_half: HpValue, p: nat) -> HpValue {
    accumulate(hp_int(p, 0), gamma_terms(s, p), s.len()).times(l.over(hp_word(2))).plus(kappa_half)
}

/// The three archimedean integrals of a mode in one ordered pass over the nodes.
pub fn compute_archimedean_integrals_l(
    n: i64,
    pi: &HpFloat,
    l: &HpFloat,
    prec: u32,
    nodes: &Vec<HpFloat>,
    weights: &Vec<HpFloat>,
    values: &Vec<NodeValues>,
    kappa_half: &HpFloat,
) -> (r: (HpFloat, HpFloat, HpFloat))
    requires
        prec >= 1,
        nodes.len() == weights.len(),
        nodes.len() == values.len(),
    ensures
        ({
            let s = rule_nodes(nodes@, weights@, values@, l@);
            let p = prec as nat;
            &&& r.0@ == alpha_value(s, n as int, pi@, l@, p)
            &&& r.1@ == beta_value(s, l@, p)
            &&& r.2@ == gamma_value(s, l@, kappa_half@, p)
        }),
{
    let ghost s = rule_nodes(nodes@, weights@, values@, l@);
    let ghost p = prec as nat;
    let half_l: HpFloat = l.over_int(2);
    let guard: HpFloat = HpFloat::from_decimal(prec, &Decimal::tenths(SINGULARITY_GUARD_PLACES));
    let mut alpha: HpFloat = HpFloat::zero(prec);
    let mut beta: HpFloat = HpFloat::zero(prec);
    let mut gamma: HpFloat = HpFloat::zero(prec);
    let mut q: usize = 0;
    while q < nodes.len()
        invariant
            q <= nodes.len(),
            prec >= 1,
            p == prec,
            nodes.len() == weights.len(),
            nodes.len() == values.len(),
            s == rule_nodes(nodes@, weights@, values@, l@),
            half_l@ == l@.over(hp_word(2)),
            guard@ == singularity_guard(p),
            alpha@ == (if n == 0 {
                hp_int(p, 0)
            } else {
                accumulate(hp_int(p, 0), alpha_terms(s, p), q as nat)
            }),
            beta@ == accumulate(hp_int(p, 0), beta_terms(s, p), q as nat),
            gamma@ == accumulate(hp_int(p, 0), gamma_terms(s, p), q as nat),
        decreases nodes.len() - q,
    {
        let v: &NodeValues = &values[q];
        let weight: &HpFloat = &weights[q];
        let x: HpFloat = nodes[q].plus_int(1).times(&half_l);
        let kernel: HpFloat = rho_hp_with_guard(&x, &guard, &v.exp_half, &v.sinh, prec);
        if n != 0 {
            alpha = alpha.plus(&weight.times(&v.sine.times(&kernel)));
        }
        beta = beta.plus(&weight.times(&x.times(&v.cosine).times(&kernel)));
        gamma = gamma.plus(
            &weight.times(&v.cosine.minus(&v.exp_negative_half).times(&kernel)),
        );
        q = q + 1;
    }
    (
        alpha.times(&half_l).over(pi),
        beta.times(&half_l).over(l),
        gamma.times(&half_l).plus(kappa_half),
    )
}

/// `4 pi tanh(l/2)`, from `exp l`.
pub open spec fn kappa_product(exp_l: HpValue, pi: HpValue) -> HpValue {
    exp_l.minus(hp_word(1)).over(exp_l.plus(hp_word(1))).times(pi.times(hp_word(4)))
}

/// The argument of the logarithm in the constant of the cosine integral.
pub fn kappa_argument(exp_l: &HpFloat, pi: &HpFloat) -> (r: HpFloat)
    ensures
        r@ == kappa_product(exp_l@, pi@),
{
    exp_l.minus_int(1).over(&exp_l.plus_int(1)).times(&pi.times_word(4))
}

/// Half of the sum of the logarithm and Euler's constant.
pub open spec fn kappa_half(log_argument: HpValue, euler: HpValue) -> HpValue {
    log_argument.plus(euler).over(hp_word(2))
}

/// The constant of the cosine integral, from the logarithm of its argument and Euler's
/// constant.
pub fn compute_kappa_half(log_argument: &HpFloat, euler: &HpFloat) -> (r: HpFloat)
    ensures
        r@ == kappa_half(log_argument@, euler@),
{
    log_argument.plus(euler).over_int(2)
}

/// The archimedean integrals of the modes from zero up.
#[derive(Debug)]
pub struct ComputedArchimedeanIntegrals {
    pub alpha: Vec<HpFloat>,
    pub beta: Vec<HpFloat>,
    pub gamma: Vec<HpFloat>,
}

/// The integrals, as mathematics.
pub struct IntegralsView {
    pub alpha: Seq<HpValue>,
    pub beta: Seq<HpValue>,
    pub gamma: Seq<HpValue>,
}

impl View for ComputedArchimedeanIntegrals {
    type V = IntegralsView;

    open spec fn view(&self) -> IntegralsView {
        IntegralsView {
            alpha: vals(self.alpha@),
            beta: vals(self.beta@),
            gamma: vals(self.gamma@),
        }
    }
}

pub open spec fn magnitude(n: int) -> int {
    if n < 0 {
        -n
    } else {
        n
    }
}

/// The sine integral of a signed mode: odd in the mode, zero beyond the table.
pub open spec fn signed_entry(table: Seq<HpValue>, n: int, p: nat) -> HpValue {
    if magnitude(n) >= table.len() {
        hp_int(p, 0)
    } else if n < 0 {
        table[-n].negated()
    } else {
        table[n]
    }
}

/// The sine integral of a signed mode.
pub fn signed_alpha(table: &Vec<HpFloat>, n: i64, prec: u32) -> (r: HpFloat)
    requires
        prec >= 1,
        n > i64::MIN,
    ensures
        r@ == signed_entry(vals(table@), n as int, prec as nat),
{
    let k: u64 = if n < 0 {
        (-n) as u64
    } else {
        n as u64
    };
    if k >= table.len() as u64 {
        return HpFloat::zero(prec);
    }
    if n < 0 {
        table[k as usize].negated()
    } else {
        table[k as usize].clone()
    }
}

/// Entry of the pole component for modes `n` and `m`, from `sinh(l/4)`.
pub open spec fn pole_cell(
    pi: HpValue,
    l: HpValue,
    sinh: HpValue,
    n: int,
    m: int,
    p: nat,
) -> HpValue {
    let s = pi.times(pi).times(hp_word(16));
    let l2 = l.times(l);
    let nf = hp_int(p, n);
    let mf = hp_int(p, m);
    let numerator = l2.minus(s.times(mf).times(nf));
    let left = s.times(mf).times(mf).plus(l2);
    let right = s.times(nf).times(nf).plus(l2);
    sinh.times(sinh).times(hp_word(32)).times(l).times(numerator).over(left.times(right))
}

/// Entry of the archimedean component for modes `n` and `m`.
pub open spec fn archimedean_cell(t: IntegralsView, n: int, m: int, p: nat) -> HpValue {
    if n == m {
        t.gamma[magnitude(n)].minus(t.beta[magnitude(n)]).times(hp_word(2))
    } else {
        signed_entry(t.alpha, m, p).minus(signed_entry(t.alpha, n, p)).over(hp_int(p, n - m))
    }
}

/// Dimension of the form with modes from `-n_modes` to `n_modes`.
pub open spec fn full_size(n_modes: int) -> int {
    2 * n_modes + 1
}

/// The pole component in row-major order.
pub open spec fn pole_component(pi: HpValue, l: HpValue, sinh: HpValue, n_modes: int, p: nat) -> Seq<
    HpValue,
> {
    let dim = full_size(n_modes);
    Seq::new(
        (dim * dim) as nat,
        |k: int| pole_cell(pi, l, sinh, k / dim - n_modes, k % dim - n_modes, p),
    )
}

/// The archimedean component in row-major order.
pub open spec fn archimedean_component(t: IntegralsView, n_modes: int, p: nat) -> Seq<HpValue> {
    let dim = full_size(n_modes);
    Seq::new(
        (dim * dim) as nat,
        |k: int| archimedean_cell(t, k / dim - n_modes, k % dim - n_modes, p),
    )
}

/// Whether a form of this size can be indexed.
pub open spec fn form_fits(n_modes: int) -> bool {
    full_size(n_modes) * full_size(n_modes) <= usize::MAX && full_size(n_modes) <= i64::MAX
}

/// Dimension and number of entries of a form.
pub fn form_sizes(n_modes: usize) -> (r: (usize, usize))
    requires
        form_fits(n_modes as int),
    ensures
        r.0 == full_size(n_modes as int),
        r.1 == r.0 * r.0,
{
    proof {
        lemma_dim_le(full_size(n_modes as int));
    }
    let dim: usize = 2 * n_modes + 1;
    (dim, dim * dim)
}

/// Signed mode at a position.
pub fn mode_at(position: usize, n_modes: usize) -> (r: i64)
    requires
        form_fits(n_modes as int),
        position < full_size(n_modes as int),
    ensures
        r == position - n_modes,
{
    position as i64 - n_modes as i64
}

/// The pole component, from `sinh(l/4)`.
pub fn assemble_pole_component(
    n_modes: usize,
    pi: &HpFloat,
    l: &HpFloat,
    sinh_quarter: &HpFloat,
    prec: u32,
) -> (r: Vec<HpFloat>)
    requires
        prec >= 1,
        form_fits(n_modes as int),
    ensures
        vals(r@) == pole_component(pi@, l@, sinh_quarter@, n_modes as int, prec as nat),
{
    let ghost goal = pole_component(pi@, l@, sinh_quarter@, n_modes as int, prec as nat);
    let (dim, total): (usize, usize) = form_sizes(n_modes);
    let sixteen_pi2: HpFloat = pi.times(pi).times_word(16);
    let l_sq: HpFloat = l.times(l);
    let front: HpFloat = sinh_quarter.times(sinh_quarter).times_word(32).times(l);
    let mut out: Vec<HpFloat> = Vec::with_capacity(total);
    let mut k: usize = 0;
    proof {
        lemma_build_ends(goal);
    }
    while k < total
        invariant
            k <= total,
            prec >= 1,
            form_fits(n_modes as int),
            dim == full_size(n_modes as int),
            total == dim * dim,
            goal == pole_component(pi@, l@, sinh_quarter@, n_modes as int, prec as nat),
            sixteen_pi2@ == pi@.times(pi@).times(hp_word(16)),
            l_sq@ == l@.times(l@),
            front@ == sinh_quarter@.times(sinh_quarter@).times(hp_word(32)).times(l@),
            out.len() == k,
            vals(out@) == goal.take(k as int),
        decreases total - k,
    {
        proof {
            lemma_flat(dim as int, k as int);
        }
        let nf: HpFloat = HpFloat::from_i64(prec, mode_at(k / dim, n_modes));
        let mf: HpFloat = HpFloat::from_i64(prec, mode_at(k % dim, n_modes));
        let numerator: HpFloat = l_sq.minus(&sixteen_pi2.times(&mf).times(&nf));
        let left: HpFloat = sixteen_pi2.times(&mf).times(&mf).plus(&l_sq);
        let right: HpFloat = sixteen_pi2.times(&nf).times(&nf).plus(&l_sq);
        let x: HpFloat = front.times(&numerator).over(&left.times(&right));
        proof {
            lemma_extend(out@, x, goal);
        }
        out.push(x);
        k = k + 1;
    }
    proof {
        lemma_build_ends(goal);
    }
    out
}

/// The archimedean component, from the integrals.
pub fn assemble_archimedean_component(
    n_modes: usize,
    integrals: &ComputedArchimedeanIntegrals,
    prec: u32,
) -> (r: Vec<HpFloat>)
    requires
        prec >= 1,
        form_fits(n_modes as int),
        integrals.beta.len() == n_modes + 1,
        integrals.gamma.len() == n_modes + 1,
    ensures
        vals(r@) == archimedean_component(integrals@, n_modes as int, prec as nat),
{
    let ghost goal = archimedean_component(integrals@, n_modes as int, prec as nat);
    let (dim, total): (usize, usize) = form_sizes(n_modes);
    let mut out: Vec<HpFloat> = Vec::with_capacity(total);
    let mut k: usize = 0;
    proof {
        lemma_build_ends(goal);
    }
    while k < total
        invariant
            k <= total,
            prec >= 1,
            form_fits(n_modes as int),
            integrals.beta.len() == n_modes + 1,
            integrals.gamma.len() == n_modes + 1,
            dim == full_size(n_modes as int),
            total == dim * dim,
            goal == archimedean_component(integrals@, n_modes as int, prec as nat),
            out.len() == k,
            vals(out@) == goal.take(k as int),
        decreases total - k,
    {
        proof {
            lemma_flat(dim as int, k as int);
        }
        let n: i64 = mode_at(k / dim, n_modes);
        let m: i64 = mode_at(k % dim, n_modes);
        let x: HpFloat = if n == m {
            let at: usize = if n < 0 {
                (-n) as usize
            } else {
                n as usize
            };
            integrals.gamma[at].minus(&integrals.beta[at]).times_word(2)
        } else {
            signed_alpha(&integrals.alpha, m, prec).minus(
                &signed_alpha(&integrals.alpha, n, prec),
            ).over(&HpFloat::from_i64(prec, n - m))
        };
        proof {
            lemma_extend(out@, x, goal);
        }
        out.push(x);
        k = k + 1;
    }
    proof {
        lemma_build_ends(goal);
    }
    out
}

/// One prime power with the values that its kernel needs.
#[derive(Debug)]
pub struct PrimeKernel {
    pub power: u64,
    pub log_power: HpFloat,
    pub log_prime: HpFloat,
    /// Sines and cosines of the phases of the modes, from the lowest mode up.
    pub sines: Vec<HpFloat>,
    pub cosines: Vec<HpFloat>,
}

/// A prime kernel, as mathematics.
pub struct KernelView {
    pub log_power: HpValue,
    pub log_prime: HpValue,
    pub sqrt_power: HpValue,
    pub sines: Seq<HpValue>,
    pub cosines: Seq<HpValue>,
}

impl PrimeKernel {
    pub open spec fn at_precision(self, p: nat) -> KernelView {
        KernelView {
            log_power: self.log_power@,
            log_prime: self.log_prime@,
            sqrt_power: hp_int(p, self.power as int).sqrt(),
            sines: vals(self.sines@),
            cosines: vals(self.cosines@),
        }
    }

    /// Whether there is one phase for every mode.
    pub open spec fn fits(self, dim: int) -> bool {
        self.sines@.len() == dim && self.cosines@.len() == dim
    }
}

pub open spec fn kernels(s: Seq<PrimeKernel>, p: nat) -> Seq<KernelView> {
    Seq::new(s.len(), |i: int| s[i].at_precision(p))
}

/// The phases of the modes for a prime power.
pub open spec fn phases(pi: HpValue, l: HpValue, log_power: HpValue, n_modes: int, p: nat) -> Seq<
    HpValue,
> {
    Seq::new(
        full_size(n_modes) as nat,
        |i: int| mode_frequency(pi, l, i - n_modes, p).times(log_power),
    )
}

/// The phases of the modes for a prime power: arguments of its sines and cosines.
pub fn prime_phases(n_modes: usize, pi: &HpFloat, l: &HpFloat, log_power: &HpFloat, prec: u32) -> (r:
    Vec<HpFloat>)
    requires
        prec >= 1,
        form_fits(n_modes as int),
    ensures
        vals(r@) == phases(pi@, l@, log_power@, n_modes as int, prec as nat),
{
    let ghost goal = phases(pi@, l@, log_power@, n_modes as int, prec as nat);
    let (dim, _): (usize, usize) = form_sizes(n_modes);
    let mut out: Vec<HpFloat> = Vec::with_capacity(dim);
    let mut i: usize = 0;
    proof {
        lemma_build_ends(goal);
    }
    while i < dim
        invariant
            i <= dim,
            prec >= 1,
            form_fits(n_modes as int),
            dim == full_size(n_modes as int),
            goal == phases(pi@, l@, log_power@, n_modes as int, prec as nat),
            out.len() == i,
            vals(out@) == goal.take(i as int),
        decreases dim - i,
    {
        let x: HpFloat = frequency_of_mode(pi, l, mode_at(i, n_modes), prec).times(log_power);
        proof {
            lemma_extend(out@, x, goal);
        }
        out.push(x);
        i = i + 1;
    }
    proof {
        lemma_build_ends(goal);
    }
    out
}

/// Contribution of a prime power to the entry at a row and a column.
pub open spec fn prime_term(
    t: KernelView,
    pi: HpValue,
    l: HpValue,
    row: int,
    column: int,
    p: nat,
) -> HpValue {
    let kernel = if row == column {
        hp_int(p, 1).minus(t.log_power.over(l)).times(hp_word(2)).times(t.cosines[row])
    } else {
        t.sines[column].minus(t.sines[row]).over(pi.times(hp_int(p, row - column)))
    };
    kernel.times(t.log_prime).over(t.sqrt_power)
}

/// Contributions to an entry, as a function of the prime power.
pub open spec fn prime_terms(
    s: Seq<KernelView>,
    pi: HpValue,
    l: HpValue,
    row: int,
    column: int,
    p: nat,
) -> spec_fn(int) -> HpValue {
    |q: int| prime_term(s[q], pi, l, row, column, p)
}

/// Entry of the prime component.
pub open spec fn prime_cell(
    s: Seq<KernelView>,
    pi: HpValue,
    l: HpValue,
    row: int,
    column: int,
    p: nat,
) -> HpValue {
    accumulate(hp_int(p, 0), prime_terms(s, pi, l, row, column, p), s.len())
}

/// The prime component in row-major order.
pub open spec fn prime_component(
    s: Seq<KernelView>,
    pi: HpValue,
    l: HpValue,
    n_modes: int,
    p: nat,
) -> Seq<HpValue> {
    let dim = full_size(n_modes);
    Seq::new((dim * dim) as nat, |k: int| prime_cell(s, pi, l, k / dim, k % dim, p))
}

fn kernel_factors(tables: &Vec<PrimeKernel>, l: &HpFloat, prec: u32) -> (r: (
    Vec<HpFloat>,
    Vec<HpFloat>,
))
    requires
        prec >= 1,
    ensures
        r.0.len() == tables.len(),
        r.1.len() == tables.len(),
        forall|q: int|
            0 <= q < tables@.len() ==> (#[trigger] r.0@[q])@ == hp_int(
                prec as nat,
                tables@[q].power as int,
            ).sqrt(),
        forall|q: int|
            0 <= q < tables@.len() ==> (#[trigger] r.1@[q])@ == hp_int(prec as nat, 1).minus(
                tables@[q].log_power@.over(l@),
            ).times(hp_word(2)),
{
    let mut roots: Vec<HpFloat> = Vec::with_capacity(tables.len());
    let mut diagonals: Vec<HpFloat> = Vec::with_capacity(tables.len());
    let mut q: usize = 0;
    while q < tables.len()
        invariant
            q <= tables.len(),
            prec >= 1,
            roots.len() == q,
            diagonals.len() == q,
            forall|k: int|
                0 <= k < q ==> (#[trigger] roots@[k])@ == hp_int(
                    prec as nat,
                    tables@[k].power as int,
                ).sqrt(),
            forall|k: int|
                0 <= k < q ==> (#[trigger] diagonals@[k])@ == hp_int(prec as nat, 1).minus(
                    tables@[k].log_power@.over(l@),
                ).times(hp_word(2)),
        decreases tables.len() - q,
    {
        roots.push(HpFloat::from_u64(prec, tables[q].power).sqrt());
        diagonals.push(
            HpFloat::from_u64(prec, 1).minus(&tables[q].log_power.over(l)).times_word(2),
        );
        q = q + 1;
    }
    (roots, diagonals)
}

fn prime_entry(
    tables: &Vec<PrimeKernel>,
    roots: &Vec<HpFloat>,
    diagonals: &Vec<HpFloat>,
    pi: &HpFloat,
    l: &HpFloat,
    row: usize,
    column: usize,
    dim: usize,
    prec: u32,
) -> (r: HpFloat)
    requires
        prec >= 1,
        row < dim,
        column < dim,
        dim <= i64::MAX,
        forall|q: int| 0 <= q < tables@.len() ==> (#[trigger] tables@[q]).fits(dim as int),
        roots.len() == tables.len(),
        diagonals.len() == tables.len(),
        forall|q: int|
            0 <= q < tables@.len() ==> (#[trigger] roots@[q])@ == hp_int(
                prec as nat,
                tables@[q].power as int,
            ).sqrt(),
        forall|q: int|
            0 <= q < tables@.len() ==> (#[trigger] diagonals@[q])@ == hp_int(
                prec as nat,
                1,
            ).minus(tables@[q].log_power@.over(l@)).times(hp_word(2)),
    ensures
        r@ == prime_cell(
            kernels(tables@, prec as nat),
            pi@,
            l@,
            row as int,
            column as int,
            prec as nat,
        ),
{
    let ghost s = kernels(tables@, prec as nat);
    let denominator: HpFloat = pi.times(
        &HpFloat::from_i64(prec, row as i64 - column as i64),
    );
    let mut sum: HpFloat = HpFloat::zero(prec);
    let mut q: usize = 0;
    while q < tables.len()
        invariant
            q <= tables.len(),
            prec >= 1,
            row < dim,
            column < dim,
            forall|k: int| 0 <= k < tables@.len() ==> (#[trigger] tables@[k]).fits(dim as int),
            roots.len() == tables.len(),
            diagonals.len() == tables.len(),
            forall|k: int|
                0 <= k < tables@.len() ==> (#[trigger] roots@[k])@ == hp_int(
                    prec as nat,
                    tables@[k].power as int,
                ).sqrt(),
            forall|k: int|
                0 <= k < tables@.len() ==> (#[trigger] diagonals@[k])@ == hp_int(
                    prec as nat,
                    1,
                ).minus(tables@[k].log_power@.over(l@)).times(hp_word(2)),
            s == kernels(tables@, prec as nat),
            denominator@ == pi@.times(hp_int(prec as nat, row - column)),
            sum@ == accumulate(
                hp_int(prec as nat, 0),
                prime_terms(s, pi@, l@, row as int, column as int, prec as nat),
                q as nat,
            ),
        decreases tables.len() - q,
    {
        let t: &PrimeKernel = &tables[q];
        assert(s[q as int] == tables@[q as int].at_precision(prec as nat));
        assert(tables@[q as int].fits(dim as int));
        let kernel: HpFloat = if row == column {
            diagonals[q].times(&t.cosines[row])
        } else {
            t.sines[column].minus(&t.sines[row]).over(&denominator)
        };
        sum = sum.plus(&kernel.times(&t.log_prime).over(&roots[q]));
        q = q + 1;
    }
    sum
}

/// The prime component, from the kernels of the prime powers.
pub fn compute_prime_component_matrix(
    n_modes: usize,
    tables: &Vec<PrimeKernel>,
    pi: &HpFloat,
    l: &HpFloat,
    prec: u32,
) -> (r: Vec<HpFloat>)
    requires
        prec >= 1,
        form_fits(n_modes as int),
        forall|q: int|
            0 <= q < tables@.len() ==> (#[trigger] tables@[q]).fits(full_size(n_modes as int)),
    ensures
        vals(r@) == prime_component(
            kernels(tables@, prec as nat),
            pi@,
            l@,
            n_modes as int,
            prec as nat,
        ),
{
    let ghost s = kernels(tables@, prec as nat);
    let ghost goal = prime_component(s, pi@, l@, n_modes as int, prec as nat);
    let (dim, total): (usize, usize) = form_sizes(n_modes);
    let (roots, diagonals): (Vec<HpFloat>, Vec<HpFloat>) = kernel_factors(tables, l, prec);
    let mut out: Vec<HpFloat> = Vec::with_capacity(total);
    let mut k: usize = 0;
    proof {
        lemma_build_ends(goal);
    }
    while k < total
        invariant
            k <= total,
            prec >= 1,
            form_fits(n_modes as int),
            forall|q: int|
                0 <= q < tables@.len() ==> (#[trigger] tables@[q]).fits(full_size(n_modes as int)),
            dim == full_size(n_modes as int),
            total == dim * dim,
            roots.len() == tables.len(),
            diagonals.len() == tables.len(),
            forall|q: int|
                0 <= q < tables@.len() ==> (#[trigger] roots@[q])@ == hp_int(
                    prec as nat,
                    tables@[q].power as int,
                ).sqrt(),
            forall|q: int|
                0 <= q < tables@.len() ==> (#[trigger] diagonals@[q])@ == hp_int(
                    prec as nat,
                    1,
                ).minus(tables@[q].log_power@.over(l@)).times(hp_word(2)),
            s == kernels(tables@, prec as nat),
            goal == prime_component(s, pi@, l@, n_modes as int, prec as nat),
            out.len() == k,
            vals(out@) == goal.take(k as int),
        decreases total - k,
    {
        proof {
            lemma_flat(dim as int, k as int);
        }
        let x: HpFloat = prime_entry(
            tables,
            &roots,
            &diagonals,
            pi,
            l,
            k / dim,
            k % dim,
            dim,
            prec,
        );
        proof {
            lemma_extend(out@, x, goal);
        }
        out.push(x);
        k = k + 1;
    }
    proof {
        lemma_build_ends(goal);
    }
    out
}

/// The three components of the form.
#[derive(Debug)]
pub struct ComputedCcmMatrixComponents {
    pub pole: Vec<HpFloat>,
    pub archimedean: Vec<HpFloat>,
    pub prime: Vec<HpFloat>,
}

/// The form: the pole component less the other two.
pub open spec fn combined_form(
    pole: Seq<HpValue>,
    archimedean: Seq<HpValue>,
    prime: Seq<HpValue>,
    p: nat,
) -> Seq<HpValue> {
    Seq::new(pole.len(), |k: int| pole[k].at(p).minus(archimedean[k]).minus(prime[k]))
}

/// Combines the components.
pub fn assemble_tau_components(components: &ComputedCcmMatrixComponents, prec: u32) -> (r: Vec<
    HpFloat,
>)
    requires
        prec >= 1,
        components.archimedean.len() == components.pole.len(),
        components.prime.len() == components.pole.len(),
    ensures
        vals(r@) == combined_form(
            vals(components.pole@),
            vals(components.archimedean@),
            vals(components.prime@),
            prec as nat,
        ),
{
    let ghost goal = combined_form(
        vals(components.pole@),
        vals(components.archimedean@),
        vals(components.prime@),
        prec as nat,
    );
    let mut out: Vec<HpFloat> = Vec::with_capacity(components.pole.len());
    let mut k: usize = 0;
    proof {
        lemma_build_ends(goal);
    }
    while k < components.pole.len()
        invariant
            k <= components.pole.len(),
            prec >= 1,
            components.archimedean.len() == components.pole.len(),
            components.prime.len() == components.pole.len(),
            goal == combined_form(
                vals(components.pole@),
                vals(components.archimedean@),
                vals(components.prime@),
                prec as nat,
            ),
            out.len() == k,
            vals(out@) == goal.take(k as int),
        decreases components.pole.len() - k,
    {
        let x: HpFloat = components.pole[k].at(prec).minus(&components.archimedean[k]).minus(
            &components.prime[k],
        );
        proof {
            lemma_extend(out@, x, goal);
        }
        out.push(x);
        k = k + 1;
    }
    proof {
        lemma_build_ends(goal);
    }
    out
}

/// All three components of the form at once; without primes the prime component is zero.
pub fn build_tau_components(
    n_modes: usize,
    pi: &HpFloat,
    l: &HpFloat,
    sinh_quarter: &HpFloat,
    integrals: &ComputedArchimedeanIntegrals,
    primes: Option<&Vec<PrimeKernel>>,
    prec: u32,
) -> (r: ComputedCcmMatrixComponents)
    requires
        prec >= 1,
        form_fits(n_modes as int),
        integrals.beta.len() == n_modes + 1,
        integrals.gamma.len() == n_modes + 1,
        primes matches Some(t) ==> forall|q: int|
            0 <= q < t@.len() ==> (#[trigger] t@[q]).fits(full_size(n_modes as int)),
    ensures
        vals(r.pole@) == pole_component(pi@, l@, sinh_quarter@, n_modes as int, prec as nat),
        vals(r.archimedean@) == archimedean_component(integrals@, n_modes as int, prec as nat),
        vals(r.prime@) == prime_component(
            match primes {
                None => Seq::<KernelView>::empty(),
                Some(t) => kernels(t@, prec as nat),
            },
            pi@,
            l@,
            n_modes as int,
            prec as nat,
        ),
{
    let pole: Vec<HpFloat> = assemble_pole_component(n_modes, pi, l, sinh_quarter, prec);
    let archimedean: Vec<HpFloat> = assemble_archimedean_component(n_modes, integrals, prec);
    let prime: Vec<HpFloat> = match primes {
        Some(t) => compute_prime_component_matrix(n_modes, t, pi, l, prec),
        None => {
            let none: Vec<PrimeKernel> = Vec::new();
            assert(kernels(none@, prec as nat) =~= Seq::<KernelView>::empty());
            compute_prime_component_matrix(n_modes, &none, pi, l, prec)
        },
    };
    ComputedCcmMatrixComponents { pole, archimedean, prime }
}

/// A vector scaled so that its entries sum to the square root of `l`.
pub open spec fn normalized(xi: Seq<HpValue>, l: HpValue, p: nat) -> Seq<HpValue> {
    let target = l.sqrt().over(sum_of(xi, p));
    Seq::new(xi.len(), |i: int| xi[i].times(target))
}

/// Scales a vector so that its entries sum to the square root of `l`.
pub fn normalize_eigenvector(xi: &Vec<HpFloat>, l: &HpFloat, prec: u32) -> (r: Vec<HpFloat>)
    requires
        prec >= 1,
    ensures
        vals(r@) == normalized(vals(xi@), l@, prec as nat),
{
    let ghost goal = normalized(vals(xi@), l@, prec as nat);
    let target: HpFloat = l.sqrt().over(&ordered_sum(xi, prec));
    let mut out: Vec<HpFloat> = Vec::with_capacity(xi.len());
    let mut i: usize = 0;
    proof {
        lemma_build_ends(goal);
    }
    while i < xi.len()
        invariant
            i <= xi.len(),
            target@ == l@.sqrt().over(sum_of(vals(xi@), prec as nat)),
            goal == normalized(vals(xi@), l@, prec as nat),
            out.len() == i,
            vals(out@) == goal.take(i as int),
        decreases xi.len() - i,
    {
        let x: HpFloat = xi[i].times(&target);
        proof {
            lemma_extend(out@, x, goal);
        }
        out.push(x);
        i = i + 1;
    }
    proof {
        lemma_build_ends(goal);
    }
    out
}

} // verus!
