//! Exact symmetries of the computed components and states: rounding to nearest respects signs, so
//! mirrored entries agree, up to the sign of a zero.

use crate::accuracy::law_value_less_itself_is_zero;
use crate::assembly::{
    archimedean_cell, archimedean_component, full_size, prime_cell, prime_component, prime_term,
    prime_terms, signed_entry, IntegralsView, KernelView,
};
use crate::matrix::{accumulate, lemma_cell, symmetric, symmetrized, symmetrized_cell};
use crate::rounding::{
    add_class, aligned_sum, class_at, class_order, div_class, hp_int, magnitude, min_int,
    mul_class, neg_class, rounded, Class, HpValue,
};
use crate::sector::{even_expansion, odd_expansion, reflection_squares};
use vstd::prelude::*;

verus! {

/// Whether two values are the same, up to the sign of zero.
pub open spec fn alike(x: HpValue, y: HpValue) -> bool {
    x.prec == y.prec && (x.class == y.class || (x.is_zero() && y.is_zero()))
}

/// Whether a value is the negative of another, up to the sign of zero.
pub open spec fn opposite(x: HpValue, y: HpValue) -> bool {
    alike(x, y.negated())
}

proof fn lemma_rounding_respects_sign(p: nat, neg: bool, n: nat, e: int, sticky: bool)
    ensures
        rounded(p, !neg, n, e, sticky) == neg_class(rounded(p, neg, n, e, sticky)),
{
    reveal(rounded);
}

proof fn lemma_precision_respects_sign(p: nat, x: Class)
    ensures
        class_at(p, neg_class(x)) == neg_class(class_at(p, x)),
{
    reveal(class_at);
    if x is Num {
        lemma_rounding_respects_sign(p, x->Num_neg, x->man, x->exp, false);
    }
}

/// A difference taken the other way round is the negative, up to the sign of zero.
pub proof fn law_difference_changes_sign(x: HpValue, y: HpValue)
    requires
        x.prec == y.prec,
    ensures
        opposite(x.minus(y), y.minus(x)),
{
    reveal(add_class);
    let p = x.prec;
    lemma_precision_respects_sign(p, x.class);
    lemma_precision_respects_sign(p, y.class);
    match (x.class, y.class) {
        (Class::Num { neg: na, man: ma, exp: ea }, Class::Num { neg: nb, man: mb, exp: eb }) => {
            let s = aligned_sum(na, ma, ea, !nb, mb, eb);
            let t = aligned_sum(nb, mb, eb, !na, ma, ea);
            assert(s == -t);
            if s != 0 {
                lemma_rounding_respects_sign(
                    p,
                    t < 0,
                    magnitude(t),
                    min_int(ea, eb),
                    false,
                );
            }
        },
        _ => {},
    }
}

/// A product changes sign with either factor.
pub proof fn law_product_changes_sign(x: HpValue, y: HpValue)
    ensures
        x.times(y.negated()) == x.times(y).negated(),
        x.negated().times(y) == x.times(y).negated(),
{
    reveal(mul_class);
    match (x.class, y.class) {
        (Class::Num { neg: na, man: ma, exp: ea }, Class::Num { neg: nb, man: mb, exp: eb }) => {
            lemma_rounding_respects_sign(x.prec, na != nb, ma * mb, ea + eb, false);
        },
        _ => {},
    }
}

/// A quotient keeps its value where both of its members change sign.
pub proof fn law_quotient_keeps_value(x: HpValue, y: HpValue)
    ensures
        x.negated().over(y.negated()) == x.over(y),
{
    reveal(div_class);
}

proof fn lemma_alike_quotients(a: HpValue, b: HpValue, d: HpValue)
    requires
        opposite(a, b),
    ensures
        alike(a.over(d.negated()), b.over(d)),
{
    reveal(div_class);
    if a.class == neg_class(b.class) {
        assert(a == b.negated());
        law_quotient_keeps_value(b, d);
    }
}

proof fn lemma_alike_products(a: HpValue, b: HpValue, c: HpValue)
    requires
        alike(a, b),
    ensures
        alike(a.times(c), b.times(c)),
        alike(a.over(c), b.over(c)),
{
    reveal(mul_class);
    reveal(div_class);
}

proof fn lemma_alike_sums(a: HpValue, b: HpValue, c: HpValue, d: HpValue)
    requires
        alike(a, b),
        alike(c, d),
    ensures
        alike(a.plus(c), b.plus(d)),
{
    reveal(add_class);
}

proof fn lemma_alike_totals(
    init: HpValue,
    f: spec_fn(int) -> HpValue,
    g: spec_fn(int) -> HpValue,
    n: nat,
)
    requires
        forall|i: int| 0 <= i < n ==> alike(#[trigger] f(i), g(i)),
    ensures
        alike(accumulate(init, f, n), accumulate(init, g, n)),
    decreases n,
{
    if n > 0 {
        lemma_alike_totals(init, f, g, (n - 1) as nat);
        assert(alike(f(n - 1), g(n - 1)));
        lemma_alike_sums(
            accumulate(init, f, (n - 1) as nat),
            accumulate(init, g, (n - 1) as nat),
            f(n - 1),
            g(n - 1),
        );
    }
}

proof fn lemma_integer_changes_sign(p: nat, i: int)
    requires
        i != 0,
    ensures
        hp_int(p, -i) == hp_int(p, i).negated(),
{
    lemma_rounding_respects_sign(p, i < 0, magnitude(i), 0, false);
}

proof fn lemma_alike_is_equal(x: HpValue, y: HpValue)
    requires
        alike(x, y),
        !x.is_nan(),
    ensures
        x.eqv(y),
{
    reveal(class_order);
}

/// Whether a kernel holds all of its sines at one precision.
pub open spec fn even_precision(t: KernelView) -> bool {
    forall|i: int, j: int|
        0 <= i < t.sines.len() && 0 <= j < t.sines.len() ==> (#[trigger] t.sines[i]).prec == (
        #[trigger] t.sines[j]).prec
}

proof fn lemma_prime_terms_mirror(
    t: KernelView,
    pi: HpValue,
    l: HpValue,
    row: int,
    column: int,
    p: nat,
)
    requires
        even_precision(t),
        0 <= row < t.sines.len(),
        0 <= column < t.sines.len(),
    ensures
        alike(
            prime_term(t, pi, l, row, column, p),
            prime_term(t, pi, l, column, row, p),
        ),
{
    if row != column {
        let a = t.sines[column].minus(t.sines[row]);
        let b = t.sines[row].minus(t.sines[column]);
        law_difference_changes_sign(t.sines[column], t.sines[row]);
        let d = pi.times(hp_int(p, column - row));
        lemma_integer_changes_sign(p, column - row);
        law_product_changes_sign(pi, hp_int(p, column - row));
        assert(pi.times(hp_int(p, row - column)) == d.negated());
        lemma_alike_quotients(a, b, d);
        lemma_alike_products(a.over(d.negated()), b.over(d), t.log_prime);
        lemma_alike_products(
            a.over(d.negated()).times(t.log_prime),
            b.over(d).times(t.log_prime),
            t.sqrt_power,
        );
    }
}

/// Mirrored entries of a computed prime component agree, up to the sign of zero.
pub proof fn law_prime_entries_mirror(
    s: Seq<KernelView>,
    pi: HpValue,
    l: HpValue,
    row: int,
    column: int,
    p: nat,
)
    requires
        forall|q: int|
            0 <= q < s.len() ==> even_precision(#[trigger] s[q]) && 0 <= row < s[q].sines.len()
                && 0 <= column < s[q].sines.len(),
    ensures
        alike(prime_cell(s, pi, l, row, column, p), prime_cell(s, pi, l, column, row, p)),
{
    let f = prime_terms(s, pi, l, row, column, p);
    let g = prime_terms(s, pi, l, column, row, p);
    assert forall|q: int| 0 <= q < s.len() implies alike(#[trigger] f(q), g(q)) by {
        assert(even_precision(s[q]));
        lemma_prime_terms_mirror(s[q], pi, l, row, column, p);
    }
    lemma_alike_totals(hp_int(p, 0), f, g, s.len());
}

/// A computed prime component without NaN is exactly symmetric.
pub proof fn law_prime_component_is_symmetric(
    s: Seq<KernelView>,
    pi: HpValue,
    l: HpValue,
    n_modes: int,
    p: nat,
)
    requires
        n_modes >= 0,
        forall|q: int|
            0 <= q < s.len() ==> even_precision(#[trigger] s[q]) && s[q].sines.len() == full_size(
                n_modes,
            ),
        forall|k: int|
            0 <= k < prime_component(s, pi, l, n_modes, p).len() ==> !(
            #[trigger] prime_component(s, pi, l, n_modes, p)[k]).is_nan(),
    ensures
        symmetric(prime_component(s, pi, l, n_modes, p), full_size(n_modes)),
{
    let dim = full_size(n_modes);
    let m = prime_component(s, pi, l, n_modes, p);
    assert(dim * dim >= 0) by (nonlinear_arith);
    assert forall|i: int, j: int| 0 <= i < j < dim implies (#[trigger] m[i * dim + j]).eqv(
        #[trigger] m[j * dim + i],
    ) by {
        lemma_cell(dim, i, j);
        lemma_cell(dim, j, i);
        law_prime_entries_mirror(s, pi, l, i, j, p);
        lemma_alike_is_equal(m[i * dim + j], m[j * dim + i]);
    }
}

/// Mirrored entries of a computed archimedean component agree, up to the sign of zero.
pub proof fn law_archimedean_entries_mirror(t: IntegralsView, n: int, m: int, p: nat)
    requires
        forall|i: int| 0 <= i < t.alpha.len() ==> (#[trigger] t.alpha[i]).prec == p,
    ensures
        alike(archimedean_cell(t, n, m, p), archimedean_cell(t, m, n, p)),
{
    if n != m {
        let x = signed_entry(t.alpha, m, p);
        let y = signed_entry(t.alpha, n, p);
        assert(x.prec == p && y.prec == p);
        law_difference_changes_sign(x, y);
        lemma_integer_changes_sign(p, m - n);
        lemma_alike_quotients(x.minus(y), y.minus(x), hp_int(p, m - n));
    }
}

/// A computed archimedean component without NaN is exactly symmetric.
pub proof fn law_archimedean_component_is_symmetric(t: IntegralsView, n_modes: int, p: nat)
    requires
        n_modes >= 0,
        forall|i: int| 0 <= i < t.alpha.len() ==> (#[trigger] t.alpha[i]).prec == p,
        forall|k: int|
            0 <= k < archimedean_component(t, n_modes, p).len() ==> !(
            #[trigger] archimedean_component(t, n_modes, p)[k]).is_nan(),
    ensures
        symmetric(archimedean_component(t, n_modes, p), full_size(n_modes)),
{
    let dim = full_size(n_modes);
    let c = archimedean_component(t, n_modes, p);
    assert(dim * dim >= 0) by (nonlinear_arith);
    assert forall|i: int, j: int| 0 <= i < j < dim implies (#[trigger] c[i * dim + j]).eqv(
        #[trigger] c[j * dim + i],
    ) by {
        lemma_cell(dim, i, j);
        lemma_cell(dim, j, i);
        law_archimedean_entries_mirror(t, i - n_modes, j - n_modes, p);
        lemma_alike_is_equal(c[i * dim + j], c[j * dim + i]);
    }
}

/// A matrix that was made symmetric is exactly symmetric, where its entries are numbers.
pub proof fn law_symmetrized_is_symmetric(m: Seq<HpValue>, dim: int)
    requires
        dim >= 0,
        m.len() == dim * dim,
        forall|k: int| 0 <= k < m.len() ==> !(#[trigger] symmetrized(m, dim)[k]).is_nan(),
    ensures
        symmetric(symmetrized(m, dim), dim),
{
    let s = symmetrized(m, dim);
    assert forall|i: int, j: int| 0 <= i < j < dim implies (#[trigger] s[i * dim + j]).eqv(
        #[trigger] s[j * dim + i],
    ) by {
        lemma_cell(dim, i, j);
        lemma_cell(dim, j, i);
        assert(symmetrized_cell(m, dim, i, j) == symmetrized_cell(m, dim, j, i));
        reveal(class_order);
    }
}

/// A state that is expanded from the even sector is even.
pub proof fn law_even_expansion_is_even(v: Seq<HpValue>, n: int, p: nat, i: int)
    requires
        v.len() == n + 1,
        0 <= i <= 2 * n,
    ensures
        even_expansion(v, n, p)[i] == even_expansion(v, n, p)[2 * n - i],
{
}

/// A state that is expanded from the odd sector is odd: it vanishes in the middle, and mirrored
/// entries differ in sign alone.
pub proof fn law_odd_expansion_is_odd(v: Seq<HpValue>, n: int, p: nat, i: int)
    requires
        v.len() == n,
        0 <= i <= 2 * n,
    ensures
        i == n ==> odd_expansion(v, n, p)[i].is_zero(),
        i != n ==> odd_expansion(v, n, p)[i] == odd_expansion(v, n, p)[2 * n - i].negated(),
{
}

/// A finite even state does not deviate from its reflection.
pub proof fn law_even_state_has_no_deviation(xi: Seq<HpValue>, i: int)
    requires
        0 <= i < xi.len(),
        xi[i] == xi[xi.len() - 1 - i],
        xi[i].is_finite(),
    ensures
        reflection_squares(xi)[i].is_zero(),
{
    law_value_less_itself_is_zero(xi[i]);
    reveal(mul_class);
}

} // verus!
