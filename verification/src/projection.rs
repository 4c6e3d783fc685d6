//! What the parity sectors keep of a form: its values and the norms of states, up to explicit
//! multiples of the unit of rounding.

use crate::bounds::{
    lemma_coordinate, lemma_coordinate_product, lemma_edge_cell, lemma_edges_apart,
    lemma_four_term_mean, lemma_grows, lemma_mean_of_two, lemma_nonnegative, lemma_products_apart,
    lemma_size_of_product, root_holds,
};
use crate::matrix::{lemma_cell, lemma_flat, mirror_mean, symmetric, symmetrized, symmetrized_cell};
use crate::reals::{
    lemma_difference_is_near, lemma_negative, lemma_quotient_is_near, lemma_root_of_two,
    lemma_same_number, lemma_sum_is_near, lemma_two, lemma_unit_is_small, near, real_of, size,
    sized, small_divisor, unit,
};
use crate::rounding::{hp_word, HpValue, EXPONENT_LIMIT};
use crate::sector::{
    even_cell, even_expansion, even_projection, even_sector, odd_expansion, odd_sector, sqrt_two,
};
use crate::symmetry::law_symmetrized_is_symmetric;
use vstd::prelude::*;

verus! {

/// The sum of the first `n` values of a function.
pub open spec fn total(f: spec_fn(int) -> real, n: nat) -> real
    decreases n,
{
    if n == 0 {
        0 as real
    } else {
        total(f, (n - 1) as nat) + f(n - 1)
    }
}

/// One term of a quadratic form.
pub open spec fn form_term(m: Seq<HpValue>, v: Seq<HpValue>, dim: int, i: int, j: int) -> real {
    (real_of(v[i]) * real_of(v[j])) * real_of(m[i * dim + j])
}

/// The exact value of the quadratic form of a matrix at a vector.
pub open spec fn form_value(m: Seq<HpValue>, v: Seq<HpValue>, dim: nat) -> real {
    total(|i: int| total(|j: int| form_term(m, v, dim as int, i, j), dim), dim)
}

/// The sum of the magnitudes of the terms of a quadratic form.
pub open spec fn form_size(m: Seq<HpValue>, v: Seq<HpValue>, dim: nat) -> real {
    total(|i: int| total(|j: int| size(form_term(m, v, dim as int, i, j)), dim), dim)
}

/// The exact sum of the squares of a vector.
pub open spec fn norm_value(v: Seq<HpValue>, dim: nat) -> real {
    total(|i: int| real_of(v[i]) * real_of(v[i]), dim)
}

/// Exponents that keep clear of both ends of the range, so that nothing computed from them for a
/// sector overflows or underflows.
pub open spec fn roomy(p: nat, lo: int, hi: int) -> bool {
    &&& p >= 1
    &&& -EXPONENT_LIMIT <= lo - 5 * p - 12
    &&& hi + 18 <= EXPONENT_LIMIT
}

/// Whether every element is a finite value at precision `p` with an exponent between the bounds.
pub open spec fn all_sized(s: Seq<HpValue>, p: nat, lo: int, hi: int) -> bool {
    forall|i: int| 0 <= i < s.len() ==> sized(#[trigger] s[i], p, lo, hi)
}

proof fn lemma_same_totals(f: spec_fn(int) -> real, g: spec_fn(int) -> real, n: nat)
    requires
        forall|i: int| 0 <= i < n ==> #[trigger] f(i) == g(i),
    ensures
        total(f, n) == total(g, n),
    decreases n,
{
    if n > 0 {
        lemma_same_totals(f, g, (n - 1) as nat);
        assert(f(n - 1) == g(n - 1));
    }
}

proof fn lemma_added_totals(f: spec_fn(int) -> real, g: spec_fn(int) -> real, n: nat)
    ensures
        total(f, n) + total(g, n) == total(|i: int| f(i) + g(i), n),
    decreases n,
{
    if n > 0 {
        lemma_added_totals(f, g, (n - 1) as nat);
    }
}

proof fn lemma_near_totals(
    f: spec_fn(int) -> real,
    g: spec_fn(int) -> real,
    b: spec_fn(int) -> real,
    c: real,
    n: nat,
)
    requires
        forall|i: int| 0 <= i < n ==> size(#[trigger] f(i) - g(i)) <= c * b(i),
    ensures
        size(total(f, n) - total(g, n)) <= c * total(b, n),
    decreases n,
{
    if n > 0 {
        lemma_near_totals(f, g, b, c, (n - 1) as nat);
        assert(size(f(n - 1) - g(n - 1)) <= c * b(n - 1));
        let x = total(b, (n - 1) as nat);
        let y = b(n - 1);
        assert(c * (x + y) == c * x + c * y) by (nonlinear_arith);
    } else {
        assert(c * (0 as real) == 0 as real) by (nonlinear_arith);
    }
}

proof fn lemma_first_term(f: spec_fn(int) -> real, n: nat)
    ensures
        total(f, n + 1) == f(0) + total(|i: int| f(i + 1), n),
    decreases n,
{
    if n > 0 {
        lemma_first_term(f, (n - 1) as nat);
    } else {
        assert(total(f, 0) == 0 as real);
        assert(total(|i: int| f(i + 1), 0) == 0 as real);
    }
}

/// The values of a function on both sides of a middle, added; the middle itself once.
pub open spec fn mirrored(f: spec_fn(int) -> real, n: int, k: int) -> real {
    if k == 0 {
        f(n)
    } else {
        f(n - k) + f(n + k)
    }
}

proof fn lemma_mirrored_span(f: spec_fn(int) -> real, n: int, m: nat)
    ensures
        total(|i: int| f(n - m + i), 2 * m + 1) == total(|k: int| mirrored(f, n, k), m + 1),
    decreases m,
{
    let g = |i: int| f(n - m + i);
    if m == 0 {
        assert(total(g, 0) == 0 as real);
        assert(total(g, 1) == f(n));
        let h = |k: int| mirrored(f, n, k);
        assert(total(h, 0) == 0 as real);
        assert(total(h, 1) == h(0));
    } else {
        let q = (m - 1) as nat;
        lemma_mirrored_span(f, n, q);
        // Take the last and the first term off.
        assert(total(g, 2 * m + 1) == total(g, 2 * m) + g(2 * m as int));
        lemma_first_term(g, (2 * m - 1) as nat);
        let inner = |i: int| g(i + 1);
        lemma_same_totals(inner, |i: int| f(n - q + i), (2 * q + 1) as nat);
        assert(2 * m - 1 == 2 * q + 1);
        let h = |k: int| mirrored(f, n, k);
        assert(total(h, m + 1) == total(h, m) + h(m as int));
        assert(total(h, (q + 1) as nat) == total(h, m));
    }
}

/// A sum over all indices is a sum over modes, each with its mirror image.
proof fn lemma_folded(f: spec_fn(int) -> real, n: nat)
    ensures
        total(f, 2 * n + 1) == total(|k: int| mirrored(f, n as int, k), n + 1),
{
    lemma_mirrored_span(f, n as int, n);
    lemma_same_totals(f, |i: int| f(n - n + i), 2 * n + 1);
}

/// A function of two indices, mirrored in both.
pub open spec fn block(h: spec_fn(int, int) -> real, n: int, k: int, l: int) -> real {
    mirrored(|i: int| mirrored(|j: int| h(i, j), n, l), n, k)
}

/// A double sum over all indices is a double sum over modes.
proof fn lemma_folded_twice(h: spec_fn(int, int) -> real, n: nat)
    ensures
        total(|i: int| total(|j: int| h(i, j), 2 * n + 1), 2 * n + 1) == total(
            |k: int| total(|l: int| block(h, n as int, k, l), n + 1),
            n + 1,
        ),
{
    let m = n as int;
    let rows = |i: int| total(|j: int| h(i, j), 2 * n + 1);
    let folded = |i: int| total(|l: int| mirrored(|j: int| h(i, j), m, l), n + 1);
    assert forall|i: int| 0 <= i < 2 * n + 1 implies #[trigger] rows(i) == folded(i) by {
        lemma_folded(|j: int| h(i, j), n);
    }
    lemma_same_totals(rows, folded, 2 * n + 1);
    lemma_folded(folded, n);
    let left = |k: int| mirrored(folded, m, k);
    let right = |k: int| total(|l: int| block(h, m, k, l), n + 1);
    assert forall|k: int| 0 <= k < n + 1 implies #[trigger] left(k) == right(k) by {
        let cells = |l: int| block(h, m, k, l);
        if k == 0 {
            lemma_same_totals(|l: int| mirrored(|j: int| h(m, j), m, l), cells, n + 1);
        } else {
            let a = |l: int| mirrored(|j: int| h(m - k, j), m, l);
            let b = |l: int| mirrored(|j: int| h(m + k, j), m, l);
            lemma_added_totals(a, b, n + 1);
            lemma_same_totals(|l: int| a(l) + b(l), cells, n + 1);
        }
    }
    lemma_same_totals(left, right, n + 1);
}

proof fn lemma_near_double(
    f: spec_fn(int, int) -> real,
    g: spec_fn(int, int) -> real,
    b: spec_fn(int, int) -> real,
    c: real,
    n: nat,
)
    requires
        forall|k: int, l: int|
            0 <= k < n && 0 <= l < n ==> size(#[trigger] f(k, l) - g(k, l)) <= c * b(k, l),
    ensures
        size(
            total(|k: int| total(|l: int| f(k, l), n), n) - total(
                |k: int| total(|l: int| g(k, l), n),
                n,
            ),
        ) <= c * total(|k: int| total(|l: int| b(k, l), n), n),
{
    let rf = |k: int| total(|l: int| f(k, l), n);
    let rg = |k: int| total(|l: int| g(k, l), n);
    let rb = |k: int| total(|l: int| b(k, l), n);
    assert forall|k: int| 0 <= k < n implies size(#[trigger] rf(k) - rg(k)) <= c * rb(k) by {
        let tf = |l: int| f(k, l);
        let tg = |l: int| g(k, l);
        let tb = |l: int| b(k, l);
        assert forall|l: int| 0 <= l < n implies size(#[trigger] tf(l) - tg(l)) <= c * tb(l) by {
            assert(size(f(k, l) - g(k, l)) <= c * b(k, l));
        }
        lemma_near_totals(tf, tg, tb, c, n);
    }
    lemma_near_totals(rf, rg, rb, c, n);
}

/// The exact sum of four numbers.
pub open spec fn sum_of_four(a: HpValue, b: HpValue, c: HpValue, e: HpValue) -> real {
    real_of(a) + real_of(b) + real_of(c) + real_of(e)
}

/// The sum of the magnitudes of four numbers.
pub open spec fn size_of_four(a: HpValue, b: HpValue, c: HpValue, e: HpValue) -> real {
    size(real_of(a)) + size(real_of(b)) + size(real_of(c)) + size(real_of(e))
}

proof fn lemma_mean_of_four(
    a: HpValue,
    b: HpValue,
    c: HpValue,
    e: HpValue,
    p: nat,
    lo: int,
    hi: int,
)
    requires
        roomy(p, lo, hi),
        sized(a, p, lo, hi),
        sized(b, p, lo, hi),
        sized(c, p, lo, hi),
        sized(e, p, lo, hi),
    ensures
        ({
            let t = a.plus(b).plus(c).plus(e).over(hp_word(2));
            &&& sized(t, p, lo - 4 * p - 4, hi + 10)
            &&& size(2 as real * real_of(t) - sum_of_four(a, b, c, e)) <= 9 as real * (unit(p)
                * size_of_four(a, b, c, e))
        }),
{
    lemma_unit_is_small(p);
    lemma_two(64);
    lemma_sum_is_near(a, b, p, lo, hi);
    let s1 = a.plus(b);
    lemma_sum_is_near(s1, c, p, lo - p, hi + 2);
    let s2 = s1.plus(c);
    lemma_sum_is_near(s2, e, p, lo - 2 * p, hi + 4);
    let s3 = s2.plus(e);
    lemma_quotient_is_near(s3, hp_word(2), p, lo - 3 * p, hi + 6);
    let t = s3.over(hp_word(2));
    let u = unit(p);
    let v = size_of_four(a, b, c, e);
    lemma_four_term_mean(
        real_of(a),
        real_of(b),
        real_of(c),
        real_of(e),
        real_of(s1),
        real_of(s2),
        real_of(s3),
        real_of(t),
        u,
        v,
        u * v,
    );
}

proof fn lemma_mirror_mean(
    c1: HpValue,
    c2: HpValue,
    p: nat,
    lo: int,
    hi: int,
    w: real,
    v: real,
)
    requires
        roomy(p, lo, hi),
        sized(c1, p, lo - 4 * p - 4, hi + 10),
        sized(c2, p, lo - 4 * p - 4, hi + 10),
        size(w) <= v,
        size(2 as real * real_of(c1) - w) <= 9 as real * (unit(p) * v),
        size(2 as real * real_of(c2) - w) <= 9 as real * (unit(p) * v),
    ensures
        mirror_mean(c1, c2).is_finite(),
        size(2 as real * real_of(mirror_mean(c1, c2)) - w) <= 23 as real * (unit(p) * v),
{
    lemma_unit_is_small(p);
    lemma_two(64);
    lemma_sum_is_near(c1, c2, p, lo - 4 * p - 4, hi + 10);
    let t = c1.plus(c2);
    lemma_quotient_is_near(t, hp_word(2), p, lo - 5 * p - 4, hi + 12);
    let u = unit(p);
    lemma_nonnegative(u, v);
    lemma_mean_of_two(
        real_of(c1),
        real_of(c2),
        real_of(t),
        real_of(mirror_mean(c1, c2)),
        w,
        u,
        v,
        u * v,
        9 as real,
    );
}

/// The exact sum of the four entries that an even mode pair stands for.
pub open spec fn even_sum(tau: Seq<HpValue>, n: int, k: int, l: int) -> real {
    let f = 2 * n + 1;
    sum_of_four(
        tau[(n - k) * f + (n - l)],
        tau[(n - k) * f + (n + l)],
        tau[(n + k) * f + (n - l)],
        tau[(n + k) * f + (n + l)],
    )
}

/// The sum of the magnitudes of the four entries that a mode pair stands for.
pub open spec fn pair_size(tau: Seq<HpValue>, n: int, k: int, l: int) -> real {
    let f = 2 * n + 1;
    size_of_four(
        tau[(n - k) * f + (n - l)],
        tau[(n - k) * f + (n + l)],
        tau[(n + k) * f + (n - l)],
        tau[(n + k) * f + (n + l)],
    )
}

proof fn lemma_entry(tau: Seq<HpValue>, dim: int, p: nat, lo: int, hi: int, i: int, j: int)
    requires
        symmetric(tau, dim),
        all_sized(tau, p, lo, hi),
        0 <= i < dim,
        0 <= j < dim,
    ensures
        0 <= i * dim + j < tau.len(),
        sized(tau[i * dim + j], p, lo, hi),
        real_of(tau[i * dim + j]) == real_of(tau[j * dim + i]),
{
    lemma_cell(dim, i, j);
    lemma_cell(dim, j, i);
    assert(sized(tau[i * dim + j], p, lo, hi));
    assert(sized(tau[j * dim + i], p, lo, hi));
    if i < j {
        assert(tau[i * dim + j].eqv(tau[j * dim + i]));
        lemma_same_number(tau[i * dim + j], tau[j * dim + i]);
    } else if j < i {
        assert(tau[j * dim + i].eqv(tau[i * dim + j]));
        lemma_same_number(tau[j * dim + i], tau[i * dim + j]);
    }
}

proof fn lemma_even_pair_cell(
    tau: Seq<HpValue>,
    n: int,
    p: nat,
    lo: int,
    hi: int,
    k: int,
    l: int,
)
    requires
        roomy(p, lo, hi),
        symmetric(tau, 2 * n + 1),
        all_sized(tau, p, lo, hi),
        1 <= k <= n,
        1 <= l <= n,
    ensures
        sized(even_cell(tau, n, p, k, l), p, lo - 4 * p - 4, hi + 10),
        size(2 as real * real_of(even_cell(tau, n, p, k, l)) - even_sum(tau, n, k, l)) <= 9 as real
            * (unit(p) * pair_size(tau, n, k, l)),
        even_sum(tau, n, k, l) == even_sum(tau, n, l, k),
        pair_size(tau, n, k, l) == pair_size(tau, n, l, k),
        size(even_sum(tau, n, k, l)) <= pair_size(tau, n, k, l),
{
    let f = 2 * n + 1;
    lemma_entry(tau, f, p, lo, hi, n - k, n - l);
    lemma_entry(tau, f, p, lo, hi, n - k, n + l);
    lemma_entry(tau, f, p, lo, hi, n + k, n - l);
    lemma_entry(tau, f, p, lo, hi, n + k, n + l);
    lemma_mean_of_four(
        tau[(n - k) * f + (n - l)],
        tau[(n - k) * f + (n + l)],
        tau[(n + k) * f + (n - l)],
        tau[(n + k) * f + (n + l)],
        p,
        lo,
        hi,
    );
}

proof fn lemma_even_entry(tau: Seq<HpValue>, n: int, p: nat, k: int, l: int)
    requires
        0 <= k <= n,
        0 <= l <= n,
    ensures
        even_sector(tau, n, p)[k * (n + 1) + l] == (if k == l {
            even_cell(tau, n, p, k, l)
        } else if k < l {
            mirror_mean(even_cell(tau, n, p, k, l), even_cell(tau, n, p, l, k))
        } else {
            mirror_mean(even_cell(tau, n, p, l, k), even_cell(tau, n, p, k, l))
        }),
{
    let dim = n + 1;
    lemma_cell(dim, k, l);
    lemma_cell(dim, l, k);
    let m = even_projection(tau, n, p);
    assert(m[k * dim + l] == even_cell(tau, n, p, k, l));
    assert(m[l * dim + k] == even_cell(tau, n, p, l, k));
    assert(symmetrized(m, dim)[k * dim + l] == symmetrized_cell(m, dim, k, l));
}

/// An entry of the even sector, twice, lies within a bound of the sum of the four entries of the
/// full form that it stands for.
pub proof fn law_even_entries_are_projected(
    tau: Seq<HpValue>,
    n: int,
    p: nat,
    lo: int,
    hi: int,
    k: int,
    l: int,
)
    requires
        roomy(p, lo, hi),
        symmetric(tau, 2 * n + 1),
        all_sized(tau, p, lo, hi),
        1 <= k <= n,
        1 <= l <= n,
    ensures
        even_sector(tau, n, p)[k * (n + 1) + l].is_finite(),
        size(
            2 as real * real_of(even_sector(tau, n, p)[k * (n + 1) + l]) - even_sum(tau, n, k, l),
        ) <= 23 as real * (unit(p) * pair_size(tau, n, k, l)),
        size(even_sum(tau, n, k, l)) <= pair_size(tau, n, k, l),
{
    lemma_even_entry(tau, n, p, k, l);
    lemma_even_pair_cell(tau, n, p, lo, hi, k, l);
    lemma_even_pair_cell(tau, n, p, lo, hi, l, k);
    let w = even_sum(tau, n, k, l);
    let v = pair_size(tau, n, k, l);
    if k == l {
        lemma_unit_is_small(p);
        lemma_nonnegative(unit(p), v);
    } else if k < l {
        lemma_mirror_mean(
            even_cell(tau, n, p, k, l),
            even_cell(tau, n, p, l, k),
            p,
            lo,
            hi,
            w,
            v,
        );
    } else {
        lemma_mirror_mean(
            even_cell(tau, n, p, l, k),
            even_cell(tau, n, p, k, l),
            p,
            lo,
            hi,
            w,
            v,
        );
    }
}

/// An entry of the even sector beside its corner, times the computed root of two, lies within a
/// bound of the sum of the two entries of the full form that it stands for; the corner itself is
/// the middle entry of the full form.
pub proof fn law_even_edges_are_projected(
    tau: Seq<HpValue>,
    n: int,
    p: nat,
    lo: int,
    hi: int,
    l: int,
)
    requires
        roomy(p, lo, hi),
        symmetric(tau, 2 * n + 1),
        all_sized(tau, p, lo, hi),
        1 <= l <= n,
    ensures
        ({
            let a = real_of(tau[n * (2 * n + 1) + (n - l)]);
            let b = real_of(tau[n * (2 * n + 1) + (n + l)]);
            let s = even_sector(tau, n, p);
            let bound = 9 as real * (unit(p) * (size(a) + size(b)));
            &&& s[0 * (n + 1) + 0] == tau[n * (2 * n + 1) + n]
            &&& s[l * (n + 1) + 0] == s[0 * (n + 1) + l]
            &&& s[0 * (n + 1) + l].is_finite()
            &&& size(real_of(s[0 * (n + 1) + l]) * real_of(sqrt_two(p)) - (a + b)) <= bound
        }),
{
    let f = 2 * n + 1;
    lemma_even_entry(tau, n, p, 0, 0);
    lemma_even_entry(tau, n, p, 0, l);
    lemma_even_entry(tau, n, p, l, 0);
    lemma_entry(tau, f, p, lo, hi, n, n - l);
    lemma_entry(tau, f, p, lo, hi, n, n + l);
    lemma_unit_is_small(p);
    lemma_two(64);
    lemma_root_of_two(p);
    let root = sqrt_two(p);
    let a = tau[n * f + (n - l)];
    let b = tau[n * f + (n + l)];
    lemma_sum_is_near(a, b, p, lo, hi);
    let s = a.plus(b);
    lemma_quotient_is_near(s, root, p, lo - p, hi + 2);
    let c = s.over(root);
    lemma_sum_is_near(c, c, p, lo - 2 * p - 4, hi + 6);
    let t = c.plus(c);
    lemma_quotient_is_near(t, hp_word(2), p, lo - 3 * p - 4, hi + 8);
    let m = t.over(hp_word(2));
    assert(c == even_cell(tau, n, p, 0, l));
    assert(c == even_cell(tau, n, p, l, 0));
    lemma_edge_cell(
        real_of(a),
        real_of(b),
        real_of(s),
        real_of(c),
        real_of(t),
        real_of(m),
        real_of(root),
        unit(p),
    );
}

proof fn lemma_root_holds(p: nat)
    requires
        p >= 1,
    ensures
        root_holds(real_of(sqrt_two(p)), unit(p)),
        small_divisor(sqrt_two(p)),
{
    lemma_unit_is_small(p);
    lemma_root_of_two(p);
}

/// An expanded coordinate times the computed root of two lies within the unit of rounding of the
/// coordinate.
proof fn lemma_even_coordinate(y: Seq<HpValue>, n: int, p: nat, lo: int, hi: int, k: int)
    requires
        roomy(p, lo, hi),
        all_sized(y, p, lo, hi),
        y.len() == n + 1,
        1 <= k <= n,
    ensures
        ({
            let x = even_expansion(y, n, p);
            &&& x[n - k] == x[n + k]
            &&& x[n] == y[0]
            &&& near(real_of(x[n + k]) * real_of(sqrt_two(p)), real_of(y[k]), unit(p))
        }),
{
    lemma_root_holds(p);
    assert(sized(y[k], p, lo, hi));
    lemma_quotient_is_near(y[k], sqrt_two(p), p, lo, hi);
}

proof fn lemma_taken_out_of_two(q: real, a: real, b: real)
    ensures
        q * a + q * b == q * (a + b),
        size(q * a) + size(q * b) == size(q) * (size(a) + size(b)),
{
    assert(q * (a + b) == q * a + q * b) by (nonlinear_arith);
    lemma_size_of_product(q, a);
    lemma_size_of_product(q, b);
    let z = size(q);
    let c = size(a);
    let d = size(b);
    assert(z * (c + d) == z * c + z * d) by (nonlinear_arith);
}

proof fn lemma_taken_out_of_four(q: real, a: real, b: real, c: real, e: real)
    ensures
        (q * a + q * b) + (q * c + q * e) == q * (a + b + c + e),
        (size(q * a) + size(q * b)) + (size(q * c) + size(q * e)) == size(q) * (size(a) + size(b)
            + size(c) + size(e)),
{
    lemma_taken_out_of_two(q, a, b);
    lemma_taken_out_of_two(q, c, e);
    let s = a + b;
    let t = c + e;
    assert(q * (s + t) == q * s + q * t) by (nonlinear_arith);
    let z = size(q);
    let v = size(a) + size(b);
    let w = size(c) + size(e);
    assert(z * (v + w) == z * v + z * w) by (nonlinear_arith);
}

/// The terms of the full form at a state, as a function of the indices.
spec fn terms(tau: Seq<HpValue>, x: Seq<HpValue>, f: int) -> spec_fn(int, int) -> real {
    |i: int, j: int| form_term(tau, x, f, i, j)
}

/// The magnitudes of those terms.
spec fn term_sizes(tau: Seq<HpValue>, x: Seq<HpValue>, f: int) -> spec_fn(int, int) -> real {
    |i: int, j: int| size(form_term(tau, x, f, i, j))
}

proof fn lemma_regrouped(u: real, f: real)
    ensures
        256 as real * (u * f) == (256 as real * u) * f,
{
    assert(256 as real * (u * f) == (256 as real * u) * f) by (nonlinear_arith);
}

proof fn lemma_even_pair_block(
    tau: Seq<HpValue>,
    x: Seq<HpValue>,
    n: int,
    k: int,
    l: int,
    q: real,
)
    requires
        1 <= k <= n,
        1 <= l <= n,
        x[n - k] == x[n + k],
        x[n - l] == x[n + l],
        q == real_of(x[n + k]) * real_of(x[n + l]),
    ensures
        block(terms(tau, x, 2 * n + 1), n, k, l) == q * even_sum(tau, n, k, l),
        block(term_sizes(tau, x, 2 * n + 1), n, k, l) == size(q) * pair_size(tau, n, k, l),
{
    let f = 2 * n + 1;
    lemma_taken_out_of_four(
        q,
        real_of(tau[(n - k) * f + (n - l)]),
        real_of(tau[(n - k) * f + (n + l)]),
        real_of(tau[(n + k) * f + (n - l)]),
        real_of(tau[(n + k) * f + (n + l)]),
    );
}

proof fn lemma_even_pair_term(
    tau: Seq<HpValue>,
    y: Seq<HpValue>,
    n: int,
    p: nat,
    lo: int,
    hi: int,
    k: int,
    l: int,
)
    requires
        roomy(p, lo, hi),
        symmetric(tau, 2 * n + 1),
        all_sized(tau, p, lo, hi),
        all_sized(y, p, lo, hi),
        y.len() == n + 1,
        1 <= k <= n,
        1 <= l <= n,
    ensures
        ({
            let x = even_expansion(y, n, p);
            size(
                form_term(even_sector(tau, n, p), y, n + 1, k, l) - block(
                    terms(tau, x, 2 * n + 1),
                    n,
                    k,
                    l,
                ),
            ) <= (256 as real * unit(p)) * block(term_sizes(tau, x, 2 * n + 1), n, k, l)
        }),
{
    let x = even_expansion(y, n, p);
    let u = unit(p);
    lemma_root_holds(p);
    lemma_even_coordinate(y, n, p, lo, hi, k);
    lemma_even_coordinate(y, n, p, lo, hi, l);
    law_even_entries_are_projected(tau, n, p, lo, hi, k, l);
    let xk = real_of(x[n + k]);
    let xl = real_of(x[n + l]);
    let yk = real_of(y[k]);
    let yl = real_of(y[l]);
    let q = xk * xl;
    lemma_coordinate_product(xk, yk, xl, yl, real_of(sqrt_two(p)), u);
    lemma_products_apart(
        yk * yl,
        q,
        size(q),
        even_sum(tau, n, k, l),
        real_of(even_sector(tau, n, p)[k * (n + 1) + l]),
        u,
        pair_size(tau, n, k, l),
    );
    lemma_even_pair_block(tau, x, n, k, l, q);
    lemma_regrouped(u, size(q) * pair_size(tau, n, k, l));
}

proof fn lemma_even_edge_term(
    tau: Seq<HpValue>,
    y: Seq<HpValue>,
    n: int,
    p: nat,
    lo: int,
    hi: int,
    l: int,
)
    requires
        roomy(p, lo, hi),
        symmetric(tau, 2 * n + 1),
        all_sized(tau, p, lo, hi),
        all_sized(y, p, lo, hi),
        y.len() == n + 1,
        1 <= l <= n,
    ensures
        ({
            let x = even_expansion(y, n, p);
            let h = terms(tau, x, 2 * n + 1);
            let b = term_sizes(tau, x, 2 * n + 1);
            let s = even_sector(tau, n, p);
            let c = 256 as real * unit(p);
            &&& size(form_term(s, y, n + 1, 0, l) - block(h, n, 0, l)) <= c * block(b, n, 0, l)
            &&& size(form_term(s, y, n + 1, l, 0) - block(h, n, l, 0)) <= c * block(b, n, l, 0)
        }),
{
    let x = even_expansion(y, n, p);
    let f = 2 * n + 1;
    let u = unit(p);
    lemma_root_holds(p);
    lemma_even_coordinate(y, n, p, lo, hi, l);
    law_even_edges_are_projected(tau, n, p, lo, hi, l);
    lemma_entry(tau, f, p, lo, hi, n, n - l);
    lemma_entry(tau, f, p, lo, hi, n, n + l);
    let a = real_of(tau[n * f + (n - l)]);
    let b = real_of(tau[n * f + (n + l)]);
    let y0 = real_of(y[0]);
    let xl = real_of(x[n + l]);
    let yl = real_of(y[l]);
    let r = real_of(sqrt_two(p));
    let cell = real_of(even_sector(tau, n, p)[0 * (n + 1) + l]);
    lemma_coordinate(xl, yl, r, u);
    lemma_edges_apart(y0, xl, yl, r, u, cell, a + b, size(a) + size(b));
    lemma_taken_out_of_two(y0 * xl, a, b);
    lemma_regrouped(u, size(y0 * xl) * (size(a) + size(b)));
    assert(yl * y0 == y0 * yl) by (nonlinear_arith);
    assert(xl * y0 == y0 * xl) by (nonlinear_arith);
}

proof fn lemma_even_corner_term(
    tau: Seq<HpValue>,
    y: Seq<HpValue>,
    n: int,
    p: nat,
)
    requires
        p >= 1,
        n >= 0,
        y.len() == n + 1,
    ensures
        ({
            let x = even_expansion(y, n, p);
            size(
                form_term(even_sector(tau, n, p), y, n + 1, 0, 0) - block(
                    terms(tau, x, 2 * n + 1),
                    n,
                    0,
                    0,
                ),
            ) <= (256 as real * unit(p)) * block(term_sizes(tau, x, 2 * n + 1), n, 0, 0)
        }),
{
    let x = even_expansion(y, n, p);
    lemma_even_entry(tau, n, p, 0, 0);
    lemma_unit_is_small(p);
    lemma_nonnegative(256 as real * unit(p), size(form_term(tau, x, 2 * n + 1, n, n)));
}

/// The even sector keeps the quadratic form: at a vector of the sector it has the value that the
/// full form has at the expanded state, up to 256 units of rounding of the magnitudes of the terms.
pub proof fn law_even_sector_keeps_the_form(
    tau: Seq<HpValue>,
    y: Seq<HpValue>,
    n: nat,
    p: nat,
    lo: int,
    hi: int,
)
    requires
        roomy(p, lo, hi),
        symmetric(tau, 2 * n as int + 1),
        all_sized(tau, p, lo, hi),
        all_sized(y, p, lo, hi),
        y.len() == n + 1,
    ensures
        ({
            let x = even_expansion(y, n as int, p);
            size(
                form_value(even_sector(tau, n as int, p), y, n + 1) - form_value(
                    tau,
                    x,
                    2 * n + 1,
                ),
            ) <= (256 as real * unit(p)) * form_size(tau, x, 2 * n + 1)
        }),
{
    let m = n as int;
    let full = 2 * m + 1;
    let x = even_expansion(y, m, p);
    let s = even_sector(tau, m, p);
    let c = 256 as real * unit(p);
    let h = terms(tau, x, full);
    let b = term_sizes(tau, x, full);
    let f = |k: int, l: int| form_term(s, y, m + 1, k, l);
    let g = |k: int, l: int| block(h, m, k, l);
    let z = |k: int, l: int| block(b, m, k, l);
    assert forall|k: int, l: int| 0 <= k < n + 1 && 0 <= l < n + 1 implies size(
        #[trigger] f(k, l) - g(k, l),
    ) <= c * z(k, l) by {
        if k == 0 && l == 0 {
            lemma_even_corner_term(tau, y, m, p);
        } else if k == 0 {
            lemma_even_edge_term(tau, y, m, p, lo, hi, l);
        } else if l == 0 {
            lemma_even_edge_term(tau, y, m, p, lo, hi, k);
        } else {
            lemma_even_pair_term(tau, y, m, p, lo, hi, k, l);
        }
    }
    lemma_near_double(f, g, z, c, n + 1);
    lemma_folded_twice(h, n);
    lemma_folded_twice(b, n);
    lemma_read_as(s, y, n + 1, f);
    lemma_read_as(tau, x, 2 * n + 1, h);
    lemma_sizes_read_as(tau, x, 2 * n + 1, b);
    lemma_rows_agree(h, m, n + 1, g);
    lemma_rows_agree(b, m, n + 1, z);
}

proof fn lemma_read_as(m: Seq<HpValue>, v: Seq<HpValue>, dim: nat, f: spec_fn(int, int) -> real)
    requires
        forall|i: int, j: int| #[trigger] f(i, j) == form_term(m, v, dim as int, i, j),
    ensures
        form_value(m, v, dim) == total(|i: int| total(|j: int| f(i, j), dim), dim),
{
    let a = |i: int| total(|j: int| form_term(m, v, dim as int, i, j), dim);
    let b = |i: int| total(|j: int| f(i, j), dim);
    assert forall|i: int| 0 <= i < dim implies #[trigger] a(i) == b(i) by {
        lemma_same_totals(
            |j: int| form_term(m, v, dim as int, i, j),
            |j: int| f(i, j),
            dim,
        );
    }
    lemma_same_totals(a, b, dim);
}

proof fn lemma_sizes_read_as(
    m: Seq<HpValue>,
    v: Seq<HpValue>,
    dim: nat,
    f: spec_fn(int, int) -> real,
)
    requires
        forall|i: int, j: int| #[trigger] f(i, j) == size(form_term(m, v, dim as int, i, j)),
    ensures
        form_size(m, v, dim) == total(|i: int| total(|j: int| f(i, j), dim), dim),
{
    let a = |i: int| total(|j: int| size(form_term(m, v, dim as int, i, j)), dim);
    let b = |i: int| total(|j: int| f(i, j), dim);
    assert forall|i: int| 0 <= i < dim implies #[trigger] a(i) == b(i) by {
        lemma_same_totals(
            |j: int| size(form_term(m, v, dim as int, i, j)),
            |j: int| f(i, j),
            dim,
        );
    }
    lemma_same_totals(a, b, dim);
}

proof fn lemma_rows_agree(
    h: spec_fn(int, int) -> real,
    m: int,
    n: nat,
    g: spec_fn(int, int) -> real,
)
    requires
        forall|k: int, l: int| #[trigger] g(k, l) == block(h, m, k, l),
    ensures
        total(|k: int| total(|l: int| block(h, m, k, l), n), n) == total(
            |k: int| total(|l: int| g(k, l), n),
            n,
        ),
{
    let a = |k: int| total(|l: int| block(h, m, k, l), n);
    let b = |k: int| total(|l: int| g(k, l), n);
    assert forall|k: int| 0 <= k < n implies #[trigger] a(k) == b(k) by {
        lemma_same_totals(|l: int| block(h, m, k, l), |l: int| g(k, l), n);
    }
    lemma_same_totals(a, b, n);
}

/// Expanding a vector of the even sector keeps its norm, up to 25 units of rounding.
pub proof fn law_even_expansion_keeps_the_norm(
    y: Seq<HpValue>,
    n: nat,
    p: nat,
    lo: int,
    hi: int,
)
    requires
        roomy(p, lo, hi),
        all_sized(y, p, lo, hi),
        y.len() == n + 1,
    ensures
        ({
            let x = even_expansion(y, n as int, p);
            size(norm_value(y, n + 1) - norm_value(x, 2 * n + 1)) <= (25 as real * unit(p))
                * norm_value(x, 2 * n + 1)
        }),
{
    let m = n as int;
    let x = even_expansion(y, m, p);
    let c = 25 as real * unit(p);
    let f = |k: int| real_of(y[k]) * real_of(y[k]);
    let h = |i: int| real_of(x[i]) * real_of(x[i]);
    let g = |k: int| mirrored(h, m, k);
    assert forall|k: int| 0 <= k < n + 1 implies size(#[trigger] f(k) - g(k)) <= c * g(k) by {
        lemma_even_square(y, m, p, lo, hi, k);
    }
    lemma_near_totals(f, g, g, c, n + 1);
    lemma_folded(h, n);
}

proof fn lemma_even_square(y: Seq<HpValue>, n: int, p: nat, lo: int, hi: int, k: int)
    requires
        roomy(p, lo, hi),
        all_sized(y, p, lo, hi),
        y.len() == n + 1,
        0 <= k <= n,
    ensures
        ({
            let x = even_expansion(y, n, p);
            let s = mirrored(|i: int| real_of(x[i]) * real_of(x[i]), n, k);
            size(real_of(y[k]) * real_of(y[k]) - s) <= (25 as real * unit(p)) * s
        }),
{
    let x = even_expansion(y, n, p);
    let u = unit(p);
    lemma_unit_is_small(p);
    if k == 0 {
        let a = real_of(y[0]);
        lemma_size_of_product(a, a);
        lemma_nonnegative(size(a), size(a));
        lemma_nonnegative(25 as real * u, size(a * a));
        assert(a * a >= 0 as real) by (nonlinear_arith);
    } else {
        lemma_root_holds(p);
        lemma_even_coordinate(y, n, p, lo, hi, k);
        let a = real_of(x[n + k]);
        let b = real_of(y[k]);
        lemma_coordinate_product(a, b, a, b, real_of(sqrt_two(p)), u);
        assert(a * a >= 0 as real) by (nonlinear_arith);
        let q = a * a;
        assert((25 as real * u) * (q + q) == 50 as real * (u * q)) by (nonlinear_arith);
    }
}

/// Whether every entry equals its image under a reflection of both indices.
pub open spec fn centrosymmetric(tau: Seq<HpValue>, dim: int) -> bool {
    &&& tau.len() == dim * dim
    &&& forall|i: int, j: int|
        0 <= i < dim && 0 <= j < dim ==> (#[trigger] tau[i * dim + j]).eqv(
            tau[(dim - 1 - i) * dim + (dim - 1 - j)],
        )
}

/// The exact four-term projection onto a pair of odd modes, twice.
pub open spec fn odd_sum(tau: Seq<HpValue>, n: int, k: int, l: int) -> real {
    let f = 2 * n + 1;
    real_of(tau[(n - k) * f + (n - l)]) - real_of(tau[(n - k) * f + (n + l)]) - real_of(
        tau[(n + k) * f + (n - l)],
    ) + real_of(tau[(n + k) * f + (n + l)])
}

proof fn lemma_reflected_entry(
    tau: Seq<HpValue>,
    n: int,
    p: nat,
    lo: int,
    hi: int,
    a: int,
    b: int,
)
    requires
        centrosymmetric(tau, 2 * n + 1),
        all_sized(tau, p, lo, hi),
        -n <= a <= n,
        -n <= b <= n,
    ensures
        ({
            let f = 2 * n + 1;
            &&& 0 <= (n + a) * f + (n + b) < tau.len()
            &&& sized(tau[(n + a) * f + (n + b)], p, lo, hi)
            &&& real_of(tau[(n + a) * f + (n + b)]) == real_of(tau[(n - a) * f + (n - b)])
        }),
{
    let f = 2 * n + 1;
    lemma_cell(f, n + a, n + b);
    lemma_cell(f, n - a, n - b);
    assert(f - 1 - (n + a) == n - a);
    assert(f - 1 - (n + b) == n - b);
    assert(tau[(n + a) * f + (n + b)].eqv(tau[(n - a) * f + (n - b)]));
    assert(sized(tau[(n + a) * f + (n + b)], p, lo, hi));
    assert(sized(tau[(n - a) * f + (n - b)], p, lo, hi));
    lemma_same_number(tau[(n + a) * f + (n + b)], tau[(n - a) * f + (n - b)]);
}

/// For a centrosymmetric form the reduced difference of two entries is exactly the four-term
/// orthogonal projection, and the entry of the odd sector is that number, rounded once.
pub proof fn law_odd_entries_are_projected(
    tau: Seq<HpValue>,
    n: int,
    p: nat,
    lo: int,
    hi: int,
    k: int,
    l: int,
)
    requires
        roomy(p, lo, hi),
        centrosymmetric(tau, 2 * n + 1),
        all_sized(tau, p, lo, hi),
        1 <= k <= n,
        1 <= l <= n,
    ensures
        ({
            let f = 2 * n + 1;
            let plus = tau[(n + k) * f + (n + l)];
            let minus = tau[(n + k) * f + (n - l)];
            let cell = odd_sector(tau, n)[(k - 1) * n + (l - 1)];
            &&& odd_sum(tau, n, k, l) == 2 as real * (real_of(plus) - real_of(minus))
            &&& cell == plus.minus(minus)
            &&& near(2 as real * real_of(cell), odd_sum(tau, n, k, l), unit(p))
            &&& size(odd_sum(tau, n, k, l)) <= pair_size(tau, n, k, l)
        }),
{
    let f = 2 * n + 1;
    lemma_reflected_entry(tau, n, p, lo, hi, k, l);
    lemma_reflected_entry(tau, n, p, lo, hi, k, -l);
    lemma_cell(n, k - 1, l - 1);
    let plus = tau[(n + k) * f + (n + l)];
    let minus = tau[(n + k) * f + (n - l)];
    assert((n + k) * f + (n + -l) == (n + k) * f + (n - l));
    assert((n - k) * f + (n - -l) == (n - k) * f + (n + l));
    lemma_difference_is_near(plus, minus, p, lo, hi);
    let d = real_of(plus) - real_of(minus);
    let c = real_of(plus.minus(minus));
    let u = unit(p);
    let t = size(d);
    assert(u * (2 as real * t) == 2 as real * (u * t)) by (nonlinear_arith);
    assert(size(2 as real * d) == 2 as real * t);
    assert(2 as real * c - 2 as real * d == 2 as real * (c - d));
}

proof fn lemma_odd_coordinate(y: Seq<HpValue>, n: int, p: nat, lo: int, hi: int, k: int)
    requires
        roomy(p, lo, hi),
        all_sized(y, p, lo, hi),
        y.len() == n,
        1 <= k <= n,
    ensures
        ({
            let x = odd_expansion(y, n, p);
            &&& real_of(x[n - k]) == -real_of(x[n + k])
            &&& near(real_of(x[n + k]) * real_of(sqrt_two(p)), real_of(y[k - 1]), unit(p))
        }),
{
    lemma_root_holds(p);
    assert(sized(y[k - 1], p, lo, hi));
    lemma_quotient_is_near(y[k - 1], sqrt_two(p), p, lo, hi);
    lemma_negative(y[k - 1].over(sqrt_two(p)));
}

proof fn lemma_signs(a: real, b: real, t: real)
    ensures
        ((-a) * (-b)) * t == (a * b) * t,
        ((-a) * b) * t == -((a * b) * t),
        (a * (-b)) * t == -((a * b) * t),
{
    assert((-a) * (-b) == a * b) by (nonlinear_arith);
    assert((-a) * b == -(a * b)) by (nonlinear_arith);
    assert(a * (-b) == -(a * b)) by (nonlinear_arith);
    let q = a * b;
    assert((-q) * t == -(q * t)) by (nonlinear_arith);
}

proof fn lemma_signed_sum(q: real, a: real, b: real, c: real, e: real)
    ensures
        (q * a - q * b) + (-(q * c) + q * e) == q * (a - b - c + e),
{
    let s = a - b;
    let t = e - c;
    assert(q * (a - b) == q * a - q * b) by (nonlinear_arith);
    assert(q * (e - c) == q * e - q * c) by (nonlinear_arith);
    assert(q * (s + t) == q * s + q * t) by (nonlinear_arith);
}

proof fn lemma_odd_pair_block(
    tau: Seq<HpValue>,
    x: Seq<HpValue>,
    n: int,
    k: int,
    l: int,
    q: real,
)
    requires
        1 <= k <= n,
        1 <= l <= n,
        real_of(x[n - k]) == -real_of(x[n + k]),
        real_of(x[n - l]) == -real_of(x[n + l]),
        q == real_of(x[n + k]) * real_of(x[n + l]),
    ensures
        block(terms(tau, x, 2 * n + 1), n, k, l) == q * odd_sum(tau, n, k, l),
        block(term_sizes(tau, x, 2 * n + 1), n, k, l) == size(q) * pair_size(tau, n, k, l),
{
    let f = 2 * n + 1;
    let a = real_of(x[n + k]);
    let b = real_of(x[n + l]);
    let t1 = real_of(tau[(n - k) * f + (n - l)]);
    let t2 = real_of(tau[(n - k) * f + (n + l)]);
    let t3 = real_of(tau[(n + k) * f + (n - l)]);
    let t4 = real_of(tau[(n + k) * f + (n + l)]);
    lemma_signs(a, b, t1);
    lemma_signs(a, b, t2);
    lemma_signs(a, b, t3);
    lemma_signed_sum(q, t1, t2, t3, t4);
    lemma_taken_out_of_four(q, t1, t2, t3, t4);
}

proof fn lemma_odd_pair_term(
    tau: Seq<HpValue>,
    y: Seq<HpValue>,
    n: int,
    p: nat,
    lo: int,
    hi: int,
    k: int,
    l: int,
)
    requires
        roomy(p, lo, hi),
        centrosymmetric(tau, 2 * n + 1),
        all_sized(tau, p, lo, hi),
        all_sized(y, p, lo, hi),
        y.len() == n,
        1 <= k <= n,
        1 <= l <= n,
    ensures
        ({
            let x = odd_expansion(y, n, p);
            size(
                form_term(odd_sector(tau, n), y, n, k - 1, l - 1) - block(
                    terms(tau, x, 2 * n + 1),
                    n,
                    k,
                    l,
                ),
            ) <= (256 as real * unit(p)) * block(term_sizes(tau, x, 2 * n + 1), n, k, l)
        }),
{
    let x = odd_expansion(y, n, p);
    let u = unit(p);
    lemma_root_holds(p);
    lemma_odd_coordinate(y, n, p, lo, hi, k);
    lemma_odd_coordinate(y, n, p, lo, hi, l);
    law_odd_entries_are_projected(tau, n, p, lo, hi, k, l);
    let xk = real_of(x[n + k]);
    let xl = real_of(x[n + l]);
    let yk = real_of(y[k - 1]);
    let yl = real_of(y[l - 1]);
    let q = xk * xl;
    let w = odd_sum(tau, n, k, l);
    let v = pair_size(tau, n, k, l);
    lemma_grows(size(w), v, u);
    lemma_nonnegative(u, v);
    lemma_coordinate_product(xk, yk, xl, yl, real_of(sqrt_two(p)), u);
    lemma_products_apart(
        yk * yl,
        q,
        size(q),
        w,
        real_of(odd_sector(tau, n)[(k - 1) * n + (l - 1)]),
        u,
        v,
    );
    lemma_odd_pair_block(tau, x, n, k, l, q);
    lemma_regrouped(u, size(q) * v);
}

proof fn lemma_vanishing(a: real, t: real)
    ensures
        ((0 as real) * a) * t == 0 as real,
        (a * (0 as real)) * t == 0 as real,
{
    assert((0 as real) * a == 0 as real) by (nonlinear_arith);
    assert(a * (0 as real) == 0 as real) by (nonlinear_arith);
    assert((0 as real) * t == 0 as real) by (nonlinear_arith);
}

proof fn lemma_middle_block(tau: Seq<HpValue>, x: Seq<HpValue>, n: int, k: int)
    requires
        real_of(x[n]) == 0 as real,
    ensures
        block(terms(tau, x, 2 * n + 1), n, 0, k) == 0 as real,
        block(terms(tau, x, 2 * n + 1), n, k, 0) == 0 as real,
        block(term_sizes(tau, x, 2 * n + 1), n, 0, k) == 0 as real,
        block(term_sizes(tau, x, 2 * n + 1), n, k, 0) == 0 as real,
{
    let f = 2 * n + 1;
    let a = real_of(x[n - k]);
    let b = real_of(x[n + k]);
    lemma_vanishing(a, real_of(tau[n * f + (n - k)]));
    lemma_vanishing(b, real_of(tau[n * f + (n + k)]));
    lemma_vanishing(a, real_of(tau[(n - k) * f + n]));
    lemma_vanishing(b, real_of(tau[(n + k) * f + n]));
    lemma_vanishing(real_of(x[n]), real_of(tau[n * f + n]));
}

proof fn lemma_zero_total(f: spec_fn(int) -> real, n: nat)
    requires
        forall|i: int| 0 <= i < n ==> #[trigger] f(i) == 0 as real,
    ensures
        total(f, n) == 0 as real,
    decreases n,
{
    if n > 0 {
        lemma_zero_total(f, (n - 1) as nat);
        assert(f(n - 1) == 0 as real);
    }
}

/// A double sum whose first row and column vanish is the double sum of the rest.
proof fn lemma_without_first(
    h: spec_fn(int, int) -> real,
    h1: spec_fn(int, int) -> real,
    n: nat,
)
    requires
        forall|k: int| 0 <= k < n + 1 ==> #[trigger] h(0, k) == 0 as real,
        forall|k: int| 0 <= k < n + 1 ==> #[trigger] h(k, 0) == 0 as real,
        forall|k: int, l: int| #[trigger] h1(k, l) == h(k + 1, l + 1),
    ensures
        total(|k: int| total(|l: int| h(k, l), n + 1), n + 1) == total(
            |k: int| total(|l: int| h1(k, l), n),
            n,
        ),
{
    let rows = |k: int| total(|l: int| h(k, l), n + 1);
    lemma_first_term(rows, n);
    lemma_zero_total(|l: int| h(0, l), n + 1);
    let rest = |k: int| rows(k + 1);
    let kept = |k: int| total(|l: int| h1(k, l), n);
    assert forall|k: int| 0 <= k < n implies #[trigger] rest(k) == kept(k) by {
        let row = |l: int| h(k + 1, l);
        lemma_first_term(row, n);
        assert(row(0) == h(k + 1, 0));
        lemma_same_totals(|l: int| row(l + 1), |l: int| h1(k, l), n);
    }
    lemma_same_totals(rest, kept, n);
}

/// The odd sector of a centrosymmetric form keeps the quadratic form: at a vector of the sector it
/// has the value that the full form has at the expanded state, up to 256 units of rounding of the
/// magnitudes of the terms.
pub proof fn law_odd_sector_keeps_the_form(
    tau: Seq<HpValue>,
    y: Seq<HpValue>,
    n: nat,
    p: nat,
    lo: int,
    hi: int,
)
    requires
        roomy(p, lo, hi),
        centrosymmetric(tau, 2 * n as int + 1),
        all_sized(tau, p, lo, hi),
        all_sized(y, p, lo, hi),
        y.len() == n,
    ensures
        ({
            let x = odd_expansion(y, n as int, p);
            size(
                form_value(odd_sector(tau, n as int), y, n) - form_value(tau, x, 2 * n + 1),
            ) <= (256 as real * unit(p)) * form_size(tau, x, 2 * n + 1)
        }),
{
    let m = n as int;
    let full = 2 * m + 1;
    let x = odd_expansion(y, m, p);
    let s = odd_sector(tau, m);
    let c = 256 as real * unit(p);
    let h = terms(tau, x, full);
    let b = term_sizes(tau, x, full);
    let f = |k: int, l: int| form_term(s, y, m, k, l);
    let g = |k: int, l: int| block(h, m, k, l);
    let z = |k: int, l: int| block(b, m, k, l);
    let g1 = |k: int, l: int| g(k + 1, l + 1);
    let z1 = |k: int, l: int| z(k + 1, l + 1);
    assert forall|k: int, l: int| 0 <= k < n && 0 <= l < n implies size(
        #[trigger] f(k, l) - g1(k, l),
    ) <= c * z1(k, l) by {
        lemma_odd_pair_term(tau, y, m, p, lo, hi, k + 1, l + 1);
    }
    lemma_near_double(f, g1, z1, c, n);
    lemma_folded_twice(h, n);
    lemma_folded_twice(b, n);
    lemma_read_as(s, y, n, f);
    lemma_read_as(tau, x, 2 * n + 1, h);
    lemma_sizes_read_as(tau, x, 2 * n + 1, b);
    lemma_rows_agree(h, m, n + 1, g);
    lemma_rows_agree(b, m, n + 1, z);
    assert forall|k: int| 0 <= k < n + 1 implies #[trigger] g(0, k) == 0 as real by {
        lemma_middle_block(tau, x, m, k);
    }
    assert forall|k: int| 0 <= k < n + 1 implies #[trigger] g(k, 0) == 0 as real by {
        lemma_middle_block(tau, x, m, k);
    }
    assert forall|k: int| 0 <= k < n + 1 implies #[trigger] z(0, k) == 0 as real by {
        lemma_middle_block(tau, x, m, k);
    }
    assert forall|k: int| 0 <= k < n + 1 implies #[trigger] z(k, 0) == 0 as real by {
        lemma_middle_block(tau, x, m, k);
    }
    lemma_without_first(g, g1, n);
    lemma_without_first(z, z1, n);
}

/// Expanding a vector of the odd sector keeps its norm, up to 25 units of rounding.
pub proof fn law_odd_expansion_keeps_the_norm(y: Seq<HpValue>, n: nat, p: nat, lo: int, hi: int)
    requires
        roomy(p, lo, hi),
        all_sized(y, p, lo, hi),
        y.len() == n,
    ensures
        ({
            let x = odd_expansion(y, n as int, p);
            size(norm_value(y, n) - norm_value(x, 2 * n + 1)) <= (25 as real * unit(p))
                * norm_value(x, 2 * n + 1)
        }),
{
    let m = n as int;
    let x = odd_expansion(y, m, p);
    let c = 25 as real * unit(p);
    let f = |k: int| real_of(y[k]) * real_of(y[k]);
    let h = |i: int| real_of(x[i]) * real_of(x[i]);
    let g = |k: int| mirrored(h, m, k);
    let g1 = |k: int| g(k + 1);
    assert forall|k: int| 0 <= k < n implies size(#[trigger] f(k) - g1(k)) <= c * g1(k) by {
        lemma_odd_square(y, m, p, lo, hi, k + 1);
    }
    lemma_near_totals(f, g1, g1, c, n);
    lemma_folded(h, n);
    lemma_first_term(g, n);
    lemma_same_totals(|k: int| g(k + 1), g1, n);
    assert((0 as real) * (0 as real) == 0 as real) by (nonlinear_arith);
}

proof fn lemma_odd_square(y: Seq<HpValue>, n: int, p: nat, lo: int, hi: int, k: int)
    requires
        roomy(p, lo, hi),
        all_sized(y, p, lo, hi),
        y.len() == n,
        1 <= k <= n,
    ensures
        ({
            let x = odd_expansion(y, n, p);
            let s = mirrored(|i: int| real_of(x[i]) * real_of(x[i]), n, k);
            size(real_of(y[k - 1]) * real_of(y[k - 1]) - s) <= (25 as real * unit(p)) * s
        }),
{
    let x = odd_expansion(y, n, p);
    let u = unit(p);
    lemma_root_holds(p);
    lemma_odd_coordinate(y, n, p, lo, hi, k);
    let a = real_of(x[n + k]);
    let b = real_of(y[k - 1]);
    lemma_coordinate_product(a, b, a, b, real_of(sqrt_two(p)), u);
    assert(a * a >= 0 as real) by (nonlinear_arith);
    assert((-a) * (-a) == a * a) by (nonlinear_arith);
    let q = a * a;
    assert((25 as real * u) * (q + q) == 50 as real * (u * q)) by (nonlinear_arith);
}

/// The even sector of a symmetric form is a finite and exactly symmetric matrix.
pub proof fn law_even_sector_is_symmetric(tau: Seq<HpValue>, n: int, p: nat, lo: int, hi: int)
    requires
        n >= 0,
        roomy(p, lo, hi),
        symmetric(tau, 2 * n + 1),
        all_sized(tau, p, lo, hi),
    ensures
        symmetric(even_sector(tau, n, p), n + 1),
        forall|c: int|
            0 <= c < (n + 1) * (n + 1) ==> (#[trigger] even_sector(tau, n, p)[c]).is_finite(),
{
    let s = even_sector(tau, n, p);
    let dim = n + 1;
    assert forall|c: int| 0 <= c < dim * dim implies (#[trigger] s[c]).is_finite() by {
        lemma_flat(dim, c);
        let k = c / dim;
        let l = c % dim;
        if k == 0 && l == 0 {
            lemma_even_entry(tau, n, p, 0, 0);
            lemma_entry(tau, 2 * n + 1, p, lo, hi, n, n);
        } else if k == 0 {
            law_even_edges_are_projected(tau, n, p, lo, hi, l);
        } else if l == 0 {
            law_even_edges_are_projected(tau, n, p, lo, hi, k);
        } else {
            law_even_entries_are_projected(tau, n, p, lo, hi, k, l);
        }
    }
    lemma_dimension(dim);
    law_symmetrized_is_symmetric(even_projection(tau, n, p), dim);
}

proof fn lemma_dimension(dim: int)
    requires
        dim >= 0,
    ensures
        dim * dim >= 0,
{
    assert(dim * dim >= 0) by (nonlinear_arith)
        requires
            dim >= 0,
    ;
}

} // verus!
