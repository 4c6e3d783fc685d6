//! Entries as sums: every prime power, node, pole and column counts, once.

use crate::assembly::{
    archimedean_cell, archimedean_component, full_size, normalized, pole_component, prime_component,
    prime_term, prime_terms, IntegralsView, KernelView,
};
use crate::closeness::{lemma_stands, ranged, stands};
use crate::concentration::{band_matrix, band_terms, BandView};
use crate::formulas::{
    law_pole_entry_on_reals, lemma_tight_over, lemma_tight_times, reach, room, tight,
};
use crate::margins::{lemma_fine_unit, within};
use crate::matrix::{accumulate, entries, largest, lemma_cell, row_dot, row_products, sum_of};
use crate::monotone::law_order_is_that_of_numbers;
use crate::projection::total;
use crate::reals::{real_of, size, unit};
use crate::rounding::{hp_int, HpValue, EXPONENT_LIMIT};
use crate::secular::{secular_sum, secular_terms};
use crate::square_roots::law_root_squares_back;
use crate::sums::{law_sum_on_reals, sum_reach};
use vstd::arithmetic::power2::*;
use vstd::prelude::*;

verus! {

/// What a number of terms can be, so that two units for each stay below one.
pub open spec fn countable(c: real, n: nat, p: nat, r: int) -> bool {
    &&& p >= 16
    &&& r >= 1
    &&& (c + 2 as real * (n as int as real)) * unit(p) <= 1 as real
    &&& sum_reach(p, r, n) + 2 <= EXPONENT_LIMIT
}

/// The numbers of terms.
pub open spec fn numbers(f: spec_fn(int) -> HpValue) -> spec_fn(int) -> real {
    |i: int| real_of(f(i))
}

/// The magnitudes of terms.
pub open spec fn magnitudes(f: spec_fn(int) -> HpValue) -> spec_fn(int) -> real {
    |i: int| size(real_of(f(i)))
}

/// A value stands for the sum of the first `n` terms, within two units of rounding for each.
pub open spec fn adds_up(x: HpValue, f: spec_fn(int) -> HpValue, n: nat, p: nat) -> bool {
    within(
        real_of(x),
        total(numbers(f), n),
        2 as real * (n as int as real),
        total(magnitudes(f), n),
        unit(p),
    )
}

/// A rounded sum adds up.
pub proof fn law_terms_add_up(f: spec_fn(int) -> HpValue, n: nat, p: nat, q: nat, r: int)
    requires
        countable(0 as real, n, p, r),
        forall|i: int| 0 <= i < n ==> ranged(#[trigger] f(i), q, r),
    ensures
        adds_up(accumulate(hp_int(p, 0), f, n), f, n, p),
{
    let u = unit(p);
    assert forall|i: int| 0 <= i < n implies stands(
        #[trigger] f(i),
        q,
        r,
        numbers(f)(i),
        0 as real,
        magnitudes(f)(i),
        u,
    ) by {
        lemma_stands(f(i), q, r, u);
    }
    law_sum_on_reals(f, numbers(f), magnitudes(f), 0 as real, n, p, q, r);
}

/// An entry of the prime component is the sum of the contributions of all prime powers.
pub proof fn law_prime_entry_adds_up(
    s: Seq<KernelView>,
    pi: HpValue,
    l: HpValue,
    n_modes: int,
    row: int,
    column: int,
    p: nat,
    r: int,
)
    requires
        countable(0 as real, s.len(), p, r),
        0 <= row < full_size(n_modes),
        0 <= column < full_size(n_modes),
        forall|q: int|
            0 <= q < s.len() ==> ranged(
                prime_term(#[trigger] s[q], pi, l, row, column, p),
                p,
                r,
            ),
    ensures
        adds_up(
            prime_component(s, pi, l, n_modes, p)[row * full_size(n_modes) + column],
            |q: int| prime_term(s[q], pi, l, row, column, p),
            s.len(),
            p,
        ),
{
    let f = |q: int| prime_term(s[q], pi, l, row, column, p);
    assert(f =~= prime_terms(s, pi, l, row, column, p));
    lemma_cell(full_size(n_modes), row, column);
    assert forall|i: int| 0 <= i < s.len() implies ranged(#[trigger] f(i), p, r) by {
        assert(ranged(prime_term(s[i], pi, l, row, column, p), p, r));
    }
    law_terms_add_up(f, s.len(), p, p, r);
}

/// An entry of a concentration matrix is the sum of the contributions of all nodes.
pub proof fn law_band_entry_adds_up(b: BandView, dim: int, row: int, column: int, p: nat, r: int)
    requires
        countable(0 as real, b.weights.len(), p, r),
        0 <= row <= column < dim,
        forall|q: int|
            0 <= q < b.weights.len() ==> ranged(#[trigger] band_terms(b, row, column)(q), p, r),
    ensures
        adds_up(
            band_matrix(b, dim, p)[row * dim + column],
            band_terms(b, row, column),
            b.weights.len(),
            p,
        ),
        band_matrix(b, dim, p)[column * dim + row] == band_matrix(b, dim, p)[row * dim + column],
{
    lemma_cell(dim, row, column);
    lemma_cell(dim, column, row);
    law_terms_add_up(band_terms(b, row, column), b.weights.len(), p, p, r);
}

/// The secular function is the sum of its terms over all poles.
pub proof fn law_secular_sum_adds_up(
    xi: Seq<HpValue>,
    n: nat,
    spacing: HpValue,
    z: HpValue,
    p: nat,
    r: int,
)
    requires
        countable(0 as real, 2 * n + 1, p, r),
        forall|i: int|
            0 <= i < 2 * n + 1 ==> ranged(
                #[trigger] secular_terms(xi, n as int, spacing, z, p)(i),
                p,
                r,
            ),
    ensures
        adds_up(
            secular_sum(xi, n as int, spacing, z, p),
            secular_terms(xi, n as int, spacing, z, p),
            2 * n + 1,
            p,
        ),
{
    law_terms_add_up(secular_terms(xi, n as int, spacing, z, p), 2 * n + 1, p, p, r);
}

/// A row times a vector: the sum of the products of their entries, within three units of rounding and
/// two for each entry.
pub proof fn law_row_product_on_reals(
    m: Seq<HpValue>,
    v: Seq<HpValue>,
    dim: nat,
    row: int,
    p: nat,
    r: int,
)
    requires
        room(p, r),
        countable(3 as real, dim, p, 3 * reach(p, r)),
        forall|i: int|
            0 <= i < dim ==> ranged(#[trigger] v[i], p, r) && ranged(m[row * dim + i], p, r),
    ensures
        within(
            real_of(row_dot(m, v, dim as int, row, p)),
            total(|i: int| real_of(m[row * dim + i]) * real_of(v[i]), dim),
            3 as real + 2 as real * (dim as int as real),
            total(|i: int| size(real_of(m[row * dim + i]) * real_of(v[i])), dim),
            unit(p),
        ),
{
    let g = reach(p, r);
    let u = unit(p);
    let f = row_products(m, v, dim as int, row);
    let y = |i: int| real_of(m[row * dim + i]) * real_of(v[i]);
    let s = |i: int| size(real_of(m[row * dim + i]) * real_of(v[i]));
    lemma_fine_unit(p);
    assert forall|i: int| 0 <= i < dim implies stands(
        #[trigger] f(i),
        p,
        3 * g,
        y(i),
        3 as real,
        s(i),
        u,
    ) by {
        assert(ranged(v[i], p, r));
        let a = m[row * dim + i];
        lemma_stands(a, p, g, u);
        lemma_stands(v[i], p, g, u);
        lemma_tight_times(a, p, g, real_of(a), 0 as real, v[i], p, g, real_of(v[i]), 0 as real, u, g);
    }
    law_sum_on_reals(f, y, s, 3 as real, dim, p, p, 3 * g);
}

/// The largest of some values is no smaller than any of them, and is one of them or the first bound.
pub proof fn law_largest_bounds_all(init: HpValue, f: spec_fn(int) -> HpValue, n: nat, i: int)
    requires
        init.wf(),
        init.is_finite(),
        forall|j: int| 0 <= j < n ==> (#[trigger] f(j)).wf() && f(j).is_finite(),
    ensures
        largest(init, f, n).wf(),
        largest(init, f, n).is_finite(),
        real_of(init) <= real_of(largest(init, f, n)),
        0 <= i < n ==> real_of(f(i)) <= real_of(largest(init, f, n)),
        largest(init, f, n) == init || exists|j: int|
            0 <= j < n && largest(init, f, n) == #[trigger] f(j),
    decreases n,
{
    if n > 0 {
        let m = (n - 1) as nat;
        law_largest_bounds_all(init, f, m, i);
        assert(f(m as int).wf());
        law_order_is_that_of_numbers(largest(init, f, m), f(m as int));
    }
}

/// What the entry of a row and a column of the pole component is: see [`law_pole_entry_on_reals`],
/// for the modes `row - N` and `column - N`.
pub proof fn law_pole_component_on_reals(
    pi: HpValue,
    l: HpValue,
    sinh: HpValue,
    n_modes: int,
    row: int,
    column: int,
    p: nat,
    r: int,
)
    requires
        room(p, r),
        ranged(pi, p, r),
        ranged(l, p, r),
        ranged(sinh, p, r),
        real_of(l) != 0 as real,
        n_modes < pow2(64),
        0 <= row < full_size(n_modes),
        0 <= column < full_size(n_modes),
    ensures
        ({
            let s = (real_of(pi) * real_of(pi)) * 16 as real;
            let l2 = real_of(l) * real_of(l);
            let nr = (row - n_modes) as real;
            let mr = (column - n_modes) as real;
            let front = ((real_of(sinh) * real_of(sinh)) * 32 as real) * real_of(l);
            within(
                real_of(
                    pole_component(pi, l, sinh, n_modes, p)[row * full_size(n_modes) + column],
                ) * (((s * mr) * mr + l2) * ((s * nr) * nr + l2)),
                front * (l2 - (s * mr) * nr),
                66 as real,
                size(front) * (l2 + size((s * mr) * nr)),
                unit(p),
            )
        }),
{
    lemma_cell(full_size(n_modes), row, column);
    law_pole_entry_on_reals(pi, l, sinh, row - n_modes, column - n_modes, p, r);
}

/// The entry of a row and a column of the archimedean component is that of the modes `row - N` and
/// `column - N`.
pub proof fn law_archimedean_component_holds_its_modes(
    t: IntegralsView,
    n_modes: int,
    row: int,
    column: int,
    p: nat,
)
    requires
        0 <= row < full_size(n_modes),
        0 <= column < full_size(n_modes),
    ensures
        archimedean_component(t, n_modes, p)[row * full_size(n_modes) + column] == archimedean_cell(
            t,
            row - n_modes,
            column - n_modes,
            p,
        ),
{
    lemma_cell(full_size(n_modes), row, column);
}

/// A normalized entry is the entry times `sqrt l` over the sum of all entries, within 6 units of
/// rounding of the computed root and sum; the root's square is `l`, within 3.
pub proof fn law_normalized_entry_on_reals(xi: Seq<HpValue>, l: HpValue, i: int, p: nat, r: int)
    requires
        room(p, r),
        ranged(l, p, r),
        real_of(l) > 0 as real,
        0 <= i < xi.len(),
        ranged(xi[i], p, r),
        ranged(sum_of(xi, p), p, r),
        real_of(sum_of(xi, p)) != 0 as real,
    ensures
        tight(
            normalized(xi, l, p)[i],
            p,
            8 * reach(p, r),
            real_of(xi[i]) * (real_of(l.sqrt()) / real_of(sum_of(xi, p))),
            6 as real,
            unit(p),
        ),
        within(
            real_of(l.sqrt()) * real_of(l.sqrt()),
            real_of(l),
            3 as real,
            real_of(l),
            unit(p),
        ),
        real_of(l.sqrt()) > 0 as real,
{
    let g = reach(p, r);
    let u = unit(p);
    lemma_fine_unit(p);
    law_root_squares_back(l, p, r);
    let root = l.sqrt();
    let sum = sum_of(xi, p);
    lemma_stands(root, p, 2 * g, u);
    lemma_stands(sum, p, g, u);
    lemma_stands(xi[i], p, g, u);
    lemma_tight_over(root, p, 2 * g, real_of(root), 0 as real, sum, p, g, real_of(sum), 0 as real, u, g);
    lemma_tight_times(
        xi[i],
        p,
        g,
        real_of(xi[i]),
        0 as real,
        root.over(sum),
        p,
        5 * g,
        real_of(root) / real_of(sum),
        3 as real,
        u,
        g,
    );
}

/// The sum that a vector is normalized by is the sum of all its entries.
pub proof fn law_entries_add_up(xi: Seq<HpValue>, p: nat, r: int)
    requires
        countable(0 as real, xi.len(), p, r),
        forall|i: int| 0 <= i < xi.len() ==> ranged(#[trigger] xi[i], p, r),
    ensures
        adds_up(sum_of(xi, p), |i: int| xi[i], xi.len(), p),
{
    let f = |i: int| xi[i];
    assert(f =~= entries(xi));
    assert forall|i: int| 0 <= i < xi.len() implies ranged(#[trigger] f(i), p, r) by {
        assert(ranged(xi[i], p, r));
    }
    law_terms_add_up(f, xi.len(), p, p, r);
}

} // verus!
