//! Errors in units of rounding, at a scale: how they add up in sums, products and quotients of real
//! numbers.

use crate::bounds::{lemma_bounded_product, lemma_grows, lemma_nonnegative, lemma_size_of_product};
use crate::reals::{lemma_two_to_grows, lemma_two_to_pos, near, size, unit};
use vstd::arithmetic::power2::*;
use vstd::prelude::*;

verus! {

/// A number lies within `c` units, at a scale, of another that the scale bounds.
pub open spec fn within(x: real, y: real, c: real, s: real, u: real) -> bool {
    size(y) <= s && size(x - y) <= c * (u * s)
}

/// Units small enough for the constants that bounds are stated with.
pub open spec fn fine_unit(u: real) -> bool {
    (0 as real) < u && 65536 as real * u <= 1 as real
}

/// A constant of a bound.
pub open spec fn small_factor(c: real) -> bool {
    0 as real <= c <= 120 as real
}

/// From sixteen bits on the unit of rounding is fine.
pub proof fn lemma_fine_unit(p: nat)
    requires
        p >= 16,
    ensures
        fine_unit(unit(p)),
{
    lemma_two_to_pos(-(p as int));
    lemma_two_to_grows(-(p as int), -16);
    lemma2_to64();
}

pub proof fn lemma_scale_facts(c: real, s: real, u: real)
    requires
        fine_unit(u),
        small_factor(c),
        s >= 0 as real,
    ensures
        0 as real <= u * s,
        c * (u * s) <= s,
        c * u <= 1 as real,
{
    let t = u * s;
    lemma_nonnegative(u, s);
    lemma_grows(c, 120 as real, u);
    lemma_grows(c, 120 as real, t);
    lemma_grows(65536 as real * u, 1 as real, s);
    assert((65536 as real * u) * s == 65536 as real * (u * s)) by (nonlinear_arith);
}

/// A larger constant or scale.
pub proof fn lemma_within_more(x: real, y: real, c: real, d: real, s: real, t: real, u: real)
    requires
        within(x, y, c, s, u),
        0 as real <= c <= d,
        s <= t,
        u > 0 as real,
    ensures
        within(x, y, d, t, u),
{
    lemma_grows(s, t, u);
    lemma_nonnegative(u, s);
    lemma_nonnegative(u, t);
    lemma_grows(u * s, u * t, c);
    lemma_grows(c, d, u * t);
}

/// Rounding adds two units.
pub proof fn lemma_within_rounded(z: real, x: real, y: real, c: real, s: real, u: real)
    requires
        near(z, x, u),
        within(x, y, c, s, u),
        fine_unit(u),
        small_factor(c),
    ensures
        within(z, y, c + 2 as real, s, u),
{
    lemma_scale_facts(c, s, u);
    lemma_grows(size(x), 2 as real * s, u);
    let t = u * s;
    assert(u * (2 as real * s) == 2 as real * (u * s)) by (nonlinear_arith);
    assert((c + 2 as real) * t == c * t + 2 as real * t) by (nonlinear_arith);
}

/// Constants add up in a sum.
pub proof fn lemma_within_sum(
    x: real,
    y: real,
    a: real,
    s: real,
    z: real,
    w: real,
    b: real,
    t: real,
    u: real,
)
    requires
        within(x, y, a, s, u),
        within(z, w, b, t, u),
        fine_unit(u),
        a >= 0 as real,
        b >= 0 as real,
    ensures
        within(
            x + z,
            y + w,
            if a < b {
                b
            } else {
                a
            },
            s + t,
            u,
        ),
        within(
            x - z,
            y - w,
            if a < b {
                b
            } else {
                a
            },
            s + t,
            u,
        ),
{
    let c = if a < b {
        b
    } else {
        a
    };
    lemma_within_more(x, y, a, c, s, s, u);
    lemma_within_more(z, w, b, c, t, t, u);
    let f = u * s;
    let g = u * t;
    assert(u * (s + t) == u * s + u * t) by (nonlinear_arith);
    assert(c * (f + g) == c * f + c * g) by (nonlinear_arith);
}

pub proof fn lemma_grouped(x: real, y: real, z: real)
    ensures
        (x * y) * z == x * (y * z),
{
    assert((x * y) * z == x * (y * z)) by (nonlinear_arith);
}

pub proof fn lemma_swapped(x: real, y: real)
    ensures
        x * y == y * x,
{
    assert(x * y == y * x) by (nonlinear_arith);
}

pub proof fn lemma_moved(s: real, b: real, u: real, t: real)
    ensures
        s * (b * (u * t)) == b * (u * (s * t)),
{
    lemma_grouped(s, b, u * t);
    lemma_swapped(s, b);
    lemma_grouped(b, s, u * t);
    lemma_grouped(s, u, t);
    lemma_swapped(s, u);
    lemma_grouped(u, s, t);
}

pub proof fn lemma_pairs(a: real, p: real, b: real, q: real)
    ensures
        (a * p) * (b * q) == (a * b) * (p * q),
{
    lemma_grouped(a, p, b * q);
    lemma_grouped(p, b, q);
    lemma_swapped(p, b);
    lemma_grouped(b, p, q);
    lemma_grouped(a, b, p * q);
}

pub proof fn lemma_difference_of_products(x: real, y: real, z: real, w: real)
    ensures
        x * z - y * w == y * (z - w) + (x - y) * w + (x - y) * (z - w),
{
    assert(y * (z - w) == y * z - y * w) by (nonlinear_arith);
    assert((x - y) * w == x * w - y * w) by (nonlinear_arith);
    assert((x - y) * (z - w) == (x - y) * z - (x - y) * w) by (nonlinear_arith);
    assert((x - y) * z == x * z - y * z) by (nonlinear_arith);
}

/// The three parts in units.
pub proof fn lemma_product_units(a: real, s: real, b: real, t: real, u: real)
    requires
        fine_unit(u),
        small_factor(a),
        small_factor(b),
        s >= 0 as real,
        t >= 0 as real,
    ensures
        s * (b * (u * t)) + (a * (u * s)) * t + (a * (u * s)) * (b * (u * t)) <= (a + b + 1 as real)
            * (u * (s * t)),
{
    let n = u * (s * t);
    lemma_moved(s, b, u, t);
    lemma_grouped(a, u * s, t);
    lemma_grouped(u, s, t);
    lemma_pairs(a, u * s, b, u * t);
    lemma_pairs(u, s, u, t);
    lemma_grouped(u, u, s * t);
    lemma_grouped(a * b, u, u * (s * t));
    lemma_nonnegative(s, t);
    lemma_nonnegative(u, s * t);
    lemma_grows(a, 120 as real, b);
    lemma_grows(a * b, 14400 as real, u);
    lemma_grows((a * b) * u, 1 as real, n);
    assert((a + b + 1 as real) * n == a * n + b * n + n) by (nonlinear_arith);
}

proof fn lemma_three_parts(d: real, f: real, g: real, h: real, x: real, y: real, z: real)
    requires
        d == f + g + h,
        size(f) <= x,
        size(g) <= y,
        size(h) <= z,
    ensures
        size(d) <= x + y + z,
{
}

/// The error of a product in its three parts.
pub proof fn lemma_product_error(
    x: real,
    y: real,
    e: real,
    s: real,
    z: real,
    w: real,
    f: real,
    t: real,
)
    requires
        size(y) <= s,
        size(x - y) <= e,
        size(w) <= t,
        size(z - w) <= f,
    ensures
        size(x * z - y * w) <= s * f + e * t + e * f,
        size(y * w) <= s * t,
{
    lemma_bounded_product(y, w, s, t);
    lemma_bounded_product(y, z - w, s, f);
    lemma_bounded_product(x - y, w, e, t);
    lemma_bounded_product(x - y, z - w, e, f);
    lemma_difference_of_products(x, y, z, w);
    lemma_three_parts(
        x * z - y * w,
        y * (z - w),
        (x - y) * w,
        (x - y) * (z - w),
        s * f,
        e * t,
        e * f,
    );
}

/// Constants add up in a product, and one more.
pub proof fn lemma_within_product(
    x: real,
    y: real,
    a: real,
    s: real,
    z: real,
    w: real,
    b: real,
    t: real,
    u: real,
)
    requires
        within(x, y, a, s, u),
        within(z, w, b, t, u),
        fine_unit(u),
        small_factor(a),
        small_factor(b),
    ensures
        within(x * z, y * w, a + b + 1 as real, s * t, u),
{
    lemma_product_error(x, y, a * (u * s), s, z, w, b * (u * t), t);
    lemma_product_units(a, s, b, t, u);
}

/// An error that is bounded by itself, a little, is bounded.
proof fn lemma_self_bounded(err: real, all: real, us: real, part: real)
    requires
        err >= 0 as real,
        err <= all + part,
        512 as real * part <= err,
        all <= 242 as real * us,
    ensures
        err <= all + us,
{
}

/// A bound on the error of a quotient times its divisor.
proof fn lemma_quotient_error(
    q: real,
    x: real,
    y: real,
    e: real,
    d: real,
    w: real,
    f: real,
    g: real,
)
    requires
        size(q * d - x) <= g,
        size(x - y) <= e,
        size(d - w) <= f,
    ensures
        size(q * w - y) <= e + g + size(q) * f,
{
    lemma_bounded_product(q, d - w, size(q), f);
    assert(q * w == q * d - q * (d - w)) by (nonlinear_arith);
}

/// What a rounded quotient times the exact divisor is: constants add up, and three more.
pub proof fn lemma_within_quotient(
    q: real,
    x: real,
    y: real,
    a: real,
    s: real,
    d: real,
    w: real,
    b: real,
    u: real,
)
    requires
        near(q * d, x, u),
        within(x, y, a, s, u),
        within(d, w, b, size(w), u),
        fine_unit(u),
        small_factor(a),
        small_factor(b),
    ensures
        within(q * w, y, a + b + 3 as real, s, u),
{
    let us = u * s;
    let big = size(q * w);
    let err = size(q * w - y);
    lemma_quotient_error(q, x, y, a * us, d, w, b * (u * size(w)), u * size(x));
    lemma_scale_facts(a, s, u);
    lemma_grows(size(x), 2 as real * s, u);
    assert(u * (2 as real * s) == 2 as real * (u * s)) by (nonlinear_arith);
    lemma_size_of_product(q, w);
    lemma_regrouped(size(q), b, u, size(w));
    assert(big <= s + err);
    lemma_nonnegative(b, u);
    lemma_grows(b, 120 as real, u);
    lemma_grows(big, s + err, b * u);
    let part = (b * u) * err;
    assert((b * u) * (s + err) == b * (u * s) + (b * u) * err) by (nonlinear_arith);
    let all = (a + b + 2 as real) * us;
    assert((a + b + 2 as real) * us == a * us + 2 as real * us + b * us) by (nonlinear_arith);
    assert((a + b + 3 as real) * us == (a + b + 2 as real) * us + us) by (nonlinear_arith);
    lemma_grows(512 as real * (b * u), 1 as real, err);
    assert((512 as real * (b * u)) * err == 512 as real * ((b * u) * err)) by (nonlinear_arith);
    lemma_grows(a + b + 2 as real, 242 as real, us);
    lemma_self_bounded(err, all, us, part);
}

proof fn lemma_regrouped(k: real, b: real, u: real, m: real)
    ensures
        k * (b * (u * m)) == (b * u) * (k * m),
{
    assert(k * (b * (u * m)) == (b * u) * (k * m)) by (nonlinear_arith);
}

} // verus!
