//! Bounds on real numbers that sums, means and quotients by the root of two satisfy. Throughout,
//! `u` is the unit of rounding and `d` stands for `u` times a sum of magnitudes `v`.

use crate::reals::{near, size};
use vstd::prelude::*;

verus! {

/// How far rounding moves a value whose magnitude is bounded.
pub proof fn lemma_step(x: real, y: real, u: real, v: real, d: real, c: real)
    requires
        near(x, y, u),
        (0 as real) < u,
        2 as real * u <= 1 as real,
        d == u * v,
        d >= 0 as real,
        c >= 0 as real,
        size(y) <= v + c * d,
    ensures
        2 as real * size(x - y) <= 2 as real * d + c * d,
{
    let w = size(y);
    assert(u * w <= u * (v + c * d)) by (nonlinear_arith)
        requires
            u > 0 as real,
            w <= v + c * d,
    ;
    let e = c * d;
    assert(e >= 0 as real) by (nonlinear_arith)
        requires
            e == c * d,
            c >= 0 as real,
            d >= 0 as real,
    ;
    assert(u * (v + e) == d + u * e) by (nonlinear_arith)
        requires
            d == u * v,
    ;
    assert(2 as real * (u * e) <= e) by (nonlinear_arith)
        requires
            2 as real * u <= 1 as real,
            e >= 0 as real,
    ;
}

/// Four terms added one after the other and halved.
pub proof fn lemma_four_term_mean(
    a: real,
    b: real,
    c: real,
    e: real,
    s1: real,
    s2: real,
    s3: real,
    t: real,
    u: real,
    v: real,
    d: real,
)
    requires
        (0 as real) < u,
        2 as real * u <= 1 as real,
        v == size(a) + size(b) + size(c) + size(e),
        d == u * v,
        near(s1, a + b, u),
        near(s2, s1 + c, u),
        near(s3, s2 + e, u),
        near(t * 2 as real, s3, u),
    ensures
        size(2 as real * t - (a + b + c + e)) <= 9 as real * d,
        d >= 0 as real,
{
    assert(d >= 0 as real) by (nonlinear_arith)
        requires
            d == u * v,
            u > 0 as real,
            v >= 0 as real,
    ;
    lemma_step(s1, a + b, u, v, d, 0 as real);
    lemma_step(s2, s1 + c, u, v, d, 1 as real);
    lemma_step(s3, s2 + e, u, v, d, 3 as real);
    lemma_step(t * 2 as real, s3, u, v, d, 6 as real);
}

/// The mean of two values that are near to one half.
pub proof fn lemma_mean_of_two(
    c1: real,
    c2: real,
    t: real,
    m: real,
    w: real,
    u: real,
    v: real,
    d: real,
    k: real,
)
    requires
        (0 as real) < u,
        2 as real * u <= 1 as real,
        d == u * v,
        d >= 0 as real,
        k >= 0 as real,
        size(w) <= v,
        size(2 as real * c1 - w) <= k * d,
        size(2 as real * c2 - w) <= k * d,
        near(t, c1 + c2, u),
        near(m * 2 as real, t, u),
    ensures
        4 as real * size(2 as real * m - w) <= 9 as real * (k * d) + 10 as real * d,
{
    let e = k * d;
    lemma_step(t, c1 + c2, u, v, d, k);
    // 2 |t - w| <= 3 e + 2 d
    let c = (3 as real * k + 2 as real) / (2 as real);
    assert(c * d == (3 as real * e + 2 as real * d) / (2 as real)) by (nonlinear_arith)
        requires
            e == k * d,
            c == (3 as real * k + 2 as real) / (2 as real),
    ;
    lemma_step(m * 2 as real, t, u, v, d, c);
}

/// Products with a factor that is not negative keep an order.
pub proof fn lemma_grows(a: real, b: real, c: real)
    requires
        a <= b,
        c >= 0 as real,
    ensures
        a * c <= b * c,
        c * a <= c * b,
{
    lemma_nonnegative(b - a, c);
    assert((b - a) * c == b * c - a * c) by (nonlinear_arith);
    assert(a * c == c * a) by (nonlinear_arith);
    assert(b * c == c * b) by (nonlinear_arith);
}

/// A product of numbers that are not negative is not negative.
pub proof fn lemma_nonnegative(a: real, b: real)
    requires
        a >= 0 as real,
        b >= 0 as real,
    ensures
        a * b >= 0 as real,
{
    assert(a * b >= 0 as real) by (nonlinear_arith)
        requires
            a >= 0 as real,
            b >= 0 as real,
    ;
}

/// A positive factor can be cancelled from an inequality.
pub proof fn lemma_cancelled(a: real, b: real, r: real)
    requires
        a * r <= b * r,
        r > 0 as real,
    ensures
        a <= b,
{
    if a > b {
        assert((a - b) * r > 0 as real) by (nonlinear_arith)
            requires
                a - b > 0 as real,
                r > 0 as real,
        ;
        assert((a - b) * r == a * r - b * r) by (nonlinear_arith);
    }
}

/// The magnitude of a product is the product of the magnitudes.
pub proof fn lemma_size_of_product(a: real, b: real)
    ensures
        size(a * b) == size(a) * size(b),
{
    assert((-a) * b == -(a * b)) by (nonlinear_arith);
    assert(a * (-b) == -(a * b)) by (nonlinear_arith);
    assert((-a) * (-b) == a * b) by (nonlinear_arith);
    lemma_nonnegative(size(a), size(b));
}

/// Bounds of two factors bound their product.
pub proof fn lemma_bounded_product(a: real, b: real, x: real, y: real)
    requires
        size(a) <= x,
        size(b) <= y,
    ensures
        size(a * b) <= x * y,
{
    lemma_size_of_product(a, b);
    lemma_grows(size(a), x, size(b));
    lemma_grows(size(b), y, x);
}

/// What the computed root of two satisfies.
pub open spec fn root_holds(r: real, u: real) -> bool {
    &&& (0 as real) < u
    &&& 2 as real * u <= 1 as real
    &&& r > 0 as real
    &&& 2 as real * ((1 as real - u) * (1 as real - u)) <= r * r
    &&& r * r <= 2 as real * ((1 as real + u) * (1 as real + u))
}

/// The square of the computed root is near to two.
pub proof fn lemma_root_square(r: real, u: real)
    requires
        root_holds(r, u),
    ensures
        size(r * r - 2 as real) <= 5 as real * u,
        2 as real * (r * r) <= 9 as real,
{
    assert((1 as real + u) * (1 as real + u) == 1 as real + 2 as real * u + u * u)
        by (nonlinear_arith);
    assert((1 as real - u) * (1 as real - u) == 1 as real - 2 as real * u + u * u)
        by (nonlinear_arith);
    lemma_nonnegative(u, u);
    lemma_grows(2 as real * u, 1 as real, u);
    assert((2 as real * u) * u == 2 as real * (u * u)) by (nonlinear_arith);
    assert((1 as real) * u == u);
}

/// A coordinate is at most twice its quotient by the root, times the root.
pub proof fn lemma_coordinate(x: real, y: real, r: real, u: real)
    requires
        root_holds(r, u),
        near(x * r, y, u),
    ensures
        size(y) <= 2 as real * (size(x) * r),
        size(x * r - y) <= u * size(y),
{
    lemma_size_of_product(x, r);
    let w = size(y);
    lemma_grows(2 as real * u, 1 as real, w);
    assert((2 as real * u) * w == 2 as real * (u * w)) by (nonlinear_arith);
    assert((1 as real) * w == w);
}

/// A product of two coordinates, against twice the product of their quotients by the root.
pub proof fn lemma_coordinate_product(xk: real, yk: real, xl: real, yl: real, r: real, u: real)
    requires
        root_holds(r, u),
        near(xk * r, yk, u),
        near(xl * r, yl, u),
    ensures
        size(yk * yl) <= 18 as real * size(xk * xl),
        size(yk * yl - 2 as real * (xk * xl)) <= 50 as real * (u * size(xk * xl)),
{
    lemma_root_square(r, u);
    lemma_coordinate(xk, yk, r, u);
    lemma_coordinate(xl, yl, r, u);
    lemma_size_of_product(xk, xl);
    lemma_size_of_product(yk, yl);
    let s = r * r;
    let q = xk * xl;
    let p = yk * yl;
    let sk = size(xk);
    let sl = size(xl);
    let tk = size(yk);
    let tl = size(yl);
    let z = sk * sl;
    let w = tk * tl;
    lemma_bounded_product(yk, yl, 2 as real * (sk * r), 2 as real * (sl * r));
    assert((2 as real * (sk * r)) * (2 as real * (sl * r)) == 4 as real * ((sk * sl) * (r * r)))
        by (nonlinear_arith);
    lemma_nonnegative(sk, sl);
    lemma_grows(2 as real * s, 9 as real, z);
    assert(z * (2 as real * s) == 2 as real * (z * s)) by (nonlinear_arith);
    assert(z * (9 as real) == 9 as real * z) by (nonlinear_arith);
    assert(w <= 18 as real * z);
    // The product of the quotients times the square of the root, against that of the coordinates.
    let ek = xk * r - yk;
    let el = xl * r - yl;
    let e1 = yk * el + ek * yl + ek * el;
    assert((xk * xl) * (r * r) == (xk * r) * (xl * r)) by (nonlinear_arith);
    assert((yk + ek) * (yl + el) == yk * yl + (yk * el + ek * yl + ek * el)) by (nonlinear_arith);
    assert(q * s == p + e1);
    lemma_bounded_product(yk, el, tk, u * tl);
    assert(tk * (u * tl) == u * (tk * tl)) by (nonlinear_arith);
    lemma_bounded_product(ek, yl, u * tk, tl);
    assert((u * tk) * tl == u * (tk * tl)) by (nonlinear_arith);
    lemma_bounded_product(ek, el, u * tk, u * tl);
    assert((u * tk) * (u * tl) == u * (u * (tk * tl))) by (nonlinear_arith);
    let f = u * w;
    lemma_nonnegative(tk, tl);
    lemma_nonnegative(u, w);
    lemma_grows(2 as real * u, 1 as real, f);
    assert((2 as real * u) * f == 2 as real * (u * f)) by (nonlinear_arith);
    assert((1 as real) * f == f);
    assert(2 as real * size(e1) <= 5 as real * f);
    lemma_grows(w, 18 as real * z, u);
    assert(u * (18 as real * z) == 18 as real * (u * z)) by (nonlinear_arith);
    assert(q * (s - 2 as real) == q * s - 2 as real * q) by (nonlinear_arith);
    lemma_bounded_product(q, s - 2 as real, z, 5 as real * u);
    assert(z * (5 as real * u) == 5 as real * (u * z)) by (nonlinear_arith);
    assert(p - 2 as real * q == q * (s - 2 as real) - e1);
}

/// The difference of two products, from the differences of their factors.
pub proof fn lemma_sector_gap(p: real, q: real, w: real, cell: real, g: real, e: real)
    requires
        g == p - 2 as real * q,
        e == 2 as real * cell - w,
    ensures
        2 as real * (p * cell - q * w) == w * g + p * e,
{
    assert(w * (p - 2 as real * q) == w * p - 2 as real * (w * q)) by (nonlinear_arith);
    assert(p * (2 as real * cell - w) == 2 as real * (p * cell) - p * w) by (nonlinear_arith);
    assert(w * p == p * w) by (nonlinear_arith);
    assert(w * q == q * w) by (nonlinear_arith);
}

/// A sum that is divided, doubled and halved, each with a rounding.
pub proof fn lemma_edge_sizes(
    a: real,
    b: real,
    s: real,
    c: real,
    t: real,
    m: real,
    u: real,
    v: real,
    d: real,
)
    requires
        (0 as real) < u,
        2 as real * u <= 1 as real,
        v == size(a) + size(b),
        d == u * v,
        d >= 0 as real,
        near(s, a + b, u),
        near(c, s, u),
        near(t, 2 as real * c, u),
        near(2 as real * m, t, u),
    ensures
        size(m - (a + b)) <= 9 as real * d,
{
    lemma_step(s, a + b, u, v, d, 0 as real);
    lemma_step(c, s, u, v, d, 1 as real);
    lemma_doubled_step(t, 2 as real * c, u, v, d, 3 as real);
    lemma_doubled_step(2 as real * m, t, u, v, d, 5 as real);
}

/// How far rounding moves a value whose magnitude is bounded by a double.
pub proof fn lemma_doubled_step(x: real, y: real, u: real, v: real, d: real, c: real)
    requires
        near(x, y, u),
        (0 as real) < u,
        2 as real * u <= 1 as real,
        d == u * v,
        d >= 0 as real,
        c >= 0 as real,
        size(y) <= 2 as real * (v + c * d),
    ensures
        size(x - y) <= 2 as real * d + c * d,
{
    let e = c * d;
    lemma_nonnegative(c, d);
    lemma_doubled_core(size(y), u, v, d, e);
}

proof fn lemma_doubled_core(w: real, u: real, v: real, d: real, e: real)
    requires
        (0 as real) < u,
        2 as real * u <= 1 as real,
        d == u * v,
        e >= 0 as real,
        w <= 2 as real * (v + e),
    ensures
        u * w <= 2 as real * d + e,
{
    lemma_grows(w, 2 as real * (v + e), u);
    assert(u * (2 as real * (v + e)) == 2 as real * (u * v) + (2 as real * u) * e)
        by (nonlinear_arith);
    lemma_grows(2 as real * u, 1 as real, e);
    assert((1 as real) * e == e);
}

proof fn lemma_scaled_size(e: real, t: real, r: real, u: real)
    requires
        size(e) <= u * t,
        r > 0 as real,
    ensures
        size(e * r) <= u * (t * r),
{
    lemma_size_of_product(e, r);
    lemma_grows(size(e), u * t, r);
    assert((u * t) * r == u * (t * r)) by (nonlinear_arith);
}

/// Nearness is kept by a positive factor.
pub proof fn lemma_scaled(x: real, y: real, u: real, r: real)
    requires
        near(x, y, u),
        r > 0 as real,
    ensures
        near(x * r, y * r, u),
{
    lemma_scaled_size(x - y, size(y), r, u);
    lemma_size_of_product(y, r);
    assert((x - y) * r == x * r - y * r) by (nonlinear_arith);
}

proof fn lemma_first_size(w: real, g: real, v: real, z: real, u: real)
    requires
        size(w) <= v,
        size(g) <= 50 as real * (u * z),
    ensures
        size(w * g) <= 50 as real * (u * (z * v)),
{
    lemma_bounded_product(w, g, v, 50 as real * (u * z));
    assert(v * (50 as real * (u * z)) == 50 as real * (u * (z * v))) by (nonlinear_arith);
}

proof fn lemma_second_size(p: real, e: real, v: real, z: real, u: real)
    requires
        size(p) <= 18 as real * z,
        size(e) <= 23 as real * (u * v),
    ensures
        size(p * e) <= 414 as real * (u * (z * v)),
{
    lemma_bounded_product(p, e, 18 as real * z, 23 as real * (u * v));
    assert((18 as real * z) * (23 as real * (u * v)) == 414 as real * (u * (z * v)))
        by (nonlinear_arith);
}

proof fn lemma_halves(x: real, a: real, b: real, f: real)
    requires
        2 as real * x == a + b,
        size(a) <= 50 as real * f,
        size(b) <= 414 as real * f,
        f >= 0 as real,
    ensures
        size(x) <= 256 as real * f,
{
}

/// A term of the sector form against the terms of the full form that it stands for.
pub proof fn lemma_products_apart(
    p: real,
    q: real,
    z: real,
    w: real,
    cell: real,
    u: real,
    v: real,
)
    requires
        u > 0 as real,
        z >= 0 as real,
        size(p) <= 18 as real * z,
        size(p - 2 as real * q) <= 50 as real * (u * z),
        size(w) <= v,
        size(2 as real * cell - w) <= 23 as real * (u * v),
    ensures
        size(p * cell - q * w) <= 256 as real * (u * (z * v)),
{
    let g = p - 2 as real * q;
    let e = 2 as real * cell - w;
    lemma_sector_gap(p, q, w, cell, g, e);
    lemma_first_size(w, g, v, z, u);
    lemma_second_size(p, e, v, z, u);
    lemma_nonnegative(z, v);
    lemma_nonnegative(u, z * v);
    lemma_halves(p * cell - q * w, w * g, p * e, u * (z * v));
}

proof fn lemma_edge_gap(x: real, y: real, r: real, cell: real, w: real, e: real, a: real)
    requires
        e == cell * r - w,
        a == x * r - y,
    ensures
        (y * cell - x * w) * r == y * e - a * w,
{
    let c = cell * r;
    let b = x * r;
    let f = y * cell;
    let g = x * w;
    assert((f - g) * r == f * r - g * r) by (nonlinear_arith);
    assert((y * cell) * r == y * (cell * r)) by (nonlinear_arith);
    assert((x * w) * r == (x * r) * w) by (nonlinear_arith);
    assert(y * (c - w) == y * c - y * w) by (nonlinear_arith);
    assert((b - y) * w == b * w - y * w) by (nonlinear_arith);
}

proof fn lemma_edge_size(y: real, e: real, a: real, w: real, u: real, v: real, t: real)
    requires
        size(y) <= t,
        size(e) <= 9 as real * (u * v),
        size(a) <= u * t,
        size(w) <= v,
    ensures
        size(y * e - a * w) <= 10 as real * (t * (u * v)),
{
    lemma_bounded_product(y, e, t, 9 as real * (u * v));
    lemma_bounded_product(a, w, u * t, v);
    assert(t * (9 as real * (u * v)) == 9 as real * (t * (u * v))) by (nonlinear_arith);
    assert((u * t) * v == t * (u * v)) by (nonlinear_arith);
}

proof fn lemma_edge_cancelled(h: real, t: real, z: real, d: real, r: real)
    requires
        h * r <= 10 as real * (t * d),
        t <= 2 as real * (z * r),
        d >= 0 as real,
        r > 0 as real,
    ensures
        h <= 20 as real * (z * d),
{
    lemma_grows(t, 2 as real * (z * r), d);
    assert((2 as real * (z * r)) * d == 2 as real * ((z * d) * r)) by (nonlinear_arith);
    let b = z * d;
    assert((20 as real * b) * r == 20 as real * (b * r)) by (nonlinear_arith);
    lemma_cancelled(h, 20 as real * b, r);
}

proof fn lemma_edge_scaled(y0: real, g: real, z: real, k: real, u: real, v: real)
    requires
        size(g) <= 20 as real * (z * (u * v)),
        size(y0) <= k,
        k >= 0 as real,
        z >= 0 as real,
        u > 0 as real,
        v >= 0 as real,
    ensures
        size(y0 * g) <= 256 as real * (u * ((k * z) * v)),
{
    lemma_bounded_product(y0, g, k, 20 as real * (z * (u * v)));
    assert(k * (20 as real * (z * (u * v))) == 20 as real * (u * ((k * z) * v)))
        by (nonlinear_arith);
    lemma_nonnegative(k, z);
    lemma_nonnegative(k * z, v);
    lemma_nonnegative(u, (k * z) * v);
}

proof fn lemma_edge_quotient(
    x: real,
    y: real,
    r: real,
    u: real,
    cell: real,
    w: real,
    v: real,
    t: real,
    z: real,
    g: real,
)
    requires
        u > 0 as real,
        r > 0 as real,
        size(y) <= t,
        t <= 2 as real * (z * r),
        size(x * r - y) <= u * t,
        size(w) <= v,
        size(cell * r - w) <= 9 as real * (u * v),
        g == y * cell - x * w,
    ensures
        size(g) <= 20 as real * (z * (u * v)),
{
    let e = cell * r - w;
    let a = x * r - y;
    lemma_edge_gap(x, y, r, cell, w, e, a);
    lemma_edge_size(y, e, a, w, u, v, t);
    lemma_size_of_product(g, r);
    lemma_nonnegative(u, v);
    lemma_edge_cancelled(size(g), t, z, u * v, r);
}

proof fn lemma_taken_out(y0: real, y: real, cell: real, x: real, w: real)
    ensures
        (y0 * y) * cell - (y0 * x) * w == y0 * (y * cell - x * w),
{
    assert((y0 * y) * cell == y0 * (y * cell)) by (nonlinear_arith);
    assert((y0 * x) * w == y0 * (x * w)) by (nonlinear_arith);
    let a = y * cell;
    let b = x * w;
    assert(y0 * (a - b) == y0 * a - y0 * b) by (nonlinear_arith);
}

/// A term of the sector form beside the corner against the two terms that it stands for.
pub proof fn lemma_edges_apart(
    y0: real,
    x: real,
    y: real,
    r: real,
    u: real,
    cell: real,
    w: real,
    v: real,
)
    requires
        u > 0 as real,
        r > 0 as real,
        size(y) <= 2 as real * (size(x) * r),
        size(x * r - y) <= u * size(y),
        size(w) <= v,
        size(cell * r - w) <= 9 as real * (u * v),
    ensures
        size((y0 * y) * cell - (y0 * x) * w) <= 256 as real * (u * (size(y0 * x) * v)),
{
    let g = y * cell - x * w;
    lemma_edge_quotient(x, y, r, u, cell, w, v, size(y), size(x), g);
    lemma_edge_scaled(y0, g, size(x), size(y0), u, v);
    lemma_size_of_product(y0, x);
    lemma_taken_out(y0, y, cell, x, w);
}

/// The computed entry beside the middle: a sum, divided by the root and averaged with itself.
pub proof fn lemma_edge_cell(
    a: real,
    b: real,
    s: real,
    c: real,
    t: real,
    m: real,
    r: real,
    u: real,
)
    requires
        (0 as real) < u,
        2 as real * u <= 1 as real,
        r > 0 as real,
        near(s, a + b, u),
        near(c * r, s, u),
        near(t, c + c, u),
        near(m * 2 as real, t, u),
    ensures
        size(m * r - (a + b)) <= 9 as real * (u * (size(a) + size(b))),
{
    lemma_scaled(t, c + c, u, r);
    lemma_scaled(m * 2 as real, t, u, r);
    assert((c + c) * r == 2 as real * (c * r)) by (nonlinear_arith);
    assert((m * 2 as real) * r == 2 as real * (m * r)) by (nonlinear_arith);
    lemma_nonnegative(u, size(a) + size(b));
    lemma_edge_sizes(a, b, s, c * r, t * r, m * r, u, size(a) + size(b), u * (size(a) + size(b)));
}

} // verus!
