//! What the computed entries of the forms stand for: the formulas, on exact real numbers, and how
//! many units of rounding the computed values may lie off them.

use crate::assembly::pole_cell;
use crate::bounds::{lemma_cancelled, lemma_grows, lemma_nonnegative, lemma_size_of_product};
use crate::closeness::{
    lemma_gap_is_near, lemma_number_positive, lemma_product_is_near, lemma_signed_real,
    lemma_stands, lemma_stands_mode, lemma_stands_over, lemma_stands_plus, lemma_stands_times,
    lemma_stands_word, ranged, stands,
};
use crate::concentration::band;
use crate::float::HpFloat;
use crate::margins::{fine_unit, lemma_fine_unit, small_factor, within};
use crate::reals::{real_of, size, two_to, unit};
use crate::rounding::{hp_int, hp_word, magnitude, Class, HpValue, EXPONENT_LIMIT};
use crate::sector::{reflection_squares, squares};
use vstd::arithmetic::power2::*;
use vstd::prelude::*;

verus! {

/// Precisions and exponents with room for a formula: sixteen bits or more, and far from both ends
/// of the exponent range.
pub open spec fn room(p: nat, r: int) -> bool {
    p >= 16 && r >= 0 && r + p <= 0x80_0000
}

/// The range in which a formula's operands lie.
pub open spec fn reach(p: nat, r: int) -> int {
    r + p + 100
}

/// A value that stands for a number at the scale of the number itself.
pub open spec fn tight(x: HpValue, q: nat, k: int, y: real, c: real, u: real) -> bool {
    stands(x, q, k, y, c, size(y), u)
}

pub proof fn lemma_tight_times(
    x: HpValue,
    p: nat,
    r: int,
    y: real,
    a: real,
    z: HpValue,
    q: nat,
    k: int,
    w: real,
    b: real,
    u: real,
    g: int,
)
    requires
        tight(x, p, r, y, a, u),
        tight(z, q, k, w, b, u),
        u == unit(p),
        fine_unit(u),
        small_factor(a),
        small_factor(b),
        a + b + 1 as real <= 120 as real,
        r >= 0,
        k >= 0,
        p + 1 <= g,
        r + k + 1 <= EXPONENT_LIMIT,
    ensures
        tight(x.times(z), p, r + k + g, y * w, a + b + 3 as real, u),
{
    lemma_stands_times(x, p, r, y, a, size(y), z, q, k, w, b, size(w), u);
    lemma_size_of_product(y, w);
}

/// A sum of two numbers that are not negative stands for the sum, at its own scale.
pub proof fn lemma_tight_plus(
    x: HpValue,
    p: nat,
    r: int,
    y: real,
    a: real,
    z: HpValue,
    q: nat,
    w: real,
    b: real,
    u: real,
    g: int,
)
    requires
        tight(x, p, r, y, a, u),
        tight(z, q, r, w, b, u),
        y >= 0 as real,
        w >= 0 as real,
        u == unit(p),
        fine_unit(u),
        small_factor(a),
        small_factor(b),
        p + 2 <= g,
        r + 2 <= EXPONENT_LIMIT,
    ensures
        tight(
            x.plus(z),
            p,
            r + g,
            y + w,
            (if a < b {
                b
            } else {
                a
            }) + 2 as real,
            u,
        ),
{
    lemma_stands_plus(x, p, r, y, a, size(y), z, q, w, b, size(w), u);
}

/// A value that stands for a nonzero number, at its own scale, is a nonzero number.
pub proof fn lemma_tight_nonzero(x: HpValue, q: nat, k: int, y: real, c: real, u: real)
    requires
        tight(x, q, k, y, c, u),
        fine_unit(u),
        small_factor(c),
        y != 0 as real,
    ensures
        x.class is Num,
        y > 0 as real ==> real_of(x) > 0 as real,
        y < 0 as real ==> real_of(x) < 0 as real,
{
    let s = size(y);
    let t = u * s;
    lemma_nonnegative(u, s);
    lemma_grows(c, 120 as real, t);
    lemma_grows(65536 as real * u, 1 as real, s);
    assert((65536 as real * u) * s == 65536 as real * (u * s)) by (nonlinear_arith);
}

proof fn lemma_square_not_negative(x: real)
    ensures
        x * x >= 0 as real,
        x != 0 as real ==> x * x > 0 as real,
{
    assert(x * x >= 0 as real) by (nonlinear_arith);
    if x != 0 as real {
        assert(x * x > 0 as real) by (nonlinear_arith)
            requires
                x != 0 as real,
        ;
    }
}

proof fn lemma_scaled_square(s: real, m: real)
    requires
        s >= 0 as real,
    ensures
        (s * m) * m >= 0 as real,
{
    lemma_square_not_negative(m);
    lemma_nonnegative(s, m * m);
    assert((s * m) * m == s * (m * m)) by (nonlinear_arith);
}

/// One of the two factors under an entry of the pole component: `16 pi^2 k^2 + l^2`.
proof fn lemma_pole_factor(pi: HpValue, l: HpValue, k: int, p: nat, r: int)
    requires
        room(p, r),
        ranged(pi, p, r),
        ranged(l, p, r),
        real_of(l) != 0 as real,
        magnitude(k) < pow2(64),
    ensures
        ({
            let g = reach(p, r);
            let s = pi.times(pi).times(hp_word(16));
            let x = s.times(hp_int(p, k)).times(hp_int(p, k)).plus(l.times(l));
            let sr = (real_of(pi) * real_of(pi)) * 16 as real;
            let l2 = real_of(l) * real_of(l);
            let y = (sr * (k as real)) * (k as real) + l2;
            let u = unit(p);
            &&& tight(x, p, 10 * g, y, 16 as real, u)
            &&& tight(s.times(hp_int(p, k)), p, 7 * g, sr * (k as real), 10 as real, u)
            &&& tight(l.times(l), p, 3 * g, l2, 3 as real, u)
            &&& y > 0 as real
            &&& l2 > 0 as real
            &&& sr >= 0 as real
        }),
{
    let g = reach(p, r);
    let u = unit(p);
    let pr = real_of(pi);
    let lr = real_of(l);
    let kr = k as real;
    let sr = (pr * pr) * 16 as real;
    lemma_fine_unit(p);
    lemma_stands(pi, p, g, u);
    lemma_stands(l, p, g, u);
    lemma_stands_word(16, u);
    lemma_stands_mode(p, k);
    let kv = hp_int(p, k);
    let s0 = pi.times(pi);
    let s = s0.times(hp_word(16));
    let sm = s.times(kv);
    lemma_tight_times(pi, p, g, pr, 0 as real, pi, p, g, pr, 0 as real, u, g);
    lemma_tight_times(s0, p, 3 * g, pr * pr, 3 as real, hp_word(16), 64, g, 16 as real, 0 as real, u, g);
    lemma_tight_times(s, p, 5 * g, sr, 6 as real, kv, p, g, kr, 1 as real, u, g);
    lemma_tight_times(sm, p, 7 * g, sr * kr, 10 as real, kv, p, g, kr, 1 as real, u, g);
    lemma_tight_times(l, p, g, lr, 0 as real, l, p, g, lr, 0 as real, u, g);
    lemma_square_not_negative(pr);
    lemma_square_not_negative(lr);
    lemma_scaled_square(sr, kr);
    lemma_tight_plus(
        sm.times(kv),
        p,
        9 * g,
        (sr * kr) * kr,
        14 as real,
        l.times(l),
        p,
        lr * lr,
        3 as real,
        u,
        g,
    );
}

/// What an entry of the pole component is: with `s = 16 pi^2`, the entry of the modes `n` and `m`
/// times `(s m^2 + l^2) (s n^2 + l^2)` is `32 sinh(l/4)^2 l (l^2 - s m n)`, within 66 units of
/// rounding at the scale `32 sinh(l/4)^2 |l| (l^2 + s |m n|)`.
pub proof fn law_pole_entry_on_reals(
    pi: HpValue,
    l: HpValue,
    sinh: HpValue,
    n: int,
    m: int,
    p: nat,
    r: int,
)
    requires
        room(p, r),
        ranged(pi, p, r),
        ranged(l, p, r),
        ranged(sinh, p, r),
        real_of(l) != 0 as real,
        magnitude(n) < pow2(64),
        magnitude(m) < pow2(64),
    ensures
        ({
            let s = (real_of(pi) * real_of(pi)) * 16 as real;
            let l2 = real_of(l) * real_of(l);
            let nr = n as real;
            let mr = m as real;
            let front = ((real_of(sinh) * real_of(sinh)) * 32 as real) * real_of(l);
            &&& within(
                real_of(pole_cell(pi, l, sinh, n, m, p)) * (((s * mr) * mr + l2) * ((s * nr) * nr
                    + l2)),
                front * (l2 - (s * mr) * nr),
                66 as real,
                size(front) * (l2 + size((s * mr) * nr)),
                unit(p),
            )
            &&& ((s * mr) * mr + l2) * ((s * nr) * nr + l2) > 0 as real
        }),
{
    let g = reach(p, r);
    let u = unit(p);
    let pr = real_of(pi);
    let lr = real_of(l);
    let hr = real_of(sinh);
    let nr = n as real;
    let mr = m as real;
    let sr = (pr * pr) * 16 as real;
    let l2r = lr * lr;
    lemma_fine_unit(p);
    lemma_pole_factor(pi, l, n, p, r);
    lemma_pole_factor(pi, l, m, p, r);
    lemma_stands_mode(p, n);
    lemma_stands(l, p, g, u);
    lemma_stands(sinh, p, g, u);
    lemma_stands_word(32, u);
    let s = pi.times(pi).times(hp_word(16));
    let l2 = l.times(l);
    let nf = hp_int(p, n);
    let mf = hp_int(p, m);
    let cross = s.times(mf).times(nf);
    let numerator = l2.minus(cross);
    let left = s.times(mf).times(mf).plus(l2);
    let right = s.times(nf).times(nf).plus(l2);
    let both = left.times(right);
    let f0 = sinh.times(sinh);
    let f1 = f0.times(hp_word(32));
    let front = f1.times(l);
    let leftr = (sr * mr) * mr + l2r;
    let rightr = (sr * nr) * nr + l2r;
    let crossr = (sr * mr) * nr;
    let frontr = ((hr * hr) * 32 as real) * lr;
    lemma_tight_times(s.times(mf), p, 7 * g, sr * mr, 10 as real, nf, p, g, nr, 1 as real, u, g);
    lemma_stands_plus(
        l2,
        p,
        9 * g,
        l2r,
        3 as real,
        l2r,
        cross,
        p,
        crossr,
        14 as real,
        size(crossr),
        u,
    );
    lemma_tight_times(left, p, 10 * g, leftr, 16 as real, right, p, 10 * g, rightr, 16 as real, u, g);
    lemma_product_positive(leftr, rightr);
    lemma_tight_nonzero(both, p, 21 * g, leftr * rightr, 35 as real, u);
    lemma_tight_times(sinh, p, g, hr, 0 as real, sinh, p, g, hr, 0 as real, u, g);
    lemma_tight_times(f0, p, 3 * g, hr * hr, 3 as real, hp_word(32), 64, g, 32 as real, 0 as real, u, g);
    lemma_tight_times(f1, p, 5 * g, (hr * hr) * 32 as real, 6 as real, l, p, g, lr, 0 as real, u, g);
    lemma_stands_times(
        front,
        p,
        7 * g,
        frontr,
        9 as real,
        size(frontr),
        numerator,
        p,
        10 * g,
        l2r - crossr,
        16 as real,
        l2r + size(crossr),
        u,
    );
    lemma_stands_over(
        front.times(numerator),
        p,
        18 * g,
        frontr * (l2r - crossr),
        28 as real,
        size(frontr) * (l2r + size(crossr)),
        both,
        p,
        21 * g,
        leftr * rightr,
        35 as real,
        u,
    );
}

proof fn lemma_product_positive(a: real, b: real)
    requires
        a > 0 as real,
        b > 0 as real,
    ensures
        a * b > 0 as real,
{
    assert(a * b > 0 as real) by (nonlinear_arith)
        requires
            a > 0 as real,
            b > 0 as real,
    ;
}

proof fn lemma_quotient_cancels(q: real, v: real, w: real, c: real, t: real)
    requires
        w != 0 as real,
        size(q * w - v * w) <= c * (t * size(w)),
    ensures
        size(q - v) <= c * t,
{
    assert((q - v) * w == q * w - v * w) by (nonlinear_arith);
    lemma_size_of_product(q - v, w);
    let k = size(w);
    assert(c * (t * k) == (c * t) * k) by (nonlinear_arith);
    lemma_cancelled(size(q - v), c * t, k);
}

proof fn lemma_real_quotient(y: real, w: real)
    requires
        w != 0 as real,
    ensures
        (y / w) * w == y,
{
    assert((y / w) * w == y) by (nonlinear_arith)
        requires
            w != 0 as real,
    ;
}

/// A quotient stands for the quotient.
pub proof fn lemma_tight_over(
    x: HpValue,
    p: nat,
    r: int,
    y: real,
    a: real,
    z: HpValue,
    q: nat,
    k: int,
    w: real,
    b: real,
    u: real,
    g: int,
)
    requires
        tight(x, p, r, y, a, u),
        tight(z, q, k, w, b, u),
        w != 0 as real,
        u == unit(p),
        fine_unit(u),
        small_factor(a),
        small_factor(b),
        r >= 0,
        k >= 0,
        p + 1 <= g,
        r + k + p + 2 <= EXPONENT_LIMIT,
    ensures
        tight(x.over(z), p, r + k + 2 * g, y / w, a + b + 3 as real, u),
{
    lemma_tight_nonzero(z, q, k, w, b, u);
    lemma_stands_over(x, p, r, y, a, size(y), z, q, k, w, b, u);
    let v = y / w;
    lemma_real_quotient(y, w);
    lemma_size_of_product(v, w);
    lemma_regrouped_scale(u, size(v), size(w));
    lemma_quotient_cancels(real_of(x.over(z)), v, w, a + b + 3 as real, u * size(v));
}

proof fn lemma_regrouped_scale(u: real, v: real, w: real)
    ensures
        u * (v * w) == (u * v) * w,
{
    assert(u * (v * w) == (u * v) * w) by (nonlinear_arith);
}

/// The weight of a node of the band is `w (l / 2) / pi * omega`, within 12 units of rounding.
pub proof fn law_band_weight_on_reals(
    pi: HpValue,
    l: HpValue,
    omega: HpValue,
    nodes: Seq<HpValue>,
    weights: Seq<HpValue>,
    sines: Seq<Vec<HpFloat>>,
    n_modes: int,
    p: nat,
    r: int,
    q: int,
)
    requires
        room(p, r),
        ranged(pi, p, r),
        ranged(l, p, r),
        ranged(omega, p, r),
        0 <= q < nodes.len(),
        ranged(weights[q], p, r),
        real_of(pi) != 0 as real,
    ensures
        tight(
            band(pi, l, omega, nodes, weights, sines, n_modes, p).weights[q],
            p,
            11 * reach(p, r),
            real_of(weights[q]) * (((real_of(l) / 2 as real) / real_of(pi)) * real_of(omega)),
            12 as real,
            unit(p),
        ),
{
    let g = reach(p, r);
    let u = unit(p);
    lemma_fine_unit(p);
    lemma_stands(pi, p, g, u);
    lemma_stands(l, p, g, u);
    lemma_stands(omega, p, g, u);
    lemma_stands(weights[q], p, g, u);
    lemma_stands_word(2, u);
    let lr = real_of(l);
    let pr = real_of(pi);
    let wr = real_of(omega);
    let half = l.over(hp_word(2));
    let share = half.over(pi);
    let front = share.times(omega);
    lemma_tight_over(l, p, g, lr, 0 as real, hp_word(2), 64, g, 2 as real, 0 as real, u, g);
    lemma_tight_over(half, p, 4 * g, lr / 2 as real, 3 as real, pi, p, g, pr, 0 as real, u, g);
    lemma_tight_times(
        share,
        p,
        7 * g,
        (lr / 2 as real) / pr,
        6 as real,
        omega,
        p,
        g,
        wr,
        0 as real,
        u,
        g,
    );
    lemma_tight_times(
        weights[q],
        p,
        g,
        real_of(weights[q]),
        0 as real,
        front,
        p,
        9 * g,
        ((lr / 2 as real) / pr) * wr,
        9 as real,
        u,
        g,
    );
}

/// What a squared reflection difference is: the square of the difference between an entry and its
/// mirror image, within 5 units of rounding. It is zero exactly where the two have one value, and
/// where the image is the negative of the entry it is the square of twice the entry.
pub proof fn law_reflection_square_on_reals(xi: Seq<HpValue>, i: int, p: nat, r: int)
    requires
        room(p, r),
        0 <= i < xi.len(),
        ranged(xi[i], p, r),
        ranged(xi[xi.len() - 1 - i], p, r),
    ensures
        ({
            let x = real_of(xi[i]);
            let y = real_of(xi[xi.len() - 1 - i]);
            let d = reflection_squares(xi)[i];
            &&& tight(d, p, 5 * reach(p, r), (x - y) * (x - y), 5 as real, unit(p))
            &&& d.is_zero() <==> x == y
            &&& x != y ==> real_of(d) > 0 as real
            &&& x == -y ==> tight(
                d,
                p,
                5 * reach(p, r),
                (2 as real * x) * (2 as real * x),
                5 as real,
                unit(p),
            )
        }),
{
    let g = reach(p, r);
    let u = unit(p);
    let a = xi[i];
    let b = xi[xi.len() - 1 - i];
    let x = real_of(a);
    let y = real_of(b);
    let d = a.minus(b);
    lemma_fine_unit(p);
    lemma_gap_is_near(a, b, p, p, r);
    let t = u * size(x - y);
    assert((1 as real) * t == t);
    assert(tight(d, p, 2 * g, x - y, 1 as real, u));
    lemma_tight_times(d, p, 2 * g, x - y, 1 as real, d, p, 2 * g, x - y, 1 as real, u, g);
    lemma_square_not_negative(x - y);
    if x != y {
        lemma_tight_nonzero(d.times(d), p, 5 * g, (x - y) * (x - y), 5 as real, u);
    } else {
        assert(u * (0 as real) == 0 as real) by (nonlinear_arith);
        assert(real_of(d) == 0 as real);
        lemma_zero_number(d, p, 2 * g);
        lemma_product_is_near(d, d, p, p, 2 * g, 2 * g);
    }
}

/// A finite value that stands for zero is zero.
proof fn lemma_zero_number(x: HpValue, p: nat, r: int)
    requires
        ranged(x, p, r),
        real_of(x) == 0 as real,
    ensures
        x.is_zero(),
{
    if let Class::Num { neg, man, exp } = x.class {
        lemma_pow2_pos((p - 1) as nat);
        lemma_number_positive(man, exp);
        lemma_signed_real(neg, man, two_to(exp));
    }
}

/// A finite value that is not zero does not stand for zero.
pub proof fn lemma_number_nonzero(x: HpValue, p: nat, r: int)
    requires
        ranged(x, p, r),
        !x.is_zero(),
    ensures
        real_of(x) != 0 as real,
{
    if real_of(x) == 0 as real {
        lemma_zero_number(x, p, r);
    }
}

/// The square of an entry, within 3 units of rounding.
pub proof fn law_square_on_reals(xi: Seq<HpValue>, i: int, p: nat, r: int)
    requires
        room(p, r),
        0 <= i < xi.len(),
        ranged(xi[i], p, r),
    ensures
        tight(
            squares(xi)[i],
            p,
            3 * reach(p, r),
            real_of(xi[i]) * real_of(xi[i]),
            3 as real,
            unit(p),
        ),
{
    let g = reach(p, r);
    let x = real_of(xi[i]);
    lemma_fine_unit(p);
    lemma_stands(xi[i], p, g, unit(p));
    lemma_tight_times(xi[i], p, g, x, 0 as real, xi[i], p, g, x, 0 as real, unit(p), g);
}

/// An error at a scale, with the first factor of the scale taken out.
proof fn lemma_error_factored(f: real, c: real, u: real, k: real)
    ensures
        c * (u * (f * k)) == f * (c * (u * k)),
{
    crate::margins::lemma_moved(f, c, u, k);
}

proof fn lemma_signed_quotient(e: real, d: real, f: real, t: real)
    requires
        d > 0 as real,
        f > 0 as real,
    ensures
        e * d <= f * t && t < 0 as real ==> e < 0 as real,
        e * d >= f * t && t > 0 as real ==> e > 0 as real,
{
    if t < 0 as real {
        lemma_product_positive(f, -t);
        assert(f * (-t) == -(f * t)) by (nonlinear_arith);
    }
    if t > 0 as real {
        lemma_product_positive(f, t);
    }
    if e >= 0 as real {
        lemma_nonnegative(e, d);
    } else {
        lemma_product_positive(-e, d);
        assert((-e) * d == -(e * d)) by (nonlinear_arith);
    }
    if e <= 0 as real {
        lemma_nonnegative(-e, d);
        assert((-e) * d == -(e * d)) by (nonlinear_arith);
    }
}

/// The sign of an entry of the pole component, for a positive `l`: with `s = 16 pi^2` it is that of
/// `l^2 - s m n` wherever this exceeds 66 units of rounding of `l^2 + s |m n|`. So the diagonal entry
/// of a mode with `16 pi^2 n^2` clearly above `l^2` is negative.
pub proof fn law_pole_entry_sign(
    pi: HpValue,
    l: HpValue,
    sinh: HpValue,
    n: int,
    m: int,
    p: nat,
    r: int,
)
    requires
        room(p, r),
        ranged(pi, p, r),
        ranged(l, p, r),
        ranged(sinh, p, r),
        real_of(l) > 0 as real,
        real_of(sinh) != 0 as real,
        magnitude(n) < pow2(64),
        magnitude(m) < pow2(64),
    ensures
        ({
            let l2 = real_of(l) * real_of(l);
            let x = (((real_of(pi) * real_of(pi)) * 16 as real) * (m as real)) * (n as real);
            let e = 66 as real * (unit(p) * (l2 + size(x)));
            let entry = real_of(pole_cell(pi, l, sinh, n, m, p));
            &&& l2 + e < x ==> entry < 0 as real
            &&& x + e < l2 ==> entry > 0 as real
        }),
{
    let s = (real_of(pi) * real_of(pi)) * 16 as real;
    let l2 = real_of(l) * real_of(l);
    let nr = n as real;
    let mr = m as real;
    let x = (s * mr) * nr;
    let h2 = real_of(sinh) * real_of(sinh);
    let front = (h2 * 32 as real) * real_of(l);
    let d = ((s * mr) * mr + l2) * ((s * nr) * nr + l2);
    let entry = real_of(pole_cell(pi, l, sinh, n, m, p));
    let k = l2 + size(x);
    let e = 66 as real * (unit(p) * k);
    law_pole_entry_on_reals(pi, l, sinh, n, m, p, r);
    lemma_square_not_negative(real_of(sinh));
    lemma_product_positive(h2 * 32 as real, real_of(l));
    lemma_error_factored(front, 66 as real, unit(p), k);
    assert(front * (l2 - x) + front * e == front * (l2 - x + e)) by (nonlinear_arith);
    assert(front * (l2 - x) - front * e == front * (l2 - x - e)) by (nonlinear_arith);
    lemma_signed_quotient(entry, d, front, l2 - x + e);
    lemma_signed_quotient(entry, d, front, l2 - x - e);
}

/// For a positive `l` and modes `n` and `m` of one sign, the entry of `n` and `-m` lies above that of
/// `n` and `m`, wherever `16 pi^2 m n` exceeds 66 units of rounding of `l^2 + 16 pi^2 m n`.
pub proof fn law_pole_entry_of_opposite_modes(
    pi: HpValue,
    l: HpValue,
    sinh: HpValue,
    n: int,
    m: int,
    p: nat,
    r: int,
)
    requires
        room(p, r),
        ranged(pi, p, r),
        ranged(l, p, r),
        ranged(sinh, p, r),
        real_of(l) > 0 as real,
        real_of(sinh) != 0 as real,
        magnitude(n) < pow2(64),
        magnitude(m) < pow2(64),
        ({
            let l2 = real_of(l) * real_of(l);
            let x = (((real_of(pi) * real_of(pi)) * 16 as real) * (m as real)) * (n as real);
            66 as real * (unit(p) * (l2 + size(x))) < x
        }),
    ensures
        real_of(pole_cell(pi, l, sinh, n, m, p)) < real_of(pole_cell(pi, l, sinh, n, -m, p)),
{
    let s = (real_of(pi) * real_of(pi)) * 16 as real;
    let l2 = real_of(l) * real_of(l);
    let nr = n as real;
    let mr = m as real;
    let x = (s * mr) * nr;
    let h2 = real_of(sinh) * real_of(sinh);
    let front = (h2 * 32 as real) * real_of(l);
    let d = ((s * mr) * mr + l2) * ((s * nr) * nr + l2);
    let k = l2 + size(x);
    let e = 66 as real * (unit(p) * k);
    let a = real_of(pole_cell(pi, l, sinh, n, m, p));
    let b = real_of(pole_cell(pi, l, sinh, n, -m, p));
    law_pole_entry_on_reals(pi, l, sinh, n, m, p, r);
    law_pole_entry_on_reals(pi, l, sinh, n, -m, p, r);
    assert(s * (-mr) == -(s * mr)) by (nonlinear_arith);
    let t = s * mr;
    assert((-t) * (-mr) == t * mr) by (nonlinear_arith);
    assert((-t) * nr == -(t * nr)) by (nonlinear_arith);
    assert((-m) as real == -mr);
    lemma_square_not_negative(real_of(sinh));
    lemma_product_positive(h2 * 32 as real, real_of(l));
    lemma_error_factored(front, 66 as real, unit(p), k);
    assert(front * (l2 + x) - front * (l2 - x) == front * (2 as real * x)) by (nonlinear_arith);
    assert(front * (2 as real * x) - 2 as real * (front * e) == front * (2 as real * x - 2 as real
        * e)) by (nonlinear_arith);
    assert((b - a) * d == b * d - a * d) by (nonlinear_arith);
    lemma_signed_quotient(b - a, d, front, 2 as real * x - 2 as real * e);
}

} // verus!
