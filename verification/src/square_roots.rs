//! What rounded square roots, and quotients of them, stand for.

use crate::bounds::{lemma_grows, lemma_nonnegative};
use crate::closeness::{lemma_number_positive, lemma_ratio_is_near, lemma_signed_real, ranged};
use crate::formulas::room;
use crate::limbs::{bit_len, lemma_bit_len};
use crate::margins::{
    fine_unit, lemma_fine_unit, lemma_grouped, lemma_pairs, lemma_swapped, lemma_within_product,
    within,
};
use crate::reals::{
    lemma_product_cast, lemma_rounded_is_near, lemma_two_to_adds, lemma_two_to_pos,
    lemma_two_to_sum, near, real_of, size, two_to, unit,
};
use crate::rounding::{
    floor_sqrt, lemma_floor_sqrt, rounded, sqrt_class, Class, HpValue, EXPONENT_LIMIT,
};
use crate::sector::deviation;
use vstd::arithmetic::power2::*;
use vstd::prelude::*;

verus! {

/// A square between two others.
proof fn lemma_square_between(x: real, a: real, b: real)
    requires
        0 as real <= a <= x <= b,
    ensures
        a * a <= x * x <= b * b,
{
    lemma_grows(a, x, a);
    lemma_grows(a, x, x);
    lemma_grows(x, b, x);
    lemma_grows(x, b, b);
}

/// The square of a number and a share of it added.
proof fn lemma_square_grown(y: real, u: real)
    ensures
        (y + u * y) * (y + u * y) == y * y + 2 as real * (u * (y * y)) + (u * u) * (y * y),
        (y - u * y) * (y - u * y) == y * y - 2 as real * (u * (y * y)) + (u * u) * (y * y),
{
    let d = u * y;
    assert((y + d) * (y + d) == y * y + 2 as real * (d * y) + d * d) by (nonlinear_arith);
    assert((y - d) * (y - d) == y * y - 2 as real * (d * y) + d * d) by (nonlinear_arith);
    lemma_grouped(u, y, y);
    lemma_pairs(u, y, u, y);
}

/// A number near two others whose squares lie on both sides of `v` has a square near `v`.
proof fn lemma_root_square(x: real, low: real, high: real, v: real, u: real)
    requires
        near(x, low, u),
        near(x, high, u),
        (0 as real) < low <= high,
        low * low <= v <= high * high,
        fine_unit(u),
    ensures
        x > 0 as real,
        within(x * x, v, 3 as real, v, u),
{
    let a = low + u * low;
    let b = high - u * high;
    lemma_square_grown(low, u);
    lemma_square_grown(high, u);
    lemma_grows(u, 1 as real, high);
    lemma_grows(65536 as real * u, 1 as real, high);
    assert((65536 as real * u) * high == 65536 as real * (u * high)) by (nonlinear_arith);
    lemma_nonnegative(u, high);
    assert((0 as real) < b <= x <= a);
    lemma_square_between(x, b, a);
    let l = low * low;
    let h = high * high;
    lemma_nonnegative(low, low);
    lemma_grows(l, v, u);
    lemma_grows(u, 1 as real, u);
    lemma_nonnegative(u, u);
    lemma_grows(u * u, u, l);
    lemma_nonnegative(u * u, h);
    // (1 - 2u) h >= (1 - 2u) v
    assert(h - 2 as real * (u * h) >= v - 2 as real * (u * v)) by {
        let k = 1 as real - 2 as real * u;
        lemma_grows(v, h, k);
        assert(v * k == v - 2 as real * (u * v)) by (nonlinear_arith)
            requires
                k == 1 as real - 2 as real * u,
        ;
        assert(h * k == h - 2 as real * (u * h)) by (nonlinear_arith)
            requires
                k == 1 as real - 2 as real * u,
        ;
    }
    lemma_nonnegative(u, v);
}

/// The digits of a whole root, and their number.
proof fn lemma_root_digits(p: nat, man: nat, k: nat)
    requires
        p >= 1,
        pow2((p - 1) as nat) <= man < pow2(p),
        k >= 2 * (p + 2),
    ensures
        ({
            let n = man * pow2(k);
            let r = floor_sqrt(n);
            &&& r > 0
            &&& bit_len(r) > p
            &&& r * r <= n < (r + 1) * (r + 1)
            &&& 2 * bit_len(r) <= p + k + 1
        }),
{
    let n = man * pow2(k);
    let r = floor_sqrt(n);
    lemma_floor_sqrt(n);
    lemma_pow2_adds((p - 1) as nat, k);
    lemma_pow2_adds(p, k);
    lemma_pow2_pos(k);
    let t = pow2(k);
    let base = pow2((p - 1) as nat);
    let top = pow2(p);
    assert(base * t <= man * t) by (nonlinear_arith)
        requires
            base <= man,
    ;
    assert(man * t < top * t) by (nonlinear_arith)
        requires
            man < top,
            t > 0,
    ;
    let least = pow2(p + 1);
    lemma_pow2_adds(p + 1, p + 1);
    if p + 1 + (p + 1) < (p - 1) + k {
        lemma_pow2_strictly_increases((p + 1 + (p + 1)) as nat, ((p - 1) + k) as nat);
    }
    assert(r >= least) by (nonlinear_arith)
        requires
            least * least <= n,
            n < (r + 1) * (r + 1),
            r >= 0,
            least >= 0,
    ;
    lemma_pow2_pos(p + 1);
    lemma_bit_len(r);
    let len = bit_len(r);
    if len <= p {
        lemma_pow2_strictly_increases(len, p + 1);
        assert(false);
    }
    // The square has at least 2 len - 1 bits.
    let low = pow2((len - 1) as nat);
    lemma_pow2_adds((len - 1) as nat, (len - 1) as nat);
    assert(low * low <= r * r) by (nonlinear_arith)
        requires
            low <= r,
    ;
    if 2 * (len - 1) >= p + k {
        if 2 * (len - 1) > p + k {
            lemma_pow2_strictly_increases(p + k, (2 * (len - 1)) as nat);
        }
        assert((len - 1) as nat + (len - 1) as nat == (2 * (len - 1)) as nat);
        assert(false);
    }
}

/// The square of a rounded root lies within 3 units of rounding of the number under it.
pub proof fn law_root_squares_back(x: HpValue, p: nat, r: int)
    requires
        ranged(x, p, r),
        r >= 0,
        p >= 16,
        real_of(x) >= 0 as real,
        r + 3 * p + 10 <= EXPONENT_LIMIT,
    ensures
        ranged(x.sqrt(), p, r + 2 * p + 6),
        real_of(x.sqrt()) >= 0 as real,
        real_of(x) > 0 as real ==> real_of(x.sqrt()) > 0 as real && x.sqrt().class is Num,
        x.is_zero() ==> x.sqrt().is_zero(),
        within(
            real_of(x.sqrt()) * real_of(x.sqrt()),
            real_of(x),
            3 as real,
            real_of(x),
            unit(p),
        ),
{
    reveal(sqrt_class);
    let u = unit(p);
    lemma_fine_unit(p);
    match x.class {
        Class::Num { neg, man, exp } => {
            lemma_pow2_pos((p - 1) as nat);
            lemma_number_positive(man, exp);
            lemma_signed_real(neg, man, two_to(exp));
            assert(!neg);
            let k = (2 * (p + 2) + exp % 2) as nat;
            let n = man * pow2(k);
            let root = floor_sqrt(n);
            let e = (exp - k) / 2;
            assert(2 * e == exp - k);
            lemma_root_digits(p, man, k);
            let len = bit_len(root);
            let w = two_to(e);
            let v = real_of(x);
            lemma_two_to_pos(e);
            lemma_two_to_sum(e, e);
            lemma_two_to_adds(2 * e, k);
            lemma_product_cast(man as int, pow2(k) as int);
            let nr = n as int as real;
            let mr = man as int as real;
            let kr = pow2(k) as int as real;
            let ww = w * w;
            assert(v == mr * (ww * kr));
            lemma_swapped(ww, kr);
            lemma_grouped(mr, kr, ww);
            assert(v == nr * ww);
            let rr = root as int as real;
            let low = rr * w;
            let high = (rr + 1 as real) * w;
            lemma_product_cast(root as int, root as int);
            lemma_product_cast((root + 1) as int, (root + 1) as int);
            assert(rr * rr <= nr <= (rr + 1 as real) * (rr + 1 as real));
            lemma_pairs(rr, w, rr, w);
            lemma_pairs(rr + 1 as real, w, rr + 1 as real, w);
            lemma_nonnegative(w, w);
            lemma_grows(rr * rr, nr, ww);
            lemma_grows(nr, (rr + 1 as real) * (rr + 1 as real), ww);
            lemma_number_positive(root, e);
            lemma_grows(rr, rr + 1 as real, w);
            let sticky = root * root != n;
            assert(-EXPONENT_LIMIT <= e + len);
            assert(e + len + 1 <= EXPONENT_LIMIT);
            lemma_rounded_is_near(p, false, root, e, sticky, low);
            if sticky {
                lemma_rounded_is_near(p, false, root, e, sticky, high);
                lemma_root_square(real_of(x.sqrt()), low, high, v, u);
            } else {
                lemma_root_square(real_of(x.sqrt()), low, low, v, u);
            }
        },
        _ => {
            assert(u * (0 as real) == 0 as real) by (nonlinear_arith);
        },
    }
}

/// Two steps of error, one after the other.
proof fn lemma_two_steps(x: real, y: real, z: real, u: real)
    requires
        within(x, y, 3 as real, y, u),
        within(y, z, 3 as real, z, u),
        fine_unit(u),
    ensures
        within(x, z, 7 as real, z, u),
{
    let t = u * z;
    lemma_nonnegative(u, z);
    lemma_grows(y, z + 3 as real * t, u);
    lemma_grows(65536 as real * u, 1 as real, z);
    assert((65536 as real * u) * z == 65536 as real * (u * z)) by (nonlinear_arith);
    lemma_grows(z + 3 as real * t, 4 as real * z / 3 as real, u);
    assert(u * (4 as real * z / 3 as real) == 4 as real * (u * z) / 3 as real) by (nonlinear_arith);
}

/// The deviation of a state from even, from the sums of its squared reflection differences and its
/// squared entries: its square times the second sum is the first, within 13 units of rounding, and
/// it vanishes exactly where the first sum does.
pub proof fn law_deviation_on_reals(differences: HpValue, norms: HpValue, p: nat, r: int)
    requires
        room(p, r),
        ranged(differences, p, r),
        ranged(norms, p, r),
        real_of(differences) >= 0 as real,
        real_of(norms) > 0 as real,
    ensures
        ({
            let d = real_of(deviation(differences, norms));
            &&& within(
                (d * d) * real_of(norms),
                real_of(differences),
                13 as real,
                real_of(differences),
                unit(p),
            )
            &&& d >= 0 as real
            &&& d == 0 as real <==> real_of(differences) == 0 as real
        }),
{
    let u = unit(p);
    lemma_fine_unit(p);
    let top = differences.sqrt();
    let below = norms.sqrt();
    law_root_squares_back(differences, p, r);
    law_root_squares_back(norms, p, r);
    let k = r + 2 * p + 6;
    lemma_ratio_is_near(top, below, p, p, k, k);
    let q = real_of(deviation(differences, norms));
    let a = real_of(below);
    let b = real_of(top);
    let v = real_of(differences);
    let n = real_of(norms);
    assert(below.class is Num);
    assert(near(q * a, b, u));
    let t = u * b;
    assert((1 as real) * t == t);
    assert(within(q * a, b, 1 as real, b, u));
    lemma_within_product(q * a, b, 1 as real, b, q * a, b, 1 as real, b, u);
    lemma_nonnegative(b, b);
    lemma_two_steps((q * a) * (q * a), b * b, v, u);
    lemma_pairs(q, a, q, a);
    let x = (q * q) * (a * a);
    assert(near(x, x, u)) by {
        lemma_nonnegative(u, size(x));
    }
    crate::margins::lemma_within_quotient(q * q, x, v, 7 as real, v, a * a, n, 3 as real, u);
    lemma_quotient_sign(top, below, p, k);
    if q == 0 as real {
        assert((0 as real) * a == 0 as real) by (nonlinear_arith);
        lemma_grows(u, 1 as real, b);
        if b > 0 as real {
            lemma_grows(65536 as real * u, 1 as real, b);
            assert((65536 as real * u) * b == 65536 as real * (u * b)) by (nonlinear_arith);
        }
        assert(b == 0 as real);
    }
    if v == 0 as real {
        assert(differences.is_zero()) by {
            if let Class::Num { neg, man, exp } = differences.class {
                lemma_pow2_pos((p - 1) as nat);
                lemma_number_positive(man, exp);
                lemma_signed_real(neg, man, two_to(exp));
            }
        }
        reveal(crate::rounding::div_class);
    }
}

/// The sign of a quotient of numbers that are not negative.
proof fn lemma_quotient_sign(x: HpValue, y: HpValue, p: nat, r: int)
    requires
        ranged(x, p, r),
        ranged(y, p, r),
        y.class is Num,
        real_of(x) >= 0 as real,
        real_of(y) > 0 as real,
        r >= 0,
        2 * r + p + 2 <= EXPONENT_LIMIT,
    ensures
        real_of(x.over(y)) >= 0 as real,
{
    lemma_ratio_is_near(x, y, p, p, r, r);
    lemma_pow2_pos((p - 1) as nat);
    let z = x.over(y);
    if let Class::Num { neg, man, exp } = z.class {
        lemma_number_positive(man, exp);
        lemma_signed_real(neg, man, two_to(exp));
        lemma_number_positive(y.class->man, y.class->exp);
        lemma_signed_real(y.class->Num_neg, y.class->man, two_to(y.class->exp));
        if x.class is Num {
            lemma_number_positive(x.class->man, x.class->exp);
            lemma_signed_real(x.class->Num_neg, x.class->man, two_to(x.class->exp));
        } else {
            reveal(crate::rounding::div_class);
        }
    }
}

} // verus!
