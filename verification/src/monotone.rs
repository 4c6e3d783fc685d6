//! Rounding keeps order: sums rise with their terms, and midpoints lie between their ends.

use crate::accuracy::law_sums_and_products_commute;
use crate::closeness::{lemma_signed_real, lemma_total_is_near, ranged};
use crate::limbs::{bit_len, lemma_bit_len, lemma_bit_len_unique};
use crate::order::{exponent_of, law_numbers_are_comparable, lemma_order_at, scaled_int};
use crate::reals::{lemma_real_at, lemma_two, lemma_two_to_pos, real_of, two_to};
use crate::rounding::{
    add_class, aligned_sum, class_at, div_class, hp_word, lemma_nearest_bits, lemma_top_bits,
    magnitude, min_int, nearest, rounded, signed, Class, HpValue, EXPONENT_LIMIT,
};
use crate::secular::midpoint;
use vstd::arithmetic::div_mod::*;
use vstd::arithmetic::power2::*;
use vstd::prelude::*;

verus! {

/// A whole number rounded to `p` bits, as a whole number again.
pub open spec fn rounded_whole(p: nat, n: nat) -> nat {
    let len = bit_len(n);
    if len <= p {
        n
    } else {
        let unit = pow2((len - p) as nat);
        let half = pow2((len - p - 1) as nat);
        let q = n / unit;
        let r = n % unit;
        if r > half || (r == half && q % 2 == 1) {
            (q + 1) * unit
        } else {
            q * unit
        }
    }
}

/// The rounded whole number is what significand and exponent stand for.
proof fn lemma_rounded_whole(p: nat, n: nat, e: int)
    requires
        p >= 1,
        n > 0,
    ensures
        ({
            let (man, exp) = nearest(p, n, e, false);
            (man as int as real) * two_to(exp) == (rounded_whole(p, n) as int as real) * two_to(e)
        }),
{
    reveal(nearest);
    let len = bit_len(n);
    let (man, exp) = nearest(p, n, e, false);
    if len <= p {
        let k = (p - len) as nat;
        lemma_real_at(false, n, e, exp);
    } else {
        let d = (len - p) as nat;
        let unit = pow2(d);
        let q = n / unit;
        let r = n % unit;
        let half = pow2((d - 1) as nat);
        let m: nat = if r > half || (r == half && q % 2 == 1) {
            q + 1
        } else {
            q
        };
        if m == pow2(p) {
            lemma_pow2_unfold(p);
            lemma_pow2_unfold((d + 1) as nat);
            let t = pow2((p - 1) as nat);
            assert(t * pow2((d + 1) as nat) == m * unit) by (nonlinear_arith)
                requires
                    pow2((d + 1) as nat) == 2 * unit,
                    m == 2 * t,
            ;
            lemma_real_at(false, t, exp, e);
        } else {
            lemma_real_at(false, m, exp, e);
        }
    }
}

proof fn lemma_parts(n: nat, p: nat)
    requires
        bit_len(n) > p >= 1,
    ensures
        ({
            let d = (bit_len(n) - p) as nat;
            let unit = pow2(d);
            &&& n == unit * (n / unit) + n % unit
            &&& n % unit < unit
            &&& pow2((p - 1) as nat) <= n / unit < pow2(p)
            &&& unit == 2 * pow2((d - 1) as nat)
            &&& unit > 0
            &&& pow2((p - 1) as nat) * unit == pow2((bit_len(n) - 1) as nat)
            &&& pow2(p) * unit == pow2(bit_len(n))
        }),
{
    let d = (bit_len(n) - p) as nat;
    lemma_top_bits(n, p);
    lemma_pow2_pos(d);
    lemma_pow2_unfold(d);
    lemma_fundamental_div_mod(n as int, pow2(d) as int);
    lemma_mod_bound(n as int, pow2(d) as int);
    lemma_pow2_adds((p - 1) as nat, d);
    lemma_pow2_adds(p, d);
}

/// A larger whole number is rounded to one that is no smaller.
proof fn lemma_rounded_whole_rises(p: nat, a: nat, b: nat)
    requires
        p >= 1,
        0 < a <= b,
    ensures
        rounded_whole(p, a) <= rounded_whole(p, b),
{
    let la = bit_len(a);
    let lb = bit_len(b);
    lemma_bit_len(a);
    lemma_bit_len(b);
    if la > lb {
        if lb < la - 1 {
            lemma_pow2_strictly_increases(lb, (la - 1) as nat);
        }
        assert(false);
    }
    if lb > p {
        lemma_parts(b, p);
        let ub = pow2((lb - p) as nat);
        let qb = b / ub;
        let top = pow2((p - 1) as nat);
        assert(top * ub <= qb * ub) by (nonlinear_arith)
            requires
                top <= qb,
        ;
        assert((qb + 1) * ub == qb * ub + ub) by (nonlinear_arith);
        assert(rounded_whole(p, b) >= pow2((lb - 1) as nat));
        if la < lb {
            if la < lb - 1 {
                lemma_pow2_strictly_increases(la, (lb - 1) as nat);
            }
            if la > p {
                lemma_parts(a, p);
                let ua = pow2((la - p) as nat);
                let qa = a / ua;
                assert((qa + 1) * ua <= pow2(p) * ua) by (nonlinear_arith)
                    requires
                        qa + 1 <= pow2(p),
                ;
                assert((qa + 1) * ua == qa * ua + ua) by (nonlinear_arith);
            }
        } else {
            lemma_parts(a, p);
            let qa = a / ub;
            assert(ub * qa == qa * ub) by (nonlinear_arith);
            assert(ub * qb == qb * ub) by (nonlinear_arith);
            assert((qa + 1) * ub == qa * ub + ub) by (nonlinear_arith);
            if qa > qb {
                assert((qb + 1) * ub <= qa * ub) by (nonlinear_arith)
                    requires
                        qb + 1 <= qa,
                ;
                assert(false);
            }
            if qa < qb {
                assert((qa + 1) * ub <= qb * ub) by (nonlinear_arith)
                    requires
                        qa + 1 <= qb,
                ;
            }
        }
    }
}

/// Rounding does not depend on the exponent that a number is written at.
proof fn lemma_rounding_rescaled(p: nat, n: nat, e: int, k: nat)
    requires
        p >= 1,
        n > 0,
    ensures
        nearest(p, n * pow2(k), e - k, false) == nearest(p, n, e, false),
        bit_len(n * pow2(k)) == bit_len(n) + k,
        n * pow2(k) > 0,
    decreases k,
{
    if k == 0 {
        lemma2_to64();
        assert(n * 1 == n);
    } else {
        let j = (k - 1) as nat;
        lemma_rounding_rescaled(p, n, e, j);
        lemma_pow2_unfold(k);
        let m = n * pow2(j);
        assert(n * (2 * pow2(j)) == 2 * (n * pow2(j))) by (nonlinear_arith);
        lemma_rounding_doubled(p, m, e - j);
    }
}

proof fn lemma_rounding_doubled(p: nat, n: nat, e: int)
    requires
        p >= 1,
        n > 0,
    ensures
        nearest(p, 2 * n, e - 1, false) == nearest(p, n, e, false),
        bit_len(2 * n) == bit_len(n) + 1,
{
    reveal(nearest);
    let len = bit_len(n);
    lemma_bit_len(n);
    assert(bit_len(2 * n) == 1 + bit_len((2 * n) / 2));
    assert((2 * n) / 2 == n);
    if len < p {
        let s = (p - len) as nat;
        lemma_pow2_unfold(s);
        let t = pow2((s - 1) as nat);
        assert((2 * n) * t == n * (2 * t)) by (nonlinear_arith);
    } else if len == p {
        lemma2_to64();
        assert(n * 1 == n);
        assert((2 * n) / 2 == n);
        assert((2 * n) % 2 == 0);
    } else {
        let d = (len - p) as nat;
        let unit = pow2(d);
        let q = n / unit;
        let r = n % unit;
        lemma_pow2_pos(d);
        lemma_pow2_unfold((d + 1) as nat);
        lemma_pow2_unfold(d);
        lemma_fundamental_div_mod(n as int, unit as int);
        lemma_mod_bound(n as int, unit as int);
        let twice = 2 * unit;
        assert(2 * n == twice * q + 2 * r) by (nonlinear_arith)
            requires
                n == unit * q + r,
                twice == 2 * unit,
        ;
        assert(twice * q == q * twice) by (nonlinear_arith);
        lemma_fundamental_div_mod_converse(2 * n as int, twice as int, q as int, 2 * r as int);
        assert((d + 1 - 1) as nat == d);
    }
}

/// A whole number of units `2^e`, rounded to `p` bits, with its sign.
pub open spec fn rounded_units(p: nat, s: int, e: int) -> HpValue {
    HpValue {
        prec: p,
        class: if s == 0 {
            Class::Zero { neg: false }
        } else {
            rounded(p, s < 0, magnitude(s), e, false)
        },
    }
}

/// A whole number of units that keeps clear of both ends of the exponent range.
pub open spec fn clear(s: int, e: int, k: nat) -> bool {
    magnitude(s) < pow2(k) && -EXPONENT_LIMIT <= e && e + k + 1 <= EXPONENT_LIMIT
}

proof fn lemma_units_value(p: nat, s: int, e: int, k: nat)
    requires
        p >= 1,
        clear(s, e, k),
    ensures
        real_of(rounded_units(p, s, e)) == (signed(s < 0, rounded_whole(p, magnitude(s))) as real)
            * two_to(e),
        s == 0 ==> rounded_whole(p, magnitude(s)) == 0,
{
    let n = magnitude(s);
    let w = two_to(e);
    if s == 0 {
        assert((0 as real) * w == 0 as real) by (nonlinear_arith);
        assert(bit_len(0) == 0);
    } else {
        lemma_rounded_whole(p, n, e);
        lemma_nearest_bits(p, n, e, false);
        let (man, exp) = nearest(p, n, e, false);
        crate::reals::lemma_short(n, k);
        lemma_bit_len(n);
        reveal(rounded);
        lemma_nearest_exponent(p, n, e);
        lemma_signed_real(s < 0, man, two_to(exp));
        lemma_signed_real(s < 0, rounded_whole(p, n), w);
    }
}

proof fn lemma_nearest_exponent(p: nat, n: nat, e: int)
    requires
        p >= 1,
        n > 0,
    ensures
        e + bit_len(n) <= nearest(p, n, e, false).1 + p <= e + bit_len(n) + 1,
{
    reveal(nearest);
}

/// Rounded whole numbers of one unit keep their order.
proof fn lemma_units_rise(p: nat, a: int, b: int, e: int, k: nat)
    requires
        p >= 1,
        a <= b,
        clear(a, e, k),
        clear(b, e, k),
    ensures
        real_of(rounded_units(p, a, e)) <= real_of(rounded_units(p, b, e)),
{
    lemma_units_value(p, a, e, k);
    lemma_units_value(p, b, e, k);
    lemma_two_to_pos(e);
    let x = signed(a < 0, rounded_whole(p, magnitude(a)));
    let y = signed(b < 0, rounded_whole(p, magnitude(b)));
    if 0 < a {
        lemma_rounded_whole_rises(p, magnitude(a), magnitude(b));
    } else if b < 0 {
        lemma_rounded_whole_rises(p, magnitude(b), magnitude(a));
    }
    assert(x <= y);
    let xr = x as real;
    let yr = y as real;
    let w = two_to(e);
    assert(xr * w <= yr * w) by (nonlinear_arith)
        requires
            xr <= yr,
            w > 0 as real,
    ;
}

/// A lower bound on the exponent of a value, where it is a number.
pub open spec fn at_or_below(e: int, x: HpValue) -> bool {
    x.class matches Class::Num { exp, .. } ==> e <= exp
}

/// A finite value as a whole number of units.
proof fn lemma_scaled_real(x: HpValue, e: int)
    requires
        at_or_below(e, x),
        x.is_finite(),
    ensures
        real_of(x) == (scaled_int(x.class, e) as real) * two_to(e),
{
    let w = two_to(e);
    match x.class {
        Class::Num { neg, man, exp } => {
            lemma_real_at(neg, man, exp, e);
        },
        _ => {
            assert((0 as real) * w == 0 as real) by (nonlinear_arith);
        },
    }
}

proof fn lemma_whole_order(a: int, b: int, w: real)
    requires
        w > 0 as real,
    ensures
        (a as real) * w <= (b as real) * w <==> a <= b,
        (a as real) * w < (b as real) * w <==> a < b,
{
    let x = a as real;
    let y = b as real;
    if a <= b {
        assert(x * w <= y * w) by (nonlinear_arith)
            requires
                x <= y,
                w > 0 as real,
        ;
    }
    if b <= a {
        assert(y * w <= x * w) by (nonlinear_arith)
            requires
                y <= x,
                w > 0 as real,
        ;
    }
    if a < b {
        assert(x * w < y * w) by (nonlinear_arith)
            requires
                x < y,
                w > 0 as real,
        ;
    }
    if b < a {
        assert(y * w < x * w) by (nonlinear_arith)
            requires
                y < x,
                w > 0 as real,
        ;
    }
}

/// The order of finite values is the order of their numbers.
pub proof fn law_order_is_that_of_numbers(x: HpValue, y: HpValue)
    requires
        x.wf(),
        y.wf(),
        x.is_finite(),
        y.is_finite(),
    ensures
        x.lt(y) <==> real_of(x) < real_of(y),
        x.le(y) <==> real_of(x) <= real_of(y),
        x.eqv(y) <==> real_of(x) == real_of(y),
{
    law_numbers_are_comparable(x);
    law_numbers_are_comparable(y);
    let e = min_int(exponent_of(x.class), exponent_of(y.class));
    lemma_order_at(x.class, y.class, e);
    lemma_scaled_real(x, e);
    lemma_scaled_real(y, e);
    lemma_two_to_pos(e);
    lemma_whole_order(scaled_int(x.class, e), scaled_int(y.class, e), two_to(e));
    lemma_whole_order(scaled_int(y.class, e), scaled_int(x.class, e), two_to(e));
}

/// A whole number of units, written at a smaller unit, rounds to the same value.
proof fn lemma_units_rescaled(p: nat, s: int, e: int, k: nat, m: nat)
    requires
        p >= 1,
        clear(s, e, m),
    ensures
        rounded_units(p, s * pow2(k), e - k) == rounded_units(p, s, e),
{
    lemma_pow2_pos(k);
    let t = pow2(k) as int;
    if s != 0 {
        let n = magnitude(s);
        lemma_rounding_rescaled(p, n, e, k);
        if s > 0 {
            assert(s * t > 0) by (nonlinear_arith)
                requires
                    s > 0,
                    t > 0,
            ;
        } else {
            assert(s * t < 0) by (nonlinear_arith)
                requires
                    s < 0,
                    t > 0,
            ;
            assert(-(s * t) == (-s) * t) by (nonlinear_arith);
        }
        assert(magnitude(s * t) == n * pow2(k));
        lemma_nearest_exponent(p, n, e);
        lemma_bit_len(n);
        reveal(rounded);
    } else {
        assert(0 * t == 0) by (nonlinear_arith);
    }
}

/// A sum is the rounded sum of whole numbers of any unit that both terms are multiples of.
proof fn lemma_sum_in_units(x: HpValue, y: HpValue, p: nat, q: nat, r: int, e: int)
    requires
        ranged(x, p, r),
        ranged(y, q, r),
        r + 2 <= EXPONENT_LIMIT,
        -EXPONENT_LIMIT <= e <= r,
        at_or_below(e, x),
        at_or_below(e, y),
    ensures
        ({
            let s = scaled_int(x.class, e) + scaled_int(y.class, e);
            &&& real_of(x.plus(y)) == real_of(rounded_units(p, s, e))
            &&& clear(s, e, (r - e + 1) as nat)
        }),
{
    reveal(add_class);
    reveal(class_at);
    lemma_pow2_unfold((r - e + 1) as nat);
    lemma_pow2_pos((r - e) as nat);
    lemma_scaled_small(x, p, r, e);
    lemma_scaled_small(y, q, r, e);
    match (x.class, y.class) {
        (Class::Zero { .. }, Class::Num { neg, man, exp }) => {
            lemma_number_in_units(y, p, q, r, e);
        },
        (Class::Num { neg, man, exp }, Class::Zero { .. }) => {
            lemma_number_in_units(x, p, p, r, e);
        },
        (Class::Num { neg: na, man: ma, exp: ea }, Class::Num { neg: nb, man: mb, exp: eb }) => {
            let m = min_int(ea, eb);
            let k = (m - e) as nat;
            let s = aligned_sum(na, ma, ea, nb, mb, eb);
            lemma_pow2_adds((ea - m) as nat, k);
            lemma_pow2_adds((eb - m) as nat, k);
            lemma_shifted_signed(na, ma, (ea - m) as nat, k);
            lemma_shifted_signed(nb, mb, (eb - m) as nat, k);
            let a = signed(na, ma * pow2((ea - m) as nat));
            let b = signed(nb, mb * pow2((eb - m) as nat));
            let t = pow2(k) as int;
            assert((a + b) * t == a * t + b * t) by (nonlinear_arith);
            assert((ea - m) as nat + k == (ea - e) as nat);
            assert((eb - m) as nat + k == (eb - e) as nat);
            lemma_pow2_unfold((r - m + 1) as nat);
            lemma_scaled_small(x, p, r, m);
            lemma_scaled_small(y, q, r, m);
            lemma_units_rescaled(p, s, m, k, (r - m + 1) as nat);
        },
        _ => {},
    }
}

proof fn lemma_shifted_signed(neg: bool, man: nat, j: nat, k: nat)
    ensures
        signed(neg, man * pow2(j)) * pow2(k) == signed(neg, man * pow2(j + k)),
{
    lemma_pow2_adds(j, k);
    let a = man as int;
    let b = pow2(j) as int;
    let c = pow2(k) as int;
    assert((a * b) * c == a * (b * c)) by (nonlinear_arith);
    assert((-(a * b)) * c == -((a * b) * c)) by (nonlinear_arith);
}

proof fn lemma_scaled_small(x: HpValue, p: nat, r: int, e: int)
    requires
        ranged(x, p, r),
        at_or_below(e, x),
        e <= r,
    ensures
        magnitude(scaled_int(x.class, e)) < pow2((r - e) as nat),
{
    lemma_pow2_pos((r - e) as nat);
    if let Class::Num { neg, man, exp } = x.class {
        crate::reals::lemma_shifted_below(man, p, (exp - e) as nat, r - e);
    }
}

proof fn lemma_number_in_units(y: HpValue, p: nat, q: nat, r: int, e: int)
    requires
        p >= 1,
        ranged(y, q, r),
        r + 2 <= EXPONENT_LIMIT,
        -EXPONENT_LIMIT <= e <= r,
        at_or_below(e, y),
        y.class is Num,
    ensures
        class_at(p, y.class) == rounded_units(p, scaled_int(y.class, e), e).class,
{
    reveal(class_at);
    if let Class::Num { neg, man, exp } = y.class {
        let s = signed(neg, man);
        let k = (exp - e) as nat;
        lemma_pow2_pos((q - 1) as nat);
        lemma2_to64();
        lemma_shifted_signed(neg, man, 0, k);
        assert(man * 1 == man);
        lemma_units_rescaled(p, s, exp, k, q);
    }
}

/// A sum rises with its second term.
pub proof fn law_sum_rises(x: HpValue, a: HpValue, b: HpValue, p: nat, q: nat, r: int)
    requires
        ranged(x, p, r),
        ranged(a, q, r),
        ranged(b, q, r),
        0 <= r,
        r + 2 <= EXPONENT_LIMIT,
        real_of(a) <= real_of(b),
    ensures
        real_of(x.plus(a)) <= real_of(x.plus(b)),
{
    let e = -r;
    lemma_sum_in_units(x, a, p, q, r, e);
    lemma_sum_in_units(x, b, p, q, r, e);
    lemma_scaled_real(a, e);
    lemma_scaled_real(b, e);
    lemma_two_to_pos(e);
    lemma_whole_order(scaled_int(a.class, e), scaled_int(b.class, e), two_to(e));
    lemma_units_rise(
        p,
        scaled_int(x.class, e) + scaled_int(a.class, e),
        scaled_int(x.class, e) + scaled_int(b.class, e),
        e,
        (r - e + 1) as nat,
    );
}

/// A value added to itself is twice the value.
proof fn lemma_doubled(x: HpValue, p: nat, r: int)
    requires
        ranged(x, p, r),
        0 <= r,
        r + 2 <= EXPONENT_LIMIT,
    ensures
        real_of(x.plus(x)) == 2 as real * real_of(x),
{
    reveal(add_class);
    if let Class::Num { neg, man, exp } = x.class {
        lemma2_to64();
        lemma_pow2_pos((p - 1) as nat);
        lemma_bit_len_unique(man, p);
        assert(man * 1 == man);
        assert(aligned_sum(neg, man, exp, neg, man, exp) == 2 * signed(neg, man));
        lemma_rounding_doubled(p, man, exp + 1);
        reveal(nearest);
        reveal(rounded);
        assert(nearest(p, man, exp + 1, false) == (man, exp + 1));
        crate::reals::lemma_two_to_next(exp);
        let a = signed(neg, man) as real;
        let w = two_to(exp);
        assert(a * (2 as real * w) == 2 as real * (a * w)) by (nonlinear_arith);
    }
}

/// Half of a value is exact.
proof fn lemma_halved(x: HpValue, p: nat, r: int)
    requires
        ranged(x, p, r),
        0 <= r,
        r + p + 70 <= EXPONENT_LIMIT,
    ensures
        2 as real * real_of(x.over(hp_word(2))) == real_of(x),
        ranged(x.over(hp_word(2)), p, r + 1),
{
    reveal(div_class);
    lemma_two(64);
    if let Class::Num { neg, man, exp } = x.class {
        let b = pow2(63);
        lemma_pow2_pos(63);
        lemma_pow2_unfold(64);
        lemma_bit_len_unique(b, 64);
        let k = p + 2 + 64;
        let j = (p + 3) as nat;
        lemma_pow2_adds(j, 63);
        assert(j + 63 == k);
        let t = pow2(j);
        assert(man * (t * b) == (man * t) * b) by (nonlinear_arith);
        lemma_fundamental_div_mod_converse(
            (man * pow2(k)) as int,
            b as int,
            (man * t) as int,
            0,
        );
        lemma_pow2_pos((p - 1) as nat);
        lemma_rounding_rescaled(p, man, exp - 1, j);
        lemma_bit_len_unique(man, p);
        reveal(nearest);
        reveal(rounded);
        lemma2_to64();
        assert(man * 1 == man);
        assert(nearest(p, man, exp - 1, false) == (man, exp - 1));
        assert(exp - (2 - 64) - k == (exp - 1) - j);
        crate::reals::lemma_two_to_next(exp - 1);
        let a = signed(neg, man) as real;
        let w = two_to(exp - 1);
        assert(a * (2 as real * w) == 2 as real * (a * w)) by (nonlinear_arith);
    }
}

/// A midpoint lies between its ends.
pub proof fn law_midpoint_lies_between(lo: HpValue, hi: HpValue, p: nat, r: int)
    requires
        ranged(lo, p, r),
        ranged(hi, p, r),
        0 <= r,
        r + 2 * p + 80 <= EXPONENT_LIMIT,
        real_of(lo) <= real_of(hi),
    ensures
        real_of(lo) <= real_of(midpoint(lo, hi)) <= real_of(hi),
        ranged(midpoint(lo, hi), p, r + p + 3),
{
    law_sum_rises(lo, lo, hi, p, p, r);
    law_sum_rises(hi, lo, hi, p, p, r);
    law_sums_and_products_commute(lo, hi);
    lemma_doubled(lo, p, r);
    lemma_doubled(hi, p, r);
    lemma_total_is_near(lo, hi, p, p, r);
    lemma_halved(lo.plus(hi), p, r + p + 2);
}

} // verus!
