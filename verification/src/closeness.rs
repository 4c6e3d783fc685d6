//! How near chains of rounded operations lie to the exact value of a formula.

use crate::limbs::{bit_len, lemma_bit_len, lemma_bit_len_unique};
use crate::margins::{
    fine_unit, lemma_within_product, lemma_within_quotient, lemma_within_rounded, lemma_within_sum,
    small_factor, within,
};
use crate::reals::{
    lemma_negative, lemma_product_cast, lemma_quotient_between, lemma_quotient_exact,
    lemma_quotient_length, lemma_real_at, lemma_rounded_is_near, lemma_scaled_near,
    lemma_shifted_below, lemma_short, lemma_two_to_pos, lemma_two_to_sum, near, real_of, size,
    sized, two_to, unit,
};
use crate::rounding::{
    add_class, aligned_sum, class_at, div_class, hp_int, magnitude, min_int, mul_class, signed,
    Class, HpValue, EXPONENT_LIMIT,
};
use vstd::arithmetic::div_mod::*;
use vstd::arithmetic::power2::*;
use vstd::prelude::*;

verus! {

/// A finite value of a precision whose exponent keeps within a distance of zero.
pub open spec fn ranged(x: HpValue, p: nat, r: int) -> bool {
    sized(x, p, -r, r)
}

/// The real number of a number as a signed product.
pub proof fn lemma_signed_real(neg: bool, man: nat, w: real)
    ensures
        (signed(neg, man) as real) * w == if neg {
            -((man as int as real) * w)
        } else {
            (man as int as real) * w
        },
{
    let a = man as int as real;
    assert((-a) * w == -(a * w)) by (nonlinear_arith);
}

/// A number of nonzero significand times a power of two is positive.
pub proof fn lemma_number_positive(man: nat, exp: int)
    requires
        man > 0,
    ensures
        (man as int as real) * two_to(exp) > 0 as real,
        ((man + 1) as int as real) * two_to(exp) >= (man as int as real) * two_to(exp),
{
    lemma_two_to_pos(exp);
    let a = man as int as real;
    let w = two_to(exp);
    assert(a * w > 0 as real) by (nonlinear_arith)
        requires
            a >= 1 as real,
            w > 0 as real,
    ;
    assert((a + 1 as real) * w >= a * w) by (nonlinear_arith)
        requires
            w > 0 as real,
    ;
}

proof fn lemma_zero_is_near(p: nat)
    ensures
        near(0 as real, 0 as real, unit(p)),
{
    let u = unit(p);
    assert(u * (0 as real) == 0 as real) by (nonlinear_arith);
}

/// A number of at most `k` bits, rounded.
proof fn lemma_rounded_number(p: nat, neg: bool, n: nat, e: int, k: nat)
    requires
        p >= 1,
        0 < n < pow2(k),
        -EXPONENT_LIMIT <= e,
        e + k + 1 <= EXPONENT_LIMIT,
    ensures
        ({
            let x = HpValue { prec: p, class: crate::rounding::rounded(p, neg, n, e, false) };
            let v = (n as int as real) * two_to(e);
            &&& x.class is Num
            &&& x.class->Num_neg == neg
            &&& sized(x, p, e - p, e + k + 1)
            &&& near(
                real_of(x),
                if neg {
                    -v
                } else {
                    v
                },
                unit(p),
            )
        }),
{
    let v = (n as int as real) * two_to(e);
    lemma_bit_len(n);
    lemma_short(n, k);
    lemma_number_positive(n, e);
    lemma_rounded_is_near(p, neg, n, e, false, v);
}

/// A product moves by at most the unit of rounding.
pub proof fn lemma_product_is_near(x: HpValue, y: HpValue, p: nat, q: nat, r: int, s: int)
    requires
        ranged(x, p, r),
        ranged(y, q, s),
        r >= 0,
        s >= 0,
        r + s + 1 <= EXPONENT_LIMIT,
    ensures
        ranged(x.times(y), p, r + s + p + 1),
        near(real_of(x.times(y)), real_of(x) * real_of(y), unit(p)),
        x.class is Num && y.class is Num ==> x.times(y).class is Num && (
        x.times(y).class->Num_neg == (x.class->Num_neg != y.class->Num_neg)),
        x.is_zero() || y.is_zero() ==> x.times(y).is_zero(),
{
    reveal(mul_class);
    lemma_zero_is_near(p);
    let a = real_of(x);
    let b = real_of(y);
    assert((0 as real) * b == 0 as real) by (nonlinear_arith);
    assert(a * (0 as real) == 0 as real) by (nonlinear_arith);
    match (x.class, y.class) {
        (Class::Num { neg: na, man: ma, exp: ea }, Class::Num { neg: nb, man: mb, exp: eb }) => {
            lemma_pow2_pos((p - 1) as nat);
            lemma_pow2_pos((q - 1) as nat);
            lemma_pow2_adds(p, q);
            let top = pow2(p);
            let other = pow2(q);
            assert(0 < ma * mb < top * other) by (nonlinear_arith)
                requires
                    0 < ma < top,
                    0 < mb < other,
            ;
            lemma_rounded_number(p, na != nb, ma * mb, ea + eb, p + q);
            lemma_two_to_sum(ea, eb);
            lemma_product_cast(ma as int, mb as int);
            lemma_signed_real(na, ma, two_to(ea));
            lemma_signed_real(nb, mb, two_to(eb));
            let ar = ma as int as real;
            let br = mb as int as real;
            let wa = two_to(ea);
            let wb = two_to(eb);
            assert((ar * wa) * (br * wb) == (ar * br) * (wa * wb)) by (nonlinear_arith);
            let f = ar * wa;
            let g = br * wb;
            assert((-f) * g == -(f * g)) by (nonlinear_arith);
            assert(f * (-g) == -(f * g)) by (nonlinear_arith);
            assert((-f) * (-g) == f * g) by (nonlinear_arith);
        },
        _ => {},
    }
}

/// A value taken to another precision moves by at most the unit of rounding.
pub proof fn lemma_precision_is_near(x: HpValue, q: nat, r: int, p: nat)
    requires
        ranged(x, q, r),
        p >= 1,
        r + 1 <= EXPONENT_LIMIT,
    ensures
        ranged(x.at(p), p, r + p + 1),
        near(real_of(x.at(p)), real_of(x), unit(p)),
        x.class is Num ==> x.at(p).class is Num,
{
    reveal(class_at);
    lemma_zero_is_near(p);
    if let Class::Num { neg, man, exp } = x.class {
        lemma_pow2_pos((q - 1) as nat);
        lemma_rounded_number(p, neg, man, exp, q);
        lemma_signed_real(neg, man, two_to(exp));
    }
}

/// A sum of values of any two precisions moves by at most the unit of rounding.
pub proof fn lemma_total_is_near(x: HpValue, y: HpValue, p: nat, q: nat, r: int)
    requires
        ranged(x, p, r),
        ranged(y, q, r),
        r + 2 <= EXPONENT_LIMIT,
    ensures
        ranged(x.plus(y), p, r + p + 2),
        near(real_of(x.plus(y)), real_of(x) + real_of(y), unit(p)),
{
    reveal(add_class);
    lemma_zero_is_near(p);
    match (x.class, y.class) {
        (Class::Zero { .. }, Class::Num { .. }) => {
            lemma_precision_is_near(y, q, r, p);
        },
        (Class::Num { .. }, Class::Zero { .. }) => {
            lemma_precision_is_near(x, p, r, p);
        },
        (Class::Num { neg: na, man: ma, exp: ea }, Class::Num { neg: nb, man: mb, exp: eb }) => {
            let e = min_int(ea, eb);
            let s = aligned_sum(na, ma, ea, nb, mb, eb);
            lemma_real_at(na, ma, ea, e);
            lemma_real_at(nb, mb, eb, e);
            let a = signed(na, ma * pow2((ea - e) as nat)) as real;
            let b = signed(nb, mb * pow2((eb - e) as nat)) as real;
            let w = two_to(e);
            assert(a * w + b * w == (a + b) * w) by (nonlinear_arith);
            let t = real_of(x) + real_of(y);
            assert(t == (s as real) * w);
            if s == 0 {
                assert((0 as real) * w == 0 as real) by (nonlinear_arith);
            } else {
                let n = magnitude(s);
                lemma_shifted_below(ma, p, (ea - e) as nat, r - e);
                lemma_shifted_below(mb, q, (eb - e) as nat, r - e);
                lemma_pow2_unfold((r - e + 1) as nat);
                lemma_rounded_number(p, s < 0, n, e, (r - e + 1) as nat);
                lemma_signed_real(s < 0, n, w);
                assert(signed(s < 0, n) == s);
            }
        },
        _ => {},
    }
}

/// A difference of values of any two precisions moves by at most the unit of rounding.
pub proof fn lemma_gap_is_near(x: HpValue, y: HpValue, p: nat, q: nat, r: int)
    requires
        ranged(x, p, r),
        ranged(y, q, r),
        r + 2 <= EXPONENT_LIMIT,
    ensures
        ranged(x.minus(y), p, r + p + 2),
        near(real_of(x.minus(y)), real_of(x) - real_of(y), unit(p)),
{
    lemma_negative(y);
    lemma_total_is_near(x, y.negated(), p, q, r);
}

/// A quotient times its divisor lies within the unit of rounding of the dividend.
pub proof fn lemma_ratio_is_near(x: HpValue, y: HpValue, p: nat, q: nat, r: int, s: int)
    requires
        ranged(x, p, r),
        ranged(y, q, s),
        y.class is Num,
        r >= 0,
        s >= 0,
        r + s + p + 2 <= EXPONENT_LIMIT,
    ensures
        ranged(x.over(y), p, r + s + 2 * p + 2),
        near(real_of(x.over(y)) * real_of(y), real_of(x), unit(p)),
        x.class is Num ==> x.over(y).class is Num && (x.over(y).class->Num_neg == (
        x.class->Num_neg != y.class->Num_neg)),
{
    reveal(div_class);
    lemma_zero_is_near(p);
    let mb = y.class->man;
    let eb = y.class->exp;
    let nb = y.class->Num_neg;
    lemma_pow2_pos((q - 1) as nat);
    lemma_bit_len_unique(mb, q);
    lemma_number_positive(mb, eb);
    lemma_signed_real(nb, mb, two_to(eb));
    let b = mb as int as real;
    let d = b * two_to(eb);
    match x.class {
        Class::Zero { .. } => {
            let f = real_of(y);
            assert((0 as real) * f == 0 as real) by (nonlinear_arith);
        },
        Class::Num { neg, man: ma, exp: ea } => {
            let k = p + 2 + q;
            let n = ma * pow2(k);
            let quotient = n / mb;
            let e = ea - eb - k;
            lemma_pow2_pos((p - 1) as nat);
            lemma_quotient_length(ma, mb, p, q);
            lemma_number_positive(ma, ea);
            let a = ma as int as real;
            let c = a * two_to(ea);
            let v = c / d;
            lemma_quotient_between(ma, ea, mb, eb, k, quotient, v);
            if n % mb == 0 {
                lemma_quotient_exact(ma, ea, mb, eb, k, quotient, v);
            }
            lemma_rounded_is_near(p, neg != nb, quotient, e, n % mb != 0, v);
            lemma_signed_real(neg, ma, two_to(ea));
            assert(v * d == c) by (nonlinear_arith)
                requires
                    v == c / d,
                    d > 0 as real,
            ;
            let z = real_of(x.over(y));
            let t = if neg != nb {
                -v
            } else {
                v
            };
            lemma_scaled_near(z, t, unit(p), d);
            assert((-v) * d == -(v * d)) by (nonlinear_arith);
            assert(z * (-d) == -(z * d)) by (nonlinear_arith);
        },
        _ => {},
    }
}

/// An integer moves by at most the unit of rounding, and not at all where its digits fit.
pub proof fn lemma_integer_is_near(p: nat, i: int, k: nat)
    requires
        p >= 1,
        magnitude(i) < pow2(k),
        k + 1 <= EXPONENT_LIMIT,
    ensures
        ranged(hp_int(p, i), p, (p + k + 1) as int),
        near(real_of(hp_int(p, i)), i as real, unit(p)),
        i != 0 ==> hp_int(p, i).class is Num && (hp_int(p, i).class->Num_neg == (i < 0)),
        k <= p ==> real_of(hp_int(p, i)) == i as real,
{
    lemma_zero_is_near(p);
    if i != 0 {
        let n = magnitude(i);
        lemma_rounded_number(p, i < 0, n, 0, k);
        assert(two_to(0) == 1 as real) by {
            lemma2_to64();
        }
        let nr = n as int as real;
        assert(nr * (1 as real) == nr) by (nonlinear_arith);
        if k <= p {
            lemma_short(n, k);
            reveal(crate::rounding::rounded);
            reveal(crate::rounding::nearest);
            let j = (p - bit_len(n)) as nat;
            lemma_real_at(i < 0, n, 0, -(j as int));
            let a = signed(i < 0, n) as real;
            assert(a * (1 as real) == a) by (nonlinear_arith);
        }
    }
}

/// A value of a precision and range that stands for a number, within `c` units at a scale.
pub open spec fn stands(x: HpValue, p: nat, r: int, y: real, c: real, s: real, u: real) -> bool {
    ranged(x, p, r) && within(real_of(x), y, c, s, u)
}

/// A value stands for its own number.
pub proof fn lemma_stands(x: HpValue, p: nat, r: int, u: real)
    requires
        ranged(x, p, r),
    ensures
        stands(x, p, r, real_of(x), 0 as real, size(real_of(x)), u),
{
    let t = u * size(real_of(x));
    assert((0 as real) * t == 0 as real) by (nonlinear_arith);
}

/// A product stands for the product.
pub proof fn lemma_stands_times(
    x: HpValue,
    p: nat,
    r: int,
    y: real,
    a: real,
    s: real,
    z: HpValue,
    q: nat,
    k: int,
    w: real,
    b: real,
    t: real,
    u: real,
)
    requires
        stands(x, p, r, y, a, s, u),
        stands(z, q, k, w, b, t, u),
        u == unit(p),
        fine_unit(u),
        small_factor(a),
        small_factor(b),
        a + b + 1 as real <= 120 as real,
        r >= 0,
        k >= 0,
        r + k + 1 <= EXPONENT_LIMIT,
    ensures
        stands(x.times(z), p, r + k + p + 1, y * w, a + b + 3 as real, s * t, u),
{
    lemma_product_is_near(x, z, p, q, r, k);
    lemma_within_product(real_of(x), y, a, s, real_of(z), w, b, t, u);
    lemma_within_rounded(
        real_of(x.times(z)),
        real_of(x) * real_of(z),
        y * w,
        a + b + 1 as real,
        s * t,
        u,
    );
}

/// A sum stands for the sum, and a difference for the difference.
pub proof fn lemma_stands_plus(
    x: HpValue,
    p: nat,
    r: int,
    y: real,
    a: real,
    s: real,
    z: HpValue,
    q: nat,
    w: real,
    b: real,
    t: real,
    u: real,
)
    requires
        stands(x, p, r, y, a, s, u),
        stands(z, q, r, w, b, t, u),
        u == unit(p),
        fine_unit(u),
        small_factor(a),
        small_factor(b),
        r + 2 <= EXPONENT_LIMIT,
    ensures
        stands(
            x.plus(z),
            p,
            r + p + 2,
            y + w,
            (if a < b {
                b
            } else {
                a
            }) + 2 as real,
            s + t,
            u,
        ),
        stands(
            x.minus(z),
            p,
            r + p + 2,
            y - w,
            (if a < b {
                b
            } else {
                a
            }) + 2 as real,
            s + t,
            u,
        ),
{
    lemma_total_is_near(x, z, p, q, r);
    lemma_gap_is_near(x, z, p, q, r);
    lemma_within_sum(real_of(x), y, a, s, real_of(z), w, b, t, u);
    let c = if a < b {
        b
    } else {
        a
    };
    lemma_within_rounded(real_of(x.plus(z)), real_of(x) + real_of(z), y + w, c, s + t, u);
    lemma_within_rounded(real_of(x.minus(z)), real_of(x) - real_of(z), y - w, c, s + t, u);
}

/// A quotient times the divisor's number stands for the dividend's.
pub proof fn lemma_stands_over(
    x: HpValue,
    p: nat,
    r: int,
    y: real,
    a: real,
    s: real,
    z: HpValue,
    q: nat,
    k: int,
    w: real,
    b: real,
    u: real,
)
    requires
        stands(x, p, r, y, a, s, u),
        stands(z, q, k, w, b, size(w), u),
        z.class is Num,
        u == unit(p),
        fine_unit(u),
        small_factor(a),
        small_factor(b),
        r >= 0,
        k >= 0,
        r + k + p + 2 <= EXPONENT_LIMIT,
    ensures
        ranged(x.over(z), p, r + k + 2 * p + 2),
        within(real_of(x.over(z)) * w, y, a + b + 3 as real, s, u),
{
    lemma_ratio_is_near(x, z, p, q, r, k);
    lemma_within_quotient(real_of(x.over(z)), real_of(x), y, a, s, real_of(z), w, b, u);
}

/// A small whole number of a machine word stands for itself.
pub proof fn lemma_stands_word(i: int, u: real)
    requires
        magnitude(i) < 0x1_0000,
    ensures
        stands(hp_int(64, i), 64, 81, i as real, 0 as real, size(i as real), u),
        i != 0 ==> hp_int(64, i).class is Num,
{
    lemma2_to64();
    lemma_integer_is_near(64, i, 16);
    lemma_stands(hp_int(64, i), 64, 81, u);
}

/// A mode number stands for itself, within a unit.
pub proof fn lemma_stands_mode(p: nat, i: int)
    requires
        p >= 1,
        magnitude(i) < pow2(64),
    ensures
        stands(
            hp_int(p, i),
            p,
            p as int + 65,
            i as real,
            1 as real,
            size(i as real),
            unit(p),
        ),
        i != 0 ==> hp_int(p, i).class is Num,
{
    lemma_integer_is_near(p, i, 64);
    let t = unit(p) * size(i as real);
    assert((1 as real) * t == t);
}

} // verus!
