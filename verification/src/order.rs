//! The order of floating-point values is a total order on everything but NaN.

use crate::limbs::{order_of, Order};
use crate::rounding::{
    add_class, class_at, class_order, hp_word, min_int, rounded, signed, Class, HpValue,
};
use vstd::arithmetic::power2::*;
use vstd::prelude::*;

verus! {

/// A finite value as an integer multiple of `2^e`, for `e` no larger than its exponent.
pub open spec fn scaled_int(x: Class, e: int) -> int {
    match x {
        Class::Num { neg, man, exp } => signed(neg, man * pow2((exp - e) as nat)),
        _ => 0,
    }
}

/// The exponent of a number; zero for other values.
pub open spec fn exponent_of(x: Class) -> int {
    match x {
        Class::Num { exp, .. } => exp,
        _ => 0,
    }
}

/// A number has a nonzero significand.
pub open spec fn significant(x: Class) -> bool {
    match x {
        Class::Num { man, .. } => man > 0,
        _ => true,
    }
}

/// A coarse rank: minus infinity, finite, plus infinity.
pub open spec fn rank(x: Class) -> int {
    match x {
        Class::Inf { neg } => if neg {
            -1
        } else {
            1
        },
        _ => 0,
    }
}

/// Comparing by rank, then by scaled integers, at any common exponent.
pub proof fn lemma_order_at(x: Class, y: Class, e: int)
    requires
        !(x is Nan),
        !(y is Nan),
        significant(x),
        significant(y),
        e <= exponent_of(x),
        e <= exponent_of(y),
    ensures
        class_order(x, y) == Some(
            if rank(x) != rank(y) {
                order_of(rank(x), rank(y))
            } else if rank(x) == 0 {
                order_of(scaled_int(x, e), scaled_int(y, e))
            } else {
                Order::Equal
            },
        ),
{
    reveal(class_order);
    match (x, y) {
        (Class::Num { neg: na, man: ma, exp: ea }, Class::Num { neg: nb, man: mb, exp: eb }) => {
            let m = min_int(ea, eb);
            let k = (m - e) as nat;
            lemma_pow2_pos(k);
            lemma_pow2_adds((ea - m) as nat, k);
            lemma_pow2_adds((eb - m) as nat, k);
            let pk = pow2(k) as int;
            let pa = pow2((ea - m) as nat) as int;
            let pb = pow2((eb - m) as nat) as int;
            assert((ea - m) as nat + k == (ea - e) as nat);
            assert((eb - m) as nat + k == (eb - e) as nat);
            assert(ma as int * (pa * pk) == (ma as int * pa) * pk) by (nonlinear_arith);
            assert(mb as int * (pb * pk) == (mb as int * pb) * pk) by (nonlinear_arith);
            let a = signed(na, ma * pow2((ea - m) as nat));
            let b = signed(nb, mb * pow2((eb - m) as nat));
            assert(-((ma as int * pa) * pk) == -(ma as int * pa) * pk) by (nonlinear_arith);
            assert(-((mb as int * pb) * pk) == -(mb as int * pb) * pk) by (nonlinear_arith);
            assert(scaled_int(x, e) == a * pk);
            assert(scaled_int(y, e) == b * pk);
            assert(a < b ==> a * pk < b * pk) by (nonlinear_arith)
                requires
                    pk > 0,
            ;
            assert(a > b ==> a * pk > b * pk) by (nonlinear_arith)
                requires
                    pk > 0,
            ;
        },
        (Class::Num { neg, man, exp }, Class::Zero { .. }) => {
            lemma_scaled_sign(x, e);
        },
        (Class::Zero { .. }, Class::Num { neg, man, exp }) => {
            lemma_scaled_sign(y, e);
        },
        _ => {},
    }
}

proof fn lemma_scaled_sign(x: Class, e: int)
    requires
        x is Num,
        significant(x),
        e <= exponent_of(x),
    ensures
        x->Num_neg ==> scaled_int(x, e) < 0,
        !x->Num_neg ==> scaled_int(x, e) > 0,
{
    let m = x->man as int;
    let k = pow2((exponent_of(x) - e) as nat) as int;
    lemma_pow2_pos((exponent_of(x) - e) as nat);
    assert(m * k > 0) by (nonlinear_arith)
        requires
            m > 0,
            k > 0,
    ;
}

/// A value that compares with itself: not NaN, and a number with digits.
pub open spec fn comparable(x: HpValue) -> bool {
    !x.is_nan() && significant(x.class)
}

/// Well-formed values other than NaN are comparable.
pub proof fn law_numbers_are_comparable(x: HpValue)
    requires
        x.wf(),
        !x.is_nan(),
    ensures
        comparable(x),
{
    if x.class is Num {
        lemma_pow2_pos((x.prec - 1) as nat);
    }
}

pub open spec fn min3(a: int, b: int, c: int) -> int {
    min_int(a, min_int(b, c))
}

/// Strictly less is transitive, and so is any mix of less and equal.
pub proof fn law_order_is_transitive(a: HpValue, b: HpValue, c: HpValue)
    requires
        comparable(a),
        comparable(b),
        comparable(c),
    ensures
        a.lt(b) && b.lt(c) ==> a.lt(c),
        a.lt(b) && b.eqv(c) ==> a.lt(c),
        a.eqv(b) && b.lt(c) ==> a.lt(c),
        a.eqv(b) && b.eqv(c) ==> a.eqv(c),
{
    let e = min3(exponent_of(a.class), exponent_of(b.class), exponent_of(c.class));
    lemma_order_at(a.class, b.class, e);
    lemma_order_at(b.class, c.class, e);
    lemma_order_at(a.class, c.class, e);
}

/// Of two comparable values exactly one of less, equal and greater holds.
pub proof fn law_order_is_total(a: HpValue, b: HpValue)
    requires
        comparable(a),
        comparable(b),
    ensures
        a.lt(b) || a.eqv(b) || b.lt(a),
        !(a.lt(b) && a.eqv(b)),
        !(a.lt(b) && b.lt(a)),
        a.eqv(b) == b.eqv(a),
{
    let e = min_int(exponent_of(a.class), exponent_of(b.class));
    lemma_order_at(a.class, b.class, e);
    lemma_order_at(b.class, a.class, e);
}

/// The sign of a rounded difference tells the order: where it is positive, the first value is the
/// larger one, and where it is negative, the smaller one.
pub proof fn law_difference_tells_order(x: HpValue, y: HpValue)
    requires
        x.wf(),
        y.wf(),
        x.is_finite(),
        y.is_finite(),
    ensures
        hp_word(0).lt(x.minus(y)) ==> y.lt(x),
        x.minus(y).lt(hp_word(0)) ==> x.lt(y),
        x.eqv(y) ==> x.minus(y).is_zero(),
        x.class is Num && y.class is Num && !x.minus(y).is_zero() ==> hp_word(0).lt(x.minus(y)) == y.lt(
            x,
        ) && x.minus(y).lt(hp_word(0)) == x.lt(y),
{
    reveal(add_class);
    reveal(class_at);
    reveal(class_order);
    reveal(rounded);
    law_numbers_are_comparable(x);
    law_numbers_are_comparable(y);
    let e = min_int(exponent_of(x.class), exponent_of(y.class));
    lemma_order_at(x.class, y.class, e);
    lemma_order_at(y.class, x.class, e);
}

} // verus!
