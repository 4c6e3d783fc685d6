//! What rounding to nearest promises: the nearest value of the precision, ties to even, exactness
//! where the precision suffices, and operations that commute.

use crate::limbs::{bit_len, lemma_bit_len_unique};
use crate::order::lemma_order_at;
use crate::rounding::{
    add_class, aligned_sum, class_at, class_order, lemma_nearest_bits, mul_class, nearest, rounded,
    Class, HpValue,
};
use vstd::arithmetic::div_mod::*;
use vstd::arithmetic::power2::*;
use vstd::prelude::*;

verus! {

/// Distance of two numbers.
pub open spec fn distance(a: int, b: int) -> int {
    if a < b {
        b - a
    } else {
        a - b
    }
}

/// A positive number of at most `p` bits is kept exactly; a longer one goes to a multiple of its
/// last place that lies within half of that place, and to an even one where two are as near.
pub proof fn law_rounding_is_to_nearest(p: nat, n: nat, e: int)
    requires
        p >= 1,
        n > 0,
    ensures
        ({
            let (man, exp) = nearest(p, n, e, false);
            let len = bit_len(n);
            &&& pow2((p - 1) as nat) <= man < pow2(p)
            &&& len <= p ==> exp <= e && man == n * pow2((e - exp) as nat)
            &&& len > p ==> {
                let unit = pow2((len - p) as nat);
                &&& exp >= e
                &&& 2 * distance(n as int, man * pow2((exp - e) as nat) as int) <= unit
                &&& 2 * distance(n as int, man * pow2((exp - e) as nat) as int) == unit && p >= 2
                    ==> man % 2 == 0
            }
        }),
{
    reveal(nearest);
    lemma_nearest_bits(p, n, e, false);
    let len = bit_len(n);
    if len > p {
        let d = (len - p) as nat;
        let unit = pow2(d);
        let q = n / unit;
        let r = n % unit;
        let half = pow2((d - 1) as nat);
        lemma_pow2_pos(d);
        lemma_pow2_pos((d - 1) as nat);
        lemma_pow2_unfold(d);
        assert(unit == 2 * half);
        lemma_fundamental_div_mod(n as int, unit as int);
        lemma_mod_bound(n as int, unit as int);
        assert(n == unit * q + r);
        let m = if r > half || (r == half && q % 2 == 1) {
            q + 1
        } else {
            q
        };
        assert((q + 1) * unit == unit * q + unit) by (nonlinear_arith);
        assert(q * unit == unit * q) by (nonlinear_arith);
        assert(2 * distance(n as int, (m * unit) as int) <= unit);
        if m == pow2(p) {
            lemma_pow2_unfold(p);
            lemma_pow2_unfold((d + 1) as nat);
            let top = pow2((p - 1) as nat);
            let twice = pow2((d + 1) as nat);
            assert(top * twice == (2 * top) * unit) by (nonlinear_arith)
                requires
                    twice == 2 * unit,
            ;
            if p >= 2 {
                lemma_pow2_unfold((p - 1) as nat);
                assert(top % 2 == 0);
            }
        }
    }
}

/// A value taken to a larger precision keeps its value.
pub proof fn law_larger_precision_is_exact(x: HpValue, p: nat)
    requires
        x.wf(),
        !x.is_nan(),
        p >= x.prec,
    ensures
        x.at(p).eqv(x),
        x.at(p).prec == p,
{
    reveal(class_at);
    match x.class {
        Class::Num { neg, man, exp } => {
            lemma_pow2_pos((x.prec - 1) as nat);
            lemma_bit_len_unique(man, x.prec);
            reveal(rounded);
            reveal(nearest);
            let k = (p - x.prec) as nat;
            lemma_pow2_pos(k);
            let y = x.at(p);
            assert(y.class == (Class::Num { neg, man: man * pow2(k), exp: exp - k }));
            assert(man * pow2(k) > 0) by (nonlinear_arith)
                requires
                    man > 0,
                    pow2(k) > 0,
            ;
            lemma_order_at(y.class, x.class, exp - k);
            lemma_pow2_adds(0, k);
            assert(pow2(0) == 1) by {
                lemma2_to64();
            }
            assert((man * pow2(k)) * pow2(0) == man * pow2(k)) by (nonlinear_arith)
                requires
                    pow2(0) == 1,
            ;
        },
        _ => {
            reveal(class_order);
        },
    }
}

/// Sums and products of values of one precision do not depend on the order of their operands.
pub proof fn law_sums_and_products_commute(x: HpValue, y: HpValue)
    requires
        x.prec == y.prec,
    ensures
        x.plus(y) == y.plus(x),
        x.times(y) == y.times(x),
{
    reveal(add_class);
    reveal(mul_class);
    match (x.class, y.class) {
        (Class::Num { neg: na, man: ma, exp: ea }, Class::Num { neg: nb, man: mb, exp: eb }) => {
            assert(ma * mb == mb * ma) by (nonlinear_arith);
            assert(aligned_sum(na, ma, ea, nb, mb, eb) == aligned_sum(nb, mb, eb, na, ma, ea));
        },
        _ => {},
    }
}

/// A finite value less itself is zero.
pub proof fn law_value_less_itself_is_zero(x: HpValue)
    requires
        x.is_finite(),
    ensures
        x.minus(x).is_zero(),
{
    reveal(add_class);
}

} // verus!
