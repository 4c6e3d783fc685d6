//! What values stand for as real numbers, and how near the rounded results of operations lie to
//! the exact ones.

use crate::limbs::{bit_len, lemma_bit_len, lemma_bit_len_unique};
use crate::rounding::{
    add_class, aligned_sum, class_at, class_order, div_class, floor_sqrt, hp_int, lemma_floor_sqrt,
    lemma_nearest_bits, magnitude, min_int, nearest, rounded, signed, sqrt_class, Class, HpValue,
    EXPONENT_LIMIT,
};
use vstd::arithmetic::div_mod::*;
use vstd::arithmetic::power2::*;
use vstd::prelude::*;

verus! {

/// Two to an integer power.
pub open spec fn two_to(k: int) -> real {
    if k >= 0 {
        pow2(k as nat) as int as real
    } else {
        (1 as real) / (pow2((-k) as nat) as int as real)
    }
}

/// The real number that a finite value stands for.
pub open spec fn real_of(x: HpValue) -> real {
    match x.class {
        Class::Num { neg, man, exp } => (signed(neg, man) as real) * two_to(exp),
        _ => 0 as real,
    }
}

/// Magnitude of a real number.
pub open spec fn size(x: real) -> real {
    if x < 0 as real {
        -x
    } else {
        x
    }
}

pub proof fn lemma_two_to_pos(k: int)
    ensures
        two_to(k) > 0 as real,
{
    if k >= 0 {
        lemma_pow2_pos(k as nat);
    } else {
        lemma_pow2_pos((-k) as nat);
        let d = pow2((-k) as nat) as int as real;
        assert((1 as real) / d > 0 as real) by (nonlinear_arith)
            requires
                d > 0 as real,
        ;
    }
}

pub proof fn lemma_two_to_next(k: int)
    ensures
        two_to(k + 1) == 2 as real * two_to(k),
{
    if k >= 0 {
        lemma_pow2_unfold((k + 1) as nat);
    } else if k == -1 {
        lemma2_to64();
        assert((1 as real) == 2 as real * ((1 as real) / (2 as real)));
    } else {
        lemma_pow2_unfold((-k) as nat);
        lemma_pow2_pos((-k - 1) as nat);
        let d = pow2((-k - 1) as nat) as int as real;
        assert((1 as real) / d == 2 as real * ((1 as real) / (2 as real * d))) by (nonlinear_arith)
            requires
                d > 0 as real,
        ;
    }
}

pub proof fn lemma_two_to_adds(a: int, b: nat)
    ensures
        two_to(a + b) == two_to(a) * two_to(b as int),
    decreases b,
{
    if b == 0 {
        lemma2_to64();
        assert(two_to(a) * (1 as real) == two_to(a)) by (nonlinear_arith);
    } else {
        lemma_two_to_adds(a, (b - 1) as nat);
        lemma_two_to_next(a + b - 1);
        lemma_two_to_next(b - 1);
        let x = two_to(a);
        let y = two_to(b - 1);
        assert(2 as real * (x * y) == x * (2 as real * y)) by (nonlinear_arith);
    }
}

/// The unit of rounding at a precision: half of the last place of a number near one.
pub open spec fn unit(p: nat) -> real {
    two_to(-(p as int))
}

/// A number that lies between two neighbouring multiples of `2^e`, or is one where nothing sticks,
/// and is rounded to `p` bits, moves by at most the unit of rounding.
proof fn lemma_nearest_is_near(p: nat, n: nat, e: int, sticky: bool, v: real)
    requires
        p >= 1,
        n > 0,
        sticky ==> bit_len(n) > p,
        (n as int as real) * two_to(e) <= v <= ((n + 1) as int as real) * two_to(e),
        !sticky ==> v == (n as int as real) * two_to(e),
    ensures
        ({
            let (man, exp) = nearest(p, n, e, sticky);
            &&& size((man as int as real) * two_to(exp) - v) <= unit(p) * v
            &&& e + bit_len(n) <= exp + p <= e + bit_len(n) + 1
            &&& e - p <= exp
        }),
{
    reveal(nearest);
    let len = bit_len(n);
    let w = two_to(e);
    lemma_bit_len(n);
    lemma_two_to_pos(e);
    lemma_two_to_pos(-(p as int));
    let (man, exp) = nearest(p, n, e, sticky);
    let nr = n as int as real;
    assert(nr * w > 0 as real) by (nonlinear_arith)
        requires
            nr >= 1 as real,
            w > 0 as real,
    ;
    if len <= p {
        let k = (p - len) as nat;
        lemma_two_to_adds(exp, k);
        assert(exp + k == e);
        let a = pow2(k) as int as real;
        let b = two_to(exp);
        assert((n * pow2(k)) as int as real == nr * a) by {
            lemma_product_cast(n as int, pow2(k) as int);
        }
        assert((nr * a) * b == nr * (b * a)) by (nonlinear_arith);
        assert(unit(p) * v >= 0 as real) by (nonlinear_arith)
            requires
                unit(p) > 0 as real,
                v >= 0 as real,
        ;
    } else {
        let d = (len - p) as nat;
        let un = pow2(d);
        let q = n / un;
        let r = n % un;
        let half = pow2((d - 1) as nat);
        lemma_pow2_pos(d);
        lemma_pow2_pos((d - 1) as nat);
        lemma_pow2_unfold(d);
        lemma_fundamental_div_mod(n as int, un as int);
        lemma_mod_bound(n as int, un as int);
        let m: nat = if r > half || (r == half && (sticky || q % 2 == 1)) {
            q + 1
        } else {
            q
        };
        assert((q + 1) * un == un * q + un) by (nonlinear_arith);
        assert(q * un == un * q) by (nonlinear_arith);
        let whole = (m * un) as int;
        // The rounded number lies within half a place of the whole interval.
        assert(-(half as int) <= whole - n <= half);
        assert(sticky ==> -(half as int) <= whole - (n + 1) <= half);
        let wr = whole as real;
        let hr = half as int as real;
        assert(size(wr * w - v) <= hr * w) by {
            if sticky {
                lemma_between(wr, nr, hr, w, v);
            } else {
                lemma_scaled_gap(wr, nr, hr, w);
            }
        }
        // Half a place is at most the unit of rounding of the number.
        lemma_two_to_adds(-(p as int), (len - 1) as nat);
        assert(-(p as int) + (len - 1) == d - 1);
        let top = pow2((len - 1) as nat) as int as real;
        assert(hr == unit(p) * top);
        assert(top <= nr);
        assert(hr * w <= unit(p) * v) by (nonlinear_arith)
            requires
                hr == unit(p) * top,
                top <= nr,
                nr * w <= v,
                unit(p) > 0 as real,
                w > 0 as real,
        ;
        // The chosen significand and exponent stand for that number.
        if m == pow2(p) {
            lemma_two_to_adds(e, (d + 1) as nat);
            lemma_pow2_unfold((d + 1) as nat);
            lemma_pow2_unfold(p);
            let t = pow2((p - 1) as nat);
            let tw = pow2((d + 1) as nat);
            assert(t * tw == m * un) by (nonlinear_arith)
                requires
                    tw == 2 * un,
                    m == 2 * t,
            ;
            lemma_product_cast(t as int, tw as int);
            let x = t as int as real;
            let y = tw as int as real;
            assert(x * (w * y) == (x * y) * w) by (nonlinear_arith);
            assert((man as int as real) * two_to(exp) == wr * w);
        } else {
            lemma_two_to_adds(e, d);
            lemma_product_cast(m as int, un as int);
            let x = m as int as real;
            let y = un as int as real;
            assert(x * (w * y) == (x * y) * w) by (nonlinear_arith);
            assert((man as int as real) * two_to(exp) == wr * w);
        }
    }
}

pub proof fn lemma_product_cast(a: int, b: int)
    ensures
        (a * b) as real == (a as real) * (b as real),
    decreases if b < 0 { -b } else { b },
{
    let x = a as real;
    let y = b as real;
    if b > 0 {
        lemma_product_cast(a, b - 1);
        assert(a * b == a * (b - 1) + a) by (nonlinear_arith);
        assert(x * (y - 1 as real) + x == x * y) by (nonlinear_arith);
    } else if b < 0 {
        lemma_product_cast(a, b + 1);
        assert(a * b == a * (b + 1) - a) by (nonlinear_arith);
        assert(x * (y + 1 as real) - x == x * y) by (nonlinear_arith);
    } else {
        assert(a * 0 == 0) by (nonlinear_arith);
        assert(x * (0 as real) == 0 as real) by (nonlinear_arith);
    }
}

proof fn lemma_scaled_gap(a: real, b: real, h: real, w: real)
    requires
        -h <= a - b <= h,
        w > 0 as real,
    ensures
        size(a * w - b * w) <= h * w,
{
    assert(-(h * w) <= a * w - b * w <= h * w) by (nonlinear_arith)
        requires
            -h <= a - b <= h,
            w > 0 as real,
    ;
}

proof fn lemma_between(a: real, b: real, h: real, w: real, v: real)
    requires
        -h <= a - b <= h,
        -h <= a - (b + 1 as real) <= h,
        w > 0 as real,
        b * w <= v <= (b + 1 as real) * w,
    ensures
        size(a * w - v) <= h * w,
{
    lemma_scaled_gap(a, b, h, w);
    lemma_scaled_gap(a, b + 1 as real, h, w);
}

pub proof fn lemma_two_to_grows(a: int, b: int)
    requires
        a <= b,
    ensures
        two_to(a) <= two_to(b),
    decreases b - a,
{
    if a < b {
        lemma_two_to_grows(a, b - 1);
        lemma_two_to_next(b - 1);
        lemma_two_to_pos(b - 1);
    }
}

/// A finite value at precision `p` whose exponent keeps between two bounds, where it is a number.
pub open spec fn sized(x: HpValue, p: nat, lo: int, hi: int) -> bool {
    &&& x.wf()
    &&& x.prec == p
    &&& x.is_finite()
    &&& x.class matches Class::Num { exp, .. } ==> lo <= exp && exp + p <= hi
}

/// Whether a real number lies within a multiple of the magnitude of another.
pub open spec fn near(x: real, y: real, u: real) -> bool {
    size(x - y) <= u * size(y)
}

pub proof fn lemma_rounded_is_near(p: nat, neg: bool, n: nat, e: int, sticky: bool, v: real)
    requires
        p >= 1,
        n > 0,
        sticky ==> bit_len(n) > p,
        (n as int as real) * two_to(e) <= v <= ((n + 1) as int as real) * two_to(e),
        !sticky ==> v == (n as int as real) * two_to(e),
        -EXPONENT_LIMIT <= e + bit_len(n),
        e + bit_len(n) + 1 <= EXPONENT_LIMIT,
    ensures
        ({
            let x = HpValue { prec: p, class: rounded(p, neg, n, e, sticky) };
            let s = if neg {
                -v
            } else {
                v
            };
            &&& x.class is Num
            &&& x.class->Num_neg == neg
            &&& sized(x, p, e - p, e + bit_len(n) + 1)
            &&& e + bit_len(n) <= x.class->exp + p
            &&& near(real_of(x), s, unit(p))
            &&& v > 0 as real
        }),
{
    reveal(rounded);
    lemma_nearest_is_near(p, n, e, sticky, v);
    lemma_nearest_bits(p, n, e, sticky);
    let (man, exp) = nearest(p, n, e, sticky);
    lemma_two_to_pos(e);
    let nr = n as int as real;
    assert(nr * two_to(e) > 0 as real) by (nonlinear_arith)
        requires
            nr >= 1 as real,
            two_to(e) > 0 as real,
    ;
    let a = man as int as real;
    let b = two_to(exp);
    assert((-a) * b == -(a * b)) by (nonlinear_arith);
}

/// The real number of a number, taken at a smaller exponent.
pub proof fn lemma_real_at(neg: bool, man: nat, exp: int, e: int)
    requires
        e <= exp,
    ensures
        (signed(neg, man) as real) * two_to(exp) == (signed(
            neg,
            man * pow2((exp - e) as nat),
        ) as real) * two_to(e),
{
    let k = (exp - e) as nat;
    lemma_two_to_adds(e, k);
    lemma_product_cast(signed(neg, man), pow2(k) as int);
    assert(signed(neg, man * pow2(k)) == signed(neg, man) * pow2(k)) by (nonlinear_arith);
    let a = signed(neg, man) as real;
    let b = pow2(k) as int as real;
    let w = two_to(e);
    assert(a * (w * b) == (a * b) * w) by (nonlinear_arith);
}

pub proof fn lemma_shifted_below(man: nat, p: nat, k: nat, top: int)
    requires
        man < pow2(p),
        p + k <= top,
    ensures
        man * pow2(k) < pow2(top as nat),
{
    lemma_pow2_adds(p, k);
    lemma_pow2_pos(k);
    assert(man * pow2(k) < pow2(p) * pow2(k)) by (nonlinear_arith)
        requires
            man < pow2(p),
            pow2(k) > 0,
    ;
    if p + k < top {
        lemma_pow2_strictly_increases((p + k) as nat, top as nat);
    }
}

pub proof fn lemma_short(n: nat, k: nat)
    requires
        n < pow2(k),
    ensures
        bit_len(n) <= k,
{
    if n > 0 {
        lemma_bit_len(n);
        if bit_len(n) > k {
            if bit_len(n) - 1 > k {
                lemma_pow2_strictly_increases(k, (bit_len(n) - 1) as nat);
            }
        }
    }
}

/// The same number at its own precision is kept.
pub proof fn lemma_kept(x: HpValue)
    requires
        x.wf(),
        x.class is Num,
    ensures
        x.at(x.prec) == x,
{
    reveal(class_at);
    reveal(rounded);
    reveal(nearest);
    lemma_pow2_pos((x.prec - 1) as nat);
    lemma_bit_len_unique(x.class->man, x.prec);
    lemma2_to64();
    assert(x.class->man * 1 == x.class->man);
}

/// A sum moves by at most the unit of rounding.
pub proof fn lemma_sum_is_near(x: HpValue, y: HpValue, p: nat, lo: int, hi: int)
    requires
        sized(x, p, lo, hi),
        sized(y, p, lo, hi),
        -EXPONENT_LIMIT <= lo,
        hi + 2 <= EXPONENT_LIMIT,
    ensures
        sized(x.plus(y), p, lo - p, hi + 2),
        near(real_of(x.plus(y)), real_of(x) + real_of(y), unit(p)),
{
    reveal(add_class);
    lemma_two_to_pos(-(p as int));
    let t = real_of(x) + real_of(y);
    assert(unit(p) * size(t) >= 0 as real) by (nonlinear_arith)
        requires
            unit(p) > 0 as real,
            size(t) >= 0 as real,
    ;
    match (x.class, y.class) {
        (Class::Zero { .. }, Class::Num { .. }) => {
            lemma_kept(y);
        },
        (Class::Num { .. }, Class::Zero { .. }) => {
            lemma_kept(x);
        },
        (Class::Num { neg: na, man: ma, exp: ea }, Class::Num { neg: nb, man: mb, exp: eb }) => {
            let e = min_int(ea, eb);
            let s = aligned_sum(na, ma, ea, nb, mb, eb);
            lemma_real_at(na, ma, ea, e);
            lemma_real_at(nb, mb, eb, e);
            let a = signed(na, ma * pow2((ea - e) as nat)) as real;
            let b = signed(nb, mb * pow2((eb - e) as nat)) as real;
            let w = two_to(e);
            assert(a * w + b * w == (a + b) * w) by (nonlinear_arith);
            assert(t == (s as real) * w);
            if s == 0 {
                assert((0 as real) * w == 0 as real) by (nonlinear_arith);
            } else {
                let n = magnitude(s);
                lemma_shifted_below(ma, p, (ea - e) as nat, hi - e);
                lemma_shifted_below(mb, p, (eb - e) as nat, hi - e);
                lemma_pow2_unfold((hi - e + 1) as nat);
                lemma_short(n, (hi - e + 1) as nat);
                lemma_bit_len(n);
                let v = (n as int as real) * w;
                lemma_two_to_pos(e);
                assert(((n + 1) as int as real) * w >= v) by (nonlinear_arith)
                    requires
                        v == (n as int as real) * w,
                        (n + 1) as int as real == n as int as real + 1 as real,
                        w > 0 as real,
                ;
                assert((-(n as int) as real) * w == -v) by (nonlinear_arith)
                    requires
                        v == (n as int as real) * w,
                        -(n as int) as real == -(n as int as real),
                ;
                lemma_rounded_is_near(p, s < 0, n, e, false, v);
            }
        },
        _ => {},
    }
}

/// A difference moves by at most the unit of rounding.
pub proof fn lemma_difference_is_near(x: HpValue, y: HpValue, p: nat, lo: int, hi: int)
    requires
        sized(x, p, lo, hi),
        sized(y, p, lo, hi),
        -EXPONENT_LIMIT <= lo,
        hi + 2 <= EXPONENT_LIMIT,
    ensures
        sized(x.minus(y), p, lo - p, hi + 2),
        near(real_of(x.minus(y)), real_of(x) - real_of(y), unit(p)),
{
    lemma_negative(y);
    lemma_sum_is_near(x, y.negated(), p, lo, hi);
}

/// The negative stands for the negative number.
pub proof fn lemma_negative(x: HpValue)
    ensures
        real_of(x.negated()) == -real_of(x),
        x.wf() ==> x.negated().wf(),
{
    if x.class is Num {
        let a = signed(x.class->Num_neg, x.class->man) as real;
        let w = two_to(x.class->exp);
        assert((-a) * w == -(a * w)) by (nonlinear_arith);
    }
}

/// A positive divisor between one and four.
pub open spec fn small_divisor(y: HpValue) -> bool {
    &&& y.wf()
    &&& y.class matches Class::Num { neg, exp, .. } && !neg && 1 <= exp + y.prec <= 2
}

/// A quotient times its divisor lies within the unit of rounding of the dividend.
pub proof fn lemma_quotient_is_near(x: HpValue, y: HpValue, p: nat, lo: int, hi: int)
    requires
        sized(x, p, lo, hi),
        small_divisor(y),
        -EXPONENT_LIMIT + 4 <= lo,
        hi + 4 <= EXPONENT_LIMIT,
    ensures
        sized(x.over(y), p, lo - p - 4, hi + 4),
        near(real_of(x.over(y)) * real_of(y), real_of(x), unit(p)),
        real_of(y) > 0 as real,
{
    reveal(div_class);
    lemma_two_to_pos(-(p as int));
    let mb = y.class->man;
    let eb = y.class->exp;
    lemma_two_to_pos(eb);
    lemma_pow2_pos((y.prec - 1) as nat);
    lemma_bit_len_unique(mb, y.prec);
    let b = mb as int as real;
    assert(b * two_to(eb) > 0 as real) by (nonlinear_arith)
        requires
            b >= 1 as real,
            two_to(eb) > 0 as real,
    ;
    match x.class {
        Class::Zero { .. } => {
            let d = real_of(y);
            assert((0 as real) * d == 0 as real) by (nonlinear_arith);
            assert(unit(p) * (0 as real) == 0 as real) by (nonlinear_arith);
        },
        Class::Num { neg, man: ma, exp: ea } => {
            let k = p + 2 + y.prec;
            let n = ma * pow2(k);
            let q = n / mb;
            let e = ea - eb - k;
            lemma_pow2_pos(k);
            lemma_pow2_pos((p - 1) as nat);
            lemma_fundamental_div_mod(n as int, mb as int);
            lemma_mod_bound(n as int, mb as int);
            lemma_quotient_length(ma, mb, p, y.prec);
            let a = ma as int as real;
            let v = (a * two_to(ea)) / (b * two_to(eb));
            lemma_quotient_between(ma, ea, mb, eb, k, q, v);
            assert(!(n % mb != 0) ==> v == (q as int as real) * two_to(e)) by {
                if n % mb == 0 {
                    lemma_quotient_exact(ma, ea, mb, eb, k, q, v);
                }
            }
            lemma_rounded_is_near(p, neg, q, e, n % mb != 0, v);
            let d = b * two_to(eb);
            let r = real_of(x.over(y));
            assert(v * d == a * two_to(ea)) by (nonlinear_arith)
                requires
                    v == (a * two_to(ea)) / d,
                    d > 0 as real,
            ;
            assert((-a) * two_to(ea) == -(a * two_to(ea))) by (nonlinear_arith);
            let s = if neg {
                -v
            } else {
                v
            };
            assert(s * d == real_of(x)) by (nonlinear_arith)
                requires
                    v * d == a * two_to(ea),
                    s == -v && real_of(x) == -(a * two_to(ea)) || s == v && real_of(x) == a
                        * two_to(ea),
            ;
            lemma_scaled_near(r, s, unit(p), d);
        },
        _ => {},
    }
}

pub proof fn lemma_scaled_near(r: real, s: real, u: real, d: real)
    requires
        near(r, s, u),
        d > 0 as real,
    ensures
        near(r * d, s * d, u),
{
    let t = size(s);
    assert(size(s * d) == t * d) by (nonlinear_arith)
        requires
            d > 0 as real,
            t == size(s),
    ;
    assert(-(u * t) <= r - s <= u * t);
    assert(-(u * (t * d)) <= r * d - s * d <= u * (t * d)) by (nonlinear_arith)
        requires
            -(u * t) <= r - s <= u * t,
            d > 0 as real,
    ;
}

pub proof fn lemma_quotient_length(a: nat, b: nat, p: nat, pb: nat)
    requires
        p >= 1,
        pb >= 1,
        pow2((p - 1) as nat) <= a < pow2(p),
        pow2((pb - 1) as nat) <= b < pow2(pb),
    ensures
        ({
            let q = a * pow2(p + 2 + pb) / b;
            &&& q > 0
            &&& bit_len(q) > p
            &&& 2 * p + 1 <= bit_len(q) <= 2 * p + 3
        }),
{
    let k = p + 2 + pb;
    let n = a * pow2(k);
    let q = n / b;
    lemma_pow2_pos((pb - 1) as nat);
    lemma_fundamental_div_mod(n as int, b as int);
    lemma_mod_bound(n as int, b as int);
    // q >= 2^(2p + 1)
    let least = pow2(2 * p + 1);
    lemma_pow2_adds((p - 1) as nat, k);
    lemma_pow2_adds(2 * p + 1, pb);
    assert((p - 1) + k == (2 * p + 1) + pb);
    assert(n >= pow2((p - 1) as nat) * pow2(k)) by (nonlinear_arith)
        requires
            a >= pow2((p - 1) as nat),
            n == a * pow2(k),
            pow2(k) >= 0,
    ;
    lemma_pow2_pos(k);
    assert(q >= least) by (nonlinear_arith)
        requires
            n >= least * pow2(pb),
            b < pow2(pb),
            n as int == b as int * q as int + n as int % b as int,
            (n as int % b as int) < b as int,
            b > 0,
    ;
    // q < 2^(2p + 3)
    let most = pow2(2 * p + 3);
    lemma_pow2_adds(p, k);
    lemma_pow2_adds(2 * p + 3, (pb - 1) as nat);
    assert(p + k == (2 * p + 3) + (pb - 1));
    assert(n < pow2(p) * pow2(k)) by (nonlinear_arith)
        requires
            a < pow2(p),
            n == a * pow2(k),
            pow2(k) > 0,
    ;
    assert(q < most) by (nonlinear_arith)
        requires
            n < most * pow2((pb - 1) as nat),
            b >= pow2((pb - 1) as nat),
            n as int == b as int * q as int + n as int % b as int,
            (n as int % b as int) >= 0,
            b > 0,
    ;
    lemma_short(q, 2 * p + 3);
    lemma_pow2_pos(2 * p + 1);
    lemma_bit_len(q);
    if bit_len(q) < 2 * p + 2 {
        if bit_len(q) < 2 * p + 1 {
            lemma_pow2_strictly_increases(bit_len(q), 2 * p + 1);
        }
    }
}

pub proof fn lemma_quotient_between(a: nat, ea: int, b: nat, eb: int, k: nat, q: nat, v: real)
    requires
        b > 0,
        q == a * pow2(k) / b,
        v == ((a as int as real) * two_to(ea)) / ((b as int as real) * two_to(eb)),
    ensures
        (q as int as real) * two_to(ea - eb - k) <= v <= ((q + 1) as int as real) * two_to(
            ea - eb - k,
        ),
{
    let n = a * pow2(k);
    lemma_fundamental_div_mod(n as int, b as int);
    lemma_mod_bound(n as int, b as int);
    lemma_quotient_scale(a, ea, b, eb, k);
    let w = two_to(ea - eb - k);
    let br = b as int as real;
    let nr = n as int as real;
    let qr = q as int as real;
    let d = br * two_to(eb);
    lemma_two_to_pos(ea - eb - k);
    lemma_two_to_pos(eb);
    assert(d > 0 as real) by (nonlinear_arith)
        requires
            br >= 1 as real,
            two_to(eb) > 0 as real,
            d == br * two_to(eb),
    ;
    lemma_product_cast(b as int, q as int);
    lemma_product_cast(b as int, (q + 1) as int);
    assert(b as int * (q + 1) == b as int * q as int + b as int) by (nonlinear_arith);
    assert(br * qr <= nr <= br * (qr + 1 as real));
    let t = two_to(eb);
    // The dividend is n * (w * 2^eb).
    assert(v * d == nr * (w * t)) by (nonlinear_arith)
        requires
            v == (nr * (w * t)) / d,
            d > 0 as real,
    ;
    assert(qr * w <= v) by (nonlinear_arith)
        requires
            v * d == nr * (w * t),
            d == br * t,
            br * qr <= nr,
            w > 0 as real,
            t > 0 as real,
            br >= 1 as real,
    ;
    assert(v <= (qr + 1 as real) * w) by (nonlinear_arith)
        requires
            v * d == nr * (w * t),
            d == br * t,
            nr <= br * (qr + 1 as real),
            w > 0 as real,
            t > 0 as real,
            br >= 1 as real,
    ;
}

pub proof fn lemma_quotient_exact(a: nat, ea: int, b: nat, eb: int, k: nat, q: nat, v: real)
    requires
        b > 0,
        q == a * pow2(k) / b,
        a * pow2(k) % b == 0,
        v == ((a as int as real) * two_to(ea)) / ((b as int as real) * two_to(eb)),
    ensures
        v == (q as int as real) * two_to(ea - eb - k),
{
    let n = a * pow2(k);
    lemma_fundamental_div_mod(n as int, b as int);
    lemma_quotient_scale(a, ea, b, eb, k);
    let w = two_to(ea - eb - k);
    let br = b as int as real;
    let qr = q as int as real;
    let t = two_to(eb);
    lemma_two_to_pos(eb);
    lemma_product_cast(b as int, q as int);
    let d = br * t;
    assert(d > 0 as real) by (nonlinear_arith)
        requires
            br >= 1 as real,
            t > 0 as real,
            d == br * t,
    ;
    assert((br * qr) * (w * t) == (qr * w) * d) by (nonlinear_arith)
        requires
            d == br * t,
    ;
    assert(((qr * w) * d) / d == qr * w) by (nonlinear_arith)
        requires
            d > 0 as real,
    ;
}

/// The dividend of a scaled quotient, at the exponent of the quotient.
proof fn lemma_quotient_scale(a: nat, ea: int, b: nat, eb: int, k: nat)
    ensures
        (a as int as real) * two_to(ea) == ((a * pow2(k)) as int as real) * (two_to(ea - eb - k)
            * two_to(eb)),
{
    let e = ea - eb - k;
    lemma_two_to_sum(e, eb);
    lemma_two_to_adds(e + eb, k);
    lemma_product_cast(a as int, pow2(k) as int);
    let ar = a as int as real;
    let kr = pow2(k) as int as real;
    let w = two_to(e + eb);
    assert(ar * (w * kr) == (ar * kr) * w) by (nonlinear_arith);
}

pub proof fn lemma_two_to_sum(a: int, b: int)
    ensures
        two_to(a + b) == two_to(a) * two_to(b),
{
    if b >= 0 {
        lemma_two_to_adds(a, b as nat);
    } else {
        let c = (-b) as nat;
        lemma_two_to_adds(a + b, c);
        lemma_pow2_pos(c);
        let x = two_to(a + b);
        let d = pow2(c) as int as real;
        assert((x * d) * ((1 as real) / d) == x) by (nonlinear_arith)
            requires
                d > 0 as real,
        ;
    }
}

/// Two, at any precision, is two.
pub proof fn lemma_two(p: nat)
    requires
        p >= 1,
    ensures
        hp_int(p, 2) == (HpValue {
            prec: p,
            class: Class::Num { neg: false, man: pow2((p - 1) as nat), exp: 2 - p },
        }),
        real_of(hp_int(p, 2)) == 2 as real,
        small_divisor(hp_int(p, 2)),
{
    reveal(rounded);
    reveal(nearest);
    lemma2_to64();
    lemma_bit_len_unique(2, 2);
    lemma_pow2_unfold(p);
    lemma_pow2_pos((p - 1) as nat);
    if p >= 2 {
        lemma_pow2_unfold((p - 1) as nat);
        assert(2 * pow2((p - 2) as nat) == pow2((p - 1) as nat));
    } else {
        assert(2nat / pow2(1) == 1);
        assert(2nat % pow2(1) == 0);
    }
    lemma_two_to_adds(2 - p, (p - 1) as nat);
    let a = two_to(2 - p);
    let b = pow2((p - 1) as nat) as int as real;
    assert(b * a == a * b) by (nonlinear_arith);
    assert(two_to(1) == 2 as real);
}

/// The square of the computed root of two lies within two units of rounding of two.
pub proof fn lemma_root_of_two(p: nat)
    requires
        p >= 1,
    ensures
        ({
            let root = hp_int(p, 2).sqrt();
            let r = real_of(root);
            let u = unit(p);
            &&& small_divisor(root)
            &&& root.prec == p
            &&& r > 0 as real
            &&& 2 as real * ((1 as real - u) * (1 as real - u)) <= r * r <= 2 as real * ((1 as real
                + u) * (1 as real + u))
        }),
{
    reveal(sqrt_class);
    lemma_two(p);
    let man = pow2((p - 1) as nat);
    let exp = 2 - p;
    let k = (2 * (p + 2) + exp % 2) as nat;
    let n = man * pow2(k);
    let r = floor_sqrt(n);
    let e = (exp - k) / 2;
    let u = unit(p);
    assert(2 * e == exp - k);
    lemma_floor_sqrt(n);
    // The number under the root is 2^(1 - 2e).
    lemma_pow2_adds((p - 1) as nat, k);
    let m = (p - 1 + k) as nat;
    assert(n == pow2(m));
    assert(m == 1 - 2 * e);
    // The root has more than p bits.
    assert(m >= 2 * (p + 1));
    lemma_pow2_adds(p + 1, p + 1);
    if 2 * (p + 1) < m {
        lemma_pow2_strictly_increases(2 * (p + 1), m);
    }
    let least = pow2(p + 1);
    assert(p + 1 + (p + 1) == 2 * (p + 1));
    assert(r >= least) by (nonlinear_arith)
        requires
            least * least <= n,
            n < (r + 1) * (r + 1),
            r >= 0,
            least >= 0,
    ;
    lemma_pow2_pos(p + 1);
    lemma_bit_len(r);
    let len = bit_len(r);
    if len <= p {
        if len < p + 1 {
            lemma_pow2_strictly_increases(len, p + 1);
        }
        assert(false);
    }
    // Squares in real numbers.
    let w = two_to(e);
    lemma_two_to_pos(e);
    lemma_two_to_sum(e, e);
    lemma_two_to_sum(2 * e, m as int);
    let nr = n as int as real;
    assert(two_to(2 * e + m) == 2 as real) by {
        lemma2_to64();
        assert(2 * e + m == 1);
    }
    assert(nr * (w * w) == 2 as real) by (nonlinear_arith)
        requires
            (w * w) * nr == 2 as real,
    ;
    let rr = r as int as real;
    let low = rr * w;
    let high = (rr + 1 as real) * w;
    lemma_product_cast(r as int, r as int);
    lemma_product_cast((r + 1) as int, (r + 1) as int);
    assert(rr * rr <= nr < (rr + 1 as real) * (rr + 1 as real));
    assert(low * low == (rr * rr) * (w * w)) by (nonlinear_arith)
        requires
            low == rr * w,
    ;
    assert(high * high == ((rr + 1 as real) * (rr + 1 as real)) * (w * w)) by (nonlinear_arith)
        requires
            high == (rr + 1 as real) * w,
    ;
    assert(w * w > 0 as real) by (nonlinear_arith)
        requires
            w > 0 as real,
    ;
    let ww = w * w;
    assert((rr * rr) * ww <= nr * ww) by (nonlinear_arith)
        requires
            rr * rr <= nr,
            ww > 0 as real,
    ;
    assert(nr * ww <= ((rr + 1 as real) * (rr + 1 as real)) * ww) by (nonlinear_arith)
        requires
            nr < (rr + 1 as real) * (rr + 1 as real),
            ww > 0 as real,
    ;
    assert(low * low <= 2 as real);
    assert(high * high >= 2 as real);
    assert(low > 0 as real) by (nonlinear_arith)
        requires
            rr >= 1 as real,
            w > 0 as real,
            low == rr * w,
    ;
    assert(low <= high) by (nonlinear_arith)
        requires
            w > 0 as real,
            low == rr * w,
            high == (rr + 1 as real) * w,
    ;
    // The leading bit of the root stands for one.
    lemma_root_length(r, e, len, low, high);
    let root = hp_int(p, 2).sqrt();
    let sticky = r * r != n;
    lemma_rounded_is_near(p, false, r, e, sticky, low);
    let x = real_of(root);
    let other = if sticky {
        high
    } else {
        low
    };
    if sticky {
        lemma_rounded_is_near(p, false, r, e, sticky, high);
    } else {
        assert(low * low == 2 as real);
    }
    lemma_two_to_pos(-(p as int));
    lemma_unit_is_small(p);
    lemma_square_bounds(x, low, other, u);
}

proof fn lemma_root_length(r: nat, e: int, len: nat, low: real, high: real)
    requires
        r > 0,
        len == bit_len(r),
        low == (r as int as real) * two_to(e),
        high == (r as int as real + 1 as real) * two_to(e),
        low * low <= 2 as real,
        high * high >= 2 as real,
    ensures
        e + len == 1,
{
    lemma_bit_len(r);
    lemma_two_to_pos(e);
    let w = two_to(e);
    let rr = r as int as real;
    lemma2_to64();
    if e + len >= 2 {
        lemma_two_to_adds(e, (len - 1) as nat);
        lemma_two_to_grows(1, e + len - 1);
        let t = pow2((len - 1) as nat) as int as real;
        assert(low >= 2 as real) by (nonlinear_arith)
            requires
                rr >= t,
                low == rr * w,
                w * t >= 2 as real,
                w > 0 as real,
        ;
        assert(low * low >= 4 as real) by (nonlinear_arith)
            requires
                low >= 2 as real,
        ;
    }
    if e + len <= 0 {
        lemma_two_to_adds(e, len);
        lemma_two_to_grows(e + len, 0);
        let t = pow2(len) as int as real;
        assert(high <= 1 as real) by (nonlinear_arith)
            requires
                rr + 1 as real <= t,
                high == (rr + 1 as real) * w,
                w * t <= 1 as real,
                w > 0 as real,
        ;
        assert(high >= 0 as real) by (nonlinear_arith)
            requires
                rr >= 0 as real,
                high == (rr + 1 as real) * w,
                w > 0 as real,
        ;
        assert(high * high <= 1 as real) by (nonlinear_arith)
            requires
                0 as real <= high <= 1 as real,
        ;
    }
}

/// The unit of rounding is at most one half.
pub proof fn lemma_unit_is_small(p: nat)
    requires
        p >= 1,
    ensures
        (0 as real) < unit(p),
        2 as real * unit(p) <= 1 as real,
{
    lemma_two_to_pos(-(p as int));
    lemma_two_to_grows(-(p as int), -1);
    lemma2_to64();
    assert(2 as real * ((1 as real) / (2 as real)) == 1 as real);
}

proof fn lemma_square_bounds(x: real, low: real, high: real, u: real)
    requires
        near(x, low, u),
        near(x, high, u),
        (0 as real) < low <= high,
        low * low <= 2 as real,
        high * high >= 2 as real,
        (0 as real) < u,
        2 as real * u <= 1 as real,
    ensures
        x > 0 as real,
        2 as real * ((1 as real - u) * (1 as real - u)) <= x * x <= 2 as real * ((1 as real + u) * (
        1 as real + u)),
{
    let a = (1 as real + u) * low;
    let b = (1 as real - u) * high;
    assert(x <= a) by (nonlinear_arith)
        requires
            x - low <= u * low,
            a == (1 as real + u) * low,
    ;
    assert(x >= b) by (nonlinear_arith)
        requires
            x - high >= -(u * high),
            b == (1 as real - u) * high,
    ;
    assert(b > 0 as real) by (nonlinear_arith)
        requires
            high > 0 as real,
            2 as real * u <= 1 as real,
            b == (1 as real - u) * high,
    ;
    assert(x * x <= a * a) by (nonlinear_arith)
        requires
            (0 as real) < x <= a,
    ;
    assert(x * x >= b * b) by (nonlinear_arith)
        requires
            (0 as real) < b <= x,
    ;
    let g = (1 as real + u) * (1 as real + u);
    let h = (1 as real - u) * (1 as real - u);
    assert(a * a == g * (low * low)) by (nonlinear_arith)
        requires
            a == (1 as real + u) * low,
            g == (1 as real + u) * (1 as real + u),
    ;
    assert(b * b == h * (high * high)) by (nonlinear_arith)
        requires
            b == (1 as real - u) * high,
            h == (1 as real - u) * (1 as real - u),
    ;
    assert(g >= 0 as real && h >= 0 as real) by (nonlinear_arith)
        requires
            g == (1 as real + u) * (1 as real + u),
            h == (1 as real - u) * (1 as real - u),
    ;
    let l = low * low;
    let t = high * high;
    assert(g * l <= 2 as real * g) by (nonlinear_arith)
        requires
            g >= 0 as real,
            l <= 2 as real,
    ;
    assert(h * t >= 2 as real * h) by (nonlinear_arith)
        requires
            h >= 0 as real,
            t >= 2 as real,
    ;
}

/// Equal finite values stand for the same number.
pub proof fn lemma_same_number(x: HpValue, y: HpValue)
    requires
        x.eqv(y),
        x.is_finite(),
        y.is_finite(),
        x.wf(),
        y.wf(),
    ensures
        real_of(x) == real_of(y),
{
    reveal(class_order);
    match (x.class, y.class) {
        (Class::Num { neg: na, man: ma, exp: ea }, Class::Num { neg: nb, man: mb, exp: eb }) => {
            let e = min_int(ea, eb);
            lemma_real_at(na, ma, ea, e);
            lemma_real_at(nb, mb, eb, e);
        },
        _ => {},
    }
}

} // verus!
