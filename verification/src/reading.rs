//! Decimals with enough digits: one that lies nearer to a number than half of its last place reads
//! as that number.

use crate::decimal::{decimal_of_text, hp_decimal, lemma_pow10_bound, pow10, DecimalValue};
use crate::limbs::{bit_len, lemma_bit_len, lemma_bit_len_unique, lemma_pow2_64};
use crate::rounding::{nearest, rounded, Class, HpValue};
use vstd::arithmetic::div_mod::*;
use vstd::arithmetic::power2::*;
use vstd::prelude::*;

verus! {

/// Numerator and denominator of a decimal, without its sign.
pub open spec fn fraction(d: DecimalValue) -> (nat, nat) {
    if d.exponent >= 0 {
        (d.digits * pow10(d.exponent as nat), 1)
    } else {
        (d.digits, pow10((-d.exponent) as nat))
    }
}

/// The ratio `a / b` lies within half of the last place of `man * 2^exp`, a significand of `p`
/// bits; below a power of two, where the places halve, within a quarter.
pub open spec fn ratio_near(a: nat, b: nat, man: nat, exp: int, p: nat) -> bool {
    let left = a * pow2(if exp < 0 {
        (-exp) as nat
    } else {
        0
    });
    let place = b * pow2(if exp < 0 {
        0
    } else {
        exp as nat
    });
    &&& 2 * left < (2 * man + 1) * place
    &&& (2 * man - 1) * place < 2 * left
    &&& man == pow2((p - 1) as nat) ==> (4 * man - 1) * place < 4 * left
}

/// A decimal is of the sign of a number and nearer to it than half of its last place; for zero it
/// is zero.
pub open spec fn decimal_near(d: DecimalValue, x: HpValue) -> bool {
    match x.class {
        Class::Zero { neg } => d.digits == 0 && d.neg == neg,
        Class::Num { neg, man, exp } => {
            &&& d.digits > 0
            &&& d.neg == neg
            &&& ratio_near(fraction(d).0, fraction(d).1, man, exp, x.prec)
        },
        _ => false,
    }
}

/// A quotient that is cut off, and whether something was cut.
proof fn lemma_cut(n: int, b: int, low: int, high: int)
    requires
        b > 0,
        low * b < n < high * b,
    ensures
        low <= n / b < high,
        n / b == low ==> n % b != 0,
{
    lemma_fundamental_div_mod(n, b);
    lemma_mod_bound(n, b);
    let q = n / b;
    let r = n % b;
    assert(q < high) by (nonlinear_arith)
        requires
            n == b * q + r,
            0 <= r,
            n < high * b,
            b > 0,
    ;
    assert(low <= q) by (nonlinear_arith)
        requires
            n == b * q + r,
            r < b,
            low * b < n,
            b > 0,
    ;
    if q == low {
        assert(b * q == low * b) by (nonlinear_arith)
            requires
                q == low,
        ;
    }
}

/// The quotient and the remainder of a number between two multiples.
proof fn lemma_placed(n: nat, q: nat, r: nat, unit: nat)
    requires
        n == q * unit + r,
        r < unit,
    ensures
        n / unit == q,
        n % unit == r,
{
    lemma_fundamental_div_mod_converse(n as int, unit as int, q as int, r as int);
}

/// A number at or above `man * 2^g`, and less than half of a place above it, rounds to it.
proof fn lemma_rounds_down(p: nat, man: nat, g: nat, n: nat, e: int, sticky: bool)
    requires
        p >= 1,
        g >= 1,
        pow2((p - 1) as nat) <= man < pow2(p),
        man * pow2(g) <= n < man * pow2(g) + pow2((g - 1) as nat),
    ensures
        nearest(p, n, e, sticky) == (man, e + g),
{
    reveal(nearest);
    let unit = pow2(g);
    lemma_pow2_pos(g);
    lemma_pow2_unfold(g);
    lemma_pow2_adds((p - 1) as nat, g);
    lemma_pow2_adds(p, g);
    let base = pow2((p - 1) as nat);
    let top = pow2(p);
    assert(base * unit <= man * unit) by (nonlinear_arith)
        requires
            base <= man,
    ;
    assert((man + 1) * unit <= top * unit) by (nonlinear_arith)
        requires
            man + 1 <= top,
    ;
    assert((man + 1) * unit == man * unit + unit) by (nonlinear_arith);
    lemma_bit_len_unique(n, p + g);
    lemma_placed(n, man, (n - man * unit) as nat, unit);
}

/// A number less than `man * 2^g`, and at most half of a place below it, rounds to it; exactly
/// half only where something was cut off.
proof fn lemma_rounds_up(p: nat, man: nat, g: nat, n: nat, e: int, sticky: bool)
    requires
        p >= 1,
        g >= 1,
        pow2((p - 1) as nat) < man < pow2(p),
        man * pow2(g) - pow2((g - 1) as nat) <= n < man * pow2(g),
        n == man * pow2(g) - pow2((g - 1) as nat) ==> sticky,
    ensures
        nearest(p, n, e, sticky) == (man, e + g),
{
    reveal(nearest);
    let unit = pow2(g);
    let q = (man - 1) as nat;
    lemma_pow2_pos(g);
    lemma_pow2_unfold(g);
    lemma_pow2_adds((p - 1) as nat, g);
    lemma_pow2_adds(p, g);
    let base = pow2((p - 1) as nat);
    let top = pow2(p);
    assert(base * unit <= q * unit) by (nonlinear_arith)
        requires
            base <= q,
    ;
    assert(man * unit <= top * unit) by (nonlinear_arith)
        requires
            man <= top,
    ;
    assert(man * unit == q * unit + unit) by (nonlinear_arith)
        requires
            man == q + 1,
    ;
    lemma_bit_len_unique(n, p + g);
    lemma_placed(n, q, (n - q * unit) as nat, unit);
}

/// A number less than a power of two, and at most a quarter of a place below it, rounds to it.
proof fn lemma_rounds_to_power(p: nat, g: nat, n: nat, e: int, sticky: bool)
    requires
        p >= 1,
        g >= 2,
        pow2((p - 1) as nat) * pow2(g) - pow2((g - 2) as nat) <= n < pow2((p - 1) as nat) * pow2(g),
        n == pow2((p - 1) as nat) * pow2(g) - pow2((g - 2) as nat) ==> sticky,
    ensures
        nearest(p, n, e, sticky) == (pow2((p - 1) as nat), e + g),
{
    reveal(nearest);
    let d = (g - 1) as nat;
    let unit = pow2(d);
    let top = pow2(p);
    let base = pow2((p - 1) as nat);
    lemma_pow2_pos((g - 2) as nat);
    lemma_pow2_unfold(d);
    lemma_pow2_unfold(g);
    lemma_pow2_unfold(p);
    lemma_pow2_pos((p - 1) as nat);
    lemma_pow2_adds(p, d);
    lemma_pow2_adds((p - 1) as nat, d);
    assert(base * pow2(g) == top * unit) by (nonlinear_arith)
        requires
            pow2(g) == 2 * unit,
            top == 2 * base,
    ;
    let q = (top - 1) as nat;
    assert(top * unit == q * unit + unit) by (nonlinear_arith)
        requires
            top == q + 1,
    ;
    assert(base * unit <= q * unit) by (nonlinear_arith)
        requires
            base <= q,
    ;
    lemma_bit_len_unique(n, p + d);
    lemma_placed(n, q, (n - q * unit) as nat, unit);
}

/// A strict inequality between products keeps under a common positive factor.
proof fn lemma_common_factor(u: int, left: int, v: int, place: int, c: int)
    requires
        u * left < v * place,
        c > 0,
    ensures
        u * (left * c) < v * (place * c),
{
    assert(u * (left * c) == (u * left) * c) by (nonlinear_arith);
    assert(v * (place * c) == (v * place) * c) by (nonlinear_arith);
    assert((u * left) * c < (v * place) * c) by (nonlinear_arith)
        requires
            u * left < v * place,
            c > 0,
    ;
}

/// Bounds in quarters of a place.
proof fn lemma_quarters(man: int, b: int, quarter: int)
    ensures
        (2 * man + 1) * (b * (4 * quarter)) == 2 * ((man * (4 * quarter) + 2 * quarter) * b),
        (2 * man - 1) * (b * (4 * quarter)) == 2 * ((man * (4 * quarter) - 2 * quarter) * b),
        (4 * man - 1) * (b * (4 * quarter)) == 4 * ((man * (4 * quarter) - quarter) * b),
{
    let z = b * quarter;
    let m = man * z;
    assert((2 * man + 1) * (b * (4 * quarter)) == 8 * m + 4 * z) by (nonlinear_arith)
        requires
            z == b * quarter,
            m == man * z,
    ;
    assert((2 * man - 1) * (b * (4 * quarter)) == 8 * m - 4 * z) by (nonlinear_arith)
        requires
            z == b * quarter,
            m == man * z,
    ;
    assert((4 * man - 1) * (b * (4 * quarter)) == 16 * m - 4 * z) by (nonlinear_arith)
        requires
            z == b * quarter,
            m == man * z,
    ;
    assert((man * (4 * quarter) + 2 * quarter) * b == 4 * m + 2 * z) by (nonlinear_arith)
        requires
            z == b * quarter,
            m == man * z,
    ;
    assert((man * (4 * quarter) - 2 * quarter) * b == 4 * m - 2 * z) by (nonlinear_arith)
        requires
            z == b * quarter,
            m == man * z,
    ;
    assert((man * (4 * quarter) - quarter) * b == 4 * m - z) by (nonlinear_arith)
        requires
            z == b * quarter,
            m == man * z,
    ;
}

/// Nearness, counted in units of `2^-k`.
proof fn lemma_near_in_units(a: nat, b: nat, man: nat, exp: int, p: nat, k: nat)
    requires
        ratio_near(a, b, man, exp, p),
        exp + k >= 2,
    ensures
        ({
            let g = (exp + k) as nat;
            let m = man * pow2(g);
            &&& (m - pow2((g - 1) as nat)) * b < a * pow2(k)
            &&& a * pow2(k) < (m + pow2((g - 1) as nat)) * b
            &&& man == pow2((p - 1) as nat) ==> (m - pow2((g - 2) as nat)) * b < a * pow2(k)
        }),
{
    let g = (exp + k) as nat;
    let s: nat = if exp < 0 {
        (-exp) as nat
    } else {
        0
    };
    let t: nat = if exp < 0 {
        0
    } else {
        exp as nat
    };
    let w = (k - s) as nat;
    let c = pow2(w) as int;
    let left = (a * pow2(s)) as int;
    let place = (b * pow2(t)) as int;
    let quarter = pow2((g - 2) as nat) as int;
    lemma_pow2_pos(w);
    lemma_pow2_adds(s, w);
    lemma_pow2_adds(t, w);
    assert(s + w == k);
    assert(t + w == g);
    lemma_pow2_unfold(g);
    lemma_pow2_unfold((g - 1) as nat);
    assert(left * c == a * pow2(k)) by (nonlinear_arith)
        requires
            left == a * pow2(s),
            pow2(s) * c == pow2(k),
    ;
    assert(place * c == b * pow2(g)) by (nonlinear_arith)
        requires
            place == b * pow2(t),
            pow2(t) * c == pow2(g),
    ;
    lemma_quarters(man as int, b as int, quarter);
    lemma_common_factor(2, left, 2 * (man as int) + 1, place, c);
    lemma_common_factor(2 * man - 1, place, 2, left, c);
    if man == pow2((p - 1) as nat) {
        lemma_common_factor(4 * man - 1, place, 4, left, c);
    }
}

/// A ratio near a number rounds to it.
proof fn lemma_near_ratio_rounds(neg: bool, a: nat, b: nat, k: nat, x: HpValue)
    requires
        x.wf(),
        x.class matches Class::Num { neg: sign, man, exp } && sign == neg && exp + k >= 2
            && ratio_near(a, b, man, exp, x.prec),
        b > 0,
    ensures
        rounded(x.prec, neg, a * pow2(k) / b, -(k as int), (a * pow2(k)) % b != 0) == x.class,
{
    if let Class::Num { neg: sign, man, exp } = x.class {
        let p = x.prec;
        let g = (exp + k) as nat;
        let total = a * pow2(k);
        let n = total / b;
        let sticky = total % b != 0;
        let m = man * pow2(g);
        let half = pow2((g - 1) as nat);
        let quarter = pow2((g - 2) as nat);
        let base = pow2((p - 1) as nat);
        lemma_near_in_units(a, b, man, exp, p, k);
        lemma_cut(total as int, b as int, m - half, m + half as int);
        if man == base {
            lemma_cut(total as int, b as int, m - quarter, m + half as int);
        }
        if n >= m {
            lemma_rounds_down(p, man, g, n, -(k as int), sticky);
        } else if man > base {
            lemma_rounds_up(p, man, g, n, -(k as int), sticky);
        } else {
            lemma_rounds_to_power(p, g, n, -(k as int), sticky);
        }
        reveal(rounded);
    }
}

/// A whole number that is a number of short exponent is kept.
proof fn lemma_whole_number_kept(p: nat, a: nat, s: nat)
    requires
        p >= 1,
        a > 0,
        pow2((p - 1) as nat) <= a * pow2(s) < pow2(p),
    ensures
        nearest(p, a, 0, false) == (a * pow2(s), -(s as int)),
{
    reveal(nearest);
    let unit = pow2(s);
    lemma_pow2_pos(s);
    assert(unit <= a * unit) by (nonlinear_arith)
        requires
            a >= 1,
            unit > 0,
    ;
    if s >= p {
        lemma_pow2_grows(p, s);
    }
    lemma_pow2_adds((p - s) as nat, s);
    lemma_pow2_adds((p - s - 1) as nat, s);
    let low = pow2((p - s - 1) as nat);
    let high = pow2((p - s) as nat);
    assert(low <= a) by (nonlinear_arith)
        requires
            low * unit <= a * unit,
            unit > 0,
    ;
    assert(a < high) by (nonlinear_arith)
        requires
            a * unit < high * unit,
            unit > 0,
    ;
    lemma_bit_len_unique(a, (p - s) as nat);
}

proof fn lemma_pow2_grows(a: nat, b: nat)
    requires
        a <= b,
    ensures
        pow2(a) <= pow2(b),
{
    if a < b {
        lemma_pow2_strictly_increases(a, b);
    }
}

/// A whole number near one with places of at most two is that number.
proof fn lemma_whole_number_exact(a: nat, man: nat, exp: int, p: nat)
    requires
        exp <= 1,
        ratio_near(a, 1, man, exp, p),
    ensures
        exp == 1 ==> a == 2 * man,
        exp <= 0 ==> a * pow2((-exp) as nat) == man,
{
    lemma_pow2_64();
    let place = 1 * pow2(if exp < 0 {
        0
    } else {
        exp as nat
    });
    if exp == 1 {
        assert(place == 2);
        assert(a * pow2(0) == a);
        assert((2 * man + 1) * place == 4 * man + 2) by (nonlinear_arith)
            requires
                place == 2,
        ;
        assert((2 * man - 1) * place == 4 * man - 2) by (nonlinear_arith)
            requires
                place == 2,
        ;
    } else {
        assert(place == 1);
        assert((2 * man + 1) * place == 2 * man + 1) by (nonlinear_arith)
            requires
                place == 1,
        ;
        assert((2 * man - 1) * place == 2 * man - 1) by (nonlinear_arith)
            requires
                place == 1,
        ;
    }
}

/// A ratio near a number of small exponent has a denominator that is as long.
proof fn lemma_exponent_reached(a: nat, b: nat, man: nat, exp: int, p: nat)
    requires
        a > 0,
        b > 0,
        man < pow2(p),
        ratio_near(a, b, man, exp, p),
    ensures
        exp + p + bit_len(b) > 0,
{
    lemma_bit_len(b);
    let len = bit_len(b);
    if exp < 0 {
        let s = (-exp) as nat;
        lemma_pow2_64();
        let unit = pow2(s);
        let top = pow2(p);
        let long = pow2(len);
        lemma_pow2_adds(p, len);
        lemma_pow2_pos(s);
        lemma_pow2_pos(p);
        assert(b * 1 == b);
        assert(unit <= a * unit) by (nonlinear_arith)
            requires
                a >= 1,
                unit > 0,
        ;
        assert((2 * man + 1) * b <= 2 * top * b) by (nonlinear_arith)
            requires
                2 * man + 1 <= 2 * top,
        ;
        assert(2 * top * b <= 2 * (top * long)) by (nonlinear_arith)
            requires
                b <= long,
        ;
        if s >= p + len {
            lemma_pow2_grows(p + len, s);
        }
    }
}

/// A decimal with enough digits reads as the number that it was written for: where it is nearer to
/// a number than half of its last place, the number is what it rounds to.
pub proof fn law_near_decimal_reads_back(d: DecimalValue, x: HpValue)
    requires
        x.wf(),
        decimal_near(d, x),
    ensures
        hp_decimal(x.prec, d) == x,
{
    let p = x.prec;
    let (a, b) = fraction(d);
    if let Class::Num { neg, man, exp } = x.class {
        lemma_pow2_64();
        if d.exponent < 0 {
            lemma_pow10_bound((-d.exponent) as nat);
            lemma_exponent_reached(a, b, man, exp, p);
            lemma_near_ratio_rounds(neg, a, b, p + 2 + bit_len(b), x);
        } else {
            lemma_pow10_bound(d.exponent as nat);
            assert(d.digits * pow10(d.exponent as nat) > 0) by (nonlinear_arith)
                requires
                    d.digits > 0,
                    pow10(d.exponent as nat) > 0,
            ;
            if exp >= 2 {
                assert(a * pow2(0) == a);
                assert(a / 1 == a && a % 1 == 0);
                lemma_near_ratio_rounds(neg, a, b, 0, x);
            } else if exp == 1 {
                lemma_whole_number_exact(a, man, exp, p);
                lemma_rounds_down(p, man, 1, a, 0, false);
                reveal(rounded);
            } else {
                let s = (-exp) as nat;
                lemma_whole_number_exact(a, man, exp, p);
                lemma_whole_number_kept(p, a, s);
                reveal(rounded);
            }
        }
    }
}

/// A decimal is of the sign of a number and within half of its own last digit of it.
pub open spec fn decimal_rounds(d: DecimalValue, x: HpValue) -> bool {
    match x.class {
        Class::Num { neg, man, exp } => {
            let twos = pow2(if exp < 0 {
                (-exp) as nat
            } else {
                0
            });
            let place = fraction(d).1 * pow2(if exp < 0 {
                0
            } else {
                exp as nat
            });
            let left = fraction(d).0 * twos;
            let last = twos * (if d.exponent >= 0 {
                pow10(d.exponent as nat)
            } else {
                1
            });
            &&& d.neg == neg
            &&& -(last as int) <= 2 * left - 2 * (man * place) <= last
        },
        _ => false,
    }
}

proof fn lemma_last_digit_is_small(digits: int, last: int, man: int, place: int, top: int)
    requires
        digits > top,
        0 <= man < top,
        last > 0,
        place > 0,
        2 * (digits * last) - 2 * (man * place) <= last,
    ensures
        last < place,
        2 * man == top ==> 2 * last < place,
{
    assert(digits * last >= top * last + last) by (nonlinear_arith)
        requires
            digits >= top + 1,
            last > 0,
    ;
    assert(man * place <= top * place) by (nonlinear_arith)
        requires
            man <= top,
            place > 0,
    ;
    assert(last < place) by (nonlinear_arith)
        requires
            top * last < top * place,
            top > 0,
    ;
    if 2 * man == top {
        assert(2 * (man * place) == top * place) by (nonlinear_arith)
            requires
                2 * man == top,
        ;
        assert(2 * (top * last) == top * (2 * last)) by (nonlinear_arith);
        assert(2 * last < place) by (nonlinear_arith)
            requires
                top * (2 * last) < top * place,
                top > 0,
        ;
    }
}

/// A number rounded to more digits than its significand could fill, in that the digits count more
/// than `2^p`, has enough of them: the decimal reads as the number.
pub proof fn law_enough_digits_read_back(d: DecimalValue, x: HpValue)
    requires
        x.wf(),
        x.class is Num,
        d.digits > pow2(x.prec),
        decimal_rounds(d, x),
    ensures
        decimal_near(d, x),
        hp_decimal(x.prec, d) == x,
{
    let p = x.prec;
    let (a, b) = fraction(d);
    if let Class::Num { neg, man, exp } = x.class {
        let s: nat = if exp < 0 {
            (-exp) as nat
        } else {
            0
        };
        let t: nat = if exp < 0 {
            0
        } else {
            exp as nat
        };
        let tens: nat = if d.exponent >= 0 {
            pow10(d.exponent as nat)
        } else {
            1
        };
        let last = (pow2(s) * tens) as int;
        let place = (b * pow2(t)) as int;
        let left = (a * pow2(s)) as int;
        lemma_pow2_pos(s);
        lemma_pow2_pos(t);
        lemma_pow2_pos(p);
        lemma_pow2_unfold(p);
        if d.exponent >= 0 {
            lemma_pow10_bound(d.exponent as nat);
        } else {
            lemma_pow10_bound((-d.exponent) as nat);
        }
        assert(last > 0) by (nonlinear_arith)
            requires
                last == pow2(s) * tens,
                pow2(s) > 0,
                tens > 0,
        ;
        assert(place > 0) by (nonlinear_arith)
            requires
                place == b * pow2(t),
                b > 0,
                pow2(t) > 0,
        ;
        assert(a == d.digits * tens) by {
            assert(d.digits * 1 == d.digits);
        }
        assert(left == d.digits * last) by (nonlinear_arith)
            requires
                left == a * pow2(s),
                a == d.digits * tens,
                last == pow2(s) * tens,
        ;
        lemma_last_digit_is_small(d.digits as int, last, man as int, place, pow2(p) as int);
        assert((2 * man + 1) * place == 2 * (man * place) + place) by (nonlinear_arith);
        assert((2 * man - 1) * place == 2 * (man * place) - place) by (nonlinear_arith);
        assert((4 * man - 1) * place == 4 * (man * place) - place) by (nonlinear_arith);
        law_near_decimal_reads_back(d, x);
    }
}

/// What the decimal literals among texts read as at a precision.
pub open spec fn literal_reading(p: nat) -> spec_fn(Seq<char>) -> Result<HpValue, Seq<char>> {
    |s: Seq<char>|
        match decimal_of_text(s) {
            Some(d) => Ok(hp_decimal(p, d)),
            None => Err("not a decimal literal"@),
        }
}

/// A text is a decimal literal with enough digits for a number.
pub open spec fn text_near(s: Seq<char>, x: HpValue) -> bool {
    decimal_of_text(s) is Some && decimal_near(decimal_of_text(s)->0, x)
}

/// A literal with enough digits for a number reads as that number at its precision.
pub proof fn law_near_text_reads_back(s: Seq<char>, x: HpValue)
    requires
        x.wf(),
        text_near(s, x),
    ensures
        literal_reading(x.prec)(s) == Ok::<HpValue, Seq<char>>(x),
{
    law_near_decimal_reads_back(decimal_of_text(s)->0, x);
}

} // verus!
