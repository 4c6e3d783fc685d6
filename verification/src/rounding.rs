//! Binary floating point with a chosen precision and round-to-nearest-even,
//! as mathematics: what each operation returns, with nothing executable.
//!
//! A value carries its precision `p`. A nonzero finite value is
//! `man * 2^exp` with `2^(p-1) <= man < 2^p`. Operations round the exact result
//! to the nearest such value, ties to the even significand; results above the
//! exponent range become infinite, results below it zero or the least magnitude.

use crate::limbs::{bit_len, lemma_bit_len, order_of, Order};
use vstd::arithmetic::div_mod::*;
use vstd::arithmetic::mul::*;
use vstd::arithmetic::power2::*;
use vstd::prelude::*;

verus! {

/// Largest exponent `k` of a finite value in `[2^(k-1), 2^k)`; the least is its negative.
pub const EXPONENT_LIMIT: i64 = 0x3fff_ffff;

/// What a value is, apart from its precision.
pub enum Class {
    Nan,
    Inf { neg: bool },
    Zero { neg: bool },
    Num { neg: bool, man: nat, exp: int },
}

/// A value together with its precision in bits.
pub struct HpValue {
    pub prec: nat,
    pub class: Class,
}

/// `n` with a sign.
pub open spec fn signed(neg: bool, n: nat) -> int {
    if neg {
        -(n as int)
    } else {
        n as int
    }
}

/// Magnitude of an integer.
pub open spec fn magnitude(i: int) -> nat {
    if i < 0 {
        (-i) as nat
    } else {
        i as nat
    }
}

pub open spec fn min_int(a: int, b: int) -> int {
    if a <= b {
        a
    } else {
        b
    }
}

/// Largest integer whose square is at most `n`.
pub open spec fn floor_sqrt(n: nat) -> nat
    decreases n,
{
    if n == 0 {
        0
    } else {
        let r = floor_sqrt((n - 1) as nat);
        if (r + 1) * (r + 1) <= n {
            r + 1
        } else {
            r
        }
    }
}

/// The `p`-bit significand and exponent nearest to a positive number, ties to even,
/// with no bound on the exponent.
///
/// The number is `n * 2^e`, or lies strictly between `n * 2^e` and `(n + 1) * 2^e`
/// where `sticky` is set.
#[verifier::opaque]
pub open spec fn nearest(p: nat, n: nat, e: int, sticky: bool) -> (nat, int) {
    let len = bit_len(n);
    if len <= p {
        (n * pow2((p - len) as nat), e - (p - len))
    } else {
        let d = (len - p) as nat;
        let q = n / pow2(d);
        let r = n % pow2(d);
        let half = pow2((d - 1) as nat);
        let m = if r > half || (r == half && (sticky || q % 2 == 1)) {
            q + 1
        } else {
            q
        };
        if m == pow2(p) {
            (pow2((p - 1) as nat), e + d + 1)
        } else {
            (m, e + d)
        }
    }
}

/// A positive number, given as in [`nearest`], rounded to `p` bits within the exponent range.
#[verifier::opaque]
pub open spec fn rounded(p: nat, neg: bool, n: nat, e: int, sticky: bool) -> Class {
    let len = bit_len(n);
    let (man, exp) = nearest(p, n, e, sticky);
    if exp + p > EXPONENT_LIMIT {
        Class::Inf { neg }
    } else if exp + p < -EXPONENT_LIMIT {
        if e + len == -EXPONENT_LIMIT - 1 && (n != pow2((len - 1) as nat) || sticky) {
            Class::Num { neg, man: pow2((p - 1) as nat), exp: -EXPONENT_LIMIT - p }
        } else {
            Class::Zero { neg }
        }
    } else {
        Class::Num { neg, man, exp }
    }
}

/// An integer rounded to `p` bits.
pub open spec fn int_class(p: nat, i: int) -> Class {
    if i == 0 {
        Class::Zero { neg: false }
    } else {
        rounded(p, i < 0, magnitude(i), 0, false)
    }
}

/// A value rounded to `p` bits.
#[verifier::opaque]
pub open spec fn class_at(p: nat, x: Class) -> Class {
    match x {
        Class::Num { neg, man, exp } => rounded(p, neg, man, exp, false),
        _ => x,
    }
}

pub open spec fn neg_class(x: Class) -> Class {
    match x {
        Class::Nan => Class::Nan,
        Class::Inf { neg } => Class::Inf { neg: !neg },
        Class::Zero { neg } => Class::Zero { neg: !neg },
        Class::Num { neg, man, exp } => Class::Num { neg: !neg, man, exp },
    }
}

pub open spec fn abs_class(x: Class) -> Class {
    match x {
        Class::Nan => Class::Nan,
        Class::Inf { neg } => Class::Inf { neg: false },
        Class::Zero { neg } => Class::Zero { neg: false },
        Class::Num { neg, man, exp } => Class::Num { neg: false, man, exp },
    }
}

/// Two finite nonzero numbers brought to one exponent and added, as an integer.
pub open spec fn aligned_sum(na: bool, ma: nat, ea: int, nb: bool, mb: nat, eb: int) -> int {
    let e = min_int(ea, eb);
    signed(na, ma * pow2((ea - e) as nat)) + signed(nb, mb * pow2((eb - e) as nat))
}

#[verifier::opaque]
pub open spec fn add_class(p: nat, x: Class, y: Class) -> Class {
    match (x, y) {
        (Class::Nan, _) => Class::Nan,
        (_, Class::Nan) => Class::Nan,
        (Class::Inf { neg: a }, Class::Inf { neg: b }) => if a == b {
            Class::Inf { neg: a }
        } else {
            Class::Nan
        },
        (Class::Inf { neg: a }, _) => Class::Inf { neg: a },
        (_, Class::Inf { neg: b }) => Class::Inf { neg: b },
        (Class::Zero { neg: a }, Class::Zero { neg: b }) => Class::Zero { neg: a && b },
        (Class::Zero { .. }, Class::Num { .. }) => class_at(p, y),
        (Class::Num { .. }, Class::Zero { .. }) => class_at(p, x),
        (Class::Num { neg: na, man: ma, exp: ea }, Class::Num { neg: nb, man: mb, exp: eb }) => {
            let s = aligned_sum(na, ma, ea, nb, mb, eb);
            if s == 0 {
                Class::Zero { neg: false }
            } else {
                rounded(p, s < 0, magnitude(s), min_int(ea, eb), false)
            }
        },
    }
}

#[verifier::opaque]
pub open spec fn mul_class(p: nat, x: Class, y: Class) -> Class {
    match (x, y) {
        (Class::Nan, _) => Class::Nan,
        (_, Class::Nan) => Class::Nan,
        (Class::Inf { neg: a }, Class::Inf { neg: b }) => Class::Inf { neg: a != b },
        (Class::Inf { .. }, Class::Zero { .. }) => Class::Nan,
        (Class::Zero { .. }, Class::Inf { .. }) => Class::Nan,
        (Class::Inf { neg: a }, Class::Num { neg: b, .. }) => Class::Inf { neg: a != b },
        (Class::Num { neg: a, .. }, Class::Inf { neg: b }) => Class::Inf { neg: a != b },
        (Class::Zero { neg: a }, Class::Zero { neg: b }) => Class::Zero { neg: a != b },
        (Class::Zero { neg: a }, Class::Num { neg: b, .. }) => Class::Zero { neg: a != b },
        (Class::Num { neg: a, .. }, Class::Zero { neg: b }) => Class::Zero { neg: a != b },
        (Class::Num { neg: na, man: ma, exp: ea }, Class::Num { neg: nb, man: mb, exp: eb }) => {
            rounded(p, na != nb, ma * mb, ea + eb, false)
        },
    }
}

/// A positive ratio `a / b * 2^e`, rounded to `p` bits.
pub open spec fn ratio_class(p: nat, neg: bool, a: nat, b: nat, e: int) -> Class {
    let k = p + 2 + bit_len(b);
    let n = a * pow2(k);
    rounded(p, neg, n / b, e - k, n % b != 0)
}

#[verifier::opaque]
pub open spec fn div_class(p: nat, x: Class, y: Class) -> Class {
    match (x, y) {
        (Class::Nan, _) => Class::Nan,
        (_, Class::Nan) => Class::Nan,
        (Class::Inf { .. }, Class::Inf { .. }) => Class::Nan,
        (Class::Zero { .. }, Class::Zero { .. }) => Class::Nan,
        (Class::Inf { neg: a }, Class::Zero { neg: b }) => Class::Inf { neg: a != b },
        (Class::Inf { neg: a }, Class::Num { neg: b, .. }) => Class::Inf { neg: a != b },
        (Class::Num { neg: a, .. }, Class::Zero { neg: b }) => Class::Inf { neg: a != b },
        (Class::Zero { neg: a }, Class::Inf { neg: b }) => Class::Zero { neg: a != b },
        (Class::Num { neg: a, .. }, Class::Inf { neg: b }) => Class::Zero { neg: a != b },
        (Class::Zero { neg: a }, Class::Num { neg: b, .. }) => Class::Zero { neg: a != b },
        (Class::Num { neg: na, man: ma, exp: ea }, Class::Num { neg: nb, man: mb, exp: eb }) => {
            ratio_class(p, na != nb, ma, mb, ea - eb)
        },
    }
}

#[verifier::opaque]
pub open spec fn sqrt_class(p: nat, x: Class) -> Class {
    match x {
        Class::Nan => Class::Nan,
        Class::Inf { neg } => if neg {
            Class::Nan
        } else {
            x
        },
        Class::Zero { .. } => x,
        Class::Num { neg, man, exp } => if neg {
            Class::Nan
        } else {
            let k = (2 * (p + 2) + exp % 2) as nat;
            let n = man * pow2(k);
            let r = floor_sqrt(n);
            rounded(p, false, r, (exp - k) / 2, r * r != n)
        },
    }
}

/// How two values compare; `None` where one is not a number. The sign of zero is ignored.
#[verifier::opaque]
pub open spec fn class_order(x: Class, y: Class) -> Option<Order> {
    match (x, y) {
        (Class::Nan, _) => None,
        (_, Class::Nan) => None,
        (Class::Inf { neg: a }, Class::Inf { neg: b }) => Some(
            if a == b {
                Order::Equal
            } else if a {
                Order::Less
            } else {
                Order::Greater
            },
        ),
        (Class::Inf { neg: a }, _) => Some(
            if a {
                Order::Less
            } else {
                Order::Greater
            },
        ),
        (_, Class::Inf { neg: b }) => Some(
            if b {
                Order::Greater
            } else {
                Order::Less
            },
        ),
        (Class::Zero { .. }, Class::Zero { .. }) => Some(Order::Equal),
        (Class::Zero { .. }, Class::Num { neg: b, .. }) => Some(
            if b {
                Order::Greater
            } else {
                Order::Less
            },
        ),
        (Class::Num { neg: a, .. }, Class::Zero { .. }) => Some(
            if a {
                Order::Less
            } else {
                Order::Greater
            },
        ),
        (Class::Num { neg: na, man: ma, exp: ea }, Class::Num { neg: nb, man: mb, exp: eb }) => {
            let e = min_int(ea, eb);
            Some(
                order_of(
                    signed(na, ma * pow2((ea - e) as nat)),
                    signed(nb, mb * pow2((eb - e) as nat)),
                ),
            )
        },
    }
}

impl HpValue {
    /// Precision at least one bit; a number has a full significand and an exponent in range.
    pub open spec fn wf(self) -> bool {
        &&& self.prec >= 1
        &&& match self.class {
            Class::Num { neg, man, exp } => {
                &&& pow2((self.prec - 1) as nat) <= man < pow2(self.prec)
                &&& -EXPONENT_LIMIT <= exp + self.prec <= EXPONENT_LIMIT
            },
            _ => true,
        }
    }

    pub open spec fn is_nan(self) -> bool {
        self.class is Nan
    }

    pub open spec fn is_infinite(self) -> bool {
        self.class is Inf
    }

    pub open spec fn is_finite(self) -> bool {
        !self.is_nan() && !self.is_infinite()
    }

    pub open spec fn is_zero(self) -> bool {
        self.class is Zero
    }

    /// Sign bit; a value that is no number has none.
    pub open spec fn is_sign_negative(self) -> bool {
        match self.class {
            Class::Nan => false,
            Class::Inf { neg } => neg,
            Class::Zero { neg } => neg,
            Class::Num { neg, .. } => neg,
        }
    }

    /// Ordering comparisons are false where one side is not a number.
    pub open spec fn lt(self, other: HpValue) -> bool {
        class_order(self.class, other.class) == Some(Order::Less)
    }

    pub open spec fn le(self, other: HpValue) -> bool {
        self.lt(other) || self.eqv(other)
    }

    pub open spec fn eqv(self, other: HpValue) -> bool {
        class_order(self.class, other.class) == Some(Order::Equal)
    }

    /// Strictly smaller in magnitude.
    pub open spec fn lt_abs(self, other: HpValue) -> bool {
        self.abs().lt(other.abs())
    }

    /// `self += other`, at the precision of `self`.
    pub open spec fn plus(self, other: HpValue) -> HpValue {
        HpValue { prec: self.prec, class: add_class(self.prec, self.class, other.class) }
    }

    /// `self -= other`, at the precision of `self`.
    pub open spec fn minus(self, other: HpValue) -> HpValue {
        HpValue { prec: self.prec, class: add_class(self.prec, self.class, neg_class(other.class)) }
    }

    /// `self *= other`, at the precision of `self`.
    pub open spec fn times(self, other: HpValue) -> HpValue {
        HpValue { prec: self.prec, class: mul_class(self.prec, self.class, other.class) }
    }

    /// `self /= other`, at the precision of `self`.
    pub open spec fn over(self, other: HpValue) -> HpValue {
        HpValue { prec: self.prec, class: div_class(self.prec, self.class, other.class) }
    }

    /// Square root, at the precision of `self`.
    pub open spec fn sqrt(self) -> HpValue {
        HpValue { prec: self.prec, class: sqrt_class(self.prec, self.class) }
    }

    pub open spec fn negated(self) -> HpValue {
        HpValue { prec: self.prec, class: neg_class(self.class) }
    }

    pub open spec fn abs(self) -> HpValue {
        HpValue { prec: self.prec, class: abs_class(self.class) }
    }

    /// The same value at another precision.
    pub open spec fn at(self, p: nat) -> HpValue {
        HpValue { prec: p, class: class_at(p, self.class) }
    }
}

/// An integer at precision `p`.
pub open spec fn hp_int(p: nat, i: int) -> HpValue {
    HpValue { prec: p, class: int_class(p, i) }
}

/// An integer of machine size, exactly.
pub open spec fn hp_word(i: int) -> HpValue {
    hp_int(64, i)
}

/// `2^k` at precision `p`.
pub open spec fn hp_pow2(p: nat, k: int) -> HpValue {
    HpValue { prec: p, class: rounded(p, false, 1, k, false) }
}

pub proof fn lemma_floor_sqrt(n: nat)
    ensures
        floor_sqrt(n) * floor_sqrt(n) <= n,
        n < (floor_sqrt(n) + 1) * (floor_sqrt(n) + 1),
    decreases n,
{
    if n > 0 {
        lemma_floor_sqrt((n - 1) as nat);
        let r = floor_sqrt((n - 1) as nat) as int;
        assert((r + 2) * (r + 2) > (r + 1) * (r + 1) + 1) by (nonlinear_arith)
            requires
                r >= 0,
        ;
    } else {
        assert(0int * 0 == 0 && (0int + 1) * (0 + 1) == 1) by (nonlinear_arith);
    }
}

/// The floor square root is determined by its defining bounds.
pub proof fn lemma_floor_sqrt_unique(n: nat, s: nat)
    requires
        s * s <= n < (s + 1) * (s + 1),
    ensures
        floor_sqrt(n) == s,
{
    lemma_floor_sqrt(n);
    let r = floor_sqrt(n) as int;
    let t = s as int;
    if r < t {
        assert((r + 1) * (r + 1) <= t * t) by (nonlinear_arith)
            requires
                0 <= r + 1 <= t,
        ;
    }
    if t < r {
        assert((t + 1) * (t + 1) <= r * r) by (nonlinear_arith)
            requires
                0 <= t + 1 <= r,
        ;
    }
}

/// Cutting `len - p` low bits off a `len`-bit number leaves `p` bits.
pub proof fn lemma_top_bits(n: nat, p: nat)
    requires
        bit_len(n) > p >= 1,
    ensures
        pow2((p - 1) as nat) <= n / pow2((bit_len(n) - p) as nat) < pow2(p),
{
    let len = bit_len(n);
    let d = (len - p) as nat;
    if n == 0 {
        assert(false);
    }
    lemma_bit_len(n);
    lemma_pow2_adds((p - 1) as nat, d);
    lemma_pow2_adds(p, d);
    lemma_pow2_pos(d);
    let pd = pow2(d) as int;
    let q = (n / pow2(d)) as int;
    lemma_fundamental_div_mod(n as int, pd);
    lemma_mod_bound(n as int, pd);
    assert(q >= pow2((p - 1) as nat)) by (nonlinear_arith)
        requires
            n as int == pd * q + n as int % pd,
            n as int % pd < pd,
            pow2((p - 1) as nat) as int * pd <= n as int,
            pd > 0,
    ;
    assert(q < pow2(p)) by (nonlinear_arith)
        requires
            n as int == pd * q + n as int % pd,
            0 <= n as int % pd,
            (n as int) < pow2(p) as int * pd,
            pd > 0,
    ;
}

/// A rounded significand has exactly `p` bits.
pub proof fn lemma_nearest_bits(p: nat, n: nat, e: int, sticky: bool)
    requires
        p >= 1,
        n > 0,
    ensures
        pow2((p - 1) as nat) <= nearest(p, n, e, sticky).0 < pow2(p),
{
    reveal(nearest);
    let len = bit_len(n);
    lemma_bit_len(n);
    lemma_pow2_unfold(p);
    lemma_pow2_pos((p - 1) as nat);
    if len <= p {
        let s = (p - len) as nat;
        lemma_pow2_adds((len - 1) as nat, s);
        lemma_pow2_adds(len, s);
        lemma_pow2_pos(s);
        let ps = pow2(s) as int;
        assert(pow2((len - 1) as nat) as int * ps <= n as int * ps) by (nonlinear_arith)
            requires
                pow2((len - 1) as nat) <= n,
                ps > 0,
        ;
        assert(n as int * ps < pow2(len) as int * ps) by (nonlinear_arith)
            requires
                n < pow2(len),
                ps > 0,
        ;
    } else {
        lemma_top_bits(n, p);
    }
}

} // verus!
