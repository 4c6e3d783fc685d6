//! Executable floating-point numbers of chosen precision.
//!
//! [`HpFloat`] computes exactly what [`crate::rounding`] says: every operation
//! returns the correctly rounded result at the precision of its left operand.

use crate::limbs::{
    bit_len, bits, compare, difference, divided, divided_by_word, from_word, is_zero, lemma_bit_len,
    lemma_bit_len_unique, lemma_low_at_least, lemma_pow2_64, limb_at, product, shifted_down,
    shifted_up, square_root, sum, trim, value, Order, LIMB_CAP,
};
use crate::rounding::{
    add_class, class_at, class_order, div_class, floor_sqrt, hp_int, hp_pow2, hp_word,
    lemma_floor_sqrt_unique, lemma_nearest_bits, lemma_top_bits, mul_class, nearest, neg_class,
    ratio_class, rounded, sqrt_class, Class, HpValue, EXPONENT_LIMIT,
};
use vstd::arithmetic::div_mod::*;
use vstd::arithmetic::mul::*;
use vstd::arithmetic::power2::*;
use vstd::prelude::*;

verus! {

/// The four kinds of value.
#[derive(Clone, Copy, Debug, PartialEq, Eq, Structural)]
pub enum Kind {
    Nan,
    Infinite,
    Zero,
    Number,
}

/// A floating-point number that carries its precision.
#[derive(Debug)]
pub struct HpFloat {
    prec: u32,
    neg: bool,
    kind: Kind,
    man: Vec<u64>,
    exp: i64,
}

impl View for HpFloat {
    type V = HpValue;

    closed spec fn view(&self) -> HpValue {
        HpValue {
            prec: self.prec as nat,
            class: match self.kind {
                Kind::Nan => Class::Nan,
                Kind::Infinite => Class::Inf { neg: self.neg },
                Kind::Zero => Class::Zero { neg: self.neg },
                Kind::Number => Class::Num {
                    neg: self.neg,
                    man: value(self.man@),
                    exp: self.exp as int,
                },
            },
        }
    }
}

/// A trimmed number below `2^k` has at most `k / 64 + 1` limbs.
pub proof fn lemma_trimmed_len(s: Seq<u64>, k: nat)
    requires
        value(s) < pow2(k),
        s.len() > 0 ==> s[s.len() - 1] != 0,
    ensures
        s.len() <= k / 64 + 1,
{
    if s.len() > k / 64 + 1 {
        let l = (s.len() - 1) as nat;
        lemma_low_at_least(s, l, s.len());
        if 64 * l > k {
            lemma_pow2_strictly_increases(k, 64 * l);
        }
        let x = limb_at(s, l as int) as int;
        let wl = pow2(64 * l) as int;
        assert(x * wl >= wl) by (nonlinear_arith)
            requires
                x >= 1,
                wl >= 0,
        ;
    }
}

/// Splitting one more bit off: halving the quotient by `2^(d-1)` gives that by `2^d`.
proof fn lemma_half_split(n: nat, d: nat)
    requires
        d >= 1,
    ensures
        n / pow2(d) == (n / pow2((d - 1) as nat)) / 2,
        n % pow2(d) == ((n / pow2((d - 1) as nat)) % 2) * pow2((d - 1) as nat) + n % pow2(
            (d - 1) as nat,
        ),
{
    let h = pow2((d - 1) as nat) as int;
    lemma_pow2_unfold(d);
    lemma_pow2_pos((d - 1) as nat);
    let a = n as int / h;
    let b = n as int % h;
    lemma_fundamental_div_mod(n as int, h);
    lemma_mod_bound(n as int, h);
    let q = a / 2;
    let t = a % 2;
    assert(n as int == (2 * h) * q + (t * h + b)) by (nonlinear_arith)
        requires
            n as int == h * a + b,
            a == 2 * q + t,
    ;
    assert(0 <= t * h + b < 2 * h) by (nonlinear_arith)
        requires
            0 <= t <= 1,
            0 <= b < h,
    ;
    lemma_fundamental_div_mod_converse(n as int, 2 * h, q, t * h + b);
}

impl HpFloat {
    #[verifier::type_invariant]
    spec fn inv(self) -> bool {
        &&& self.prec >= 1
        &&& self.kind is Number ==> {
            &&& pow2((self.prec - 1) as nat) <= value(self.man@) < pow2(self.prec as nat)
            &&& -EXPONENT_LIMIT <= self.exp + self.prec <= EXPONENT_LIMIT
            &&& self.man.len() <= self.prec / 64 + 1
        }
    }

    /// A value that is no number.
    pub fn nan(p: u32) -> (r: HpFloat)
        requires
            p >= 1,
        ensures
            r@ == (HpValue { prec: p as nat, class: Class::Nan }),
    {
        HpFloat { prec: p, neg: false, kind: Kind::Nan, man: Vec::new(), exp: 0 }
    }

    /// An infinity.
    pub fn infinity(p: u32, neg: bool) -> (r: HpFloat)
        requires
            p >= 1,
        ensures
            r@ == (HpValue { prec: p as nat, class: Class::Inf { neg } }),
    {
        HpFloat { prec: p, neg, kind: Kind::Infinite, man: Vec::new(), exp: 0 }
    }

    fn signed_zero(p: u32, neg: bool) -> (r: HpFloat)
        requires
            p >= 1,
        ensures
            r@ == (HpValue { prec: p as nat, class: Class::Zero { neg } }),
    {
        HpFloat { prec: p, neg, kind: Kind::Zero, man: Vec::new(), exp: 0 }
    }

    /// Positive zero.
    pub fn zero(p: u32) -> (r: HpFloat)
        requires
            p >= 1,
        ensures
            r@ == hp_int(p as nat, 0),
    {
        HpFloat::signed_zero(p, false)
    }

    /// A positive magnitude `n * 2^e`, plus a fraction of `2^e` where `sticky`, rounded.
    fn round_to(p: u32, neg: bool, n: &Vec<u64>, e: i64, sticky: bool) -> (r: HpFloat)
        requires
            p >= 1,
            value(n@) > 0,
            n.len() + 8 <= LIMB_CAP,
            -0x100_0000_0000 <= e <= 0x100_0000_0000,
            sticky ==> bit_len(value(n@)) > p,
        ensures
            r@ == (HpValue {
                prec: p as nat,
                class: rounded(p as nat, neg, value(n@), e as int, sticky),
            }),
    {
        let len: u64 = bits(n);
        let ghost nv = value(n@);
        let mut man: Vec<u64>;
        let exp: i64;
        proof {
            reveal(nearest);
            reveal(rounded);
            lemma_bit_len(nv);
            lemma_nearest_bits(p as nat, nv, e as int, sticky);
            lemma_pow2_64();
        }
        if len <= p as u64 {
            let s: u64 = p as u64 - len;
            man = shifted_up(n, s);
            exp = e - s as i64;
        } else {
            let d: u64 = len - p as u64;
            let (h, low_bits): (Vec<u64>, bool) = shifted_down(n, d - 1);
            let (q, half_bit): (Vec<u64>, u64) = divided_by_word(&h, 2);
            let (_q2, odd): (Vec<u64>, u64) = divided_by_word(&q, 2);
            proof {
                lemma_half_split(nv, d as nat);
                lemma_top_bits(nv, p as nat);
                let half = pow2((d - 1) as nat) as int;
                lemma_pow2_pos((d - 1) as nat);
                lemma_mod_bound(nv as int, half);
                assert(0 * half == 0 && 1 * half == half) by (nonlinear_arith);
            }
            let up: bool = half_bit == 1 && (low_bits || sticky || odd == 1);
            if up {
                let one: Vec<u64> = from_word(1);
                let m: Vec<u64> = sum(&q, &one);
                let mb: u64 = bits(&m);
                if mb > p as u64 {
                    proof {
                        if value(m@) < pow2(p as nat) {
                            lemma_bit_len_unique(value(m@), p as nat);
                        }
                    }
                    man = shifted_up(&one, p as u64 - 1);
                    exp = e + d as i64 + 1;
                    proof {
                        assert(1 * pow2((p - 1) as nat) == pow2((p - 1) as nat));
                    }
                } else {
                    proof {
                        if value(m@) == pow2(p as nat) {
                            lemma_pow2_strictly_increases(p as nat, (p + 1) as nat);
                            lemma_bit_len_unique(value(m@), (p + 1) as nat);
                        }
                    }
                    man = m;
                    exp = e + d as i64;
                }
            } else {
                man = q;
                exp = e + d as i64;
            }
        }
        assert(value(man@) == nearest(p as nat, nv, e as int, sticky).0);
        assert(exp == nearest(p as nat, nv, e as int, sticky).1);
        if exp + p as i64 > EXPONENT_LIMIT {
            return HpFloat::infinity(p, neg);
        }
        if exp + (p as i64) < -EXPONENT_LIMIT {
            let (_top, below): (Vec<u64>, bool) = shifted_down(n, len - 1);
            proof {
                lemma_power_test(nv);
            }
            if e + len as i64 == -EXPONENT_LIMIT - 1 && (below || sticky) {
                let one: Vec<u64> = from_word(1);
                let mut least: Vec<u64> = shifted_up(&one, p as u64 - 1);
                trim(&mut least);
                proof {
                    assert(1 * pow2((p - 1) as nat) == pow2((p - 1) as nat));
                    lemma_pow2_strictly_increases((p - 1) as nat, p as nat);
                    lemma_trimmed_len(least@, p as nat);
                }
                return HpFloat {
                    prec: p,
                    neg,
                    kind: Kind::Number,
                    man: least,
                    exp: -EXPONENT_LIMIT - p as i64,
                };
            }
            return HpFloat::signed_zero(p, neg);
        }
        trim(&mut man);
        proof {
            lemma_trimmed_len(man@, p as nat);
        }
        HpFloat { prec: p, neg, kind: Kind::Number, man, exp }
    }

    /// A nonnegative integer times a power of two, rounded.
    pub fn from_parts(p: u32, neg: bool, man: &Vec<u64>, exp: i64) -> (r: HpFloat)
        requires
            p >= 1,
            man.len() + 8 <= LIMB_CAP,
            -0x100_0000_0000 <= exp <= 0x100_0000_0000,
        ensures
            r@ == (HpValue {
                prec: p as nat,
                class: if value(man@) == 0 {
                    Class::Zero { neg }
                } else {
                    rounded(p as nat, neg, value(man@), exp as int, false)
                },
            }),
    {
        if is_zero(man) {
            HpFloat::signed_zero(p, neg)
        } else {
            HpFloat::round_to(p, neg, man, exp, false)
        }
    }

    /// A machine integer, rounded.
    pub fn from_u64(p: u32, x: u64) -> (r: HpFloat)
        requires
            p >= 1,
        ensures
            r@ == hp_int(p as nat, x as int),
    {
        HpFloat::from_parts(p, false, &from_word(x), 0)
    }

    /// A signed machine integer, rounded.
    pub fn from_i64(p: u32, x: i64) -> (r: HpFloat)
        requires
            p >= 1,
        ensures
            r@ == hp_int(p as nat, x as int),
    {
        let mag: u64 = if x < 0 {
            ((-(x + 1)) as u64) + 1
        } else {
            x as u64
        };
        HpFloat::from_parts(p, x < 0, &from_word(mag), 0)
    }

    /// A power of two.
    pub fn power_of_two(p: u32, k: i64) -> (r: HpFloat)
        requires
            p >= 1,
            -0x100_0000_0000 <= k <= 0x100_0000_0000,
        ensures
            r@ == hp_pow2(p as nat, k as int),
    {
        HpFloat::from_parts(p, false, &from_word(1), k)
    }

    /// A positive ratio `a / b * 2^e`, rounded.
    pub fn ratio(p: u32, neg: bool, a: &Vec<u64>, b: &Vec<u64>, e: i64) -> (r: HpFloat)
        requires
            p >= 1,
            value(a@) > 0,
            value(b@) > 0,
            a.len() <= 0x400_0001,
            b.len() <= 0x400_0001,
            -0x80_0000_0000 <= e <= 0x80_0000_0000,
        ensures
            r@ == (HpValue {
                prec: p as nat,
                class: ratio_class(p as nat, neg, value(a@), value(b@), e as int),
            }),
    {
        let k: u64 = p as u64 + 2 + bits(b);
        let n: Vec<u64> = shifted_up(a, k);
        let (q, exact): (Vec<u64>, bool) = divided(&n, b);
        proof {
            lemma_ratio_bits(p as nat, value(a@), value(b@));
        }
        HpFloat::round_to(p, neg, &q, e - k as i64, !exact)
    }

    pub fn prec(&self) -> (r: u32)
        ensures
            r == self@.prec,
            self@.wf(),
    {
        proof {
            use_type_invariant(self);
        }
        self.prec
    }

    pub fn kind(&self) -> (r: Kind)
        ensures
            r is Nan == self@.is_nan(),
            r is Infinite == self@.is_infinite(),
            r is Zero == self@.is_zero(),
    {
        self.kind
    }

    /// Sign bit; a value that is no number has none.
    pub fn is_sign_negative(&self) -> (r: bool)
        ensures
            r == self@.is_sign_negative(),
    {
        match self.kind {
            Kind::Nan => false,
            _ => self.neg,
        }
    }

    /// Significand of a number, as limbs.
    pub fn significand(&self) -> (r: &Vec<u64>)
        ensures
            self@.class matches Class::Num { man, .. } ==> value(r@) == man,
    {
        &self.man
    }

    /// Exponent of a number.
    pub fn exponent(&self) -> (r: i64)
        ensures
            self@.class matches Class::Num { exp, .. } ==> r == exp,
    {
        self.exp
    }

    pub fn is_nan(&self) -> (r: bool)
        ensures
            r == self@.is_nan(),
    {
        match self.kind {
            Kind::Nan => true,
            _ => false,
        }
    }

    pub fn is_infinite(&self) -> (r: bool)
        ensures
            r == self@.is_infinite(),
    {
        match self.kind {
            Kind::Infinite => true,
            _ => false,
        }
    }

    pub fn is_finite(&self) -> (r: bool)
        ensures
            r == self@.is_finite(),
    {
        !self.is_nan() && !self.is_infinite()
    }

    pub fn is_zero(&self) -> (r: bool)
        ensures
            r == self@.is_zero(),
    {
        match self.kind {
            Kind::Zero => true,
            _ => false,
        }
    }

    /// The same value with the sign given.
    fn with_sign(&self, neg: bool) -> (r: HpFloat)
        ensures
            r@.prec == self@.prec,
            r@.class == match self@.class {
                Class::Nan => Class::Nan,
                Class::Inf { .. } => Class::Inf { neg },
                Class::Zero { .. } => Class::Zero { neg },
                Class::Num { man, exp, .. } => Class::Num { neg, man, exp },
            },
    {
        proof {
            use_type_invariant(self);
        }
        HpFloat { prec: self.prec, neg, kind: self.kind, man: copy_limbs(&self.man), exp: self.exp }
    }

    pub fn negated(&self) -> (r: HpFloat)
        ensures
            r@ == self@.negated(),
    {
        self.with_sign(!self.neg)
    }

    pub fn abs(&self) -> (r: HpFloat)
        ensures
            r@ == self@.abs(),
    {
        self.with_sign(false)
    }

    /// The same value at precision `p`.
    pub fn at(&self, p: u32) -> (r: HpFloat)
        requires
            p >= 1,
        ensures
            r@ == self@.at(p as nat),
    {
        proof {
            reveal(class_at);
            use_type_invariant(self);
        }
        match self.kind {
            Kind::Nan => HpFloat::nan(p),
            Kind::Infinite => HpFloat::infinity(p, self.neg),
            Kind::Zero => HpFloat::signed_zero(p, self.neg),
            Kind::Number => {
                proof {
                    lemma_pow2_pos((self.prec - 1) as nat);
                }
                HpFloat::round_to(p, self.neg, &self.man, self.exp, false)
            },
        }
    }

    /// Sum with a value whose sign is replaced by `flip` applied to it.
    fn combined(&self, other: &HpFloat, flip: bool) -> (r: HpFloat)
        ensures
            r@ == (HpValue {
                prec: self@.prec,
                class: add_class(
                    self@.prec,
                    self@.class,
                    if flip {
                        neg_class(other@.class)
                    } else {
                        other@.class
                    },
                ),
            }),
    {
        proof {
            reveal(add_class);
            reveal(class_at);
            use_type_invariant(self);
            use_type_invariant(other);
        }
        let p: u32 = self.prec;
        let oneg: bool = other.neg != flip;
        match (self.kind, other.kind) {
            (Kind::Nan, _) => HpFloat::nan(p),
            (_, Kind::Nan) => HpFloat::nan(p),
            (Kind::Infinite, Kind::Infinite) => if self.neg == oneg {
                HpFloat::infinity(p, self.neg)
            } else {
                HpFloat::nan(p)
            },
            (Kind::Infinite, _) => HpFloat::infinity(p, self.neg),
            (_, Kind::Infinite) => HpFloat::infinity(p, oneg),
            (Kind::Zero, Kind::Zero) => HpFloat::signed_zero(p, self.neg && oneg),
            (Kind::Zero, Kind::Number) => {
                proof {
                    lemma_pow2_pos((other.prec - 1) as nat);
                }
                HpFloat::round_to(p, oneg, &other.man, other.exp, false)
            },
            (Kind::Number, Kind::Zero) => {
                proof {
                    lemma_pow2_pos((self.prec - 1) as nat);
                }
                HpFloat::round_to(p, self.neg, &self.man, self.exp, false)
            },
            (Kind::Number, Kind::Number) => {
                proof {
                    lemma_pow2_pos((self.prec - 1) as nat);
                    lemma_pow2_pos((other.prec - 1) as nat);
                }
                HpFloat::number_sum(
                    p,
                    self.neg,
                    &self.man,
                    self.exp,
                    oneg,
                    &other.man,
                    other.exp,
                )
            },
        }
    }

    /// Sum of two nonzero numbers, rounded.
    fn number_sum(
        p: u32,
        na: bool,
        ma: &Vec<u64>,
        ea: i64,
        nb: bool,
        mb: &Vec<u64>,
        eb: i64,
    ) -> (r: HpFloat)
        requires
            p >= 1,
            value(ma@) > 0,
            value(mb@) > 0,
            ma.len() <= 0x400_0001,
            mb.len() <= 0x400_0001,
            -0x1_8000_0000 <= ea <= 0x4000_0000,
            -0x1_8000_0000 <= eb <= 0x4000_0000,
        ensures
            r@ == (HpValue {
                prec: p as nat,
                class: add_class(
                    p as nat,
                    Class::Num { neg: na, man: value(ma@), exp: ea as int },
                    Class::Num { neg: nb, man: value(mb@), exp: eb as int },
                ),
            }),
    {
        proof {
            reveal(add_class);
        }
        let e: i64 = if ea <= eb {
            ea
        } else {
            eb
        };
        let a: Vec<u64> = shifted_up(ma, (ea - e) as u64);
        let b: Vec<u64> = shifted_up(mb, (eb - e) as u64);
        if na == nb {
            let n: Vec<u64> = sum(&a, &b);
            proof {
                lemma_pow2_pos((ea - e) as nat);
                assert(value(ma@) * pow2((ea - e) as nat) > 0) by (nonlinear_arith)
                    requires
                        value(ma@) > 0,
                        pow2((ea - e) as nat) > 0,
                ;
            }
            HpFloat::round_to(p, na, &n, e, false)
        } else {
            match compare(&a, &b) {
                Order::Equal => HpFloat::signed_zero(p, false),
                Order::Less => {
                    let n: Vec<u64> = difference(&b, &a);
                    HpFloat::round_to(p, nb, &n, e, false)
                },
                Order::Greater => {
                    let n: Vec<u64> = difference(&a, &b);
                    HpFloat::round_to(p, na, &n, e, false)
                },
            }
        }
    }

    pub fn plus(&self, other: &HpFloat) -> (r: HpFloat)
        ensures
            r@ == self@.plus(other@),
    {
        self.combined(other, false)
    }

    pub fn minus(&self, other: &HpFloat) -> (r: HpFloat)
        ensures
            r@ == self@.minus(other@),
    {
        self.combined(other, true)
    }

    pub fn times(&self, other: &HpFloat) -> (r: HpFloat)
        ensures
            r@ == self@.times(other@),
    {
        proof {
            reveal(mul_class);
            use_type_invariant(self);
            use_type_invariant(other);
        }
        let p: u32 = self.prec;
        let neg: bool = self.neg != other.neg;
        match (self.kind, other.kind) {
            (Kind::Nan, _) => HpFloat::nan(p),
            (_, Kind::Nan) => HpFloat::nan(p),
            (Kind::Infinite, Kind::Zero) => HpFloat::nan(p),
            (Kind::Zero, Kind::Infinite) => HpFloat::nan(p),
            (Kind::Infinite, _) => HpFloat::infinity(p, neg),
            (_, Kind::Infinite) => HpFloat::infinity(p, neg),
            (Kind::Zero, _) => HpFloat::signed_zero(p, neg),
            (_, Kind::Zero) => HpFloat::signed_zero(p, neg),
            (Kind::Number, Kind::Number) => {
                let n: Vec<u64> = product(&self.man, &other.man);
                proof {
                    lemma_pow2_pos((self.prec - 1) as nat);
                    lemma_pow2_pos((other.prec - 1) as nat);
                    assert(value(self.man@) * value(other.man@) > 0) by (nonlinear_arith)
                        requires
                            value(self.man@) > 0,
                            value(other.man@) > 0,
                    ;
                }
                HpFloat::round_to(p, neg, &n, self.exp + other.exp, false)
            },
        }
    }

    pub fn over(&self, other: &HpFloat) -> (r: HpFloat)
        ensures
            r@ == self@.over(other@),
    {
        proof {
            reveal(div_class);
            use_type_invariant(self);
            use_type_invariant(other);
        }
        let p: u32 = self.prec;
        let neg: bool = self.neg != other.neg;
        match (self.kind, other.kind) {
            (Kind::Nan, _) => HpFloat::nan(p),
            (_, Kind::Nan) => HpFloat::nan(p),
            (Kind::Infinite, Kind::Infinite) => HpFloat::nan(p),
            (Kind::Zero, Kind::Zero) => HpFloat::nan(p),
            (Kind::Infinite, _) => HpFloat::infinity(p, neg),
            (_, Kind::Zero) => HpFloat::infinity(p, neg),
            (Kind::Zero, _) => HpFloat::signed_zero(p, neg),
            (_, Kind::Infinite) => HpFloat::signed_zero(p, neg),
            (Kind::Number, Kind::Number) => {
                proof {
                    lemma_pow2_pos((self.prec - 1) as nat);
                    lemma_pow2_pos((other.prec - 1) as nat);
                }
                HpFloat::ratio(p, neg, &self.man, &other.man, self.exp - other.exp)
            },
        }
    }

    #[verifier::spinoff_prover]
    pub fn sqrt(&self) -> (r: HpFloat)
        ensures
            r@ == self@.sqrt(),
    {
        proof {
            reveal(sqrt_class);
            use_type_invariant(self);
        }
        let p: u32 = self.prec;
        match self.kind {
            Kind::Nan => HpFloat::nan(p),
            Kind::Infinite => if self.neg {
                HpFloat::nan(p)
            } else {
                HpFloat::infinity(p, false)
            },
            Kind::Zero => HpFloat::signed_zero(p, self.neg),
            Kind::Number => if self.neg {
                HpFloat::nan(p)
            } else {
                let parity: u64 = if self.exp % 2 == 0 {
                    0
                } else {
                    1
                };
                assert(parity == self.exp as int % 2);
                let k: u64 = 2 * (p as u64 + 2) + parity;
                let n: Vec<u64> = shifted_up(&self.man, k);
                let (root, exact): (Vec<u64>, bool) = square_root(&n);
                proof {
                    lemma_pow2_pos((self.prec - 1) as nat);
                    lemma_floor_sqrt_unique(value(n@), value(root@));
                    lemma_sqrt_bits(p as nat, value(self.man@), k as nat);
                }
                let e: i64 = (self.exp - k as i64) / 2;
                assert(k == 2 * (p + 2) + self.exp as int % 2);
                assert(e == (self.exp - k) / 2);
                HpFloat::round_to(p, false, &root, e, !exact)
            },
        }
    }

    /// How two values compare; `None` where one is no number.
    pub fn order(&self, other: &HpFloat) -> (r: Option<Order>)
        ensures
            r == class_order(self@.class, other@.class),
    {
        proof {
            reveal(class_order);
            use_type_invariant(self);
            use_type_invariant(other);
        }
        match (self.kind, other.kind) {
            (Kind::Nan, _) => None,
            (_, Kind::Nan) => None,
            (Kind::Infinite, Kind::Infinite) => if self.neg == other.neg {
                Some(Order::Equal)
            } else if self.neg {
                Some(Order::Less)
            } else {
                Some(Order::Greater)
            },
            (Kind::Infinite, _) => if self.neg {
                Some(Order::Less)
            } else {
                Some(Order::Greater)
            },
            (_, Kind::Infinite) => if other.neg {
                Some(Order::Greater)
            } else {
                Some(Order::Less)
            },
            (Kind::Zero, Kind::Zero) => Some(Order::Equal),
            (Kind::Zero, Kind::Number) => if other.neg {
                Some(Order::Greater)
            } else {
                Some(Order::Less)
            },
            (Kind::Number, Kind::Zero) => if self.neg {
                Some(Order::Less)
            } else {
                Some(Order::Greater)
            },
            (Kind::Number, Kind::Number) => {
                let e: i64 = if self.exp <= other.exp {
                    self.exp
                } else {
                    other.exp
                };
                let a: Vec<u64> = shifted_up(&self.man, (self.exp - e) as u64);
                let b: Vec<u64> = shifted_up(&other.man, (other.exp - e) as u64);
                proof {
                    lemma_pow2_pos((self.prec - 1) as nat);
                    lemma_pow2_pos((other.prec - 1) as nat);
                    lemma_pow2_pos((self.exp - e) as nat);
                    lemma_pow2_pos((other.exp - e) as nat);
                    assert(value(self.man@) * pow2((self.exp - e) as nat) > 0) by (nonlinear_arith)
                        requires
                            value(self.man@) > 0,
                            pow2((self.exp - e) as nat) > 0,
                    ;
                    assert(value(other.man@) * pow2((other.exp - e) as nat) > 0)
                        by (nonlinear_arith)
                        requires
                            value(other.man@) > 0,
                            pow2((other.exp - e) as nat) > 0,
                    ;
                }
                if self.neg != other.neg {
                    if self.neg {
                        Some(Order::Less)
                    } else {
                        Some(Order::Greater)
                    }
                } else if self.neg {
                    Some(compare(&b, &a))
                } else {
                    Some(compare(&a, &b))
                }
            },
        }
    }

    pub fn lt(&self, other: &HpFloat) -> (r: bool)
        ensures
            r == self@.lt(other@),
    {
        match self.order(other) {
            Some(Order::Less) => true,
            _ => false,
        }
    }

    pub fn le(&self, other: &HpFloat) -> (r: bool)
        ensures
            r == self@.le(other@),
    {
        match self.order(other) {
            Some(Order::Less) => true,
            Some(Order::Equal) => true,
            _ => false,
        }
    }

    pub fn eqv(&self, other: &HpFloat) -> (r: bool)
        ensures
            r == self@.eqv(other@),
    {
        match self.order(other) {
            Some(Order::Equal) => true,
            _ => false,
        }
    }

    pub fn lt_abs(&self, other: &HpFloat) -> (r: bool)
        ensures
            r == self@.lt_abs(other@),
    {
        self.abs().lt(&other.abs())
    }

    pub fn times_int(&self, k: i64) -> (r: HpFloat)
        ensures
            r@ == self@.times(hp_word(k as int)),
    {
        self.times(&HpFloat::from_i64(64, k))
    }

    /// Product with an unsigned machine integer.
    pub fn times_word(&self, k: u64) -> (r: HpFloat)
        ensures
            r@ == self@.times(hp_word(k as int)),
    {
        self.times(&HpFloat::from_u64(64, k))
    }

    pub fn over_int(&self, k: i64) -> (r: HpFloat)
        ensures
            r@ == self@.over(hp_word(k as int)),
    {
        self.over(&HpFloat::from_i64(64, k))
    }

    pub fn plus_int(&self, k: i64) -> (r: HpFloat)
        ensures
            r@ == self@.plus(hp_word(k as int)),
    {
        self.plus(&HpFloat::from_i64(64, k))
    }

    pub fn minus_int(&self, k: i64) -> (r: HpFloat)
        ensures
            r@ == self@.minus(hp_word(k as int)),
    {
        self.minus(&HpFloat::from_i64(64, k))
    }
}

impl Clone for HpFloat {
    fn clone(&self) -> (r: HpFloat)
        ensures
            r@ == self@,
    {
        self.with_sign(self.neg)
    }
}

fn copy_limbs(a: &Vec<u64>) -> (r: Vec<u64>)
    ensures
        r@ == a@,
{
    let mut r: Vec<u64> = Vec::with_capacity(a.len());
    let mut i: usize = 0;
    while i < a.len()
        invariant
            i <= a.len(),
            r@ == a@.take(i as int),
        decreases a.len() - i,
    {
        r.push(a[i]);
        i = i + 1;
        assert(a@.take(i as int).drop_last() =~= a@.take(i - 1));
    }
    assert(a@.take(a.len() as int) =~= a@);
    r
}

/// `n` is a power of two exactly where nothing is left below its top bit.
proof fn lemma_power_test(n: nat)
    requires
        n > 0,
    ensures
        (n % pow2((bit_len(n) - 1) as nat) != 0) == (n != pow2((bit_len(n) - 1) as nat)),
{
    lemma_bit_len(n);
    let h = pow2((bit_len(n) - 1) as nat) as int;
    lemma_pow2_unfold(bit_len(n));
    lemma_pow2_pos((bit_len(n) - 1) as nat);
    lemma_fundamental_div_mod_converse(n as int, h, 1, n - h);
}

/// The scaled quotient of two positive numbers has more than `p` bits.
pub proof fn lemma_ratio_bits(p: nat, a: nat, b: nat)
    requires
        p >= 1,
        a > 0,
        b > 0,
    ensures
        bit_len(a * pow2(p + 2 + bit_len(b)) / b) > p,
        a * pow2(p + 2 + bit_len(b)) / b > 0,
{
    lemma_bit_len(b);
    let w = pow2(bit_len(b)) as int;
    let top = pow2(p + 2) as int;
    lemma_pow2_adds(p + 2, bit_len(b));
    lemma_pow2_pos(p + 2);
    let n = a as int * pow2(p + 2 + bit_len(b)) as int;
    let q = n / b as int;
    lemma_fundamental_div_mod(n, b as int);
    lemma_mod_bound(n, b as int);
    assert(n >= top * w) by (nonlinear_arith)
        requires
            n == a as int * (top * w),
            a as int >= 1,
            top > 0,
            w > 0,
    ;
    assert(q >= top) by (nonlinear_arith)
        requires
            n == b as int * q + n % b as int,
            n % (b as int) < b as int,
            n >= top * w,
            w > b as int,
            b as int > 0,
            top > 0,
    ;
    lemma_bit_len(q as nat);
    if bit_len(q as nat) <= p {
        lemma_pow2_strictly_increases(bit_len(q as nat), p + 2);
    }
}

/// The root of a significand shifted by `k >= 2(p + 2)` has more than `p` bits.
proof fn lemma_sqrt_bits(p: nat, m: nat, k: nat)
    requires
        p >= 1,
        m > 0,
        k >= 2 * (p + 2),
    ensures
        bit_len(floor_sqrt(m * pow2(k))) > p,
        floor_sqrt(m * pow2(k)) > 0,
{
    let n = m * pow2(k);
    let r = floor_sqrt(n) as int;
    crate::rounding::lemma_floor_sqrt(n);
    let top = pow2(p + 2) as int;
    lemma_pow2_adds(p + 2, p + 2);
    lemma_pow2_pos(p + 2);
    if k > 2 * (p + 2) {
        lemma_pow2_strictly_increases((p + 2) + (p + 2), k);
    }
    assert(n as int >= pow2(k) as int) by (nonlinear_arith)
        requires
            n as int == m as int * pow2(k) as int,
            m as int >= 1,
    ;
    if r < top {
        assert((r + 1) * (r + 1) <= top * top) by (nonlinear_arith)
            requires
                0 <= r + 1 <= top,
        ;
    }
    lemma_bit_len(r as nat);
    if bit_len(r as nat) <= p {
        lemma_pow2_strictly_increases(bit_len(r as nat), p + 2);
    }
}

impl PartialEq for HpFloat {
    fn eq(&self, other: &HpFloat) -> (r: bool) {
        self.eqv(other)
    }
}

impl vstd::std_specs::cmp::PartialEqSpecImpl for HpFloat {
    open spec fn obeys_eq_spec() -> bool {
        true
    }

    open spec fn eq_spec(&self, other: &HpFloat) -> bool {
        self@.eqv(other@)
    }
}

} // verus!
