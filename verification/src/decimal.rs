//! Decimal literals, their exact comparison with integers, and their rounding to binary.

use crate::float::{lemma_trimmed_len, HpFloat};
use crate::limbs::{
    compare, from_word, is_zero, lemma_low_zero, lemma_pow2_64, order_of, product, scaled, sum,
    trim, value, Order,
};
use crate::rounding::{ratio_class, rounded, signed, Class, HpValue};
use crate::text::{
    all_digits, chars_of, digits_value, is_digit, number_text, parse_number, push_number,
};
use vstd::arithmetic::power::*;
use vstd::arithmetic::power2::*;
use vstd::prelude::*;
use vstd::string::*;

verus! {

/// Largest decimal exponent, in either direction, and longest literal that is handled.
pub const DECIMAL_LIMIT: u64 = 0x80_0000;

/// The exact number `(-1)^neg * digits * 10^exponent`.
pub struct DecimalValue {
    pub neg: bool,
    pub digits: nat,
    pub exponent: int,
}

/// `10^k`.
pub open spec fn pow10(k: nat) -> nat {
    pow(10, k) as nat
}

/// First position at or after `from` that holds `a` or `b`; the length where none does.
pub open spec fn char_position(s: Seq<char>, a: char, b: char, from: int) -> int
    decreases s.len() - from,
{
    if from < 0 || from >= s.len() {
        s.len() as int
    } else if s[from] == a || s[from] == b {
        from
    } else {
        char_position(s, a, b, from + 1)
    }
}

/// A leading plus or minus sign: whether it is a minus, and where the rest begins.
pub open spec fn sign_of_text(s: Seq<char>) -> (bool, int) {
    if s.len() > 0 && s[0] == '-' {
        (true, 1)
    } else if s.len() > 0 && s[0] == '+' {
        (false, 1)
    } else {
        (false, 0)
    }
}

/// The exponent that follows `e`: an optional sign and digits.
pub open spec fn exponent_of_text(s: Seq<char>) -> Option<int> {
    let (neg, k) = sign_of_text(s);
    let t = s.skip(k);
    if t.len() == 0 || !all_digits(t) || digits_value(t) > DECIMAL_LIMIT {
        None
    } else {
        Some(signed(neg, digits_value(t)))
    }
}

/// Reading of a decimal literal: sign, digits with at most one point, and an optional
/// exponent after `e` or `E`, with at least one digit.
pub open spec fn decimal_of_text(s: Seq<char>) -> Option<DecimalValue> {
    let (neg, k) = sign_of_text(s);
    let body = s.skip(k);
    let e = char_position(body, 'e', 'E', 0);
    let man = body.take(e);
    let point = char_position(man, '.', '.', 0);
    let whole = man.take(point);
    let fraction = if point < man.len() {
        man.skip(point + 1)
    } else {
        Seq::<char>::empty()
    };
    let exponent = if e < body.len() {
        exponent_of_text(body.skip(e + 1))
    } else {
        Some(0int)
    };
    if !all_digits(whole) || !all_digits(fraction) || whole.len() + fraction.len() == 0
        || exponent is None {
        None
    } else {
        Some(
            DecimalValue {
                neg,
                digits: digits_value(whole + fraction),
                exponent: exponent->0 - fraction.len(),
            },
        )
    }
}

/// A decimal rounded to `p` binary digits.
pub open spec fn hp_decimal(p: nat, d: DecimalValue) -> HpValue {
    HpValue {
        prec: p,
        class: if d.digits == 0 {
            Class::Zero { neg: d.neg }
        } else if d.exponent >= 0 {
            rounded(p, d.neg, d.digits * pow10(d.exponent as nat), 0, false)
        } else {
            ratio_class(p, d.neg, d.digits, pow10((-d.exponent) as nat), 0)
        },
    }
}

/// How a decimal compares with an integer.
pub open spec fn decimal_order(d: DecimalValue, c: int) -> Order {
    if d.exponent >= 0 {
        order_of(signed(d.neg, d.digits) * pow10(d.exponent as nat), c)
    } else {
        order_of(signed(d.neg, d.digits), c * pow10((-d.exponent) as nat))
    }
}

/// A decimal literal: its number, and the text that it was written in.
#[derive(Debug)]
pub struct Decimal {
    text: String,
    neg: bool,
    digits: Vec<u64>,
    exponent: i64,
}

impl View for Decimal {
    type V = DecimalValue;

    closed spec fn view(&self) -> DecimalValue {
        DecimalValue {
            neg: self.neg,
            digits: value(self.digits@),
            exponent: self.exponent as int,
        }
    }
}

/// `10^k <= 2^(4k)`, and it is positive.
pub proof fn lemma_pow10_bound(k: nat)
    ensures
        0 < pow10(k) <= pow2(4 * k),
        pow10(k) == pow(10, k),
    decreases k,
{
    lemma_pow2_64();
    lemma_pow_positive(10, k);
    if k == 0 {
        lemma_pow0(10);
    } else {
        let j = (k - 1) as nat;
        lemma_pow10_bound(j);
        lemma_pow2_adds(4 * j, 4);
        lemma2_to64();
        assert(4 * j + 4 == 4 * k);
        assert(pow(10, k) == 10 * pow(10, j)) by {
            reveal(pow);
        }
    }
}

/// `10^k` as limbs.
fn power_of_ten(k: u64) -> (r: Vec<u64>)
    requires
        k <= 2 * DECIMAL_LIMIT,
    ensures
        value(r@) == pow10(k as nat),
        r.len() <= k / 16 + 2,
        value(r@) > 0,
{
    let mut r: Vec<u64> = from_word(1);
    let mut i: u64 = 0;
    proof {
        lemma_pow0(10);
    }
    while i < k
        invariant
            i <= k,
            k <= 2 * DECIMAL_LIMIT,
            value(r@) == pow10(i as nat),
            r.len() <= i / 16 + 2,
        decreases k - i,
    {
        r = scaled(&r, 10);
        trim(&mut r);
        i = i + 1;
        proof {
            let j = (i - 1) as nat;
            lemma_pow10_bound(j);
            lemma_pow10_bound(i as nat);
            assert(pow(10, i as nat) == 10 * pow(10, j)) by {
                reveal(pow);
            }
            lemma_pow2_strictly_increases(4 * (i as nat), 4 * (i as nat) + 1);
            lemma_trimmed_len(r@, 4 * (i as nat) + 1);
            assert((4 * i + 1) / 64 + 1 <= i / 16 + 2) by (nonlinear_arith);
        }
    }
    proof {
        lemma_pow10_bound(k as nat);
    }
    r
}

/// The number that digit characters denote stays below `2^(4 len)`.
proof fn lemma_digits_bound(s: Seq<char>)
    requires
        all_digits(s),
    ensures
        digits_value(s) < pow2(4 * s.len()),
    decreases s.len(),
{
    lemma_pow2_64();
    if s.len() > 0 {
        assert forall|i: int| 0 <= i < s.drop_last().len() implies is_digit(
            #[trigger] s.drop_last()[i],
        ) by {
            assert(s.drop_last()[i] == s[i]);
        }
        lemma_digits_bound(s.drop_last());
        assert(is_digit(s[s.len() - 1]));
        lemma_pow2_adds(4 * ((s.len() - 1) as nat), 4);
        lemma2_to64();
        assert(4 * ((s.len() - 1) as nat) + 4 == 4 * s.len());
    }
}

/// Appends the digits `chars[from..to]` to a number; `None` at a character that is none.
fn push_digits(acc: &Vec<u64>, chars: &Vec<char>, from: usize, to: usize, Ghost(pre): Ghost<Seq<char>>) -> (r:
    Option<Vec<u64>>)
    requires
        from <= to <= chars.len(),
        chars.len() <= DECIMAL_LIMIT,
        all_digits(pre),
        pre.len() + (to - from) <= DECIMAL_LIMIT,
        value(acc@) == digits_value(pre),
        acc.len() <= pre.len() / 16 + 2,
    ensures
        r is Some == all_digits(chars@.subrange(from as int, to as int)),
        r matches Some(v) ==> value(v@) == digits_value(
            pre + chars@.subrange(from as int, to as int),
        ) && v.len() <= (pre.len() + (to - from)) / 16 + 2,
{
    let ghost s = chars@.subrange(from as int, to as int);
    let ten: Vec<u64> = from_word(10);
    let mut v: Vec<u64> = sum(acc, &Vec::new());
    trim(&mut v);
    proof {
        lemma_low_zero(Seq::<u64>::empty(), 0);
        assert(pre + s.take(0) =~= pre);
        lemma_digits_bound(pre);
        lemma_pow2_strictly_increases(4 * pre.len(), 4 * pre.len() + 1);
        lemma_trimmed_len(v@, 4 * pre.len());
    }
    let mut i: usize = from;
    while i < to
        invariant
            from <= i <= to <= chars.len(),
            s == chars@.subrange(from as int, to as int),
            pre.len() + (to - from) <= DECIMAL_LIMIT,
            all_digits(pre + s.take(i - from)),
            value(v@) == digits_value(pre + s.take(i - from)),
            v.len() <= (pre.len() + (i - from)) / 16 + 2,
        decreases to - i,
    {
        let code: u32 = chars[i] as u32;
        assert(s[i - from] == chars@[i as int]);
        if code < 48 || code > 57 {
            assert(!is_digit(s[i - from]));
            return None;
        }
        let ghost before = pre + s.take(i - from);
        let ghost after = pre + s.take(i - from + 1);
        v = scaled(&v, 10);
        v = sum(&v, &from_word((code - 48) as u64));
        trim(&mut v);
        proof {
            assert(after.drop_last() =~= before);
            assert(after.last() == s[i - from]);
            assert forall|k: int| 0 <= k < after.len() implies is_digit(#[trigger] after[k]) by {
                if k < before.len() {
                    assert(after[k] == before[k]);
                } else {
                    assert(after[k] == s[i - from]);
                }
            }
            lemma_digits_bound(after);
            lemma_trimmed_len(v@, 4 * after.len());
        }
        i = i + 1;
    }
    proof {
        assert(s.take(s.len() as int) =~= s);
        assert forall|k: int| 0 <= k < s.len() implies is_digit(#[trigger] s[k]) by {
            assert((pre + s)[pre.len() + k] == s[k]);
        }
    }
    Some(v)
}

fn position_of(chars: &Vec<char>, a: char, b: char, from: usize, to: usize) -> (r: usize)
    requires
        from <= to <= chars.len(),
    ensures
        from <= r <= to,
        r - from == char_position(chars@.subrange(from as int, to as int), a, b, 0),
{
    let ghost s = chars@.subrange(from as int, to as int);
    let mut i: usize = from;
    while i < to
        invariant
            from <= i <= to <= chars.len(),
            s == chars@.subrange(from as int, to as int),
            char_position(s, a, b, 0) == char_position(s, a, b, i - from),
        decreases to - i,
    {
        assert(s[i - from] == chars@[i as int]);
        if chars[i] == a || chars[i] == b {
            return i;
        }
        i = i + 1;
    }
    i
}

fn sign_at(chars: &Vec<char>, from: usize, to: usize) -> (r: (bool, usize))
    requires
        from <= to <= chars.len(),
    ensures
        r.0 == sign_of_text(chars@.subrange(from as int, to as int)).0,
        r.1 - from == sign_of_text(chars@.subrange(from as int, to as int)).1,
        from <= r.1 <= to,
{
    assert(from < to ==> chars@.subrange(from as int, to as int)[0] == chars@[from as int]);
    if from < to && chars[from] == '-' {
        (true, from + 1)
    } else if from < to && chars[from] == '+' {
        (false, from + 1)
    } else {
        (false, from)
    }
}

fn exponent_at(chars: &Vec<char>, from: usize, to: usize) -> (r: Option<i64>)
    requires
        from <= to <= chars.len(),
    ensures
        match r {
            Some(v) => exponent_of_text(chars@.subrange(from as int, to as int)) == Some(v as int),
            None => exponent_of_text(chars@.subrange(from as int, to as int)) is None,
        },
        r matches Some(v) ==> -DECIMAL_LIMIT <= v <= DECIMAL_LIMIT,
{
    let ghost s = chars@.subrange(from as int, to as int);
    let (neg, k): (bool, usize) = sign_at(chars, from, to);
    let ghost t = s.skip(sign_of_text(s).1);
    assert(t =~= chars@.subrange(k as int, to as int));
    if k < to && chars[k] == '+' {
        assert(t[0] == '+');
        assert(!is_digit(t[0]));
        return None;
    }
    assert(t.len() > 0 ==> t[0] == chars@[k as int]);
    match parse_number(chars, k, to, DECIMAL_LIMIT) {
        None => None,
        Some(v) => if neg {
            Some(-(v as i64))
        } else {
            Some(v as i64)
        },
    }
}

impl Decimal {
    #[verifier::type_invariant]
    spec fn inv(self) -> bool {
        &&& self.digits.len() <= DECIMAL_LIMIT / 16 + 2
        &&& -2 * DECIMAL_LIMIT <= self.exponent <= DECIMAL_LIMIT
    }

    /// The text that the literal was written in.
    pub closed spec fn literal(&self) -> Seq<char> {
        self.text@
    }

    /// The text that the literal was written in.
    pub fn as_str(&self) -> (r: &str)
        ensures
            r@ == self.literal(),
    {
        self.text.as_str()
    }

    /// `10^-places`.
    pub fn tenths(places: u16) -> (r: Decimal)
        ensures
            r@ == (DecimalValue { neg: false, digits: 1, exponent: -(places as int) }),
            r.literal() == "1e-"@ + number_text(places as nat),
    {
        let mut text: String = "1e-".to_owned();
        push_number(&mut text, places as u64);
        Decimal { text, neg: false, digits: from_word(1), exponent: -(places as i64) }
    }

    /// Reads a literal.
    pub fn parse(text: &str) -> (r: Option<Decimal>)
        requires
            text@.len() <= DECIMAL_LIMIT,
        ensures
            match r {
                Some(d) => decimal_of_text(text@) == Some(d@) && d.literal() == text@,
                None => decimal_of_text(text@) is None,
            },
    {
        let chars: Vec<char> = chars_of(text);
        let n: usize = chars.len();
        let ghost s = chars@;
        assert(s.subrange(0, n as int) =~= s);
        let (neg, k): (bool, usize) = sign_at(&chars, 0, n);
        let ghost body = s.skip(k as int);
        assert(body =~= s.subrange(k as int, n as int));
        let e: usize = position_of(&chars, 'e', 'E', k, n);
        let ghost man = body.take(e - k);
        assert(man =~= s.subrange(k as int, e as int));
        let point: usize = position_of(&chars, '.', '.', k, e);
        let ghost whole = man.take(point - k);
        assert(whole =~= s.subrange(k as int, point as int));
        let frac: usize = if point < e {
            point + 1
        } else {
            e
        };
        let ghost fraction = if point < e {
            man.skip(point - k + 1)
        } else {
            Seq::<char>::empty()
        };
        assert(fraction =~= s.subrange(frac as int, e as int));
        if (point - k) + (e - frac) == 0 {
            return None;
        }
        let exponent: i64 = if e < n {
            assert(body.skip(e - k + 1) =~= s.subrange(e + 1, n as int));
            match exponent_at(&chars, e + 1, n) {
                Some(v) => v,
                None => {
                    return None;
                },
            }
        } else {
            0
        };
        let empty: Vec<u64> = Vec::new();
        proof {
            lemma_low_zero(empty@, 0);
        }
        let first: Option<Vec<u64>> = push_digits(
            &empty,
            &chars,
            k,
            point,
            Ghost(Seq::<char>::empty()),
        );
        let head: Vec<u64> = match first {
            Some(v) => v,
            None => {
                return None;
            },
        };
        assert(Seq::<char>::empty() + whole =~= whole);
        let second: Option<Vec<u64>> = push_digits(&head, &chars, frac, e, Ghost(whole));
        match second {
            Some(digits) => {
                let exponent: i64 = exponent - (e - frac) as i64;
                Some(Decimal { text: text.to_owned(), neg, digits, exponent })
            },
            None => None,
        }
    }

    /// How the number compares with an integer.
    pub fn order_with(&self, c: u64) -> (r: Order)
        ensures
            r == decimal_order(self@, c as int),
    {
        proof {
            use_type_invariant(self);
        }
        let ghost n = value(self.digits@) as int;
        let cw: Vec<u64> = from_word(c);
        if self.exponent >= 0 {
            let scale: Vec<u64> = power_of_ten(self.exponent as u64);
            let left: Vec<u64> = product(&self.digits, &scale);
            proof {
                let t = pow10(self.exponent as nat) as int;
                assert(-n * t == -(n * t)) by (nonlinear_arith);
                assert(n > 0 && t > 0 ==> n * t > 0) by (nonlinear_arith);
                assert(n == 0 ==> n * t == 0) by (nonlinear_arith);
            }
            if self.neg && !is_zero(&self.digits) {
                Order::Less
            } else {
                compare(&left, &cw)
            }
        } else {
            let scale: Vec<u64> = power_of_ten((-self.exponent) as u64);
            let right: Vec<u64> = scaled(&scale, c);
            proof {
                let t = pow10((-self.exponent) as nat) as int;
                assert(t * c as int == c as int * t) by (nonlinear_arith);
                assert(c as int * t >= 0) by (nonlinear_arith)
                    requires
                        c as int >= 0,
                        t > 0,
                ;
            }
            if self.neg && !is_zero(&self.digits) {
                Order::Less
            } else {
                compare(&self.digits, &right)
            }
        }
    }
}

impl HpFloat {
    /// A decimal, correctly rounded.
    pub fn from_decimal(p: u32, d: &Decimal) -> (r: HpFloat)
        requires
            p >= 1,
        ensures
            r@ == hp_decimal(p as nat, d@),
    {
        proof {
            use_type_invariant(d);
        }
        if is_zero(&d.digits) {
            HpFloat::from_parts(p, d.neg, &d.digits, 0)
        } else if d.exponent >= 0 {
            let scale: Vec<u64> = power_of_ten(d.exponent as u64);
            let n: Vec<u64> = product(&d.digits, &scale);
            proof {
                assert(value(d.digits@) * value(scale@) > 0) by (nonlinear_arith)
                    requires
                        value(d.digits@) > 0,
                        value(scale@) > 0,
                ;
            }
            HpFloat::from_parts(p, d.neg, &n, 0)
        } else {
            let scale: Vec<u64> = power_of_ten((-d.exponent) as u64);
            HpFloat::ratio(p, d.neg, &d.digits, &scale, 0)
        }
    }
}

} // verus!
