//! Natural numbers of any size, held as little-endian 64-bit limbs.
//!
//! Every operation is stated over [`value`], the number that a sequence of
//! limbs denotes. Leading zero limbs never matter.

use vstd::arithmetic::div_mod::*;
use vstd::arithmetic::mul::*;
use vstd::arithmetic::power2::*;
use vstd::bits::*;
use vstd::prelude::*;

verus! {

/// Longest limb vector that an operation accepts.
pub const LIMB_CAP: usize = 0x1000_0000;

/// The limb at position `i`, zero beyond the end.
pub open spec fn limb_at(s: Seq<u64>, i: int) -> nat {
    if 0 <= i < s.len() {
        s[i] as nat
    } else {
        0
    }
}

/// The number that the lowest `n` limbs denote.
pub open spec fn low(s: Seq<u64>, n: nat) -> nat
    decreases n,
{
    if n == 0 {
        0
    } else {
        low(s, (n - 1) as nat) + limb_at(s, n - 1) * pow2(64 * ((n - 1) as nat))
    }
}

/// The number that a sequence of limbs denotes.
pub open spec fn value(s: Seq<u64>) -> nat {
    low(s, s.len())
}

/// Number of bits of `n`: zero for zero, else one more than `floor(log2 n)`.
pub open spec fn bit_len(n: nat) -> nat
    decreases n,
{
    if n == 0 {
        0
    } else {
        1 + bit_len(n / 2)
    }
}

/// The three outcomes of a comparison.
#[derive(Clone, Copy, Debug, PartialEq, Eq, Structural)]
pub enum Order {
    Less,
    Equal,
    Greater,
}

/// How two integers compare.
pub open spec fn order_of(a: int, b: int) -> Order {
    if a < b {
        Order::Less
    } else if a == b {
        Order::Equal
    } else {
        Order::Greater
    }
}

pub proof fn lemma_pow2_64()
    ensures
        pow2(64) == 0x1_0000_0000_0000_0000,
        pow2(0) == 1,
        pow2(1) == 2,
{
    lemma2_to64();
}

/// One limb step multiplies the weight by `2^64`.
pub proof fn lemma_weight_step(i: nat)
    ensures
        pow2(64 * (i + 1)) == pow2(64 * i) * 0x1_0000_0000_0000_0000,
        pow2(64 * i) > 0,
{
    lemma_pow2_64();
    lemma_pow2_adds(64 * i, 64);
    lemma_pow2_pos(64 * i);
    assert(64 * (i + 1) == 64 * i + 64);
}

pub proof fn lemma_low_same(s: Seq<u64>, t: Seq<u64>, n: nat)
    requires
        forall|i: int| 0 <= i < n ==> limb_at(s, i) == limb_at(t, i),
    ensures
        low(s, n) == low(t, n),
    decreases n,
{
    if n > 0 {
        lemma_low_same(s, t, (n - 1) as nat);
        assert(limb_at(s, n - 1) == limb_at(t, n - 1));
    }
}

pub proof fn lemma_low_beyond(s: Seq<u64>, n: nat)
    requires
        n >= s.len(),
    ensures
        low(s, n) == value(s),
    decreases n,
{
    if n > s.len() {
        lemma_low_beyond(s, (n - 1) as nat);
        assert(limb_at(s, n - 1) == 0);
        assert(0 * pow2(64 * ((n - 1) as nat)) == 0) by (nonlinear_arith);
    }
}

pub proof fn lemma_low_bound(s: Seq<u64>, n: nat)
    ensures
        low(s, n) < pow2(64 * n),
    decreases n,
{
    if n == 0 {
        lemma_pow2_pos(0);
    } else {
        let m = (n - 1) as nat;
        lemma_low_bound(s, m);
        lemma_weight_step(m);
        let w = pow2(64 * m) as int;
        let x = limb_at(s, n - 1) as int;
        assert(x <= 0xffff_ffff_ffff_ffff);
        assert(x * w <= 0xffff_ffff_ffff_ffff * w) by (nonlinear_arith)
            requires
                x <= 0xffff_ffff_ffff_ffff,
                w > 0,
        ;
        assert(0xffff_ffff_ffff_ffff * w + w == w * 0x1_0000_0000_0000_0000) by (nonlinear_arith);
    }
}

/// Appending a limb adds it at the weight of its position.
pub proof fn lemma_value_push(s: Seq<u64>, x: u64)
    ensures
        value(s.push(x)) == value(s) + x as nat * pow2(64 * s.len()),
{
    let t = s.push(x);
    lemma_low_same(s, t, s.len());
    assert(limb_at(t, s.len() as int) == x as nat);
}

/// Replacing a limb changes the value by the difference at that weight.
pub proof fn lemma_low_update(s: Seq<u64>, k: int, x: u64, n: nat)
    requires
        0 <= k < s.len(),
    ensures
        low(s.update(k, x), n) as int == if n > k {
            low(s, n) + (x as int - s[k] as int) * pow2(64 * (k as nat))
        } else {
            low(s, n) as int
        },
    decreases n,
{
    if n > 0 {
        let m = (n - 1) as nat;
        lemma_low_update(s, k, x, m);
        let w = pow2(64 * m) as int;
        if m == k {
            assert(limb_at(s.update(k, x), n - 1) == x as nat);
            assert(limb_at(s, n - 1) == s[k] as nat);
            assert((x as int - s[k] as int) * w == x as int * w - s[k] as int * w)
                by (nonlinear_arith);
        } else {
            assert(limb_at(s.update(k, x), n - 1) == limb_at(s, n - 1));
        }
    }
}

pub proof fn lemma_value_update(s: Seq<u64>, k: int, x: u64)
    requires
        0 <= k < s.len(),
    ensures
        value(s.update(k, x)) as int == value(s) + (x as int - s[k] as int) * pow2(64 * (k as nat)),
{
    lemma_low_update(s, k, x, s.len());
}

/// Where all limbs from `i` to `n` agree, the lower parts decide the difference.
pub proof fn lemma_high_equal(s: Seq<u64>, t: Seq<u64>, i: nat, n: nat)
    requires
        i <= n,
        forall|k: int| i <= k < n ==> limb_at(s, k) == limb_at(t, k),
    ensures
        low(s, n) - low(t, n) == low(s, i) - low(t, i),
    decreases n,
{
    if n > i {
        lemma_high_equal(s, t, i, (n - 1) as nat);
        assert(limb_at(s, n - 1) == limb_at(t, n - 1));
    }
}

pub proof fn lemma_low_zero(s: Seq<u64>, n: nat)
    requires
        forall|k: int| 0 <= k < n ==> limb_at(s, k) == 0,
    ensures
        low(s, n) == 0,
    decreases n,
{
    if n > 0 {
        lemma_low_zero(s, (n - 1) as nat);
        assert(limb_at(s, n - 1) == 0);
        assert(0 * pow2(64 * ((n - 1) as nat)) == 0) by (nonlinear_arith);
    }
}

/// `low` is the whole value once the limbs above are zero.
pub proof fn lemma_low_above_zero(s: Seq<u64>, i: nat)
    requires
        i <= s.len(),
        forall|k: int| i <= k < s.len() ==> s[k] == 0,
    ensures
        value(s) == low(s, i),
{
    let t = Seq::<u64>::empty();
    assert forall|k: int| i <= k < s.len() implies limb_at(s, k) == limb_at(t, k) by {};
    lemma_high_equal(s, t, i, s.len());
    lemma_low_zero(t, s.len());
    lemma_low_zero(t, i);
}

pub proof fn lemma_bit_len(n: nat)
    requires
        n > 0,
    ensures
        bit_len(n) > 0,
        pow2((bit_len(n) - 1) as nat) <= n < pow2(bit_len(n)),
    decreases n,
{
    lemma_pow2_64();
    if n == 1 {
        assert(bit_len(0) == 0);
        assert(bit_len(1) == 1 + bit_len(0));
    } else {
        lemma_bit_len(n / 2);
        let h = bit_len(n / 2);
        lemma_pow2_unfold(h);
        lemma_pow2_unfold(h + 1);
    }
}

pub proof fn lemma_bit_len_unique(n: nat, k: nat)
    requires
        k > 0,
        pow2((k - 1) as nat) <= n < pow2(k),
    ensures
        bit_len(n) == k,
{
    lemma_pow2_pos((k - 1) as nat);
    lemma_bit_len(n);
    let b = bit_len(n);
    if b < k {
        if b < k - 1 {
            lemma_pow2_strictly_increases(b, (k - 1) as nat);
        }
    }
    if b > k {
        if k < b - 1 {
            lemma_pow2_strictly_increases(k, (b - 1) as nat);
        }
    }
}

/// Removes leading zero limbs.
pub fn trim(a: &mut Vec<u64>)
    ensures
        value(final(a)@) == value(old(a)@),
        final(a).len() <= old(a).len(),
        final(a).len() > 0 ==> final(a)@[final(a).len() - 1] != 0,
{
    while a.len() > 0 && a[a.len() - 1] == 0
        invariant
            value(a@) == value(old(a)@),
            a.len() <= old(a).len(),
        ensures
            value(a@) == value(old(a)@),
            a.len() <= old(a).len(),
            a.len() > 0 ==> a@[a.len() - 1] != 0,
        decreases a.len(),
    {
        let ghost s = a@;
        a.pop();
        proof {
            lemma_value_push(a@, 0);
            assert(a@.push(0) =~= s);
            assert(0 * pow2(64 * a@.len()) == 0) by (nonlinear_arith);
        }
    }
}

/// The limb vector of one machine word.
pub fn from_word(x: u64) -> (r: Vec<u64>)
    ensures
        value(r@) == x,
        r.len() <= 1,
{
    let mut r: Vec<u64> = Vec::new();
    if x != 0 {
        r.push(x);
        proof {
            lemma_value_push(Seq::<u64>::empty(), x);
            assert(r@ =~= Seq::<u64>::empty().push(x));
            lemma_pow2_64();
        }
    }
    r
}

/// Whether the number is zero.
pub fn is_zero(a: &Vec<u64>) -> (r: bool)
    ensures
        r == (value(a@) == 0),
{
    let mut i: usize = 0;
    while i < a.len()
        invariant
            i <= a.len(),
            forall|k: int| 0 <= k < i ==> a@[k] == 0,
        decreases a.len() - i,
    {
        if a[i] != 0 {
            proof {
                lemma_low_at_least(a@, i as nat, a@.len());
                let w = pow2(64 * (i as nat)) as int;
                let x = a@[i as int] as int;
                lemma_pow2_pos(64 * (i as nat));
                assert(x * w > 0) by (nonlinear_arith)
                    requires
                        x > 0,
                        w > 0,
                ;
            }
            return false;
        }
        i = i + 1;
    }
    proof {
        lemma_low_zero(a@, a@.len());
    }
    true
}

/// A limb's weighted value is a lower bound of the whole.
pub proof fn lemma_low_at_least(s: Seq<u64>, i: nat, n: nat)
    requires
        i < n,
    ensures
        low(s, n) >= low(s, i) + limb_at(s, i as int) * pow2(64 * i),
    decreases n,
{
    if n - 1 > i {
        lemma_low_at_least(s, i, (n - 1) as nat);
        let x = limb_at(s, n - 1) as int;
        let w = pow2(64 * ((n - 1) as nat)) as int;
        assert(x * w >= 0) by (nonlinear_arith)
            requires
                x >= 0,
                w >= 0,
        ;
    }
}

fn word_at(a: &Vec<u64>, i: usize) -> (r: u64)
    ensures
        r == limb_at(a@, i as int),
{
    if i < a.len() {
        a[i]
    } else {
        0
    }
}

/// Sum of two numbers.
pub fn sum(a: &Vec<u64>, b: &Vec<u64>) -> (r: Vec<u64>)
    requires
        a.len() <= LIMB_CAP,
        b.len() <= LIMB_CAP,
    ensures
        value(r@) == value(a@) + value(b@),
        r.len() <= a.len() + 1 || r.len() <= b.len() + 1,
{
    let n: usize = if a.len() < b.len() {
        b.len()
    } else {
        a.len()
    };
    let mut r: Vec<u64> = Vec::with_capacity(n + 1);
    let mut carry: u64 = 0;
    let mut i: usize = 0;
    proof {
        lemma_low_zero(r@, 0);
    }
    while i < n
        invariant
            i <= n,
            r.len() == i,
            carry <= 1,
            value(r@) + carry * pow2(64 * (i as nat)) == low(a@, i as nat) + low(b@, i as nat),
        decreases n - i,
    {
        let x: u64 = word_at(a, i);
        let y: u64 = word_at(b, i);
        let t: u128 = x as u128 + y as u128 + carry as u128;
        let lo: u64 = (t % 0x1_0000_0000_0000_0000) as u64;
        let hi: u64 = (t / 0x1_0000_0000_0000_0000) as u64;
        proof {
            let w = pow2(64 * (i as nat)) as int;
            lemma_value_push(r@, lo);
            lemma_weight_step(i as nat);
            assert(lo as int * w + hi as int * (w * 0x1_0000_0000_0000_0000) == x as int * w + y as int * w + carry as int * w)
                by (nonlinear_arith)
                requires
                    lo as int + hi as int * 0x1_0000_0000_0000_0000 == x as int + y as int + carry as int,
            ;
        }
        r.push(lo);
        carry = hi;
        i = i + 1;
    }
    proof {
        lemma_low_beyond(a@, n as nat);
        lemma_low_beyond(b@, n as nat);
        lemma_value_push(r@, carry);
        assert(carry == 0 ==> carry * pow2(64 * (n as nat)) == 0) by (nonlinear_arith);
    }
    if carry != 0 {
        r.push(carry);
    }
    r
}

/// Difference of two numbers, the second no larger than the first.
pub fn difference(a: &Vec<u64>, b: &Vec<u64>) -> (r: Vec<u64>)
    requires
        value(b@) <= value(a@),
        a.len() <= LIMB_CAP,
        b.len() <= LIMB_CAP,
    ensures
        value(r@) == value(a@) - value(b@),
        r.len() <= a.len() || r.len() <= b.len(),
{
    let n: usize = if a.len() < b.len() {
        b.len()
    } else {
        a.len()
    };
    let mut r: Vec<u64> = Vec::with_capacity(n);
    let mut borrow: u64 = 0;
    let mut i: usize = 0;
    proof {
        lemma_low_zero(r@, 0);
    }
    while i < n
        invariant
            i <= n,
            r.len() == i,
            borrow <= 1,
            value(r@) + low(b@, i as nat) == low(a@, i as nat) + borrow * pow2(64 * (i as nat)),
        decreases n - i,
    {
        let x: u64 = word_at(a, i);
        let y: u64 = word_at(b, i);
        let t: u128 = 0x1_0000_0000_0000_0000 + x as u128 - y as u128 - borrow as u128;
        let lo: u64 = (t % 0x1_0000_0000_0000_0000) as u64;
        let hi: u64 = if t >= 0x1_0000_0000_0000_0000 {
            0
        } else {
            1
        };
        proof {
            let w = pow2(64 * (i as nat)) as int;
            lemma_value_push(r@, lo);
            lemma_weight_step(i as nat);
            assert(lo as int * w + y as int * w + borrow as int * w == x as int * w + hi as int * (w * 0x1_0000_0000_0000_0000))
                by (nonlinear_arith)
                requires
                    lo as int + y as int + borrow as int == x as int + hi as int * 0x1_0000_0000_0000_0000,
            ;
        }
        r.push(lo);
        borrow = hi;
        i = i + 1;
    }
    proof {
        lemma_low_beyond(a@, n as nat);
        lemma_low_beyond(b@, n as nat);
        lemma_low_bound(r@, n as nat);
        if borrow == 1 {
            assert(false);
        }
        assert(0 * pow2(64 * (n as nat)) == 0) by (nonlinear_arith);
    }
    r
}

/// How two numbers compare.
pub fn compare(a: &Vec<u64>, b: &Vec<u64>) -> (r: Order)
    ensures
        r == order_of(value(a@) as int, value(b@) as int),
{
    let n: usize = if a.len() < b.len() {
        b.len()
    } else {
        a.len()
    };
    proof {
        lemma_low_beyond(a@, n as nat);
        lemma_low_beyond(b@, n as nat);
    }
    let mut i: usize = n;
    while i > 0
        invariant
            i <= n,
            value(a@) == low(a@, n as nat),
            value(b@) == low(b@, n as nat),
            forall|k: int| i <= k < n ==> limb_at(a@, k) == limb_at(b@, k),
        decreases i,
    {
        let j: usize = i - 1;
        let x: u64 = word_at(a, j);
        let y: u64 = word_at(b, j);
        if x != y {
            proof {
                lemma_high_equal(a@, b@, i as nat, n as nat);
                lemma_low_bound(a@, j as nat);
                lemma_low_bound(b@, j as nat);
                let w = pow2(64 * (j as nat)) as int;
                let p = x as int;
                let q = y as int;
                if x < y {
                    assert(p * w + w <= q * w) by (nonlinear_arith)
                        requires
                            p + 1 <= q,
                            w >= 0,
                    ;
                } else {
                    assert(q * w + w <= p * w) by (nonlinear_arith)
                        requires
                            q + 1 <= p,
                            w >= 0,
                    ;
                }
            }
            return if x < y {
                Order::Less
            } else {
                Order::Greater
            };
        }
        i = j;
    }
    proof {
        lemma_high_equal(a@, b@, 0, n as nat);
    }
    Order::Equal
}

/// Product with one machine word.
pub fn scaled(a: &Vec<u64>, m: u64) -> (r: Vec<u64>)
    requires
        a.len() <= LIMB_CAP,
    ensures
        value(r@) == value(a@) * m,
        r.len() <= a.len() + 1,
{
    let mut r: Vec<u64> = Vec::with_capacity(a.len() + 1);
    let mut carry: u64 = 0;
    let mut i: usize = 0;
    proof {
        lemma_low_zero(r@, 0);
        assert(0 * pow2(64 * (i as nat)) == 0) by (nonlinear_arith);
        assert(0 * (m as int) == 0) by (nonlinear_arith);
    }
    while i < a.len()
        invariant
            i <= a.len(),
            r.len() == i,
            value(r@) + carry * pow2(64 * (i as nat)) == low(a@, i as nat) * m,
        decreases a.len() - i,
    {
        let x: u64 = a[i];
        proof {
            lemma_word_product(x, m, carry, 0);
        }
        let t: u128 = x as u128 * m as u128 + carry as u128;
        let lo: u64 = (t % 0x1_0000_0000_0000_0000) as u64;
        let hi: u64 = (t / 0x1_0000_0000_0000_0000) as u64;
        proof {
            let w = pow2(64 * (i as nat)) as int;
            let l = low(a@, i as nat) as int;
            lemma_value_push(r@, lo);
            lemma_weight_step(i as nat);
            assert(limb_at(a@, i as int) == x as nat);
            assert(lo as int * w + hi as int * (w * 0x1_0000_0000_0000_0000) == x as int * w * m as int + carry as int * w)
                by (nonlinear_arith)
                requires
                    lo as int + hi as int * 0x1_0000_0000_0000_0000 == x as int * m as int + carry as int,
            ;
            assert((l + x as int * w) * m as int == l * m as int + x as int * w * m as int)
                by (nonlinear_arith);
        }
        r.push(lo);
        carry = hi;
        i = i + 1;
    }
    proof {
        lemma_value_push(r@, carry);
        assert(carry == 0 ==> carry * pow2(64 * (i as nat)) == 0) by (nonlinear_arith);
    }
    if carry != 0 {
        r.push(carry);
    }
    r
}

/// A limb product with two addends fits in two limbs.
proof fn lemma_word_product(x: u64, y: u64, c: u64, d: u64)
    ensures
        x as int * y as int + c as int + d as int <= 0xffff_ffff_ffff_ffff_ffff_ffff_ffff_ffff,
        0 <= x as int * y as int,
{
    assert(x as int * y as int <= 0xffff_ffff_ffff_ffff * 0xffff_ffff_ffff_ffff) by (nonlinear_arith)
        requires
            0 <= x as int <= 0xffff_ffff_ffff_ffff,
            0 <= y as int <= 0xffff_ffff_ffff_ffff,
    ;
    assert(0 <= x as int * y as int) by (nonlinear_arith)
        requires
            0 <= x as int,
            0 <= y as int,
    ;
}

fn zeros(n: usize) -> (r: Vec<u64>)
    ensures
        r.len() == n,
        forall|k: int| 0 <= k < n ==> r@[k] == 0,
        value(r@) == 0,
{
    let mut r: Vec<u64> = Vec::with_capacity(n);
    let mut i: usize = 0;
    while i < n
        invariant
            i <= n,
            r.len() == i,
            forall|k: int| 0 <= k < i ==> r@[k] == 0,
        decreases n - i,
    {
        r.push(0);
        i = i + 1;
    }
    proof {
        lemma_low_zero(r@, r@.len());
    }
    r
}

/// Adds `m * b * 2^(64 off)` into `r`, whose limb just above the window is zero.
fn accumulate_row(r: &mut Vec<u64>, b: &Vec<u64>, m: u64, off: usize)
    requires
        off + b.len() < old(r).len(),
        old(r).len() <= 2 * LIMB_CAP,
        old(r)@[off + b.len()] == 0,
    ensures
        final(r).len() == old(r).len(),
        value(final(r)@) == value(old(r)@) + m * value(b@) * pow2(64 * (off as nat)),
        forall|k: int| off + b.len() < k < old(r).len() ==> final(r)@[k] == old(r)@[k],
{
    let ghost s0 = r@;
    let ghost wo = pow2(64 * (off as nat)) as int;
    let mut carry: u64 = 0;
    let mut j: usize = 0;
    proof {
        assert(m * 0 * wo == 0) by (nonlinear_arith);
        assert(0 * pow2(64 * (off as nat)) == 0) by (nonlinear_arith);
    }
    while j < b.len()
        invariant
            j <= b.len(),
            off + b.len() < r.len(),
            r.len() == s0.len(),
            s0.len() <= 2 * LIMB_CAP,
            wo == pow2(64 * (off as nat)),
            forall|k: int| off + j <= k < r.len() ==> r@[k] == s0[k],
            value(r@) + carry * pow2(64 * ((off + j) as nat)) == value(s0) + m * low(b@, j as nat) * wo,
        decreases b.len() - j,
    {
        let x: u64 = b[j];
        let y: u64 = r[off + j];
        proof {
            lemma_word_product(x, m, y, carry);
        }
        let t: u128 = x as u128 * m as u128 + y as u128 + carry as u128;
        let lo: u64 = (t % 0x1_0000_0000_0000_0000) as u64;
        let hi: u64 = (t / 0x1_0000_0000_0000_0000) as u64;
        proof {
            let w = pow2(64 * ((off + j) as nat)) as int;
            let wj = pow2(64 * (j as nat)) as int;
            lemma_value_update(r@, (off + j) as int, lo);
            lemma_weight_step((off + j) as nat);
            lemma_pow2_adds(64 * (off as nat), 64 * (j as nat));
            assert(64 * (off as nat) + 64 * (j as nat) == 64 * ((off + j) as nat));
            assert(limb_at(b@, j as int) == x as nat);
            let l = low(b@, j as nat) as int;
            assert((lo as int - y as int) * w + hi as int * (w * 0x1_0000_0000_0000_0000) == carry as int * w + x as int * m as int * w)
                by (nonlinear_arith)
                requires
                    lo as int + hi as int * 0x1_0000_0000_0000_0000 == x as int * m as int + y as int + carry as int,
            ;
            assert(m as int * (l + x as int * wj) * wo == m as int * l * wo + x as int * m as int * (wo * wj))
                by (nonlinear_arith);
        }
        r.set(off + j, lo);
        carry = hi;
        j = j + 1;
    }
    proof {
        lemma_value_update(r@, (off + b.len()) as int, carry);
    }
    r.set(off + b.len(), carry);
}

/// Product of two numbers.
pub fn product(a: &Vec<u64>, b: &Vec<u64>) -> (r: Vec<u64>)
    requires
        a.len() < LIMB_CAP,
        b.len() < LIMB_CAP,
    ensures
        value(r@) == value(a@) * value(b@),
        r.len() <= a.len() + b.len() + 1,
{
    let mut r: Vec<u64> = zeros(a.len() + b.len() + 1);
    let mut i: usize = 0;
    proof {
        assert(0 * value(b@) == 0) by (nonlinear_arith);
    }
    while i < a.len()
        invariant
            i <= a.len(),
            a.len() < LIMB_CAP,
            b.len() < LIMB_CAP,
            r.len() == a.len() + b.len() + 1,
            forall|k: int| i + b.len() <= k < r.len() ==> r@[k] == 0,
            value(r@) == low(a@, i as nat) * value(b@),
        decreases a.len() - i,
    {
        let x: u64 = a[i];
        accumulate_row(&mut r, b, x, i);
        proof {
            let l = low(a@, i as nat) as int;
            let v = value(b@) as int;
            let w = pow2(64 * (i as nat)) as int;
            assert(limb_at(a@, i as int) == x as nat);
            assert((l + x as int * w) * v == l * v + x as int * v * w) by (nonlinear_arith);
        }
        i = i + 1;
    }
    r
}

/// Quotient and remainder by one nonzero machine word.
pub fn divided_by_word(a: &Vec<u64>, d: u64) -> (r: (Vec<u64>, u64))
    requires
        d > 0,
    ensures
        value(r.0@) == value(a@) / (d as nat),
        r.1 == value(a@) % (d as nat),
        r.0.len() == a.len(),
{
    let mut q: Vec<u64> = zeros(a.len());
    let mut rem: u64 = 0;
    let mut i: usize = a.len();
    proof {
        assert(0 * (d as int) == 0) by (nonlinear_arith);
        assert(0 * pow2(64 * (i as nat)) == 0) by (nonlinear_arith);
    }
    while i > 0
        invariant
            i <= a.len(),
            d > 0,
            q.len() == a.len(),
            rem < d,
            forall|k: int| 0 <= k < i ==> q@[k] == 0,
            value(a@) - low(a@, i as nat) == value(q@) * d + rem * pow2(64 * (i as nat)),
        decreases i,
    {
        let j: usize = i - 1;
        let x: u64 = a[j];
        let t: u128 = rem as u128 * 0x1_0000_0000_0000_0000 + x as u128;
        let d2: u128 = d as u128;
        let qd: u128 = t / d2;
        let rd: u128 = t % d2;
        proof {
            lemma_fundamental_div_mod(t as int, d as int);
            lemma_mod_bound(t as int, d as int);
            assert(qd < 0x1_0000_0000_0000_0000) by (nonlinear_arith)
                requires
                    d as int * qd as int + rd as int == t as int,
                    0 <= rd as int,
                    t as int == rem as int * 0x1_0000_0000_0000_0000 + x as int,
                    rem as int + 1 <= d as int,
                    x as int <= 0xffff_ffff_ffff_ffff,
                    d as int > 0,
            ;
            let w = pow2(64 * (j as nat)) as int;
            lemma_weight_step(j as nat);
            lemma_value_update(q@, j as int, qd as u64);
            let v = value(q@) as int;
            assert(limb_at(a@, j as int) == x as nat);
            assert(x as int * w + rem as int * (w * 0x1_0000_0000_0000_0000) == qd as int * w * d as int + rd as int * w)
                by (nonlinear_arith)
                requires
                    d as int * qd as int + rd as int == rem as int * 0x1_0000_0000_0000_0000 + x as int,
            ;
            assert((v + qd as int * w) * d as int == v * d as int + qd as int * w * d as int)
                by (nonlinear_arith);
        }
        q.set(j, qd as u64);
        rem = rd as u64;
        i = j;
    }
    proof {
        lemma_pow2_64();
        let v = value(a@) as int;
        assert(v == d as int * value(q@) as int + rem as int) by (nonlinear_arith)
            requires
                v == value(q@) as int * d as int + rem as int * 1,
        ;
        lemma_fundamental_div_mod_converse(v, d as int, value(q@) as int, rem as int);
    }
    (q, rem)
}

/// `2^k` as a machine word.
fn word_power(k: u32) -> (r: u64)
    requires
        k < 64,
    ensures
        r == pow2(k as nat),
{
    proof {
        lemma_u64_shl_is_mul_one(k);
    }
    1u64 << k
}

proof fn lemma_u64_shl_is_mul_one(k: u32)
    requires
        k < 64,
    ensures
        (1u64 << k) == pow2(k as nat),
{
    lemma_pow2_64();
    lemma_pow2_strictly_increases(k as nat, 64);
    lemma_u64_shl_is_mul(1u64, k as u64);
    assert((1u64 << k) == (1u64 << (k as u64))) by (bit_vector)
        requires
            k < 64,
    ;
}

/// `a * 2^k`.
pub fn shifted_up(a: &Vec<u64>, k: u64) -> (r: Vec<u64>)
    requires
        a.len() <= LIMB_CAP,
        k <= 64 * LIMB_CAP,
    ensures
        value(r@) == value(a@) * pow2(k as nat),
        r.len() <= a.len() + k / 64 + 1,
{
    let words: usize = (k / 64) as usize;
    let bits: u32 = (k % 64) as u32;
    let m: u64 = word_power(bits);
    let s: Vec<u64> = scaled(a, m);
    let mut r: Vec<u64> = zeros(words);
    let mut i: usize = 0;
    proof {
        assert(0 * pow2(64 * (words as nat)) == 0) by (nonlinear_arith);
    }
    while i < s.len()
        invariant
            i <= s.len(),
            s.len() <= LIMB_CAP + 1,
            words <= LIMB_CAP,
            r.len() == words + i,
            value(r@) == low(s@, i as nat) * pow2(64 * (words as nat)),
        decreases s.len() - i,
    {
        let x: u64 = s[i];
        proof {
            lemma_value_push(r@, x);
            lemma_pow2_adds(64 * (i as nat), 64 * (words as nat));
            assert(64 * (i as nat) + 64 * (words as nat) == 64 * ((words + i) as nat));
            let l = low(s@, i as nat) as int;
            let wi = pow2(64 * (i as nat)) as int;
            let ww = pow2(64 * (words as nat)) as int;
            assert(limb_at(s@, i as int) == x as nat);
            assert((l + x as int * wi) * ww == l * ww + x as int * (wi * ww)) by (nonlinear_arith);
        }
        r.push(x);
        i = i + 1;
    }
    proof {
        lemma_pow2_adds(bits as nat, 64 * (words as nat));
        assert(bits as nat + 64 * (words as nat) == k as nat);
        let v = value(a@) as int;
        let wb = pow2(bits as nat) as int;
        let ww = pow2(64 * (words as nat)) as int;
        assert(v * wb * ww == v * (wb * ww)) by (nonlinear_arith);
    }
    r
}

/// `floor(a / 2^k)` and whether any bit was dropped.
pub fn shifted_down(a: &Vec<u64>, k: u64) -> (r: (Vec<u64>, bool))
    ensures
        value(r.0@) == value(a@) / pow2(k as nat),
        r.1 == (value(a@) % pow2(k as nat) != 0),
        r.0.len() <= a.len(),
{
    let ghost v = value(a@) as int;
    let bits: u32 = (k % 64) as u32;
    if k / 64 >= a.len() as u64 {
        let z: bool = is_zero(a);
        proof {
            lemma_low_bound(a@, a@.len());
            if 64 * a@.len() < k as nat {
                lemma_pow2_strictly_increases(64 * a@.len(), k as nat);
            }
            lemma_small_div(value(a@), pow2(k as nat));
            lemma_low_zero(Seq::<u64>::empty(), 0);
        }
        return (Vec::new(), !z);
    }
    let words: usize = (k / 64) as usize;
    let mut hi: Vec<u64> = Vec::with_capacity(a.len() - words);
    let mut dropped: bool = false;
    let mut i: usize = 0;
    while i < words
        invariant
            i <= words,
            words < a.len(),
            dropped == (low(a@, i as nat) != 0),
        decreases words - i,
    {
        if a[i] != 0 {
            dropped = true;
        }
        proof {
            let x = limb_at(a@, i as int) as int;
            let w = pow2(64 * (i as nat)) as int;
            lemma_pow2_pos(64 * (i as nat));
            assert(x == 0 ==> x * w == 0) by (nonlinear_arith);
            assert(x > 0 ==> x * w > 0) by (nonlinear_arith)
                requires
                    w > 0,
            ;
            assert(x >= 0 ==> x * w >= 0) by (nonlinear_arith)
                requires
                    w > 0,
            ;
        }
        i = i + 1;
    }
    let ghost ww = pow2(64 * (words as nat)) as int;
    proof {
        lemma_low_zero(hi@, 0);
        assert(ww * 0 == 0) by (nonlinear_arith);
    }
    while i < a.len()
        invariant
            words <= i <= a.len(),
            hi.len() == i - words,
            ww == pow2(64 * (words as nat)),
            low(a@, i as nat) == low(a@, words as nat) + ww * value(hi@),
        decreases a.len() - i,
    {
        let x: u64 = a[i];
        proof {
            lemma_value_push(hi@, x);
            let wi = pow2(64 * ((i - words) as nat)) as int;
            lemma_pow2_adds(64 * (words as nat), 64 * ((i - words) as nat));
            assert(64 * (words as nat) + 64 * ((i - words) as nat) == 64 * (i as nat));
            let h = value(hi@) as int;
            assert(limb_at(a@, i as int) == x as nat);
            assert(ww * (h + x as int * wi) == ww * h + x as int * (ww * wi)) by (nonlinear_arith);
        }
        hi.push(x);
        i = i + 1;
    }
    let m: u64 = word_power(bits);
    proof {
        lemma_pow2_pos(bits as nat);
    }
    let (q, rem): (Vec<u64>, u64) = divided_by_word(&hi, m);
    proof {
        lemma_low_bound(a@, words as nat);
        let lo = low(a@, words as nat) as int;
        let h = value(hi@) as int;
        let mm = pow2(bits as nat) as int;
        lemma_pow2_adds(64 * (words as nat), bits as nat);
        assert(64 * (words as nat) + bits as nat == k as nat);
        lemma_fundamental_div_mod(h, mm);
        lemma_mod_bound(h, mm);
        let qq = h / mm;
        let rr = h % mm;
        assert(v == ww * mm * qq + (ww * rr + lo)) by (nonlinear_arith)
            requires
                v == lo + ww * h,
                h == mm * qq + rr,
        ;
        assert(0 <= ww * rr + lo < ww * mm) by (nonlinear_arith)
            requires
                0 <= lo < ww,
                0 <= rr,
                rr + 1 <= mm,
        ;
        lemma_fundamental_div_mod_converse(v, ww * mm, qq, ww * rr + lo);
        assert(rr > 0 ==> ww * rr > 0) by (nonlinear_arith)
            requires
                ww > 0,
        ;
        assert(ww * 0 == 0) by (nonlinear_arith);
    }
    (q, dropped || rem != 0)
}

proof fn lemma_small_div(a: nat, d: nat)
    requires
        a < d,
    ensures
        a / d == 0,
        a % d == a,
{
    lemma_fundamental_div_mod_converse(a as int, d as int, 0, a as int);
}

/// Number of bits of the number.
pub fn bits(a: &Vec<u64>) -> (r: u64)
    requires
        a.len() <= LIMB_CAP,
    ensures
        r == bit_len(value(a@)),
        r <= 64 * a.len(),
{
    let mut i: usize = a.len();
    while i > 0
        invariant
            i <= a.len(),
            a.len() <= LIMB_CAP,
            forall|k: int| i <= k < a.len() ==> a@[k] == 0,
        decreases i,
    {
        let j: usize = i - 1;
        if a[j] != 0 {
            let top_word: u64 = a[j];
            let mut x: u64 = top_word;
            let mut c: u64 = 0;
            proof {
                lemma_pow2_64();
            }
            while x != 0
                invariant
                    c <= 64,
                    pow2(c as nat) * x <= top_word as nat,
                    (top_word as nat) < pow2(c as nat) * (x as nat + 1),
                    pow2(64) == 0x1_0000_0000_0000_0000,
                    c == 0 ==> x == top_word,
                    top_word != 0,
                    c > 0 ==> pow2((c - 1) as nat) <= top_word as nat,
                decreases x,
            {
                proof {
                    let p = pow2(c as nat) as int;
                    let h = x as int / 2;
                    lemma_pow2_unfold((c + 1) as nat);
                    lemma_pow2_pos(c as nat);
                    assert(2 * p * h <= p * x as int) by (nonlinear_arith)
                        requires
                            2 * h <= x as int,
                            p > 0,
                    ;
                    assert(p * (x as int + 1) <= 2 * p * (h + 1)) by (nonlinear_arith)
                        requires
                            x as int + 1 <= 2 * (h + 1),
                            p > 0,
                    ;
                    assert(p <= p * x as int) by (nonlinear_arith)
                        requires
                            x as int >= 1,
                            p > 0,
                    ;
                    if c == 64 {
                        assert(false);
                    }
                }
                x = x / 2;
                c = c + 1;
            }
            proof {
                lemma_low_above_zero(a@, i as nat);
                lemma_low_bound(a@, j as nat);
                let w = pow2(64 * (j as nat)) as int;
                let top = a@[j as int] as int;
                let p = pow2(c as nat) as int;
                let ph = pow2((c - 1) as nat) as int;
                assert(p * (0 + 1) == p) by (nonlinear_arith);
                lemma_pow2_adds(64 * (j as nat), c as nat);
                lemma_pow2_adds(64 * (j as nat), (c - 1) as nat);
                let l = low(a@, j as nat) as int;
                assert(limb_at(a@, j as int) == top);
                assert(l + top * w < w * p) by (nonlinear_arith)
                    requires
                        0 <= l < w,
                        top + 1 <= p,
                ;
                assert(w * ph <= l + top * w) by (nonlinear_arith)
                    requires
                        0 <= l,
                        ph <= top,
                        w > 0,
                ;
                lemma_bit_len_unique(value(a@), 64 * (j as nat) + c as nat);
            }
            return 64 * (j as u64) + c;
        }
        i = j;
    }
    proof {
        lemma_low_zero(a@, a@.len());
    }
    0
}

/// Putting a limb below all others multiplies by `2^64` and adds it.
proof fn lemma_low_insert_front(s: Seq<u64>, x: u64, n: nat)
    ensures
        low(s.insert(0, x), n + 1) == x as nat + 0x1_0000_0000_0000_0000 * low(s, n),
    decreases n,
{
    let t = s.insert(0, x);
    lemma_pow2_64();
    if n == 0 {
        assert(limb_at(t, 0) == x as nat);
        assert(low(t, 0) == 0);
        assert(low(t, 1) == low(t, 0) + limb_at(t, 0) * pow2(64 * 0nat));
        assert(x as nat * 1 == x as nat);
    } else {
        let m = (n - 1) as nat;
        lemma_low_insert_front(s, x, m);
        lemma_weight_step(m);
        assert(limb_at(t, n as int) == limb_at(s, n - 1));
        let y = limb_at(s, n - 1) as int;
        let w = pow2(64 * m) as int;
        let l = low(s, m) as int;
        assert(y * (w * 0x1_0000_0000_0000_0000) == 0x1_0000_0000_0000_0000 * (y * w))
            by (nonlinear_arith);
    }
}

/// One digit of a long division: the quotient, below `2^64`, and the remainder.
fn quotient_digit(rem: &Vec<u64>, d: &Vec<u64>) -> (r: (u64, Vec<u64>))
    requires
        0 < d.len() < LIMB_CAP,
        rem.len() <= LIMB_CAP,
        d@[d.len() - 1] != 0,
        rem.len() > 0 ==> rem@[rem.len() - 1] != 0,
        value(rem@) < value(d@) * 0x1_0000_0000_0000_0000,
    ensures
        value(rem@) == r.0 * value(d@) + value(r.1@),
        value(r.1@) < value(d@),
        r.1.len() <= rem.len() || r.1.len() <= d.len() + 1,
{
    let n: usize = d.len();
    let top: u64 = d[n - 1];
    let rt: u128 = word_at(rem, n) as u128 * 0x1_0000_0000_0000_0000 + word_at(rem, n - 1) as u128;
    let est: u128 = rt / (top as u128);
    let mut q: u64 = if est > 0xffff_ffff_ffff_ffff {
        0xffff_ffff_ffff_ffff
    } else {
        est as u64
    };
    let ghost dv = value(d@) as int;
    let ghost rv = value(rem@) as int;
    let ghost quotient = rv / dv;
    proof {
        let w = pow2(64 * ((n - 1) as nat)) as int;
        lemma_weight_step((n - 1) as nat);
        lemma_weight_step(n as nat);
        lemma_low_bound(d@, n as nat);
        lemma_low_at_least(d@, (n - 1) as nat, n as nat);
        assert(limb_at(d@, n - 1) == top as nat);
        let wn = pow2(64 * (n as nat)) as int;
        let wn1 = pow2(64 * ((n + 1) as nat)) as int;
        assert(rv < wn1);
        if rem.len() > n + 1 {
            let l = (rem.len() - 1) as nat;
            lemma_low_at_least(rem@, l, rem@.len());
            if l > n + 1 {
                lemma_pow2_strictly_increases(64 * ((n + 1) as nat), 64 * l);
            }
            let x = limb_at(rem@, l as int) as int;
            let wl = pow2(64 * l) as int;
            assert(x * wl >= wl) by (nonlinear_arith)
                requires
                    x >= 1,
                    wl >= 0,
            ;
            assert(false);
        }
        lemma_low_beyond(rem@, (n + 1) as nat);
        lemma_low_bound(rem@, (n - 1) as nat);
        let r1 = limb_at(rem@, n as int) as int;
        let r0 = limb_at(rem@, n - 1) as int;
        let l = low(rem@, (n - 1) as nat) as int;
        assert(low(rem@, n as nat) == l + r0 * w);
        assert(low(rem@, (n + 1) as nat) == low(rem@, n as nat) + r1 * wn);
        assert(rv == l + rt as int * w) by (nonlinear_arith)
            requires
                rv == l + r0 * w + r1 * wn,
                wn == w * 0x1_0000_0000_0000_0000,
                rt as int == r1 * 0x1_0000_0000_0000_0000 + r0,
        ;
        assert(dv > 0) by (nonlinear_arith)
            requires
                dv >= 0 + top as int * w,
                top as int > 0,
                w > 0,
        ;
        lemma_fundamental_div_mod(rv, dv);
        lemma_mod_bound(rv, dv);
        assert(quotient >= 0 && quotient < 0x1_0000_0000_0000_0000) by (nonlinear_arith)
            requires
                rv == dv * quotient + rv % dv,
                0 <= rv % dv < dv,
                0 <= rv < dv * 0x1_0000_0000_0000_0000,
                dv > 0,
        ;
        assert(quotient * top as int <= rt as int) by (nonlinear_arith)
            requires
                rv == l + rt as int * w,
                0 <= l < w,
                dv >= top as int * w,
                dv * quotient <= rv,
                quotient >= 0,
                w > 0,
        ;
        lemma_fundamental_div_mod(rt as int, top as int);
        lemma_mod_bound(rt as int, top as int);
        assert(quotient <= est as int) by (nonlinear_arith)
            requires
                quotient * top as int <= rt as int,
                rt as int == top as int * est as int + rt as int % top as int,
                rt as int % (top as int) < top as int,
                top as int > 0,
        ;
    }
    let mut t: Vec<u64> = scaled(d, q);
    proof {
        assert(dv * q as int == q as int * dv) by (nonlinear_arith);
    }
    while is_greater(compare(&t, rem))
        invariant
            dv == value(d@),
            rv == value(rem@),
            dv > 0,
            quotient == rv / dv,
            value(t@) == q * dv,
            quotient <= q,
            quotient >= 0,
            rv == dv * quotient + rv % dv,
            0 <= rv % dv,
            d.len() < LIMB_CAP,
            t.len() <= d.len() + 1,
            rem.len() <= LIMB_CAP,
        decreases q,
    {
        proof {
            assert(quotient < q) by (nonlinear_arith)
                requires
                    q as int * dv > rv,
                    dv * quotient <= rv,
                    dv > 0,
                    quotient <= q,
            ;
            assert((q as int - 1) * dv == q as int * dv - dv) by (nonlinear_arith);
            assert(q as int * dv >= dv) by (nonlinear_arith)
                requires
                    q as int >= 1,
                    dv > 0,
            ;
        }
        t = difference(&t, d);
        q = q - 1;
    }
    proof {
        assert(rv - q as int * dv < dv) by (nonlinear_arith)
            requires
                rv == dv * quotient + rv % dv,
                rv % dv < dv,
                quotient <= q,
                dv > 0,
        ;
    }
    (q, difference(rem, &t))
}

fn is_greater(o: Order) -> (r: bool)
    ensures
        r == (o is Greater),
{
    match o {
        Order::Greater => true,
        _ => false,
    }
}

/// `floor(a / b)` and whether the division is exact.
pub fn divided(a: &Vec<u64>, b: &Vec<u64>) -> (r: (Vec<u64>, bool))
    requires
        value(b@) > 0,
        a.len() + 4 <= LIMB_CAP,
        b.len() + 4 <= LIMB_CAP,
    ensures
        value(r.0@) == value(a@) / value(b@),
        r.1 == (value(a@) % value(b@) == 0),
        r.0.len() <= a.len() + 2,
{
    let nb: u64 = bits(b);
    let shift: u64 = (64 - nb % 64) % 64;
    let mut d: Vec<u64> = shifted_up(b, shift);
    trim(&mut d);
    let num: Vec<u64> = shifted_up(a, shift);
    let ghost dv = value(d@) as int;
    let ghost nv = value(num@) as int;
    proof {
        lemma_pow2_pos(shift as nat);
        let p = pow2(shift as nat) as int;
        assert(value(b@) as int * p > 0) by (nonlinear_arith)
            requires
                value(b@) as int > 0,
                p > 0,
        ;
        if d.len() == 0 {
            assert(false);
        }
    }
    let mut q: Vec<u64> = zeros(num.len());
    let mut rem: Vec<u64> = Vec::new();
    let mut i: usize = num.len();
    proof {
        lemma_low_zero(rem@, 0);
        assert(0 * dv == 0) by (nonlinear_arith);
        assert(0 * pow2(64 * (i as nat)) == 0) by (nonlinear_arith);
    }
    while i > 0
        invariant
            i <= num.len(),
            0 < d.len() < LIMB_CAP - 1,
            d@[d.len() - 1] != 0,
            dv == value(d@),
            nv == value(num@),
            dv > 0,
            q.len() == num.len(),
            rem.len() > 0 ==> rem@[rem.len() - 1] != 0,
            rem.len() < LIMB_CAP,
            value(rem@) < dv,
            forall|k: int| 0 <= k < i ==> q@[k] == 0,
            nv - low(num@, i as nat) == value(q@) * dv + value(rem@) * pow2(64 * (i as nat)),
        decreases i,
    {
        let j: usize = i - 1;
        let x: u64 = num[j];
        let ghost r0 = value(rem@) as int;
        let ghost rem0 = rem@;
        rem.insert(0, x);
        proof {
            lemma_low_insert_front(rem0, x, rem0.len());
        }
        trim(&mut rem);
        let (qd, rest): (u64, Vec<u64>) = quotient_digit(&rem, &d);
        proof {
            let w = pow2(64 * (j as nat)) as int;
            lemma_weight_step(j as nat);
            lemma_value_update(q@, j as int, qd);
            let v = value(q@) as int;
            let r1 = value(rest@) as int;
            assert(limb_at(num@, j as int) == x as nat);
            assert(x as int * w + r0 * (w * 0x1_0000_0000_0000_0000) == qd as int * w * dv + r1 * w)
                by (nonlinear_arith)
                requires
                    qd as int * dv + r1 == x as int + 0x1_0000_0000_0000_0000 * r0,
            ;
            assert((v + qd as int * w) * dv == v * dv + qd as int * w * dv) by (nonlinear_arith);
        }
        q.set(j, qd);
        rem = rest;
        trim(&mut rem);
        proof {
            lemma_trimmed_no_longer(rem@, d@);
        }
        i = j;
    }
    let exact: bool = is_zero(&rem);
    proof {
        lemma_pow2_64();
        let p = pow2(shift as nat) as int;
        let av = value(a@) as int;
        let bv = value(b@) as int;
        let qv = value(q@) as int;
        let rv = value(rem@) as int;
        lemma_pow2_pos(shift as nat);
        lemma_fundamental_div_mod(av, bv);
        lemma_mod_bound(av, bv);
        let q1 = av / bv;
        let r1 = av % bv;
        assert(av * p == bv * p * q1 + r1 * p) by (nonlinear_arith)
            requires
                av == bv * q1 + r1,
        ;
        assert(0 <= r1 * p < bv * p) by (nonlinear_arith)
            requires
                0 <= r1 < bv,
                p > 0,
        ;
        lemma_fundamental_div_mod_converse(nv, dv, q1, r1 * p);
        assert(nv == dv * qv + rv) by (nonlinear_arith)
            requires
                nv == qv * dv + rv * 1,
        ;
        lemma_fundamental_div_mod_converse(nv, dv, qv, rv);
        assert(r1 == 0 ==> r1 * p == 0) by (nonlinear_arith);
        assert(r1 > 0 ==> r1 * p > 0) by (nonlinear_arith)
            requires
                p > 0,
        ;
    }
    (q, exact)
}

/// A trimmed number below another is no longer than it.
proof fn lemma_trimmed_no_longer(s: Seq<u64>, t: Seq<u64>)
    requires
        value(s) < value(t),
        s.len() > 0 ==> s[s.len() - 1] != 0,
    ensures
        s.len() <= t.len(),
{
    if s.len() > t.len() {
        let l = (s.len() - 1) as nat;
        lemma_low_at_least(s, l, s.len());
        lemma_low_bound(t, t.len());
        if l > t.len() {
            lemma_pow2_strictly_increases(64 * t.len(), 64 * l);
        }
        let x = limb_at(s, l as int) as int;
        let wl = pow2(64 * l) as int;
        assert(x * wl >= wl) by (nonlinear_arith)
            requires
                x >= 1,
                wl >= 0,
        ;
    }
}

/// `floor(sqrt(a))` and whether the root is exact.
pub fn square_root(a: &Vec<u64>) -> (r: (Vec<u64>, bool))
    requires
        a.len() + 8 <= LIMB_CAP,
    ensures
        value(r.0@) * value(r.0@) <= value(a@) < (value(r.0@) + 1) * (value(r.0@) + 1),
        r.1 == (value(r.0@) * value(r.0@) == value(a@)),
        r.0.len() <= a.len() + 3,
{
    let ghost av = value(a@) as int;
    let nb: u64 = bits(a);
    if nb == 0 {
        proof {
            lemma_low_zero(Seq::<u64>::empty(), 0);
            if av > 0 {
                lemma_bit_len(value(a@));
            }
            assert(0int * 0 == 0 && (0int + 1) * (0 + 1) == 1) by (nonlinear_arith);
        }
        return (Vec::new(), true);
    }
    let one: Vec<u64> = from_word(1);
    let half: u64 = nb / 2 + 1;
    let mut x: Vec<u64> = shifted_up(&one, half);
    proof {
        let h = pow2(half as nat) as int;
        assert(value(x@) == h) by (nonlinear_arith)
            requires
                value(x@) as int == 1 * h,
        ;
        if av > 0 {
            lemma_bit_len(value(a@));
        }
        lemma_pow2_adds(half as nat, half as nat);
        if (nb as nat) < 2 * half as nat {
            lemma_pow2_strictly_increases(nb as nat, half as nat + half as nat);
        }
        lemma_pow2_pos(half as nat);
        assert((h + 1) * (h + 1) > h * h) by (nonlinear_arith)
            requires
                h > 0,
        ;
    }
    let mut done: bool = false;
    while !done
        invariant
            av == value(a@),
            av > 0,
            a.len() + 8 <= LIMB_CAP,
            x.len() <= a.len() + 3,
            value(x@) > 0,
            av < (value(x@) + 1) * (value(x@) + 1),
            done ==> value(x@) * value(x@) <= av,
        decreases
            (if done {
                0int
            } else {
                1 + value(x@) as int
            }),
    {
        let ghost xv = value(x@) as int;
        let (q, _exact): (Vec<u64>, bool) = divided(a, &x);
        let s: Vec<u64> = sum(&x, &q);
        let (mut y, _odd): (Vec<u64>, u64) = divided_by_word(&s, 2);
        trim(&mut y);
        proof {
            let qv = value(q@) as int;
            let yv = value(y@) as int;
            lemma_fundamental_div_mod(av, xv);
            lemma_mod_bound(av, xv);
            assert(av < xv * (qv + 1)) by (nonlinear_arith)
                requires
                    av == xv * qv + av % xv,
                    av % xv < xv,
            ;
            assert(av >= xv * qv);
            assert(xv + qv <= 2 * yv + 1);
            assert(4 * (xv * (qv + 1)) <= (xv + (qv + 1)) * (xv + (qv + 1))) by (nonlinear_arith);
            assert((xv + (qv + 1)) * (xv + (qv + 1)) <= (2 * yv + 2) * (2 * yv + 2)) by (nonlinear_arith)
                requires
                    0 <= xv + (qv + 1) <= 2 * yv + 2,
            ;
            assert((2 * yv + 2) * (2 * yv + 2) == 4 * ((yv + 1) * (yv + 1))) by (nonlinear_arith);
            if yv >= xv {
                assert(qv >= xv);
                assert(xv * xv <= xv * qv) by (nonlinear_arith)
                    requires
                        qv >= xv,
                        xv > 0,
                ;
            }
            if yv == 0 {
                assert((yv + 1) * (yv + 1) == 1) by (nonlinear_arith)
                    requires
                        yv == 0,
                ;
                assert(false);
            }
        }
        if is_greater(compare(&x, &y)) {
            proof {
                lemma_trimmed_no_longer(y@, x@);
            }
            x = y;
        } else {
            done = true;
        }
    }
    let sq: Vec<u64> = product(&x, &x);
    let exact: bool = match compare(&sq, a) {
        Order::Equal => true,
        _ => false,
    };
    (x, exact)
}

} // verus!
