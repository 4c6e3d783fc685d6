//! Prime powers up to a limit.

use vstd::arithmetic::div_mod::*;
use vstd::arithmetic::mul::*;
use vstd::arithmetic::power::*;
use vstd::arithmetic::power2::*;
use vstd::prelude::*;

verus! {

/// A prime power with its prime and its exponent.
#[derive(Clone, Copy, Debug, PartialEq, Eq, Structural)]
pub struct PrimePowerContent {
    pub power: u64,
    pub prime: u64,
    pub exponent: u32,
}

pub open spec fn is_prime(p: int) -> bool {
    p >= 2 && forall|d: int| 1 < d < p ==> #[trigger] (p % d) != 0
}

/// Whether an entry states a prime power truly.
pub open spec fn states_power(c: PrimePowerContent) -> bool {
    is_prime(c.prime as int) && c.exponent >= 1 && c.power == pow(
        c.prime as int,
        c.exponent as nat,
    )
}

/// Whether entries rise by power.
pub open spec fn powers_rise(s: Seq<PrimePowerContent>) -> bool {
    forall|i: int, j: int| 0 <= i < j < s.len() ==> (#[trigger] s[i]).power < (#[trigger] s[j]).power
}

/// Whether a power has an entry.
pub open spec fn has_power(s: Seq<PrimePowerContent>, k: int) -> bool {
    exists|i: int| 0 <= i < s.len() && (#[trigger] s[i]).power == k
}

/// Whether entries are all prime powers up to a limit, each once, in rising order.
pub open spec fn lists_prime_powers(s: Seq<PrimePowerContent>, limit: int) -> bool {
    &&& powers_rise(s)
    &&& forall|i: int| 0 <= i < s.len() ==> states_power(#[trigger] s[i]) && s[i].power <= limit
    &&& forall|p: int, e: nat|
        is_prime(p) && e >= 1 && #[trigger] pow(p, e) <= limit ==> has_power(s, pow(p, e))
}

/// A prime that divides a product divides one of its factors.
proof fn lemma_prime_divides(d: int, a: int, b: int)
    requires
        is_prime(d),
        0 < a,
        a % d != 0,
        (a * b) % d == 0,
    ensures
        b % d == 0,
    decreases a,
{
    let k = (a * b) / d;
    lemma_fundamental_div_mod(a * b, d);
    if a >= d {
        let r = a % d;
        let q = a / d;
        lemma_fundamental_div_mod(a, d);
        lemma_mod_bound(a, d);
        assert(r < a && r > 0);
        assert(r * b == d * (k - q * b)) by (nonlinear_arith)
            requires
                a * b == d * k,
                a == d * q + r,
        ;
        lemma_mod_multiples_basic(k - q * b, d);
        assert((k - q * b) * d == r * b) by (nonlinear_arith)
            requires
                r * b == d * (k - q * b),
        ;
        lemma_small_mod(r as nat, d as nat);
        lemma_prime_divides(d, r, b);
    } else if a == 1 {
        assert(a * b == b) by (nonlinear_arith)
            requires
                a == 1,
        ;
    } else {
        let r = d % a;
        let q = d / a;
        lemma_fundamental_div_mod(d, a);
        lemma_mod_bound(d, a);
        assert(d % a != 0);
        assert(r * b == d * (b - q * k)) by (nonlinear_arith)
            requires
                a * b == d * k,
                d == a * q + r,
        ;
        lemma_mod_multiples_basic(b - q * k, d);
        assert((b - q * k) * d == r * b) by (nonlinear_arith)
            requires
                r * b == d * (b - q * k),
        ;
        lemma_small_mod(r as nat, d as nat);
        lemma_prime_divides(d, r, b);
    }
}

proof fn lemma_pow_step(p: int, e: nat)
    requires
        e >= 1,
    ensures
        pow(p, e) == p * pow(p, (e - 1) as nat),
{
    reveal(pow);
}

/// A prime that divides a power of a prime is that prime.
proof fn lemma_divides_power(d: int, p: int, e: nat)
    requires
        is_prime(d),
        is_prime(p),
        e >= 1,
        pow(p, e) % d == 0,
    ensures
        d == p,
    decreases e,
{
    lemma_pow_step(p, e);
    if p % d != 0 {
        lemma_prime_divides(d, p, pow(p, (e - 1) as nat));
        if e == 1 {
            lemma_pow0(p);
            lemma_small_mod(1, d as nat);
        } else {
            lemma_divides_power(d, p, (e - 1) as nat);
        }
    } else {
        if d < p {
            assert(p % d != 0);
        } else if d > p {
            lemma_small_mod(p as nat, d as nat);
        }
    }
}

/// A prime is divided by no smaller number, so the least divisor of a number is prime.
proof fn lemma_least_is_prime(k: int, r: int)
    requires
        1 < r <= k,
        k % r == 0,
        forall|d: int| 1 < d < r ==> #[trigger] (k % d) != 0,
    ensures
        is_prime(r),
{
    assert forall|d: int| 1 < d < r implies #[trigger] (r % d) != 0 by {
        if r % d == 0 {
            lemma_fundamental_div_mod(k, r);
            lemma_fundamental_div_mod(r, d);
            let a = k / r;
            let b = r / d;
            assert(k == (a * b) * d) by (nonlinear_arith)
                requires
                    k == r * a,
                    r == d * b,
            ;
            lemma_mod_multiples_basic(a * b, d);
            assert(k % d == 0);
        }
    }
}

fn least_factor(k: u64) -> (r: u64)
    requires
        k >= 2,
    ensures
        1 < r <= k,
        k as int % r as int == 0,
        forall|d: int| 1 < d < r ==> #[trigger] (k as int % d) != 0,
{
    let mut d: u64 = 2;
    while d <= k / d
        invariant
            2 <= d <= k,
            forall|c: int| 1 < c < d ==> #[trigger] (k as int % c) != 0,
        decreases k - d,
    {
        if k % d == 0 {
            return d;
        }
        proof {
            let q = (k / d) as int;
            lemma_fundamental_div_mod(k as int, d as int);
            lemma_mod_bound(k as int, d as int);
            assert(d < k) by (nonlinear_arith)
                requires
                    k == d * q + (k as int % d as int),
                    d <= q,
                    2 <= d,
                    0 <= k as int % d as int,
            ;
        }
        d = d + 1;
    }
    proof {
        let kk = k as int;
        assert forall|c: int| 1 < c < kk implies #[trigger] (kk % c) != 0 by {
            if kk % c == 0 && c >= d {
                let q = kk / c;
                lemma_fundamental_div_mod(kk, c);
                assert(kk == c * q);
                assert(1 < q) by (nonlinear_arith)
                    requires
                        kk == c * q,
                        1 < c < kk,
                ;
                let t = kk / d as int;
                lemma_fundamental_div_mod(kk, d as int);
                lemma_mod_bound(kk, d as int);
                assert(q < d) by (nonlinear_arith)
                    requires
                        kk == c * q,
                        c >= d,
                        kk == d * t + kk % (d as int),
                        0 <= kk % (d as int) < d,
                        t < d,
                        d >= 2,
                ;
                assert(c * q == q * c) by (nonlinear_arith);
                lemma_mod_multiples_basic(c, q);
                assert(kk % q == 0);
                assert(kk % q != 0);
            }
        }
        lemma_mod_self_0(kk);
    }
    k
}

/// A number with more than its least prime in it is no prime power.
proof fn lemma_no_power(k: int, r: int, m: int, e: nat)
    requires
        is_prime(r),
        k >= 2,
        k % r == 0,
        m >= 1,
        m * pow(r, e) == k,
        m % r != 0,
        m != 1,
    ensures
        forall|p: int, f: nat| is_prime(p) && f >= 1 ==> #[trigger] pow(p, f) != k,
{
    assert forall|p: int, f: nat| is_prime(p) && f >= 1 implies #[trigger] pow(p, f) != k by {
        if pow(p, f) == k {
            lemma_divides_power(r, p, f);
            if e < f {
                let g = (f - e) as nat;
                lemma_pow_adds(r, e, g);
                lemma_pow_positive(r, e);
                let a = pow(r, e);
                let b = pow(r, g);
                assert(m == b) by (nonlinear_arith)
                    requires
                        m * a == a * b,
                        a > 0,
                ;
                lemma_pow_step(r, g);
                let c = pow(r, (g - 1) as nat);
                assert(m == c * r) by (nonlinear_arith)
                    requires
                        m == r * c,
                ;
                lemma_mod_multiples_basic(c, r);
            } else {
                let g = (e - f) as nat;
                lemma_pow_adds(r, f, g);
                lemma_pow_positive(r, f);
                lemma_pow_positive(r, g);
                let a = pow(r, f);
                let b = pow(r, g);
                assert(m == 1) by (nonlinear_arith)
                    requires
                        m * (a * b) == a,
                        a > 0,
                        b >= 1,
                        m >= 1,
                ;
            }
        }
    }
}

/// The entry of a number, where it is a prime power.
fn prime_power_of(k: u64) -> (r: Option<PrimePowerContent>)
    requires
        k >= 2,
    ensures
        match r {
            Some(c) => c.power == k && states_power(c),
            None => forall|p: int, e: nat|
                is_prime(p) && e >= 1 ==> #[trigger] pow(p, e) != k,
        },
{
    let q: u64 = least_factor(k);
    proof {
        lemma_least_is_prime(k as int, q as int);
        lemma_pow0(q as int);
        lemma_pow0(2);
    }
    let mut m: u64 = k;
    let mut e: u32 = 0;
    while m % q == 0
        invariant
            k >= 2,
            q >= 2,
            m >= 1,
            m * pow(q as int, e as nat) == k,
            e + m <= k,
            e <= 64,
            e > 0 || m == k,
            pow(2, e as nat) <= pow(q as int, e as nat),
        decreases m,
    {
        proof {
            let t = (m / q) as int;
            lemma_fundamental_div_mod(m as int, q as int);
            assert(m == q * t);
            lemma_pow_step(q as int, (e + 1) as nat);
            lemma_pow_step(2, (e + 1) as nat);
            let a = pow(q as int, e as nat);
            let b = pow(2, e as nat);
            lemma_pow_positive(2, e as nat);
            lemma_pow_positive(q as int, e as nat);
            assert(1 <= t && t < m) by (nonlinear_arith)
                requires
                    m == q * t,
                    m >= 1,
                    q >= 2,
            ;
            assert(t * (q * a) == k) by (nonlinear_arith)
                requires
                    m * a == k,
                    m == q * t,
            ;
            assert(2 * b <= q * a) by (nonlinear_arith)
                requires
                    b <= a,
                    q >= 2,
                    b > 0,
            ;
            assert(q * a <= k) by (nonlinear_arith)
                requires
                    t * (q * a) == k,
                    t >= 1,
                    q * a > 0,
            ;
            lemma_two_pow_bound((e + 1) as nat);
        }
        m = m / q;
        e = e + 1;
    }
    if m == 1 {
        proof {
            lemma_mod_self_0(k as int);
            if e == 0 {
                assert(m == k);
            }
        }
        Some(PrimePowerContent { power: k, prime: q, exponent: e })
    } else {
        proof {
            lemma_no_power(k as int, q as int, m as int, e as nat);
        }
        None
    }
}

proof fn lemma_two_pow_bound(e: nat)
    requires
        pow(2, e) <= u64::MAX,
    ensures
        e <= 64,
{
    if e > 64 {
        lemma_pow_increases(2, 64, e);
        lemma_pow2(64);
        lemma2_to64();
    }
}

/// The prime powers up to a limit, in rising order.
pub fn prime_powers_up_to(limit: u64) -> (r: Vec<PrimePowerContent>)
    ensures
        lists_prime_powers(r@, limit as int),
{
    let mut out: Vec<PrimePowerContent> = Vec::new();
    let mut k: u64 = 1;
    proof {
        assert forall|p: int, e: nat| is_prime(p) && e >= 1 && #[trigger] pow(p, e) <= 1 implies has_power(
            out@,
            pow(p, e),
        ) by {
            lemma_pow_step(p, e);
            lemma_pow_positive(p, (e - 1) as nat);
            let c = pow(p, (e - 1) as nat);
            assert(p * c >= 2) by (nonlinear_arith)
                requires
                    p >= 2,
                    c >= 1,
            ;
        }
    }
    while k < limit
        invariant
            1 <= k,
            k <= limit || k == 1,
            lists_prime_powers(out@, k as int),
        decreases limit - k,
    {
        k = k + 1;
        let ghost before = out@;
        match prime_power_of(k) {
            Some(c) => {
                out.push(c);
                assert(out@[before.len() as int].power == k);
            },
            None => {},
        }
        proof {
            assert forall|p: int, e: nat|
                is_prime(p) && e >= 1 && #[trigger] pow(p, e) <= k implies has_power(
                out@,
                pow(p, e),
            ) by {
                if pow(p, e) < k {
                    assert(has_power(before, pow(p, e)));
                    let i = choose|i: int|
                        0 <= i < before.len() && (#[trigger] before[i]).power == pow(p, e);
                    assert(out@[i].power == pow(p, e));
                }
            }
        }
    }
    proof {
        if limit < 1 {
            assert forall|p: int, e: nat|
                is_prime(p) && e >= 1 && #[trigger] pow(p, e) <= limit implies has_power(
                out@,
                pow(p, e),
            ) by {
                assert(has_power(out@, pow(p, e)));
            }
            if out@.len() > 0 {
                let c = out@[0];
                assert(states_power(c) && c.power <= 1);
                lemma_pow_step(c.prime as int, c.exponent as nat);
                lemma_pow_positive(c.prime as int, (c.exponent - 1) as nat);
                let b = pow(c.prime as int, (c.exponent - 1) as nat);
                assert(c.prime * b >= 2) by (nonlinear_arith)
                    requires
                        c.prime >= 2,
                        b >= 1,
                ;
            }
        }
    }
    out
}

/// There is one list of the prime powers up to a limit.
pub proof fn law_prime_powers_are_one_list(
    a: Seq<PrimePowerContent>,
    b: Seq<PrimePowerContent>,
    limit: int,
)
    requires
        lists_prime_powers(a, limit),
        lists_prime_powers(b, limit),
    ensures
        a == b,
{
    lemma_same_prefix(a, b, limit, a.len());
    lemma_same_prefix(b, a, limit, b.len());
    assert(a =~= b);
}

/// Two entries with one power are the same.
proof fn lemma_one_entry(a: PrimePowerContent, b: PrimePowerContent)
    requires
        states_power(a),
        states_power(b),
        a.power == b.power,
    ensures
        a == b,
{
    let p = a.prime as int;
    let q = b.prime as int;
    let e = a.exponent as nat;
    let f = b.exponent as nat;
    lemma_pow_step(p, e);
    let c = pow(p, (e - 1) as nat);
    assert(p * c == c * p) by (nonlinear_arith);
    lemma_mod_multiples_basic(c, p);
    assert(pow(q, f) % p == 0);
    lemma_divides_power(p, q, f);
    if e < f {
        lemma_pow_strictly_increases(p as nat, e, f);
    } else if f < e {
        lemma_pow_strictly_increases(p as nat, f, e);
    }
}

proof fn lemma_same_prefix(a: Seq<PrimePowerContent>, b: Seq<PrimePowerContent>, limit: int, n: nat)
    requires
        lists_prime_powers(a, limit),
        lists_prime_powers(b, limit),
        n <= a.len(),
    ensures
        n <= b.len(),
        forall|i: int| 0 <= i < n ==> a[i] == b[i],
    decreases n,
{
    if n > 0 {
        let m = n - 1;
        lemma_same_prefix(a, b, limit, m as nat);
        let x = a[m];
        assert(has_power(b, pow(x.prime as int, x.exponent as nat)));
        let j = choose|j: int| 0 <= j < b.len() && (#[trigger] b[j]).power == x.power;
        if j < m {
            assert(a[j] == b[j]);
            assert(a[j].power < a[m].power);
        }
        assert(m <= j);
        let y = b[m];
        assert(has_power(a, pow(y.prime as int, y.exponent as nat)));
        let k = choose|k: int| 0 <= k < a.len() && (#[trigger] a[k]).power == y.power;
        if k < m {
            assert(a[k] == b[k]);
            assert(b[k].power < b[m].power);
        }
        if m < j {
            assert(b[m].power < b[j].power);
            assert(k < m || k >= m);
            if k > m {
                assert(a[m].power < a[k].power);
            }
            assert(false);
        }
        lemma_one_entry(x, y);
    }
}

} // verus!
