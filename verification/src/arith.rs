//! Word-sized modular arithmetic: add, subtract, multiply, negate,
//! exponentiate and invert residues under a shared modulus, with exact
//! contracts over `int`/`nat`.

use vstd::prelude::*;
use vstd::arithmetic::div_mod::{
    lemma_fundamental_div_mod, lemma_fundamental_div_mod_converse, lemma_mod_bound,
    lemma_mul_mod_noop_general, lemma_small_mod,
};
use vstd::arithmetic::mul::lemma_mul_is_commutative;
use vstd::arithmetic::power::{lemma_pow_adds, lemma_pow1, pow};

verus! {

/// A number is prime when it is at least 2 and has no divisor strictly
/// between 1 and itself.
pub open spec fn is_prime(p: nat) -> bool {
    p >= 2 && forall|d: nat| 2 <= d < p ==> #[trigger] (p % d) != 0
}

/// Euclid's greatest common divisor.
pub open spec fn gcd(a: nat, b: nat) -> nat
    decreases b,
{
    if b == 0 {
        a
    } else {
        gcd(b, a % b)
    }
}

/// `pow(b, e) % m`, the reference semantics of modular exponentiation.
pub open spec fn pow_mod(b: nat, e: nat, m: nat) -> int
    recommends
        m > 0,
{
    pow(b as int, e) % (m as int)
}

/// Modular addition of two residues.
pub fn mod_add(a: u64, b: u64, m: u64) -> (r: u64)
    requires
        m > 1,
        a < m,
        b < m,
    ensures
        r == (a + b) % (m as int),
        r < m,
{
    if a >= m - b {
        proof {
            lemma_fundamental_div_mod_converse(a + b, m as int, 1, (a + b) - m);
        }
        a - (m - b)
    } else {
        proof {
            lemma_small_mod((a + b) as nat, m as nat);
        }
        a + b
    }
}

/// Modular subtraction of two residues.
pub fn mod_sub(a: u64, b: u64, m: u64) -> (r: u64)
    requires
        m > 1,
        a < m,
        b < m,
    ensures
        r == (a - b) % (m as int),
        r < m,
{
    if a >= b {
        proof {
            lemma_small_mod((a - b) as nat, m as nat);
        }
        a - b
    } else {
        proof {
            lemma_fundamental_div_mod_converse(a - b, m as int, -1, a - b + m);
        }
        a + (m - b)
    }
}

/// Modular negation of a residue.
pub fn mod_neg(a: u64, m: u64) -> (r: u64)
    requires
        m > 1,
        a < m,
    ensures
        r == (0 - a) % (m as int),
        r < m,
        a != 0 ==> r == m - a,
        a == 0 ==> r == 0,
{
    if a == 0 {
        0
    } else {
        proof {
            lemma_fundamental_div_mod_converse(0 - a, m as int, -1, m - a);
        }
        m - a
    }
}

/// Modular multiplication of two residues, through a double-width product.
pub fn mod_mul(a: u64, b: u64, m: u64) -> (r: u64)
    requires
        m > 1,
        a < m,
        b < m,
    ensures
        r == (a * b) % (m as int),
        r < m,
{
    proof {
        assert((a as int) * (b as int) < 0x1_0000_0000_0000_0000_0000_0000_0000_0000)
            by (nonlinear_arith)
            requires
                0 <= (a as int) && (a as int) < 0x1_0000_0000_0000_0000,
                0 <= (b as int) && (b as int) < 0x1_0000_0000_0000_0000,
        ;
    }
    let p: u128 = (a as u128) * (b as u128);
    let r: u128 = p % (m as u128);
    proof {
        lemma_mod_bound(p as int, m as int);
    }
    r as u64
}

/// Modular exponentiation by repeated squaring.
pub fn mod_pow(base: u64, exp: u64, m: u64) -> (r: u64)
    requires
        m > 1,
        base < m,
    ensures
        r == pow_mod(base as nat, exp as nat, m as nat),
        r < m,
    decreases exp,
{
    let ghost b = base as int;
    let ghost mi = m as int;
    if exp == 0 {
        proof {
            vstd::arithmetic::power::lemma_pow0(b);
            lemma_small_mod(1, m as nat);
        }
        1
    } else {
        let sq = mod_mul(base, base, m);
        let half = mod_pow(sq, exp / 2, m);
        let ghost e2 = (exp / 2) as nat;
        proof {
            vstd::arithmetic::power::lemma_pow_mod_noop(b * b, e2, mi);
            vstd::arithmetic::power::lemma_pow_distributes(b, b, e2);
            assert(half == pow(b, e2) * pow(b, e2) % mi);
            lemma_pow_adds(b, e2, e2);
            assert(half == pow(b, (e2 + e2) as nat) % mi);
        }
        if exp % 2 == 0 {
            proof {
                assert(e2 + e2 == exp as nat);
            }
            half
        } else {
            let r = mod_mul(half, base, m);
            proof {
                lemma_mul_mod_noop_general(pow(b, (e2 + e2) as nat), b, mi);
                lemma_pow1(b);
                lemma_pow_adds(b, (e2 + e2) as nat, 1);
                assert(e2 + e2 + 1 == exp as nat);
                assert(r == pow(b, exp as nat) % mi);
            }
            r
        }
    }
}

/// gcd divides both of its arguments, and is positive unless both are zero.
proof fn lemma_gcd_divides(a: nat, b: nat)
    ensures
        gcd(a, b) > 0 ==> (a as int) % (gcd(a, b) as int) == 0 && (b as int) % (gcd(a, b) as int) == 0,
        a > 0 || b > 0 ==> gcd(a, b) > 0,
    decreases b,
{
    if b == 0 {
        if a > 0 {
            vstd::arithmetic::div_mod::lemma_mod_self_0(a as int);
            lemma_small_mod(0, a);
        }
    } else {
        lemma_gcd_divides(b, a % b);
        let g = gcd(b, (a % b) as nat);
        lemma_mod_bound(a as int, b as int);
        if g > 0 {
            lemma_fundamental_div_mod(a as int, b as int);
            let q = a as int / b as int;
            let rr = (a % b) as int;
            lemma_multiple_of_divisor(q, b as int, g as int);
            vstd::arithmetic::div_mod::lemma_add_mod_noop(q * (b as int), rr, g as int);
            lemma_small_mod(0, g);
            assert(a == q * (b as int) + rr) by (nonlinear_arith)
                requires
                    a as int == (b as int) * q + rr,
            ;
            assert((a as int) % (g as int) == 0);
        }
    }
}

/// If `g` divides `v` then `g` divides `q * v`.
proof fn lemma_multiple_of_divisor(q: int, v: int, g: int)
    requires
        g > 0,
        v % g == 0,
    ensures
        (q * v) % g == 0,
{
    lemma_fundamental_div_mod(v, g);
    let k = v / g;
    assert(q * v == (q * k) * g) by (nonlinear_arith)
        requires
            v == g * k,
    ;
    vstd::arithmetic::div_mod::lemma_mod_multiples_basic(q * k, g);
}

/// A positive divisor of a positive number is no greater than it.
proof fn lemma_divisor_le(a: nat, g: nat)
    requires
        g > 0,
        a > 0,
        (a as int) % (g as int) == 0,
    ensures
        g <= a,
{
    if g > a {
        lemma_small_mod(a, g);
    }
}

/// For a prime modulus, every nonzero residue is coprime to it.
pub proof fn lemma_prime_coprime(a: nat, m: nat)
    requires
        is_prime(m),
        0 < a < m,
    ensures
        gcd(a, m) == 1,
{
    let g = gcd(a, m);
    lemma_gcd_divides(a, m);
    lemma_divisor_le(a, g);
    if g != 1 {
        assert(2 <= g < m);
        assert(m % g != 0);
        assert((m as int) % (g as int) == 0);
    }
}

/// Two numbers with the same residue differ by a multiple of the modulus.
pub proof fn lemma_mod_diff_zero(x: int, y: int, m: int)
    requires
        m > 0,
        x % m == y % m,
    ensures
        (x - y) % m == 0,
{
    lemma_fundamental_div_mod(x, m);
    lemma_fundamental_div_mod(y, m);
    let qx = x / m;
    let qy = y / m;
    assert(x - y == (qx - qy) * m) by (nonlinear_arith)
        requires
            x == m * qx + x % m,
            y == m * qy + y % m,
            x % m == y % m,
    ;
    vstd::arithmetic::div_mod::lemma_mod_multiples_basic(qx - qy, m);
}

/// The sum of two multiples of `m` is a multiple of `m`.
proof fn lemma_sum_of_multiples(x: int, y: int, m: int)
    requires
        m > 0,
        x % m == 0,
        y % m == 0,
    ensures
        (x + y) % m == 0,
{
    vstd::arithmetic::div_mod::lemma_add_mod_noop(x, y, m);
    lemma_small_mod(0, m as nat);
}

/// `(old_s - q * s) % m`, the Bezout coefficient for the next remainder,
/// kept as a canonical residue.
fn euclid_coefficient_step(old_s: u64, q: u64, s: u64, m: u64) -> (r: u64)
    requires
        m > 1,
        old_s < m,
        s < m,
    ensures
        r < m,
        (r - (old_s - q * s)) % (m as int) == 0,
{
    let qm: u64 = q % m;
    let prod: u64 = mod_mul(qm, s, m);
    let r: u64 = mod_sub(old_s, prod, m);
    proof {
        let mi = m as int;
        // prod == q*s (mod m), r == old_s - prod (mod m).
        assert(prod == (q * s) % mi) by {
            lemma_mul_mod_noop_general(q as int, s as int, mi);
            lemma_mod_bound(q as int, mi);
            lemma_small_mod((q as int % mi) as nat, m as nat);
            lemma_mul_mod_noop_general(qm as int, s as int, mi);
        }
        assert((r - (old_s - prod)) % mi == 0) by {
            lemma_small_mod(r as nat, m as nat);
            lemma_mod_diff_zero(r as int, old_s - prod, mi);
        }
        assert((((q * s) - prod) as int) % mi == 0) by {
            lemma_small_mod(prod as nat, m as nat);
            lemma_mod_diff_zero((q * s) as int, prod as int, mi);
        }
        lemma_sum_of_multiples(r - (old_s - prod), (q * s) - prod, mi);
        assert(r - (old_s - q * s) == (r - (old_s - prod)) + ((q * s) - prod));
    }
    r
}

/// One step of the extended Euclid invariant: the new coefficient still
/// represents the new remainder as a linear combination of `a` modulo `m`.
proof fn lemma_linear_comb_step(
    a: int,
    m: int,
    old_s: int,
    s: int,
    old_r: int,
    rr: int,
    q: int,
    new_s: int,
)
    requires
        m > 1,
        (old_s * a - old_r) % m == 0,
        (s * a - rr) % m == 0,
        (new_s - (old_s - q * s)) % m == 0,
    ensures
        (new_s * a - (old_r - q * rr)) % m == 0,
{
    let u = old_s * a - old_r;
    let v = s * a - rr;
    assert((-(q * v)) % m == 0) by {
        lemma_multiple_of_divisor(-q, v, m);
        assert(-(q * v) == (-q) * v) by (nonlinear_arith);
    }
    assert(((old_s - q * s) * a - (old_r - q * rr)) == u + (-(q * v))) by (nonlinear_arith)
        requires
            u == old_s * a - old_r,
            v == s * a - rr,
    ;
    lemma_sum_of_multiples(u, -(q * v), m);
    let w = new_s - (old_s - q * s);
    assert(new_s * a == w * a + (old_s - q * s) * a) by (nonlinear_arith)
        requires
            w == new_s - (old_s - q * s),
    ;
    assert((w * a) % m == 0) by {
        lemma_multiple_of_divisor(a, w, m);
        assert(w * a == a * w) by (nonlinear_arith);
    }
    lemma_sum_of_multiples(w * a, u + (-(q * v)), m);
    assert(new_s * a - (old_r - q * rr) == w * a + (u + (-(q * v))));
}

/// From `s*a == 1 (mod m)` and `inv == s (mod m)` conclude `a*inv % m == 1`.
proof fn lemma_congruence_to_product(a: int, m: int, s: int, inv: int)
    requires
        m > 1,
        0 <= a < m,
        0 <= inv < m,
        (s * a - 1) % m == 0,
        (inv - s) % m == 0,
    ensures
        (a * inv) % m == 1,
{
    assert(((inv - s) * a) % m == 0) by {
        lemma_multiple_of_divisor(a, inv - s, m);
        assert((inv - s) * a == a * (inv - s)) by (nonlinear_arith);
    }
    assert((inv - s) * a == inv * a - s * a) by (nonlinear_arith);
    lemma_sum_of_multiples((inv - s) * a, s * a - 1, m);
    assert((inv * a - 1) % m == 0) by {
        assert(inv * a - 1 == (inv - s) * a + (s * a - 1));
    }
    lemma_fundamental_div_mod(inv * a - 1, m);
    let q = (inv * a - 1) / m;
    assert(inv * a == q * m + 1);
    lemma_fundamental_div_mod_converse(inv * a, m, q, 1);
    lemma_mul_is_commutative(a, inv);
}

/// Extended Euclidean algorithm: the modular inverse of `a` under `m`,
/// or `None` exactly when `a` and `m` share a factor.
pub fn mod_inv(a: u64, m: u64) -> (r: Option<u64>)
    requires
        m > 1,
        a < m,
    ensures
        r is Some ==> (a as int * r.unwrap() as int) % (m as int) == 1 && r.unwrap() < m,
        r is Some <==> gcd(a as nat, m as nat) == 1,
{
    let mut old_r: u64 = a;
    let mut rr: u64 = m;
    let mut old_s: u64 = 1;
    let mut s: u64 = 0;

    proof {
        lemma_small_mod(0, m as nat);
        vstd::arithmetic::div_mod::lemma_mod_multiples_basic(-1, m as int);
        assert((1 * a - a) % (m as int) == 0);
        assert((0 * (a as int) - m) % (m as int) == 0) by {
            assert(0 * (a as int) - m == (-1) * (m as int));
        }
    }

    while rr != 0
        invariant
            m > 1,
            a < m,
            old_r <= m,
            rr <= m,
            gcd(old_r as nat, rr as nat) == gcd(a as nat, m as nat),
            (old_s * a - old_r) % (m as int) == 0,
            (s * a - rr) % (m as int) == 0,
            old_s < m,
            s < m,
        decreases rr,
    {
        let q: u64 = old_r / rr;
        let new_r: u64 = old_r % rr;
        let new_s: u64 = euclid_coefficient_step(old_s, q, s, m);
        proof {
            lemma_mod_bound(old_r as int, rr as int);
            lemma_fundamental_div_mod(old_r as int, rr as int);
            assert(new_r == old_r - q * rr);
            lemma_linear_comb_step(a as int, m as int, old_s as int, s as int, old_r as int,
                rr as int, q as int, new_s as int);
            assert(gcd(old_r as nat, rr as nat) == gcd(rr as nat, (old_r % rr) as nat));
        }
        old_r = rr;
        rr = new_r;
        old_s = s;
        s = new_s;
    }
    assert(gcd(old_r as nat, 0) == old_r);
    if old_r == 1 {
        proof {
            lemma_small_mod(0, m as nat);
            lemma_congruence_to_product(a as int, m as int, old_s as int, old_s as int);
        }
        Some(old_s)
    } else {
        None
    }
}

/// A divisor of an odd number is odd.
proof fn lemma_divisor_of_odd_is_odd(a: nat, g: nat)
    requires
        g >= 1,
        a % 2 == 1,
        (a as int) % (g as int) == 0,
    ensures
        g % 2 == 1,
{
    lemma_fundamental_div_mod(a as int, g as int);
    let m = a as int / g as int;
    if g % 2 == 0 {
        assert(a as int == g * m);
        lemma_mul_mod_noop_general(g as int, m, 2);
        assert((g as int) % 2 == 0);
        assert(((g as int) * m) % 2 == 0) by {
            assert((0 * (m % 2)) % 2 == 0) by (nonlinear_arith);
        }
    }
}

/// An odd divisor of a power of two is one.
proof fn lemma_odd_divisor_of_pow2(g: nat, n: nat)
    requires
        g >= 1,
        g % 2 == 1,
        crate::utils::is_power_of_two(n),
        (n as int) % (g as int) == 0,
    ensures
        g == 1,
    decreases n,
{
    if n == 1 {
        lemma_divisor_le(1, g);
    } else {
        // n is even; n == g * m with m even, so n / 2 == g * (m / 2).
        lemma_fundamental_div_mod(n as int, g as int);
        let m = n as int / g as int;
        assert(n as int == g * m);
        assert(m % 2 == 0) by {
            if m % 2 == 1 {
                lemma_mul_mod_noop_general(g as int, m, 2);
                assert(((g as int) % 2 * (m % 2)) % 2 == 1) by (nonlinear_arith)
                    requires
                        (g as int) % 2 == 1,
                        m % 2 == 1,
                ;
                assert((n as int) % 2 == 1);
            } else {
                lemma_mod_bound(m, 2);
            }
        }
        lemma_fundamental_div_mod(m, 2);
        let m2 = m / 2;
        assert(m == 2 * m2);
        assert((n as int) / 2 == g * m2) by (nonlinear_arith)
            requires
                n as int == g * m,
                m == 2 * m2,
                n % 2 == 0,
                n as int == 2 * ((n as int) / 2) + (n as int) % 2,
        ;
        assert(((n / 2) as int) % (g as int) == 0) by {
            vstd::arithmetic::div_mod::lemma_mod_multiples_basic(m2, g as int);
            assert(g * m2 == m2 * (g as int)) by (nonlinear_arith);
        }
        lemma_odd_divisor_of_pow2(g, n / 2);
    }
}

/// A power of two reduced by an odd modulus stays coprime to it.
pub proof fn lemma_pow2_mod_coprime(n: nat, q: nat)
    requires
        crate::utils::is_power_of_two(n),
        q % 2 == 1,
        q > 1,
    ensures
        gcd(n % q, q) == 1,
{
    let m0 = n % q;
    let g = gcd(m0, q);
    lemma_gcd_divides(m0, q);
    assert(g > 0);
    lemma_divisor_of_odd_is_odd(q, g);
    // g divides the remainder and the modulus, so it divides n itself.
    lemma_mod_bound(n as int, q as int);
    lemma_fundamental_div_mod(n as int, q as int);
    let t = n as int / q as int;
    lemma_multiple_of_divisor(t, q as int, g as int);
    vstd::arithmetic::div_mod::lemma_add_mod_noop(t * (q as int), m0 as int, g as int);
    lemma_small_mod(0, g);
    assert(n as int == t * (q as int) + m0) by (nonlinear_arith)
        requires
            n as int == (q as int) * t + m0,
    ;
    assert((n as int) % (g as int) == 0);
    lemma_odd_divisor_of_pow2(g, n);
}

/// An odd number is coprime to every power of two.
pub proof fn lemma_odd_coprime_pow2(a: nat, n: nat)
    requires
        a % 2 == 1,
        crate::utils::is_power_of_two(n),
    ensures
        gcd(a, n) == 1,
{
    let g = gcd(a, n);
    lemma_gcd_divides(a, n);
    lemma_divisor_of_odd_is_odd(a, g);
    lemma_odd_divisor_of_pow2(g, n);
}

/// Multiplying by a scalar's inverse and then by the scalar restores the
/// value: `w == v*inv % m` and `rhs*inv == 1 (mod m)` give `w*rhs == v (mod m)`.
pub proof fn lemma_div_scalar_cancels(v: int, inv: int, rhs: int, w: int, m: int)
    requires
        m > 1,
        0 <= v < m,
        0 <= inv < m,
        0 <= rhs < m,
        (rhs * inv) % m == 1,
        w == (v * inv) % m,
    ensures
        (w * rhs) % m == v % m,
{
    lemma_mul_mod_noop_general(v * inv, rhs, m);
    assert((w * rhs) % m == ((v * inv) * rhs) % m);
    assert((v * inv) * rhs == v * (inv * rhs)) by (nonlinear_arith);
    assert(inv * rhs == rhs * inv) by (nonlinear_arith);
    lemma_mul_mod_noop_general(v, inv * rhs, m);
    assert((v * ((inv * rhs) % m)) % m == (v * (inv * rhs)) % m);
    assert(v * 1 == v) by (nonlinear_arith);
}

/// Every odd number has a multiplicative inverse modulo a power of two,
/// built by lifting an inverse from half the modulus.
pub proof fn lemma_odd_inverse_exists_pow2(k: nat, n: nat)
    requires
        k % 2 == 1,
        crate::utils::is_power_of_two(n),
    ensures
        exists|x: nat| x < n && #[trigger] ((k * x) % n) == 1nat % n,
    decreases n,
{
    if n == 1 {
        assert((k * 0) % 1 == 1nat % 1) by {
            assert(k * 0 == 0) by (nonlinear_arith);
            lemma_mod_bound(0, 1);
            lemma_mod_bound(1, 1);
        }
        assert(0 < n && ((k * 0) % n) == 1nat % n);
    } else if n == 2 {
        assert((k * 1) % 2 == 1nat % 2) by {
            assert(k * 1 == k) by (nonlinear_arith);
            lemma_small_mod(1, 2);
        }
        assert(1 < n && ((k * 1) % n) == 1nat % n);
    } else {
        let h = n / 2;
        assert(n == 2 * h && crate::utils::is_power_of_two(h) && h >= 2);
        lemma_odd_inverse_exists_pow2(k, h);
        let x0 = choose|x: nat| x < h && #[trigger] ((k * x) % h) == 1nat % h;
        assert((k * x0) % h == 1) by {
            lemma_small_mod(1, h);
        }
        lemma_fundamental_div_mod((k * x0) as int, h as int);
        let m = (k * x0) as int / h as int;
        assert(k * x0 == h * m + 1);
        assert(m >= 0) by (nonlinear_arith)
            requires
                k * x0 == h * m + 1,
                h >= 2,
                k * x0 >= 0,
        ;
        if m % 2 == 0 {
            // k*x0 == 1 + n*(m/2), so x0 already inverts k modulo n.
            lemma_fundamental_div_mod(m, 2);
            let m2 = m / 2;
            assert((k * x0) as int == (n as int) * m2 + 1) by (nonlinear_arith)
                requires
                    k * x0 == h * m + 1,
                    m == 2 * m2,
                    n == 2 * h,
            ;
            lemma_fundamental_div_mod_converse((k * x0) as int, n as int, m2, 1);
            assert(x0 < n && ((k * x0) % n) == 1nat % n) by {
                lemma_small_mod(1, n);
            }
        } else {
            // k*(x0 + h) == 1 + h*(m + k) with m + k even.
            let x1 = (x0 + h) as nat;
            assert(x1 < n);
            assert((m + k) % 2 == 0) by {
                lemma_fundamental_div_mod(m, 2);
                lemma_fundamental_div_mod(k as int, 2);
                let a = m / 2;
                let b = k as int / 2;
                assert(m + k == 2 * (a + b + 1)) by (nonlinear_arith)
                    requires
                        m == 2 * a + 1,
                        k as int == 2 * b + 1,
                ;
                vstd::arithmetic::div_mod::lemma_mod_multiples_basic(a + b + 1, 2);
                assert(2 * (a + b + 1) == (a + b + 1) * 2) by (nonlinear_arith);
            }
            lemma_fundamental_div_mod((m + k) as int, 2);
            let half_sum = (m + k) as int / 2;
            assert((k * x1) as int == (n as int) * half_sum + 1) by (nonlinear_arith)
                requires
                    k * x0 == h * m + 1,
                    x1 == x0 + h,
                    n == 2 * h,
                    m + k == 2 * half_sum,
            ;
            lemma_fundamental_div_mod_converse((k * x1) as int, n as int, half_sum, 1);
            assert(x1 < n && ((k * x1) % n) == 1nat % n) by {
                lemma_small_mod(1, n);
            }
        }
    }
}

/// Advancing a scaled power ladder: multiplying `(ni * w^j mod q) mod q`
/// by `w` gives `(ni * w^(j+1) mod q) mod q`.
pub proof fn lemma_mul_pow_step(ni: int, w: int, j: nat, q: int)
    requires
        q > 1,
        0 <= w,
        0 <= ni,
    ensures
        (((ni * (pow(w, j) % q)) % q) * w) % q == (ni * (pow(w, j + 1) % q)) % q,
{
    let pj = pow(w, j);
    lemma_mul_mod_noop_general(ni * (pj % q), w, q);
    assert((ni * (pj % q)) * w == ni * ((pj % q) * w)) by (nonlinear_arith);
    lemma_mul_mod_noop_general(ni, (pj % q) * w, q);
    lemma_mul_mod_noop_general(pj, w, q);
    assert(((pj % q) * w) % q == (pj * w) % q);
    assert(pj * w == pow(w, j + 1)) by {
        lemma_pow1(w);
        lemma_pow_adds(w, j, 1);
    }
    lemma_mul_mod_noop_general(ni, pj * w, q);
    lemma_mul_mod_noop_general(ni, pow(w, j + 1) % q, q);
    assert((ni * (((pj % q) * w) % q)) % q == (ni * ((pj * w) % q)) % q);
}

/// Barrett reduction: `a % m` computed with one double-width multiply by a
/// precomputed reciprocal, followed by a short correction loop.
pub fn barrett_reduce(a: u64, m: u64) -> (r: u64)
    requires
        m > 1,
    ensures
        r == a % m,
{
    let two64: u128 = 0x1_0000_0000_0000_0000;
    let mu: u128 = two64 / (m as u128);
    proof {
        vstd::arithmetic::div_mod::lemma_div_is_ordered_by_denominator(two64 as int, 2,
            m as int);
        assert((a as int) * (mu as int) < 0x8000_0000_0000_0000_0000_0000_0000_0000)
            by (nonlinear_arith)
            requires
                0 <= (a as int) && (a as int) < 0x1_0000_0000_0000_0000,
                0 <= (mu as int) && (mu as int) <= 0x8000_0000_0000_0000,
        ;
    }
    let p: u128 = (a as u128) * mu;
    let q: u128 = p >> 64;
    proof {
        let ai = a as int;
        let mi = m as int;
        let t = two64 as int;
        vstd::bits::lemma_u128_shr_is_div(p, 64);
        vstd::arithmetic::power2::lemma2_to64_rest();
        assert(q as int == (p as int) / t);
        lemma_fundamental_div_mod(t, mi);
        assert((mu as int) * mi <= t) by {
            assert(t == t / mi * mi + t % mi);
            lemma_mod_bound(t, mi);
            assert(mu == t / mi);
        }
        assert(p as int == ai * (mu as int));
        lemma_fundamental_div_mod(p as int, t);
        assert((q as int) * t <= ai * (mu as int)) by {
            lemma_mod_bound(p as int, t);
        }
        assert((q as int) * mi <= ai) by (nonlinear_arith)
            requires
                (q as int) * t <= ai * (mu as int),
                (mu as int) * mi <= t,
                0 <= ai,
                0 <= q as int,
                0 < mi,
                0 < t,
                0 <= mu as int,
        ;
    }
    let qm: u128 = q * (m as u128);
    let mut r: u64 = ((a as u128) - qm) as u64;
    proof {
        let mi = m as int;
        vstd::arithmetic::div_mod::lemma_mod_multiples_vanish(-(q as int), a as int, mi);
        assert(a as int + (-(q as int)) * mi == r as int) by {
            vstd::arithmetic::mul::lemma_mul_unary_negation(q as int, mi);
        }
    }
    while r >= m
        invariant
            m > 1,
            r as int % m as int == a as int % m as int,
        decreases r,
    {
        proof {
            vstd::arithmetic::div_mod::lemma_mod_sub_multiples_vanish(r as int, m as int);
        }
        r = r - m;
    }
    proof {
        lemma_small_mod(r as nat, m as nat);
    }
    r
}

} // verus!
