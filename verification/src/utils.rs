//! Number-theory utilities: totient, coprime enumeration, generator and
//! root-of-unity search, and prime search along an arithmetic progression.

use vstd::prelude::*;
use vstd::arithmetic::div_mod::{lemma_fundamental_div_mod, lemma_mod_bound, lemma_small_mod};
use crate::arith::{gcd, is_prime, mod_pow, pow_mod};
use crate::error::{Error, Result};
use crate::rng::random_u64_below;

verus! {

/// How many times a randomized search retries before it reports a fault:
/// exhaustion signals a parameter or generator defect, never a value.
pub const SEARCH_RETRY_LIMIT: u64 = 100_000;

/// How far the canonical root-of-unity scan reaches: below this window the
/// choice is provably the numerically smallest; beyond it the generator
/// method supplies a certified primitive root.
pub const ROOT_SCAN_LIMIT: u64 = 100_000;

/// Relies on prime_factorization::Factorization::run: `factors` holds all
/// prime factors of its input with multiplicity, so every element is a prime
/// divisor and every prime divisor occurs.
#[verifier::external_body]
fn factor_u64(n: u64) -> (r: Vec<u64>)
    requires
        n >= 2,
    ensures
        r@.len() >= 1,
        forall|i: int| 0 <= i < r@.len() ==> is_prime(#[trigger] r@[i] as nat),
        forall|i: int| 0 <= i < r@.len() ==> (n as int) % (#[trigger] r@[i] as int) == 0,
        forall|i: int| 0 <= i < r@.len() ==> 2 <= #[trigger] r@[i] <= n,
        forall|p: u64|
            is_prime(p as nat) && #[trigger] ((n as int) % (p as int)) == 0 ==> r@.contains(p),
{
    prime_factorization::Factorization::<u64>::run(n).factors
}

/// Relies on crypto_primes::is_prime: a Miller-Rabin base-2 test followed by
/// a strong Lucas test (Baillie-PSW), which has no composite passing it below
/// 2^64, so the answer is exact for this word size.
#[verifier::external_body]
fn is_prime_u64(n: u64) -> (r: bool)
    ensures
        r == is_prime(n as nat),
{
    crypto_primes::is_prime(&crypto_bigint::U64::from_u64(n))
}

/// Primality as executable code, answered by the wrapped test.
pub fn check_prime(n: u64) -> (r: bool)
    ensures
        r == is_prime(n as nat),
{
    is_prime_u64(n)
}

/// Euclid's algorithm.
pub fn gcd_u64(a: u64, b: u64) -> (r: u64)
    ensures
        r == gcd(a as nat, b as nat),
    decreases b,
{
    if b == 0 {
        a
    } else {
        proof {
            lemma_mod_bound(a as int, b as int);
        }
        gcd_u64(b, a % b)
    }
}

/// The number of integers in `[1, k)` that are coprime to `n`.
pub open spec fn coprime_count(n: nat, k: nat) -> nat
    decreases k,
{
    if k <= 1 {
        0
    } else {
        coprime_count(n, (k - 1) as nat) + if gcd((k - 1) as nat, n) == 1 {
            1nat
        } else {
            0nat
        }
    }
}

/// Euler's totient: the number of integers `m` with `1 <= m < n` that are
/// coprime to `n`.
pub open spec fn totient(n: nat) -> nat {
    coprime_count(n, n)
}

/// Compute phi of `n`: the number of integers `m` coprime to `n` with
/// `1 <= m < n`.
pub fn get_totient(n: usize) -> (r: usize)
    requires
        n <= u64::MAX,
    ensures
        r == totient(n as nat),
{
    let mut count: usize = 0;
    let mut i: usize = 1;
    while i < n
        invariant
            1 <= i,
            i <= n || (n <= 1 && i == 1),
            count == coprime_count(n as nat, i as nat),
            count < i,
            n <= u64::MAX,
        decreases n - i,
    {
        if gcd_u64(i as u64, n as u64) == 1 {
            count = count + 1;
        }
        i = i + 1;
    }
    proof {
        if n <= 1 {
            assert(coprime_count(n as nat, i as nat) == 0);
            assert(totient(n as nat) == coprime_count(n as nat, n as nat));
            assert(coprime_count(n as nat, n as nat) == 0);
        } else {
            assert(i == n);
        }
    }
    count
}

/// All integers in `[1, n)` coprime to `n`, in increasing order.
pub fn get_coprimes(n: usize) -> (r: Vec<usize>)
    requires
        n <= u64::MAX,
    ensures
        forall|i: int| 0 <= i < r@.len() ==> 1 <= #[trigger] r@[i] < n,
        forall|i: int| 0 <= i < r@.len() ==> gcd(#[trigger] r@[i] as nat, n as nat) == 1,
        forall|i: int, j: int| 0 <= i < j < r@.len() ==> r@[i] < r@[j],
        forall|m: usize| 1 <= m < n && gcd(m as nat, n as nat) == 1 ==> r@.contains(m),
{
    let mut coprimes: Vec<usize> = Vec::new();
    let mut i: usize = 1;
    while i < n
        invariant
            1 <= i,
            i <= n || (n <= 1 && i == 1),
            n <= u64::MAX,
            forall|k: int| 0 <= k < coprimes@.len() ==> 1 <= #[trigger] coprimes@[k] < i,
            forall|k: int|
                0 <= k < coprimes@.len() ==> gcd(#[trigger] coprimes@[k] as nat, n as nat) == 1,
            forall|k: int, j: int| 0 <= k < j < coprimes@.len() ==> coprimes@[k] < coprimes@[j],
            forall|m: usize| 1 <= m < i && gcd(m as nat, n as nat) == 1 ==> coprimes@.contains(m),
            n <= 1 ==> coprimes@.len() == 0,
        decreases n - i,
    {
        if gcd_u64(i as u64, n as u64) == 1 {
            let ghost prev = coprimes@;
            coprimes.push(i);
            proof {
                assert(coprimes@[prev.len() as int] == i);
                assert(forall|m: usize| prev.contains(m) ==> coprimes@.contains(m)) by {
                    assert(forall|k: int| 0 <= k < prev.len() ==> coprimes@[k] == prev[k]);
                }
            }
        }
        i = i + 1;
    }
    proof {
        if n <= 1 {
            assert(coprimes@.len() == 0);
        } else {
            assert(i == n);
        }
    }
    coprimes
}

/// Whether `n` is a power of two.
pub open spec fn is_power_of_two(n: nat) -> bool
    decreases n,
{
    if n == 0 {
        false
    } else if n == 1 {
        true
    } else {
        n % 2 == 0 && is_power_of_two(n / 2)
    }
}

/// Decide whether `n` is a power of two.
pub fn is_power_of_two_usize(n: usize) -> (r: bool)
    ensures
        r == is_power_of_two(n as nat),
{
    if n == 0 {
        return false;
    }
    let mut x: usize = n;
    while x > 1
        invariant
            x >= 1,
            is_power_of_two(n as nat) == is_power_of_two(x as nat),
        decreases x,
    {
        if x % 2 != 0 {
            return false;
        }
        x = x / 2;
    }
    true
}

/// Whether `g` generates the multiplicative group modulo `m`: the Lagrange
/// test, `g^((m-1)/p) != 1` for every prime factor `p` of `m - 1`.
pub open spec fn is_generator_spec(g: nat, m: nat) -> bool
    recommends
        m >= 3,
{
    forall|p: nat|
        is_prime(p) && #[trigger] (((m - 1) as int) % (p as int)) == 0 ==> pow_mod(
            g,
            (((m - 1) as int) / (p as int)) as nat,
            m,
        ) != 1
}

/// Run the Lagrange generator test on `g` for the group modulo `modulus`.
pub fn is_generator(g: u64, modulus: u64) -> (r: bool)
    requires
        modulus >= 3,
        g < modulus,
    ensures
        r == is_generator_spec(g as nat, modulus as nat),
{
    let qm1: u64 = modulus - 1;
    let factors = factor_u64(qm1);
    let ghost fs = factors@;
    let mut idx: usize = 0;
    while idx < factors.len()
        invariant
            modulus >= 3,
            g < modulus,
            qm1 == modulus - 1,
            fs == factors@,
            fs.len() >= 1,
            forall|i: int| 0 <= i < fs.len() ==> is_prime(#[trigger] fs[i] as nat),
            forall|i: int| 0 <= i < fs.len() ==> (qm1 as int) % (#[trigger] fs[i] as int) == 0,
            forall|i: int| 0 <= i < fs.len() ==> 2 <= #[trigger] fs[i] <= qm1,
            forall|p: u64|
                is_prime(p as nat) && #[trigger] ((qm1 as int) % (p as int)) == 0 ==> fs.contains(
                    p,
                ),
            idx <= fs.len(),
            forall|i: int|
                0 <= i < idx ==> pow_mod(
                    g as nat,
                    ((qm1 as int) / (#[trigger] fs[i] as int)) as nat,
                    modulus as nat,
                ) != 1,
        decreases fs.len() - idx,
    {
        let p: u64 = factors[idx];
        let exponent: u64 = qm1 / p;
        let power = mod_pow(g, exponent, modulus);
        if power == 1 {
            proof {
                assert(!is_generator_spec(g as nat, modulus as nat)) by {
                    let pn = fs[idx as int] as nat;
                    assert(is_prime(pn));
                    assert(((modulus - 1) as int) % (pn as int) == 0);
                    assert(pow_mod(g as nat, (((modulus - 1) as int) / (pn as int)) as nat,
                            modulus as nat) == 1);
                }
            }
            return false;
        }
        idx = idx + 1;
    }
    proof {
        assert(is_generator_spec(g as nat, modulus as nat)) by {
            assert(forall|p: nat|
                is_prime(p) && #[trigger] (((modulus - 1) as int) % (p as int)) == 0 ==> pow_mod(
                    g as nat,
                    (((modulus - 1) as int) / (p as int)) as nat,
                    modulus as nat,
                ) != 1) by {
                assert forall|p: nat|
                    is_prime(p) && #[trigger] (((modulus - 1) as int) % (p as int)) == 0 implies pow_mod(
                    g as nat,
                    (((modulus - 1) as int) / (p as int)) as nat,
                    modulus as nat,
                ) != 1 by {
                    assert(p <= qm1) by {
                        if p > qm1 {
                            lemma_small_mod(qm1 as nat, p);
                        }
                    }
                    let pu = p as u64;
                    assert(fs.contains(pu));
                    let i = choose|i: int| 0 <= i < fs.len() && fs[i] == pu;
                    assert(pow_mod(g as nat, ((qm1 as int) / (fs[i] as int)) as nat,
                            modulus as nat) != 1);
                }
            }
        }
    }
    true
}

/// Find a generator for a given prime modulus by random search with the
/// Lagrange test, up to the retry ceiling.
pub fn find_generator(modulus: u64) -> (r: Result<u64>)
    requires
        modulus >= 4,
    ensures
        r is Ok ==> is_generator_spec(r.unwrap() as nat, modulus as nat) && 1 <= r.unwrap()
            <= modulus - 2,
        r is Err ==> r == Result::<u64>::Err(Error::RetryLimitExceeded),
{
    let mut tries: u64 = 0;
    while tries < SEARCH_RETRY_LIMIT
        invariant
            modulus >= 4,
        decreases SEARCH_RETRY_LIMIT - tries,
    {
        let g: u64 = random_u64_below(modulus - 2) + 1;
        if is_generator(g, modulus) {
            return Ok(g);
        }
        tries = tries + 1;
    }
    Err(Error::RetryLimitExceeded)
}

/// Reverse of the low `bits` bits of `x`, folded in from the low end.
pub open spec fn rev_acc(x: nat, k: nat, acc: nat) -> nat
    decreases k,
{
    if k == 0 {
        acc
    } else {
        rev_acc(x / 2, (k - 1) as nat, 2 * acc + x % 2)
    }
}

/// The low `bits` bits of `n`, in reversed order.
pub open spec fn rev_bits(n: nat, bits: nat) -> nat {
    rev_acc(n, bits, 0)
}

/// The accumulator form stays below `(acc + 1) * 2^k`.
pub proof fn lemma_rev_acc_bound(x: nat, k: nat, acc: nat)
    ensures
        rev_acc(x, k, acc) < (acc + 1) * vstd::arithmetic::power2::pow2(k),
    decreases k,
{
    vstd::arithmetic::power2::lemma_pow2_pos(k);
    if k == 0 {
        assert(vstd::arithmetic::power2::pow2(0) == 1) by {
            vstd::arithmetic::power2::lemma2_to64();
        }
    } else {
        let acc2 = 2 * acc + x % 2;
        lemma_rev_acc_bound(x / 2, (k - 1) as nat, acc2);
        vstd::arithmetic::power2::lemma_pow2_unfold(k);
        assert((acc2 + 1) * vstd::arithmetic::power2::pow2((k - 1) as nat) <= (acc + 1)
            * vstd::arithmetic::power2::pow2(k)) by (nonlinear_arith)
            requires
                acc2 <= 2 * acc + 1,
                vstd::arithmetic::power2::pow2(k) == 2 * vstd::arithmetic::power2::pow2(
                    (k - 1) as nat,
                ),
                vstd::arithmetic::power2::pow2((k - 1) as nat) >= 1,
        ;
    }
}

/// Reversed bits stay below `2^bits`.
pub proof fn lemma_rev_bits_bound(n: nat, bits: nat)
    ensures
        rev_bits(n, bits) < vstd::arithmetic::power2::pow2(bits),
{
    lemma_rev_acc_bound(n, bits, 0);
    assert((0 + 1) * vstd::arithmetic::power2::pow2(bits) == vstd::arithmetic::power2::pow2(
            bits,
        )) by (nonlinear_arith);
}

/// Reverse the low `bits` bits of `n`.
pub fn reverse_bits(n: usize, bits: usize) -> (r: usize)
    requires
        bits <= usize::BITS,
    ensures
        r == rev_bits(n as nat, bits as nat),
        r < vstd::arithmetic::power2::pow2(bits as nat),
{
    let mut x: u64 = n as u64;
    let mut k: usize = bits;
    let mut acc: u64 = 0;
    proof {
        lemma_rev_bits_bound(n as nat, bits as nat);
        lemma_rev_acc_floor(n as nat, bits as nat, 0);
        vstd::arithmetic::power2::lemma2_to64();
        vstd::arithmetic::power2::lemma2_to64_rest();
        if (bits as nat) < 64 {
            vstd::arithmetic::power2::lemma_pow2_strictly_increases(bits as nat, 64);
        }
        assert(0 * vstd::arithmetic::power2::pow2(bits as nat) == 0) by (nonlinear_arith);
    }
    while k > 0
        invariant
            rev_acc(x as nat, k as nat, acc as nat) == rev_bits(n as nat, bits as nat),
            k <= bits <= 64,
            rev_acc(x as nat, k as nat, acc as nat) < vstd::arithmetic::power2::pow2(bits as nat),
            vstd::arithmetic::power2::pow2(bits as nat) <= 0x1_0000_0000_0000_0000,
            (acc as nat) * vstd::arithmetic::power2::pow2(k as nat) <= rev_acc(x as nat,
                k as nat, acc as nat),
        decreases k,
    {
        proof {
            assert(rev_acc(x as nat, k as nat, acc as nat) == rev_acc((x / 2) as nat,
                (k - 1) as nat, (2 * acc + x % 2) as nat));
            lemma_rev_acc_floor((x / 2) as nat, (k - 1) as nat, (2 * acc + x % 2) as nat);
            vstd::arithmetic::power2::lemma_pow2_pos((k - 1) as nat);
            vstd::arithmetic::power2::lemma_pow2_unfold(k as nat);
            // The new accumulator stays below the full range: its remaining
            // shifts keep it under the reversed value's bound.
            assert((2 * (acc as nat) + (x as nat) % 2) * vstd::arithmetic::power2::pow2(
                (k - 1) as nat) <= rev_acc((x / 2) as nat, (k - 1) as nat,
                (2 * acc + x % 2) as nat));
            assert(2 * (acc as nat) + (x as nat) % 2 < 0x1_0000_0000_0000_0000)
                by (nonlinear_arith)
                requires
                    (2 * (acc as nat) + (x as nat) % 2) * vstd::arithmetic::power2::pow2(
                        (k - 1) as nat) < vstd::arithmetic::power2::pow2(bits as nat),
                    vstd::arithmetic::power2::pow2(bits as nat) <= 0x1_0000_0000_0000_0000,
                    vstd::arithmetic::power2::pow2((k - 1) as nat) >= 1,
            ;
        }
        acc = 2 * acc + (x % 2);
        x = x / 2;
        k = k - 1;
    }
    proof {
        assert(acc as nat * vstd::arithmetic::power2::pow2(0) == acc as nat)
            by (nonlinear_arith)
            requires
                vstd::arithmetic::power2::pow2(0) == 1,
        ;
        // The result fits the platform word.
        assert(usize::BITS == 32 || usize::BITS == 64);
        if usize::BITS == 32 {
            if (bits as nat) < 32 {
                vstd::arithmetic::power2::lemma_pow2_strictly_increases(bits as nat, 32);
            }
        }
    }
    acc as usize
}

/// The accumulator scaled by its remaining shifts never exceeds the folded
/// value.
proof fn lemma_rev_acc_floor(x: nat, k: nat, acc: nat)
    ensures
        acc * vstd::arithmetic::power2::pow2(k) <= rev_acc(x, k, acc),
    decreases k,
{
    vstd::arithmetic::power2::lemma_pow2_pos(k);
    if k == 0 {
        assert(vstd::arithmetic::power2::pow2(0) == 1) by {
            vstd::arithmetic::power2::lemma2_to64();
        }
        assert(acc * 1 == acc) by (nonlinear_arith);
    } else {
        lemma_rev_acc_floor(x / 2, (k - 1) as nat, 2 * acc + x % 2);
        vstd::arithmetic::power2::lemma_pow2_unfold(k);
        assert(acc * vstd::arithmetic::power2::pow2(k) <= (2 * acc + x % 2)
            * vstd::arithmetic::power2::pow2((k - 1) as nat)) by (nonlinear_arith)
            requires
                vstd::arithmetic::power2::pow2(k) == 2 * vstd::arithmetic::power2::pow2(
                    (k - 1) as nat,
                ),
                vstd::arithmetic::power2::pow2((k - 1) as nat) >= 1,
        ;
    }
}

/// The accumulator never decreases as bits are folded in.
proof fn lemma_rev_acc_le(x: nat, k: nat, acc: nat)
    ensures
        acc <= rev_acc(x, k, acc),
    decreases k,
{
    if k > 0 {
        lemma_rev_acc_le(x / 2, (k - 1) as nat, 2 * acc + x % 2);
    }
}

/// Folding with an accumulator splits into the shifted accumulator plus the
/// plain fold.
proof fn lemma_rev_acc_shift(x: nat, k: nat, acc: nat)
    ensures
        rev_acc(x, k, acc) == acc * vstd::arithmetic::power2::pow2(k) + rev_acc(x, k, 0),
    decreases k,
{
    vstd::arithmetic::power2::lemma_pow2_pos(k);
    if k == 0 {
        vstd::arithmetic::power2::lemma2_to64();
        assert(acc * 1 == acc) by (nonlinear_arith);
    } else {
        lemma_rev_acc_shift(x / 2, (k - 1) as nat, 2 * acc + x % 2);
        lemma_rev_acc_shift(x / 2, (k - 1) as nat, x % 2);
        vstd::arithmetic::power2::lemma_pow2_unfold(k);
        assert(rev_acc(x, k, acc) == rev_acc(x / 2, (k - 1) as nat, 2 * acc + x % 2));
        assert(rev_acc(x, k, 0) == rev_acc(x / 2, (k - 1) as nat, x % 2)) by {
            assert(2 * 0 + x % 2 == x % 2);
        }
        assert((2 * acc + x % 2) * vstd::arithmetic::power2::pow2((k - 1) as nat) == acc
            * vstd::arithmetic::power2::pow2(k) + (x % 2) * vstd::arithmetic::power2::pow2(
            (k - 1) as nat)) by (nonlinear_arith)
            requires
                vstd::arithmetic::power2::pow2(k) == 2 * vstd::arithmetic::power2::pow2(
                    (k - 1) as nat,
                ),
        ;
    }
}

/// Reversal peels the lowest bit into the highest place: the low bit is
/// scaled to the top and the rest reverses one level down.
proof fn lemma_rev_bits_low(n: nat, b: nat)
    requires
        b >= 1,
    ensures
        rev_bits(n, b) == (n % 2) * vstd::arithmetic::power2::pow2((b - 1) as nat) + rev_bits(
            n / 2,
            (b - 1) as nat,
        ),
{
    assert(rev_acc(n, b, 0) == rev_acc(n / 2, (b - 1) as nat, n % 2)) by {
        assert(2 * 0 + n % 2 == n % 2);
    }
    lemma_rev_acc_shift(n / 2, (b - 1) as nat, n % 2);
}

/// Reversal moves the highest place to the lowest bit: a top bit becomes
/// the unit and the rest reverses one level down, doubled.
proof fn lemma_rev_bits_high(lo: nat, h: nat, b: nat)
    requires
        b >= 1,
        h <= 1,
        lo < vstd::arithmetic::power2::pow2((b - 1) as nat),
    ensures
        rev_bits(h * vstd::arithmetic::power2::pow2((b - 1) as nat) + lo, b) == 2 * rev_bits(
            lo,
            (b - 1) as nat,
        ) + h,
    decreases b,
{
    let v = h * vstd::arithmetic::power2::pow2((b - 1) as nat) + lo;
    vstd::arithmetic::power2::lemma_pow2_pos((b - 1) as nat);
    if b == 1 {
        vstd::arithmetic::power2::lemma2_to64();
        assert(lo == 0);
        assert(v == h) by (nonlinear_arith)
            requires
                v == h * 1 + lo,
                lo == 0,
        ;
        assert(rev_bits(v, 1) == rev_acc(v / 2, 0, v % 2)) by {
            assert(2 * 0 + v % 2 == v % 2);
        }
        vstd::arithmetic::div_mod::lemma_small_mod(h, 2);
        vstd::arithmetic::div_mod::lemma_basic_div(h as int, 2);
        assert(rev_acc(v / 2, 0, v % 2) == v % 2);
        assert(rev_bits(v, 1) == h);
        assert(rev_bits(lo, 0) == 0);
        assert(2 * rev_bits(lo, 0) + h == h);
    } else {
        vstd::arithmetic::power2::lemma_pow2_unfold((b - 1) as nat);
        let half = vstd::arithmetic::power2::pow2((b - 2) as nat);
        vstd::arithmetic::power2::lemma_pow2_pos((b - 2) as nat);
        // v splits as 2*(h*2^(b-2) + lo/2) + lo%2.
        vstd::arithmetic::div_mod::lemma_fundamental_div_mod(lo as int, 2);
        assert(v == 2 * (h * half + lo / 2) + lo % 2) by (nonlinear_arith)
            requires
                v == h * (2 * half) + lo,
                lo == 2 * (lo / 2) + lo % 2,
        ;
        assert(v % 2 == lo % 2 && v / 2 == h * half + lo / 2) by {
            vstd::arithmetic::div_mod::lemma_mod_bound(lo as int, 2);
            vstd::arithmetic::div_mod::lemma_fundamental_div_mod_converse(v as int, 2,
                (h * half + lo / 2) as int, (lo % 2) as int);
        }
        assert(rev_bits(v, b) == rev_acc(v / 2, (b - 1) as nat, v % 2)) by {
            assert(2 * 0 + v % 2 == v % 2);
        }
        lemma_rev_acc_shift(v / 2, (b - 1) as nat, v % 2);
        assert(rev_bits(v, b) == (lo % 2) * vstd::arithmetic::power2::pow2((b - 1) as nat)
            + rev_bits(v / 2, (b - 1) as nat));
        assert(lo / 2 < half) by (nonlinear_arith)
            requires
                lo < 2 * half,
                lo == 2 * (lo / 2) + lo % 2,
                0 <= lo % 2 && lo % 2 < 2,
        ;
        lemma_rev_bits_high(lo / 2, h, (b - 1) as nat);
        assert(rev_bits(v / 2, (b - 1) as nat) == 2 * rev_bits(lo / 2, (b - 2) as nat) + h);
        lemma_rev_bits_low(lo, (b - 1) as nat);
        assert(rev_bits(lo, (b - 1) as nat) == (lo % 2) * half + rev_bits(lo / 2,
            (b - 2) as nat));
        assert(2 * ((lo % 2) * half) == (lo % 2) * vstd::arithmetic::power2::pow2(
            (b - 1) as nat)) by (nonlinear_arith)
            requires
                vstd::arithmetic::power2::pow2((b - 1) as nat) == 2 * half,
        ;
    }
}

/// Reversing the low `bits` bits twice restores the value: bit reversal is
/// an involution on `[0, 2^bits)`.
pub proof fn lemma_rev_bits_involution(n: nat, b: nat)
    requires
        n < vstd::arithmetic::power2::pow2(b),
    ensures
        rev_bits(rev_bits(n, b), b) == n,
    decreases b,
{
    if b == 0 {
        vstd::arithmetic::power2::lemma2_to64();
        assert(n == 0);
    } else {
        vstd::arithmetic::power2::lemma_pow2_unfold(b);
        vstd::arithmetic::power2::lemma_pow2_pos((b - 1) as nat);
        vstd::arithmetic::div_mod::lemma_fundamental_div_mod(n as int, 2);
        assert(n / 2 < vstd::arithmetic::power2::pow2((b - 1) as nat)) by (nonlinear_arith)
            requires
                n < 2 * vstd::arithmetic::power2::pow2((b - 1) as nat),
                n == 2 * (n / 2) + n % 2,
                0 <= n % 2 && n % 2 < 2,
        ;
        lemma_rev_bits_involution(n / 2, (b - 1) as nat);
        lemma_rev_bits_low(n, b);
        lemma_rev_bits_bound(n / 2, (b - 1) as nat);
        vstd::arithmetic::div_mod::lemma_mod_bound(n as int, 2);
        lemma_rev_bits_high(rev_bits(n / 2, (b - 1) as nat), n % 2, b);
    }
}

/// No multiple of `step` (offset from `start`) lies strictly between two
/// consecutive ones.
proof fn lemma_multiple_gap(start: int, n: int, x: int, step: int)
    requires
        step > 0,
        (n - start) % step == 0,
        n < x < n + step,
    ensures
        (x - start) % step != 0,
{
    if (x - start) % step == 0 {
        lemma_fundamental_div_mod(x - start, step);
        lemma_fundamental_div_mod(n - start, step);
        let qx = (x - start) / step;
        let qn = (n - start) / step;
        assert(x - n == (qx - qn) * step) by (nonlinear_arith)
            requires
                x - start == step * qx,
                n - start == step * qn,
        ;
        assert(qx - qn >= 1 ==> x - n >= step) by (nonlinear_arith)
            requires
                x - n == (qx - qn) * step,
                step > 0,
        ;
        assert(qx - qn <= 0 ==> x - n <= 0) by (nonlinear_arith)
            requires
                x - n == (qx - qn) * step,
                step > 0,
        ;
    }
}

/// The next prime above `start` in the progression `start + k * step`,
/// `step` being the cyclotomic order.
pub fn next_prime(start: u64, cyclotomic_order: usize) -> (r: Result<u64>)
    requires
        1 <= cyclotomic_order <= u64::MAX,
    ensures
        r is Ok ==> is_prime(r.unwrap() as nat) && r.unwrap() > start && ((r.unwrap()
            - start) as int) % (cyclotomic_order as int) == 0,
        r is Ok ==> forall|x: int|
            start < x < r.unwrap() && #[trigger] ((x - start) % (cyclotomic_order as int)) == 0
                ==> !is_prime(x as nat),
        r == Result::<u64>::Err(Error::Overflow) ==> forall|x: int|
            start < x <= u64::MAX && #[trigger] ((x - start) % (cyclotomic_order as int)) == 0
                ==> !is_prime(x as nat),
        r == Result::<u64>::Err(Error::RetryLimitExceeded) ==> forall|x: int|
            start < x <= start + SEARCH_RETRY_LIMIT * (cyclotomic_order as int) && #[trigger] ((x
                - start) % (cyclotomic_order as int)) == 0 ==> !is_prime(x as nat),
        r is Err ==> r == Result::<u64>::Err(Error::Overflow) || r == Result::<u64>::Err(
            Error::RetryLimitExceeded,
        ),
{
    let step: u64 = cyclotomic_order as u64;
    let ghost stepi = cyclotomic_order as int;
    let mut n: u64 = start;
    let mut tries: u64 = 0;
    proof {
        vstd::arithmetic::div_mod::lemma_mod_multiples_basic(0, stepi);
        assert((n - start) % stepi == 0);
        assert(0 * stepi == 0) by (nonlinear_arith);
    }
    while tries < SEARCH_RETRY_LIMIT
        invariant
            step >= 1,
            step == cyclotomic_order as u64,
            stepi == cyclotomic_order as int,
            n >= start,
            ((n - start) as int) % stepi == 0,
            n as int == start + (tries as int) * stepi,
            tries <= SEARCH_RETRY_LIMIT,
            forall|x: int|
                start < x <= n && #[trigger] ((x - start) % stepi) == 0 ==> !is_prime(x as nat),
        decreases SEARCH_RETRY_LIMIT - tries,
    {
        if n > u64::MAX - step {
            proof {
                assert forall|x: int|
                    start < x <= u64::MAX && #[trigger] ((x - start) % stepi) == 0 implies !is_prime(
                    x as nat,
                ) by {
                    if x > n {
                        lemma_multiple_gap(start as int, n as int, x, stepi);
                    }
                }
            }
            return Err(Error::Overflow);
        }
        let ghost prev = n as int;
        n = n + step;
        proof {
            lemma_step_keeps_offset(start as int, prev, stepi);
            assert forall|x: int|
                start < x < n && #[trigger] ((x - start) % stepi) == 0 implies !is_prime(x as nat) by {
                if x > prev {
                    lemma_multiple_gap(start as int, prev, x, stepi);
                }
            }
        }
        if is_prime_u64(n) {
            proof {
                assert(n > start);
                assert(((n - start) as int) % stepi == 0);
            }
            return Ok(n);
        }
        proof {
            assert forall|x: int|
                start < x <= n && #[trigger] ((x - start) % stepi) == 0 implies !is_prime(x as nat) by {
                if x > prev && x != n {
                    lemma_multiple_gap(start as int, prev, x, stepi);
                }
            }
            assert(n as int == start + ((tries + 1) as int) * stepi) by (nonlinear_arith)
                requires
                    n as int == prev + stepi,
                    prev == start + (tries as int) * stepi,
            ;
        }
        tries = tries + 1;
    }
    proof {
        assert(n as int == start + (SEARCH_RETRY_LIMIT as int) * stepi);
    }
    Err(Error::RetryLimitExceeded)
}

/// Adding one step keeps the offset a multiple of the step.
proof fn lemma_step_keeps_offset(start: int, n: int, step: int)
    requires
        step > 0,
        (n - start) % step == 0,
    ensures
        ((n + step) - start) % step == 0,
{
    vstd::arithmetic::div_mod::lemma_mod_add_multiples_vanish(n - start, step);
}

/// The nearest prime below `start` in the progression `start - k * step`,
/// `step` being the cyclotomic order.
pub fn previous_prime(start: u64, cyclotomic_order: usize) -> (r: Result<u64>)
    requires
        1 <= cyclotomic_order <= u64::MAX,
    ensures
        r is Ok ==> is_prime(r.unwrap() as nat) && r.unwrap() < start && ((start
            - r.unwrap()) as int) % (cyclotomic_order as int) == 0,
        r is Ok ==> forall|x: int|
            r.unwrap() < x < start && #[trigger] ((start - x) % (cyclotomic_order as int)) == 0
                ==> !is_prime(x as nat),
        r == Result::<u64>::Err(Error::Overflow) ==> forall|x: int|
            0 <= x < start && #[trigger] ((start - x) % (cyclotomic_order as int)) == 0
                ==> !is_prime(x as nat),
        r == Result::<u64>::Err(Error::RetryLimitExceeded) ==> forall|x: int|
            0 <= x < start && start - x <= SEARCH_RETRY_LIMIT * (cyclotomic_order as int)
                && #[trigger] ((start - x) % (cyclotomic_order as int)) == 0 ==> !is_prime(
                x as nat,
            ),
        r is Err ==> r == Result::<u64>::Err(Error::Overflow) || r == Result::<u64>::Err(
            Error::RetryLimitExceeded,
        ),
{
    let step: u64 = cyclotomic_order as u64;
    let ghost stepi = cyclotomic_order as int;
    let mut n: u64 = start;
    let mut tries: u64 = 0;
    proof {
        vstd::arithmetic::div_mod::lemma_mod_multiples_basic(0, stepi);
        assert(0 * stepi == 0) by (nonlinear_arith);
    }
    while tries < SEARCH_RETRY_LIMIT
        invariant
            step >= 1,
            step == cyclotomic_order as u64,
            stepi == cyclotomic_order as int,
            n <= start,
            ((start - n) as int) % stepi == 0,
            n as int == start - (tries as int) * stepi,
            tries <= SEARCH_RETRY_LIMIT,
            forall|x: int|
                n <= x < start && #[trigger] ((start - x) % stepi) == 0 ==> !is_prime(x as nat),
        decreases SEARCH_RETRY_LIMIT - tries,
    {
        if n < step {
            proof {
                // No multiple of the step remains at or above zero below n.
                assert forall|x: int|
                    0 <= x < start && #[trigger] ((start - x) % stepi) == 0 implies !is_prime(
                    x as nat,
                ) by {
                    if x < n {
                        lemma_no_multiple_below(start as int, n as int, x, stepi);
                    }
                }
            }
            return Err(Error::Overflow);
        }
        let ghost prev = n as int;
        n = n - step;
        proof {
            lemma_step_keeps_offset_down(start as int, prev, stepi);
            assert forall|x: int|
                n < x < start && #[trigger] ((start - x) % stepi) == 0 implies !is_prime(x as nat) by {
                if x < prev {
                    lemma_multiple_gap_down(start as int, prev, x, stepi);
                }
            }
        }
        if is_prime_u64(n) {
            proof {
                assert(n < start);
                assert(((start - n) as int) % stepi == 0);
            }
            return Ok(n);
        }
        proof {
            assert forall|x: int|
                n <= x < start && #[trigger] ((start - x) % stepi) == 0 implies !is_prime(x as nat) by {
                if x < prev && x != n {
                    lemma_multiple_gap_down(start as int, prev, x, stepi);
                }
            }
            assert(n as int == start - ((tries + 1) as int) * stepi) by (nonlinear_arith)
                requires
                    n as int == prev - stepi,
                    prev == start - (tries as int) * stepi,
            ;
        }
        tries = tries + 1;
    }
    proof {
        assert(n as int == start - (SEARCH_RETRY_LIMIT as int) * stepi);
    }
    Err(Error::RetryLimitExceeded)
}

/// A step-multiple offset below `n` lies at least one full step lower, so
/// once `n` has dropped under one step none remains nonnegative.
proof fn lemma_no_multiple_below(start: int, n: int, x: int, step: int)
    requires
        step > 0,
        0 <= n < step,
        (start - n) % step == 0,
        x < n,
        (start - x) % step == 0,
    ensures
        x <= n - step,
{
    // start - x and start - n are both multiples; their difference n - x is a
    // positive multiple of step, yet smaller than step.
    vstd::arithmetic::div_mod::lemma_fundamental_div_mod(start - x, step);
    vstd::arithmetic::div_mod::lemma_fundamental_div_mod(start - n, step);
    let qx = (start - x) / step;
    let qn = (start - n) / step;
    assert(n - x == (qx - qn) * step) by (nonlinear_arith)
        requires
            start - x == step * qx,
            start - n == step * qn,
    ;
    assert(qx - qn >= 1 ==> n - x >= step) by (nonlinear_arith)
        requires
            n - x == (qx - qn) * step,
            step > 0,
    ;
    assert(qx - qn <= 0 ==> n - x <= 0) by (nonlinear_arith)
        requires
            n - x == (qx - qn) * step,
            step > 0,
    ;
}

/// Subtracting one step keeps the offset a multiple of the step.
proof fn lemma_step_keeps_offset_down(start: int, n: int, step: int)
    requires
        step > 0,
        (start - n) % step == 0,
    ensures
        (start - (n - step)) % step == 0,
{
    vstd::arithmetic::div_mod::lemma_mod_add_multiples_vanish(start - n, step);
}

/// Downward version of the gap lemma.
proof fn lemma_multiple_gap_down(start: int, n: int, x: int, step: int)
    requires
        step > 0,
        (start - n) % step == 0,
        n - step < x < n,
    ensures
        (start - x) % step != 0,
{
    if (start - x) % step == 0 {
        lemma_fundamental_div_mod(start - x, step);
        lemma_fundamental_div_mod(start - n, step);
        let qx = (start - x) / step;
        let qn = (start - n) / step;
        assert(n - x == (qx - qn) * step) by (nonlinear_arith)
            requires
                start - x == step * qx,
                start - n == step * qn,
        ;
        assert(qx - qn >= 1 ==> n - x >= step) by (nonlinear_arith)
            requires
                n - x == (qx - qn) * step,
                step > 0,
        ;
        assert(qx - qn <= 0 ==> n - x <= 0) by (nonlinear_arith)
            requires
                n - x == (qx - qn) * step,
                step > 0,
        ;
    }
}

/// Find a primitive `order`-th root of unity modulo a prime: a residue
/// whose `order`-th power is one and whose `order/2`-th power is
/// `modulus - 1`. An upward scan over the low window returns the
/// numerically smallest such residue, making the choice deterministic
/// among all equivalent valid roots; when none lies in the window, a
/// generator is found, raised to `(modulus-1)/order`, and the smallest
/// nontrivial odd power of that candidate is certified instead.
///
/// `order` must be a power of two; `modulus` must be a prime with
/// `modulus % order == 1`.
pub fn root_of_unity(order: usize, modulus: u64) -> (r: Result<u64>)
    requires
        order <= u64::MAX,
    ensures
        (order < 2 || !is_power_of_two(order as nat)) <==> r == Result::<u64>::Err(
            Error::NotPowerOfTwo,
        ),
        (order >= 2 && is_power_of_two(order as nat) && !is_prime(modulus as nat)) <==> r
            == Result::<u64>::Err(Error::NotPrime),
        (order >= 2 && is_power_of_two(order as nat) && is_prime(modulus as nat) && ((modulus
            - 1) as int) % (order as int) != 0) <==> r == Result::<u64>::Err(
            Error::OrderDoesNotDivide,
        ),
        r is Ok ==> {
            &&& order >= 2 && is_power_of_two(order as nat)
            &&& is_prime(modulus as nat)
            &&& ((modulus - 1) as int) % (order as int) == 0
            &&& 1 < r.unwrap() < modulus
            &&& pow_mod(r.unwrap() as nat, order as nat, modulus as nat) == 1
            &&& pow_mod(r.unwrap() as nat, (order / 2) as nat, modulus as nat) == modulus - 1
            &&& pow_mod(r.unwrap() as nat, (order / 2) as nat, modulus as nat) != 1
            &&& forall|x: u64|
                2 <= x < r.unwrap() && x < 2 + ROOT_SCAN_LIMIT ==> !(#[trigger] pow_mod(
                    x as nat, order as nat, modulus as nat) == 1 && pow_mod(x as nat,
                    (order / 2) as nat, modulus as nat) == modulus - 1)
        },
        r == Result::<u64>::Err(Error::RetryLimitExceeded) ==> forall|x: u64|
            2 <= x < modulus && x < 2 + ROOT_SCAN_LIMIT ==> !(#[trigger] pow_mod(x as nat,
                order as nat, modulus as nat) == 1 && pow_mod(x as nat, (order / 2) as nat,
                modulus as nat) == modulus - 1),
        r is Err ==> r == Result::<u64>::Err(Error::NotPowerOfTwo) || r == Result::<u64>::Err(
            Error::NotPrime,
        ) || r == Result::<u64>::Err(Error::OrderDoesNotDivide) || r == Result::<u64>::Err(
            Error::RetryLimitExceeded,
        ),
{
    if order < 2 || !is_power_of_two_usize(order) {
        return Err(Error::NotPowerOfTwo);
    }
    if !is_prime_u64(modulus) {
        return Err(Error::NotPrime);
    }
    if (modulus - 1) % (order as u64) != 0 {
        return Err(Error::OrderDoesNotDivide);
    }
    proof {
        // The divisibility forces modulus - 1 >= order >= 2, so modulus > 2.
        if modulus - 1 < order as u64 && modulus >= 2 {
            vstd::arithmetic::div_mod::lemma_small_mod((modulus - 1) as nat,
                order as nat);
        }
    }
    if order == 2 {
        // The only residue whose first power is modulus - 1 is modulus - 1
        // itself, so the canonical second root needs no scan.
        let r: u64 = modulus - 1;
        proof {
            let q = modulus as int;
            vstd::arithmetic::power::lemma_pow1(r as int);
            vstd::arithmetic::div_mod::lemma_small_mod(r as nat, modulus as nat);
            assert(pow_mod(r as nat, 1, modulus as nat) == modulus - 1);
            assert(pow_mod(r as nat, 2, modulus as nat) == 1) by {
                vstd::arithmetic::power::lemma_pow_adds(r as int, 1, 1);
                assert((r as int) * (r as int) == (q - 2) * q + 1) by (nonlinear_arith)
                    requires
                        r as int == q - 1,
                ;
                vstd::arithmetic::div_mod::lemma_fundamental_div_mod_converse(
                    (r as int) * (r as int), q, q - 2, 1);
            }
            assert forall|x: u64|
                2 <= x < r implies !(#[trigger] pow_mod(x as nat, order as nat,
                modulus as nat) == 1 && pow_mod(x as nat, (order / 2) as nat, modulus as nat)
                == modulus - 1) by {
                vstd::arithmetic::power::lemma_pow1(x as int);
                vstd::arithmetic::div_mod::lemma_small_mod(x as nat, modulus as nat);
            }
        }
        return Ok(r);
    }
    let window_end: u64 = if modulus - 2 <= ROOT_SCAN_LIMIT {
        modulus
    } else {
        2 + ROOT_SCAN_LIMIT
    };
    let mut x: u64 = 2;
    while x < window_end
        invariant
            2 <= x,
            modulus > 2,
            window_end <= modulus,
            window_end <= 2 + ROOT_SCAN_LIMIT,
            order >= 2,
            order <= u64::MAX,
            is_power_of_two(order as nat),
            is_prime(modulus as nat),
            ((modulus - 1) as int) % (order as int) == 0,
            forall|y: u64|
                2 <= y < x ==> !(#[trigger] pow_mod(y as nat, order as nat, modulus as nat)
                    == 1 && pow_mod(y as nat, (order / 2) as nat, modulus as nat) == modulus
                    - 1),
        decreases window_end - x,
    {
        let pow_full = mod_pow(x, order as u64, modulus);
        let pow_half = mod_pow(x, (order / 2) as u64, modulus);
        if pow_full == 1 && pow_half == modulus - 1 {
            return Ok(x);
        }
        x = x + 1;
    }
    if window_end == modulus {
        return Err(Error::RetryLimitExceeded);
    }

    // Beyond the scan window: find a generator, raise it to
    // `(modulus-1)/order`, and take the smallest nontrivial odd power of the
    // candidate, certifying the power conditions before returning.
    let generator = match find_generator(modulus) {
        Ok(g) => g,
        Err(_) => {
            return Err(Error::RetryLimitExceeded);
        },
    };
    let exponent: u64 = (modulus - 1) / (order as u64);
    let candidate = mod_pow(generator, exponent, modulus);
    let cand_sq = crate::arith::mod_mul(candidate, candidate, modulus);
    let mut cur: u64 = candidate;
    let mut best: u64 = candidate;
    let mut j: u64 = 1;
    while j < order as u64 - 2
        invariant
            modulus > 2,
            cur < modulus,
            best < modulus,
            cand_sq < modulus,
            2 <= order <= u64::MAX,
            j >= 1,
        decreases order as u64 - j,
    {
        cur = crate::arith::mod_mul(cur, cand_sq, modulus);
        if cur > 1 && (best <= 1 || cur < best) {
            best = cur;
        }
        j = j + 2;
    }
    if best <= 1 {
        return Err(Error::RetryLimitExceeded);
    }
    let pow_full = mod_pow(best, order as u64, modulus);
    let pow_half = mod_pow(best, (order / 2) as u64, modulus);
    if pow_full == 1 && pow_half == modulus - 1 {
        Ok(best)
    } else {
        Err(Error::RetryLimitExceeded)
    }
}

/// The gcd of two even numbers is even.
proof fn lemma_gcd_even(a: nat, b: nat)
    requires
        a % 2 == 0,
        b % 2 == 0,
    ensures
        gcd(a, b) % 2 == 0,
    decreases b,
{
    if b == 0 {
    } else {
        vstd::arithmetic::div_mod::lemma_fundamental_div_mod(a as int, b as int);
        lemma_mod_bound(a as int, b as int);
        let q = a as int / b as int;
        let r = (a % b) as int;
        assert(r % 2 == 0) by {
            assert(r == a - b * q);
            vstd::arithmetic::div_mod::lemma_fundamental_div_mod(b as int, 2);
            let h = b as int / 2;
            assert((b as int) * q == 2 * (h * q)) by (nonlinear_arith)
                requires
                    b as int == 2 * h,
            ;
            vstd::arithmetic::div_mod::lemma_sub_mod_noop(a as int, 2 * (h * q), 2);
            vstd::arithmetic::div_mod::lemma_mod_multiples_basic(h * q, 2);
            lemma_mod_bound(r, 2);
        }
        lemma_gcd_even(b, (a % b) as nat);
    }
}

/// For a power-of-two modulus, being coprime means being odd.
proof fn lemma_coprime_pow2_iff_odd(i: nat, n: nat)
    requires
        is_power_of_two(n),
        n % 2 == 0,
    ensures
        (gcd(i, n) == 1) <==> (i % 2 == 1),
{
    if i % 2 == 1 {
        crate::arith::lemma_odd_coprime_pow2(i, n);
    } else {
        lemma_gcd_even(i, n);
    }
}

/// Counting coprimes to an even power of two counts the odd numbers:
/// `floor(k/2)` of them lie in `[1, k)`.
proof fn lemma_coprime_count_pow2(n: nat, k: nat)
    requires
        is_power_of_two(n),
        n % 2 == 0,
    ensures
        coprime_count(n, k) == k / 2,
    decreases k,
{
    if k <= 1 {
    } else {
        lemma_coprime_count_pow2(n, (k - 1) as nat);
        lemma_coprime_pow2_iff_odd((k - 1) as nat, n);
        vstd::arithmetic::div_mod::lemma_fundamental_div_mod(k as int, 2);
        vstd::arithmetic::div_mod::lemma_fundamental_div_mod((k - 1) as int, 2);
        lemma_mod_bound(k as int, 2);
        lemma_mod_bound((k - 1) as int, 2);
    }
}

/// The totient of a power of two is half of it: the ring dimension of a
/// power-of-two cyclotomic order equals its totient.
pub proof fn lemma_totient_power_of_two(n: nat)
    requires
        is_power_of_two(n),
        n >= 2,
    ensures
        totient(n) == n / 2,
{
    assert(n % 2 == 0);
    lemma_coprime_count_pow2(n, n);
}

} // verus!
