//! Parameters for ring elements: the single-modulus parameter set, the
//! multi-limb RNS chain with its composite-modulus invariant, and the
//! standard lattice security tables.

use vstd::prelude::*;
use std::collections::VecDeque;
use vstd::arithmetic::div_mod::{
    lemma_fundamental_div_mod, lemma_mod_bound, lemma_mod_multiples_vanish,
};
use crate::arith::{is_prime, pow_mod};
use crate::constants::{DistributionType, MAX_MODULUS_SIZE, SecurityLevel};
use crate::error::{Error, Result};
use crate::utils::{is_power_of_two, is_power_of_two_usize, previous_prime, root_of_unity};
use crate::vecmod::MODULUS_CEILING;

verus! {

/// Parameters for an element.
#[derive(Debug, Clone, Copy, PartialEq, Eq, Structural)]
pub struct ElementParams {
    /// The ring dimension.
    pub ring_dimension: usize,
    /// The cyclotomic order.
    pub cyclotomic_order: usize,
    /// The ciphertext modulus.
    pub ciphertext_modulus: u64,
    /// The ciphertext modulus root of unity.
    pub root_of_unity: u64,
    /// The big ciphertext modulus used for bit-packing operations.
    pub big_ciphertext_modulus: u64,
    /// The big ciphertext modulus root of unity.
    pub big_root_of_unity: u64,
}

impl ElementParams {
    /// Well-formedness: a power-of-two cyclotomic order twice the ring
    /// dimension, an odd modulus in the word budget, and a reduced nonzero
    /// root of unity.
    pub open spec fn wf(self) -> bool {
        &&& 1 < self.ciphertext_modulus < MODULUS_CEILING
        &&& self.ciphertext_modulus % 2 == 1
        &&& 2 <= self.cyclotomic_order <= 0x0400_0000
        &&& is_power_of_two(self.cyclotomic_order as nat)
        &&& self.ring_dimension == self.cyclotomic_order / 2
        &&& 1 <= self.root_of_unity < self.ciphertext_modulus
        &&& 1 <= self.big_ciphertext_modulus < MODULUS_CEILING
        &&& self.big_ciphertext_modulus % 2 == 1
        &&& self.big_root_of_unity < self.big_ciphertext_modulus || self.big_root_of_unity == 0
    }

    /// Build from all six fields, validating each; the ring dimension is the
    /// totient of the power-of-two order, that is, half of it.
    pub fn with_big_ciphertext_params(
        cyclotomic_order: usize,
        ciphertext_modulus: u64,
        root_of_unity: u64,
        big_ciphertext_modulus: u64,
        big_root_of_unity: u64,
    ) -> (r: Result<ElementParams>)
        ensures
            r is Ok <==> {
                &&& 1 < ciphertext_modulus < MODULUS_CEILING
                &&& ciphertext_modulus % 2 == 1
                &&& 2 <= cyclotomic_order <= 0x0400_0000
                &&& is_power_of_two(cyclotomic_order as nat)
                &&& 1 <= root_of_unity < ciphertext_modulus
                &&& 1 <= big_ciphertext_modulus < MODULUS_CEILING
                &&& big_ciphertext_modulus % 2 == 1
                &&& (big_root_of_unity < big_ciphertext_modulus || big_root_of_unity == 0)
            },
            r is Err ==> r == Result::<ElementParams>::Err(Error::InvalidModulus) || r
                == Result::<ElementParams>::Err(Error::NotPowerOfTwo) || r == Result::<
                ElementParams,
            >::Err(Error::InvalidRootOfUnity),
            r == Result::<ElementParams>::Err(Error::InvalidModulus) ==> !(1 < ciphertext_modulus
                < MODULUS_CEILING && ciphertext_modulus % 2 == 1) || !(1
                <= big_ciphertext_modulus < MODULUS_CEILING && big_ciphertext_modulus % 2 == 1),
            r == Result::<ElementParams>::Err(Error::InvalidRootOfUnity) ==> !(1 <= root_of_unity
                < ciphertext_modulus) || !(big_root_of_unity < big_ciphertext_modulus
                || big_root_of_unity == 0),
            r is Ok ==> r.unwrap() == (ElementParams {
                ring_dimension: cyclotomic_order / 2,
                cyclotomic_order,
                ciphertext_modulus,
                root_of_unity,
                big_ciphertext_modulus,
                big_root_of_unity,
            }),
            r is Ok ==> r.unwrap().wf(),
    {
        if !(ciphertext_modulus > 1 && ciphertext_modulus < MODULUS_CEILING
            && ciphertext_modulus % 2 == 1) {
            return Err(Error::InvalidModulus);
        }
        if cyclotomic_order < 2 || cyclotomic_order > 0x0400_0000 || !is_power_of_two_usize(
            cyclotomic_order,
        ) {
            return Err(Error::NotPowerOfTwo);
        }
        if !(root_of_unity >= 1 && root_of_unity < ciphertext_modulus) {
            return Err(Error::InvalidRootOfUnity);
        }
        if !(big_ciphertext_modulus >= 1 && big_ciphertext_modulus < MODULUS_CEILING
            && big_ciphertext_modulus % 2 == 1) {
            return Err(Error::InvalidModulus);
        }
        if !(big_root_of_unity < big_ciphertext_modulus || big_root_of_unity == 0) {
            return Err(Error::InvalidRootOfUnity);
        }
        Ok(
            ElementParams {
                ring_dimension: cyclotomic_order / 2,
                cyclotomic_order,
                ciphertext_modulus,
                root_of_unity,
                big_ciphertext_modulus,
                big_root_of_unity,
            },
        )
    }

    /// Build from an order, a modulus and a root of unity; the big modulus
    /// defaults to one.
    pub fn with_ciphertext_root_of_unity(
        order: usize,
        ciphertext_modulus: u64,
        root_of_unity: u64,
    ) -> (r: Result<ElementParams>)
        ensures
            r is Ok <==> {
                &&& 1 < ciphertext_modulus < MODULUS_CEILING
                &&& ciphertext_modulus % 2 == 1
                &&& 2 <= order <= 0x0400_0000
                &&& is_power_of_two(order as nat)
                &&& 1 <= root_of_unity < ciphertext_modulus
            },
            r is Err ==> r == Result::<ElementParams>::Err(Error::InvalidModulus) || r
                == Result::<ElementParams>::Err(Error::NotPowerOfTwo) || r == Result::<
                ElementParams,
            >::Err(Error::InvalidRootOfUnity),
            r == Result::<ElementParams>::Err(Error::InvalidModulus) ==> !(1 < ciphertext_modulus
                < MODULUS_CEILING && ciphertext_modulus % 2 == 1),
            r == Result::<ElementParams>::Err(Error::InvalidRootOfUnity) ==> !(1 <= root_of_unity
                < ciphertext_modulus),
            r is Ok ==> r.unwrap() == (ElementParams {
                ring_dimension: order / 2,
                cyclotomic_order: order,
                ciphertext_modulus,
                root_of_unity,
                big_ciphertext_modulus: 1,
                big_root_of_unity: 0,
            }),
            r is Ok ==> r.unwrap().wf(),
    {
        Self::with_big_ciphertext_params(order, ciphertext_modulus, root_of_unity, 1, 0)
    }

    /// Build from an order and a modulus, searching for the canonical
    /// primitive root of unity.
    pub fn with_modulus(order: usize, ciphertext_modulus: u64) -> (r: Result<ElementParams>)
        requires
            order <= u64::MAX,
        ensures
            r is Ok ==> r.unwrap().wf(),
            r is Ok ==> {
                &&& r.unwrap().cyclotomic_order == order
                &&& r.unwrap().ring_dimension == order / 2
                &&& r.unwrap().ciphertext_modulus == ciphertext_modulus
                &&& pow_mod(r.unwrap().root_of_unity as nat, order as nat,
                    ciphertext_modulus as nat) == 1
                &&& pow_mod(r.unwrap().root_of_unity as nat, (order / 2) as nat,
                    ciphertext_modulus as nat) == ciphertext_modulus - 1
                &&& pow_mod(r.unwrap().root_of_unity as nat, (order / 2) as nat,
                    ciphertext_modulus as nat) != 1
                &&& r.unwrap().big_ciphertext_modulus == 1
                &&& r.unwrap().big_root_of_unity == 0
            },
            (order < 2 || !is_power_of_two(order as nat)) ==> r == Result::<ElementParams>::Err(
                Error::NotPowerOfTwo,
            ),
            (order >= 2 && is_power_of_two(order as nat) && !is_prime(
                ciphertext_modulus as nat,
            )) ==> r == Result::<ElementParams>::Err(Error::NotPrime),
            (order >= 2 && is_power_of_two(order as nat) && is_prime(ciphertext_modulus as nat)
                && ((ciphertext_modulus - 1) as int) % (order as int) != 0) ==> r == Result::<
                ElementParams,
            >::Err(Error::OrderDoesNotDivide),
            r == Result::<ElementParams>::Err(Error::InvalidModulus) ==> !(1 < ciphertext_modulus
                < MODULUS_CEILING && ciphertext_modulus % 2 == 1),
            r is Err ==> r == Result::<ElementParams>::Err(Error::NotPowerOfTwo) || r
                == Result::<ElementParams>::Err(Error::NotPrime) || r == Result::<
                ElementParams,
            >::Err(Error::OrderDoesNotDivide) || r == Result::<ElementParams>::Err(
                Error::RetryLimitExceeded,
            ) || r == Result::<ElementParams>::Err(Error::InvalidModulus),
    {
        let root = root_of_unity(order, ciphertext_modulus)?;
        Self::with_ciphertext_root_of_unity(order, ciphertext_modulus, root)
    }

    /// Build from an order and a modulus bit budget: pick the largest prime
    /// congruent to one modulo the order that fits the budget.
    pub fn with_modulus_bits(order: usize, bits: usize) -> (r: Result<ElementParams>)
        requires
            order <= u64::MAX,
        ensures
            r is Ok ==> r.unwrap().wf(),
            r is Ok ==> {
                &&& r.unwrap().cyclotomic_order == order
                &&& is_prime(r.unwrap().ciphertext_modulus as nat)
                &&& (r.unwrap().ciphertext_modulus as nat) < vstd::arithmetic::power2::pow2(
                    bits as nat)
                &&& pow_mod(r.unwrap().root_of_unity as nat, order as nat,
                    r.unwrap().ciphertext_modulus as nat) == 1
            },
            bits > MAX_MODULUS_SIZE ==> r == Result::<ElementParams>::Err(
                Error::BitLengthTooLarge,
            ),
            r == Result::<ElementParams>::Err(Error::Overflow) ==> forall|x: int|
                0 <= x < vstd::arithmetic::power2::pow2(bits as nat) && #[trigger] (x % (
                order as int)) == 1int % (order as int) ==> !is_prime(x as nat),
            r is Err ==> r == Result::<ElementParams>::Err(Error::BitLengthTooLarge) || r
                == Result::<ElementParams>::Err(Error::NotPowerOfTwo) || r == Result::<
                ElementParams,
            >::Err(Error::Overflow) || r == Result::<ElementParams>::Err(
                Error::RetryLimitExceeded,
            ) || r == Result::<ElementParams>::Err(Error::NotPrime) || r == Result::<
                ElementParams,
            >::Err(Error::OrderDoesNotDivide) || r == Result::<ElementParams>::Err(
                Error::InvalidModulus,
            ),
    {
        if bits > MAX_MODULUS_SIZE {
            return Err(Error::BitLengthTooLarge);
        }
        let q = largest_prime_congruent(bits, order)?;
        Self::with_modulus(order, q)
    }
}

/// The largest prime `p` with `p % order == 1` and `p < 2^bits`, found by
/// stepping the progression downward with the primality test.
pub fn largest_prime_congruent(bits: usize, order: usize) -> (r: Result<u64>)
    requires
        order <= u64::MAX,
    ensures
        r is Ok ==> {
            &&& is_prime(r.unwrap() as nat)
            &&& (r.unwrap() as int) % (order as int) == 1int % (order as int)
            &&& (r.unwrap() as nat) < vstd::arithmetic::power2::pow2(bits as nat)
            &&& order >= 1
        },
        (bits < 3 || bits > 62) ==> r == Result::<u64>::Err(Error::BitLengthTooLarge),
        (3 <= bits <= 62 && order < 1) ==> r == Result::<u64>::Err(Error::NotPowerOfTwo),
        r is Err ==> r == Result::<u64>::Err(Error::BitLengthTooLarge) || r == Result::<
            u64,
        >::Err(Error::NotPowerOfTwo) || r == Result::<u64>::Err(Error::Overflow) || r
            == Result::<u64>::Err(Error::RetryLimitExceeded),
        r == Result::<u64>::Err(Error::Overflow) ==> forall|x: int|
            0 <= x < vstd::arithmetic::power2::pow2(bits as nat) && #[trigger] (x % (
            order as int)) == 1int % (order as int) ==> !is_prime(x as nat),
        r == Result::<u64>::Err(Error::RetryLimitExceeded) ==> forall|x: int|
            0 <= x < vstd::arithmetic::power2::pow2(bits as nat)
                && vstd::arithmetic::power2::pow2(bits as nat)
                - (crate::utils::SEARCH_RETRY_LIMIT - 1) * (order as int) <= x && #[trigger] (x
                % (order as int)) == 1int % (order as int) ==> !is_prime(x as nat),
{
    if bits < 3 || bits > 62 {
        return Err(Error::BitLengthTooLarge);
    }
    if order < 1 {
        return Err(Error::NotPowerOfTwo);
    }
    let step: u64 = order as u64;
    proof {
        vstd::arithmetic::power2::lemma_pow2_strictly_increases(bits as nat, 63);
        vstd::arithmetic::power2::lemma2_to64_rest();
        vstd::arithmetic::power2::lemma_pow2_pos(bits as nat);
        assert(1u64 * vstd::arithmetic::power2::pow2(bits as nat)
            == vstd::arithmetic::power2::pow2(bits as nat)) by (nonlinear_arith);
        vstd::bits::lemma_u64_shl_is_mul(1u64, bits as u64);
    }
    let top: u64 = (1u64 << (bits as u64)) - 1;
    if top < 3 || step > top - 2 {
        // The progression has no room below the bit budget.
        return Err(Error::BitLengthTooLarge);
    }
    // Largest candidate congruent to 1 modulo the order, below 2^bits.
    let k: u64 = (top - 1) / step;
    proof {
        lemma_fundamental_div_mod((top - 1) as int, step as int);
        lemma_mod_bound((top - 1) as int, step as int);
        assert(k * step <= top - 1 && k * step >= top - step) by (nonlinear_arith)
            requires
                top - 1 == step * k + ((top - 1) as int % (step as int)),
                0 <= ((top - 1) as int % (step as int)) && ((top - 1) as int % (
                step as int)) < step as int,
        ;
    }
    let c: u64 = k * step + 1;
    let start: u64 = c + step;
    proof {
        let si = step as int;
        assert(start as int == (k + 1) * si + 1) by (nonlinear_arith)
            requires
                c == k * step + 1,
                start == c + step,
                si == step as int,
        ;
        lemma_mod_multiples_vanish(k + 1, 1, si);
        assert((k + 1) * si == si * (k + 1)) by (nonlinear_arith);
        assert((start as int) % si == 1int % si);
        assert(top + 1 <= start <= top + step);
    }
    let p = match previous_prime(start, order) {
        Ok(v) => v,
        Err(e) => {
            proof {
                let si = step as int;
                let two_b = vstd::arithmetic::power2::pow2(bits as nat) as int;
                assert(two_b == top + 1);
                if e == Error::Overflow {
                    assert forall|x: int|
                        0 <= x < two_b && #[trigger] (x % si) == 1int % si implies !is_prime(
                        x as nat,
                    ) by {
                        crate::arith::lemma_mod_diff_zero(start as int, x, si);
                    }
                }
                if e == Error::RetryLimitExceeded {
                    assert forall|x: int|
                        0 <= x < two_b && two_b - (crate::utils::SEARCH_RETRY_LIMIT - 1) * si
                            <= x && #[trigger] (x % si) == 1int % si implies !is_prime(
                        x as nat,
                    ) by {
                        crate::arith::lemma_mod_diff_zero(start as int, x, si);
                        assert(start - x <= crate::utils::SEARCH_RETRY_LIMIT * si)
                            by (nonlinear_arith)
                            requires
                                x >= two_b - (crate::utils::SEARCH_RETRY_LIMIT - 1) * si,
                                start <= top + step,
                                two_b == top + 1,
                                si == step as int,
                                si >= 1,
                        ;
                    }
                }
            }
            return Err(e);
        },
    };
    proof {
        // p == start - j*step for some j, and start == 1 (mod step), so
        // p == 1 (mod step); p < start - step + 1 <= 2^bits.
        let si = step as int;
        lemma_fundamental_div_mod((start - p) as int, si);
        let j = (start - p) as int / si;
        assert((start - p) as int == si * j);
        assert(p as int == start - si * j);
        assert(start as int == (k + 1) * si + 1) by (nonlinear_arith)
            requires
                c == k * step + 1,
                start == c + step,
                si == step as int,
        ;
        assert(p as int == (k + 1 - j) * si + 1) by (nonlinear_arith)
            requires
                p as int == start - si * j,
                start as int == (k + 1) * si + 1,
        ;
        lemma_mod_multiples_vanish(k + 1 - j, 1, si);
        assert(j >= 1) by (nonlinear_arith)
            requires
                si * j == start - p,
                p < start,
                si >= 1,
                0 <= ((start - p) as int) % si && si * j + ((start - p) as int) % si == start
                    - p && ((start - p) as int) % si == 0,
        ;
        assert(p as int <= start - si) by (nonlinear_arith)
            requires
                p as int == start - si * j,
                j >= 1,
                si >= 1,
        ;
        assert((p as nat) < vstd::arithmetic::power2::pow2(bits as nat));
    }
    Ok(p)
}

/// `a * b`, or an overflow fault.
pub fn mul_checked(a: u64, b: u64) -> (r: Result<u64>)
    ensures
        r is Ok ==> r.unwrap() == a * b,
        r is Err ==> a * b > u64::MAX && r == Result::<u64>::Err(Error::Overflow),
{
    match a.checked_mul(b) {
        Some(v) => Ok(v),
        None => Err(Error::Overflow),
    }
}

/// The well-formedness invariant fixes the ring dimension as the totient
/// of the power-of-two cyclotomic order, which is half of it.
pub proof fn lemma_ring_dimension_is_totient(p: ElementParams)
    requires
        p.wf(),
    ensures
        p.ring_dimension == crate::utils::totient(p.cyclotomic_order as nat),
{
    crate::utils::lemma_totient_power_of_two(p.cyclotomic_order as nat);
}

/// Product of the limb moduli of a parameter chain.
pub open spec fn moduli_product(s: Seq<ElementParams>) -> int
    decreases s.len(),
{
    if s.len() == 0 {
        1
    } else {
        s[0].ciphertext_modulus * moduli_product(s.drop_first())
    }
}

/// The product of well-formed limb moduli is positive.
proof fn lemma_moduli_product_pos(s: Seq<ElementParams>)
    requires
        forall|i: int| 0 <= i < s.len() ==> #[trigger] s[i].ciphertext_modulus >= 1,
    ensures
        moduli_product(s) >= 1,
    decreases s.len(),
{
    if s.len() > 0 {
        lemma_moduli_product_pos(s.drop_first());
        assert(moduli_product(s) >= 1) by (nonlinear_arith)
            requires
                moduli_product(s) == s[0].ciphertext_modulus * moduli_product(s.drop_first()),
                s[0].ciphertext_modulus >= 1,
                moduli_product(s.drop_first()) >= 1,
        ;
    }
}

/// Peeling the last limb off the product.
proof fn lemma_moduli_product_drop_last(s: Seq<ElementParams>)
    requires
        s.len() > 0,
    ensures
        moduli_product(s) == moduli_product(s.drop_last()) * s.last().ciphertext_modulus,
    decreases s.len(),
{
    if s.len() == 1 {
        assert(s.drop_first().len() == 0);
        assert(s.drop_last().len() == 0);
        assert(moduli_product(s.drop_first()) == 1);
        assert(moduli_product(s.drop_last()) == 1);
        assert(moduli_product(s) == s[0].ciphertext_modulus * 1);
        assert(moduli_product(s.drop_last()) * s.last().ciphertext_modulus == 1 * s[
            0].ciphertext_modulus);
        assert(s[0].ciphertext_modulus * 1 == 1 * s[0].ciphertext_modulus) by (nonlinear_arith);
    } else {
        lemma_moduli_product_drop_last(s.drop_first());
        assert(s.drop_first().drop_last() =~= s.drop_last().drop_first());
        assert(s.drop_first().last() == s.last());
        assert(s.drop_last()[0] == s[0]);
        assert(moduli_product(s) == s[0].ciphertext_modulus * (moduli_product(
            s.drop_first().drop_last()) * s.last().ciphertext_modulus));
        assert(moduli_product(s.drop_last()) == s[0].ciphertext_modulus * moduli_product(
            s.drop_last().drop_first()));
        assert(s[0].ciphertext_modulus * (moduli_product(s.drop_last().drop_first())
            * s.last().ciphertext_modulus) == (s[0].ciphertext_modulus * moduli_product(
            s.drop_last().drop_first())) * s.last().ciphertext_modulus) by (nonlinear_arith);
    }
}

/// An ordered, front/back-poppable chain of per-limb parameters, with a
/// cached composite modulus that always equals the product of the limb
/// moduli.
#[derive(Debug, Clone)]
pub struct DcrtElementParams {
    /// The limb parameter sets, oldest first.
    pub params: VecDeque<ElementParams>,
    /// The cached composite modulus, always the product of the limb moduli.
    pub ciphertext_composite_modulus: u64,
}

impl DcrtElementParams {
    /// Well-formedness: every limb is well formed and the cached composite
    /// modulus is exactly the product of the limb moduli.
    pub open spec fn wf(self) -> bool {
        &&& forall|i: int| 0 <= i < self.params@.len() ==> #[trigger] self.params@[i].wf()
        &&& self.ciphertext_composite_modulus == moduli_product(self.params@)
    }

    /// The limb parameter sets, oldest first.
    pub fn params(&self) -> (r: &VecDeque<ElementParams>)
        ensures
            r@ == self.params@,
    {
        &self.params
    }

    /// The cached composite modulus.
    pub fn modulus(&self) -> (r: u64)
        ensures
            r == self.ciphertext_composite_modulus,
            self.wf() ==> r == moduli_product(self.params@),
    {
        self.ciphertext_composite_modulus
    }

    /// The number of limbs.
    pub fn len(&self) -> (r: usize)
        ensures
            r == self.params@.len(),
    {
        self.params.len()
    }

    /// Remove the oldest limb and divide the composite modulus by its
    /// modulus. On an empty chain nothing changes.
    pub fn pop_front(&mut self)
        requires
            old(self).wf(),
        ensures
            final(self).wf(),
            old(self).params@.len() > 0 ==> final(self).params@ == old(self).params@.drop_first(),
            old(self).params@.len() == 0 ==> final(self).params@ == old(self).params@,
            old(self).params@.len() == 0 ==> final(self).ciphertext_composite_modulus == old(
                self,
            ).ciphertext_composite_modulus,
            final(self).ciphertext_composite_modulus == moduli_product(final(self).params@),
    {
        let ghost pre = self.params@;
        match self.params.pop_front() {
            Some(elem) => {
                proof {
                    assert(pre[0] == elem);
                    assert(old(self).params@[0].wf());
                    assert(self.params@ == pre.drop_first());
                    assert(forall|i: int|
                        0 <= i < self.params@.len() ==> #[trigger] self.params@[i].wf()) by {
                        assert(forall|i: int|
                            0 <= i < pre.drop_first().len() ==> pre.drop_first()[i] == pre[i + 1]);
                    }
                    assert forall|i: int| 0 <= i < self.params@.len() implies #[trigger] self
                        .params@[i].ciphertext_modulus >= 1 by {
                        assert(self.params@[i].wf());
                    }
                    lemma_moduli_product_pos(self.params@);
                    let rest = moduli_product(pre.drop_first());
                    assert(old(self).ciphertext_composite_modulus as int
                        == elem.ciphertext_modulus * rest);
                    vstd::arithmetic::div_mod::lemma_div_multiples_vanish(rest,
                        elem.ciphertext_modulus as int);
                }
                self.ciphertext_composite_modulus = self.ciphertext_composite_modulus
                    / elem.ciphertext_modulus;
            },
            None => {},
        }
    }

    /// Remove the newest limb and divide the composite modulus by its
    /// modulus. On an empty chain nothing changes.
    pub fn pop_back(&mut self)
        requires
            old(self).wf(),
        ensures
            final(self).wf(),
            old(self).params@.len() > 0 ==> final(self).params@ == old(self).params@.drop_last(),
            old(self).params@.len() == 0 ==> final(self).params@ == old(self).params@,
            old(self).params@.len() == 0 ==> final(self).ciphertext_composite_modulus == old(
                self,
            ).ciphertext_composite_modulus,
            final(self).ciphertext_composite_modulus == moduli_product(final(self).params@),
    {
        let ghost pre = self.params@;
        match self.params.pop_back() {
            Some(elem) => {
                proof {
                    assert(pre.last() == elem);
                    assert(old(self).params@[pre.len() - 1].wf());
                    assert(self.params@ == pre.drop_last());
                    assert(forall|i: int|
                        0 <= i < self.params@.len() ==> #[trigger] self.params@[i].wf()) by {
                        assert(forall|i: int|
                            0 <= i < pre.drop_last().len() ==> pre.drop_last()[i] == pre[i]);
                    }
                    lemma_moduli_product_drop_last(pre);
                    assert forall|i: int| 0 <= i < self.params@.len() implies #[trigger] self
                        .params@[i].ciphertext_modulus >= 1 by {
                        assert(self.params@[i].wf());
                    }
                    lemma_moduli_product_pos(self.params@);
                    let rest = moduli_product(pre.drop_last());
                    assert(old(self).ciphertext_composite_modulus as int == rest
                        * elem.ciphertext_modulus);
                    let comp = old(self).ciphertext_composite_modulus as int;
                    assert(comp == elem.ciphertext_modulus * rest) by (nonlinear_arith)
                        requires
                            comp == rest * elem.ciphertext_modulus,
                    ;
                    vstd::arithmetic::div_mod::lemma_div_multiples_vanish(rest,
                        elem.ciphertext_modulus as int);
                }
                self.ciphertext_composite_modulus = self.ciphertext_composite_modulus
                    / elem.ciphertext_modulus;
            },
            None => {},
        }
    }
}

/// Builder for a [`DcrtElementParams`] chain. Exactly one of five input
/// combinations is accepted: a target composite modulus, a target depth
/// (optionally with a bit budget), explicit moduli, explicit moduli with
/// roots, or explicit moduli with roots and big moduli with big roots.
#[derive(Debug, Clone)]
pub struct DcrtElementParamsBuilder {
    /// The cyclotomic order shared by all limbs.
    pub ciphertext_order: usize,
    /// Target composite modulus to reach or exceed.
    pub modulus: Option<u64>,
    /// Target number of limbs.
    pub depth: Option<usize>,
    /// Bit budget for each limb modulus.
    pub bits: Option<usize>,
    /// Explicit limb moduli.
    pub moduli: Option<Vec<u64>>,
    /// Explicit roots of unity, one per limb.
    pub roots_of_unity: Option<Vec<u64>>,
    /// Explicit big moduli, one per limb.
    pub big_moduli: Option<Vec<u64>>,
    /// Explicit big roots of unity, one per limb.
    pub big_roots_of_unity: Option<Vec<u64>>,
}

/// Product of a sequence of limb moduli given as plain words.
pub open spec fn u64_seq_product(s: Seq<u64>) -> int
    decreases s.len(),
{
    if s.len() == 0 {
        1
    } else {
        s[0] * u64_seq_product(s.drop_first())
    }
}

/// A prefix of a product of values that are at least one never exceeds the
/// whole product.
proof fn lemma_u64_seq_product_parts(s: Seq<u64>)
    requires
        forall|i: int| 0 <= i < s.len() ==> #[trigger] s[i] >= 1,
    ensures
        u64_seq_product(s) >= 1,
    decreases s.len(),
{
    if s.len() > 0 {
        lemma_u64_seq_product_parts(s.drop_first());
        assert(u64_seq_product(s) >= 1) by (nonlinear_arith)
            requires
                u64_seq_product(s) == s[0] * u64_seq_product(s.drop_first()),
                s[0] >= 1,
                u64_seq_product(s.drop_first()) >= 1,
        ;
    }
}

/// Splitting the product at an index: the product equals the prefix times
/// the suffix.
proof fn lemma_u64_seq_product_split(s: Seq<u64>, i: int)
    requires
        0 <= i <= s.len(),
    ensures
        u64_seq_product(s) == u64_seq_product(s.take(i)) * u64_seq_product(s.skip(i)),
    decreases i,
{
    if i == 0 {
        assert(s.take(0).len() == 0);
        assert(s.skip(0) =~= s);
        assert(u64_seq_product(s) == 1 * u64_seq_product(s)) by (nonlinear_arith);
    } else {
        lemma_u64_seq_product_split(s.drop_first(), i - 1);
        assert(s.take(i)[0] == s[0]);
        assert(s.take(i).drop_first() =~= s.drop_first().take(i - 1));
        assert(s.skip(i) =~= s.drop_first().skip(i - 1));
        assert(u64_seq_product(s.take(i)) == s[0] * u64_seq_product(s.drop_first().take(i - 1)));
        assert(u64_seq_product(s) == s[0] * (u64_seq_product(s.drop_first().take(i - 1))
            * u64_seq_product(s.drop_first().skip(i - 1))));
        assert(s[0] * (u64_seq_product(s.drop_first().take(i - 1)) * u64_seq_product(
            s.drop_first().skip(i - 1))) == (s[0] * u64_seq_product(s.drop_first().take(i - 1)))
            * u64_seq_product(s.drop_first().skip(i - 1))) by (nonlinear_arith);
    }
}

impl DcrtElementParamsBuilder {
    /// Whether the supplied options form one of the accepted input
    /// combinations, with matching vector lengths, at least one limb, and a
    /// bit budget within the ceiling.
    pub open spec fn combination_ok(self) -> bool {
        ||| {
            &&& self.modulus is Some
            &&& self.depth is None
            &&& self.bits is None
            &&& self.moduli is None
            &&& self.roots_of_unity is None
            &&& self.big_moduli is None
            &&& self.big_roots_of_unity is None
        }
        ||| {
            &&& self.modulus is None
            &&& self.depth is Some
            &&& self.moduli is None
            &&& self.roots_of_unity is None
            &&& self.big_moduli is None
            &&& self.big_roots_of_unity is None
            &&& (self.bits is Some ==> self.bits.unwrap() <= MAX_MODULUS_SIZE)
        }
        ||| {
            &&& self.modulus is None
            &&& self.depth is None
            &&& self.bits is None
            &&& self.moduli is Some
            &&& self.moduli.unwrap()@.len() >= 1
            &&& match (self.roots_of_unity, self.big_moduli, self.big_roots_of_unity) {
                (Option::<Vec<u64>>::None, Option::<Vec<u64>>::None,
                Option::<Vec<u64>>::None) => true,
                (Option::<Vec<u64>>::Some(r), Option::<Vec<u64>>::None,
                Option::<Vec<u64>>::None) => r@.len() == self.moduli.unwrap()@.len(),
                (Option::<Vec<u64>>::Some(r), Option::<Vec<u64>>::Some(bm),
                Option::<Vec<u64>>::Some(br)) => r@.len() == self.moduli.unwrap()@.len()
                    && bm@.len() == self.moduli.unwrap()@.len() && br@.len()
                    == self.moduli.unwrap()@.len(),
                _ => false,
            }
        }
    }

    /// The fully deterministic input mode: explicit moduli with explicit
    /// roots (and optionally big moduli with big roots), every value valid,
    /// the order a power of two in range, and the composite product within
    /// one word. On such input the build is owed to succeed.
    pub open spec fn explicit_chain_ok(self) -> bool {
        &&& self.combination_ok()
        &&& self.moduli is Some
        &&& self.roots_of_unity is Some
        &&& 2 <= self.ciphertext_order <= 0x0400_0000
        &&& is_power_of_two(self.ciphertext_order as nat)
        &&& forall|i: int|
            0 <= i < self.moduli.unwrap()@.len() ==> 1 < (#[trigger] self.moduli.unwrap()@[i])
                < MODULUS_CEILING && self.moduli.unwrap()@[i] % 2 == 1
        &&& forall|i: int|
            0 <= i < self.moduli.unwrap()@.len() ==> 1 <= (
            #[trigger] self.roots_of_unity.unwrap()@[i]) < self.moduli.unwrap()@[i]
        &&& (self.big_moduli is Some ==> forall|i: int|
            0 <= i < self.moduli.unwrap()@.len() ==> 1 <= (
            #[trigger] self.big_moduli.unwrap()@[i]) < MODULUS_CEILING
                && self.big_moduli.unwrap()@[i] % 2 == 1 && (self.big_roots_of_unity.unwrap()@[i]
                < self.big_moduli.unwrap()@[i] || self.big_roots_of_unity.unwrap()@[i] == 0))
        &&& u64_seq_product(self.moduli.unwrap()@) <= u64::MAX
    }

    /// A builder for the given cyclotomic order with nothing chosen yet.
    pub fn new(ciphertext_order: usize) -> (r: Self)
        ensures
            r.ciphertext_order == ciphertext_order,
            r.modulus is None,
            r.depth is None,
            r.bits is None,
            r.moduli is None,
            r.roots_of_unity is None,
            r.big_moduli is None,
            r.big_roots_of_unity is None,
    {
        Self {
            ciphertext_order,
            modulus: None,
            depth: None,
            bits: None,
            moduli: None,
            roots_of_unity: None,
            big_moduli: None,
            big_roots_of_unity: None,
        }
    }

    /// Choose a target composite modulus.
    pub fn modulus(self, modulus: u64) -> (r: Self)
        ensures
            r == (Self { modulus: Some(modulus), ..self }),
    {
        Self { modulus: Some(modulus), ..self }
    }

    /// Choose a target depth.
    pub fn depth(self, depth: usize) -> (r: Self)
        ensures
            r == (Self { depth: Some(depth), ..self }),
    {
        Self { depth: Some(depth), ..self }
    }

    /// Choose a bit budget for each limb.
    pub fn bits(self, bits: usize) -> (r: Self)
        ensures
            r == (Self { bits: Some(bits), ..self }),
    {
        Self { bits: Some(bits), ..self }
    }

    /// Choose explicit limb moduli.
    pub fn moduli(self, moduli: Vec<u64>) -> (r: Self)
        ensures
            r == (Self { moduli: Some(moduli), ..self }),
    {
        Self { moduli: Some(moduli), ..self }
    }

    /// Choose explicit roots of unity.
    pub fn roots_of_unity(self, roots_of_unity: Vec<u64>) -> (r: Self)
        ensures
            r == (Self { roots_of_unity: Some(roots_of_unity), ..self }),
    {
        Self { roots_of_unity: Some(roots_of_unity), ..self }
    }

    /// Choose explicit big moduli.
    pub fn big_moduli(self, big_moduli: Vec<u64>) -> (r: Self)
        ensures
            r == (Self { big_moduli: Some(big_moduli), ..self }),
    {
        Self { big_moduli: Some(big_moduli), ..self }
    }

    /// Choose explicit big roots of unity.
    pub fn big_roots_of_unity(self, big_roots_of_unity: Vec<u64>) -> (r: Self)
        ensures
            r == (Self { big_roots_of_unity: Some(big_roots_of_unity), ..self }),
    {
        Self { big_roots_of_unity: Some(big_roots_of_unity), ..self }
    }

    /// Build the chain. Exactly one accepted input combination may be set;
    /// any other combination, or mismatched vector lengths, is a
    /// configuration error.
    pub fn build(self) -> (r: Result<DcrtElementParams>)
        requires
            self.ciphertext_order <= u64::MAX,
        ensures
            r is Ok ==> r.unwrap().wf(),
            r is Ok ==> r.unwrap().params@.len() >= 1,
            r is Ok ==> self.combination_ok(),
            r == Result::<DcrtElementParams>::Err(Error::DcrtElementParamsMismatch)
                <==> !self.combination_ok(),
            r is Ok ==> forall|i: int|
                0 <= i < r.unwrap().params@.len() ==> (#[trigger] r.unwrap().params@[i]).cyclotomic_order == self.ciphertext_order,
            r is Ok && self.moduli is Some ==> {
                &&& r.unwrap().params@.len() == self.moduli.unwrap()@.len()
                &&& forall|i: int|
                    0 <= i < r.unwrap().params@.len() ==> (#[trigger] r.unwrap().params@[i]).ciphertext_modulus == self.moduli.unwrap()@[i]
                &&& (self.roots_of_unity is Some ==> forall|i: int|
                    0 <= i < r.unwrap().params@.len() ==> (#[trigger] r.unwrap().params@[i]).root_of_unity == self.roots_of_unity.unwrap()@[i])
                &&& (self.big_moduli is Some ==> forall|i: int|
                    0 <= i < r.unwrap().params@.len() ==> (#[trigger] r.unwrap().params@[i]).big_ciphertext_modulus == self.big_moduli.unwrap()@[i]
                        && r.unwrap().params@[i].big_root_of_unity
                        == self.big_roots_of_unity.unwrap()@[i])
            },
            self.explicit_chain_ok() ==> r is Ok,
    {
        match (self.modulus, self.depth, self.bits, self.moduli, self.roots_of_unity,
            self.big_moduli, self.big_roots_of_unity) {
            (Some(modulus), None, None, None, None, None, None) => {
                let order = self.ciphertext_order;
                let mut q = largest_prime_congruent(MAX_MODULUS_SIZE, order)?;
                let first = ElementParams::with_modulus(order, q)?;
                let mut params: VecDeque<ElementParams> = VecDeque::new();
                params.push_back(first);
                let mut composite: u64 = q;
                proof {
                    assert(params@.drop_first().len() == 0);
                    assert(moduli_product(params@.drop_first()) == 1);
                    assert(moduli_product(params@) == first.ciphertext_modulus * moduli_product(
                        params@.drop_first()));
                    assert(composite as int == moduli_product(params@)) by (nonlinear_arith)
                        requires
                            moduli_product(params@) == first.ciphertext_modulus * 1,
                            composite == first.ciphertext_modulus,
                    ;
                }
                let mut guard: u64 = 0;
                while composite < modulus && guard < 64
                    invariant
                        self.modulus is Some,
                        self.depth is None,
                        self.bits is None,
                        self.moduli is None,
                        self.roots_of_unity is None,
                        self.big_moduli is None,
                        self.big_roots_of_unity is None,
                        order == self.ciphertext_order,
                        1 <= order <= u64::MAX,
                        composite as int == moduli_product(params@),
                        forall|i: int| 0 <= i < params@.len() ==> #[trigger] params@[i].wf(),
                        forall|i: int|
                            0 <= i < params@.len() ==> (#[trigger] params@[i]).cyclotomic_order
                                == order,
                        params@.len() >= 1,
                        q >= 1,
                    decreases 64 - guard,
                {
                    q = previous_prime(q, order)?;
                    let limb = ElementParams::with_modulus(order, q)?;
                    let ghost pre = params@;
                    params.push_back(limb);
                    proof {
                        assert(params@ == pre.push(limb));
                        assert(params@.drop_last() =~= pre);
                        lemma_moduli_product_drop_last(params@);
                    }
                    composite = mul_checked(composite, limb.ciphertext_modulus)?;
                    guard = guard + 1;
                }
                if composite < modulus {
                    return Err(Error::RetryLimitExceeded);
                }
                Ok(DcrtElementParams { params, ciphertext_composite_modulus: composite })
            },
            (None, Some(depth), bits, None, None, None, None) => {
                let order = self.ciphertext_order;
                let search_bits: usize = match bits {
                    Some(b) => b,
                    None => MAX_MODULUS_SIZE,
                };
                if search_bits > MAX_MODULUS_SIZE {
                    return Err(Error::DcrtElementParamsMismatch);
                }
                let mut q = largest_prime_congruent(search_bits, order)?;
                let first = ElementParams::with_modulus(order, q)?;
                let mut params: VecDeque<ElementParams> = VecDeque::new();
                params.push_back(first);
                let mut composite: u64 = q;
                proof {
                    assert(params@.drop_first().len() == 0);
                    assert(moduli_product(params@.drop_first()) == 1);
                    assert(moduli_product(params@) == first.ciphertext_modulus * moduli_product(
                        params@.drop_first()));
                    assert(composite as int == moduli_product(params@)) by (nonlinear_arith)
                        requires
                            moduli_product(params@) == first.ciphertext_modulus * 1,
                            composite == first.ciphertext_modulus,
                    ;
                }
                let mut level: usize = 1;
                while level < depth
                    invariant
                        self.modulus is None,
                        self.depth is Some,
                        self.moduli is None,
                        self.roots_of_unity is None,
                        self.big_moduli is None,
                        self.big_roots_of_unity is None,
                        self.bits is Some ==> self.bits.unwrap() <= MAX_MODULUS_SIZE,
                        order == self.ciphertext_order,
                        1 <= order <= u64::MAX,
                        composite as int == moduli_product(params@),
                        forall|i: int| 0 <= i < params@.len() ==> #[trigger] params@[i].wf(),
                        forall|i: int|
                            0 <= i < params@.len() ==> (#[trigger] params@[i]).cyclotomic_order
                                == order,
                        params@.len() >= 1,
                        q >= 1,
                    decreases depth - level,
                {
                    q = previous_prime(q, order)?;
                    let limb = ElementParams::with_modulus(order, q)?;
                    let ghost pre = params@;
                    params.push_back(limb);
                    proof {
                        assert(params@ == pre.push(limb));
                        assert(params@.drop_last() =~= pre);
                        lemma_moduli_product_drop_last(params@);
                    }
                    composite = mul_checked(composite, limb.ciphertext_modulus)?;
                    level = level + 1;
                }
                Ok(DcrtElementParams { params, ciphertext_composite_modulus: composite })
            },
            (None, None, None, Some(moduli), roots, big_moduli, big_roots) => {
                let order = self.ciphertext_order;
                let explicit_roots = match (&roots, &big_moduli, &big_roots) {
                    (None, None, None) => false,
                    (Some(r), None, None) => {
                        if r.len() != moduli.len() {
                            return Err(Error::DcrtElementParamsMismatch);
                        }
                        true
                    },
                    (Some(r), Some(bm), Some(br)) => {
                        if r.len() != moduli.len() || bm.len() != moduli.len() || br.len()
                            != moduli.len() {
                            return Err(Error::DcrtElementParamsMismatch);
                        }
                        true
                    },
                    _ => {
                        return Err(Error::DcrtElementParamsMismatch);
                    },
                };
                if moduli.len() == 0 {
                    return Err(Error::DcrtElementParamsMismatch);
                }
                if order < 1 {
                    proof {
                        assert(!self.explicit_chain_ok());
                    }
                    return Err(Error::NotPowerOfTwo);
                }
                let mut params: VecDeque<ElementParams> = VecDeque::new();
                let mut composite: u64 = 1;
                let mut i: usize = 0;
                proof {
                    assert(moduli_product(params@) == 1);
                    assert(moduli@.take(0).len() == 0);
                }
                while i < moduli.len()
                    invariant
                        self.modulus is None,
                        self.depth is None,
                        self.bits is None,
                        self.moduli == Option::<Vec<u64>>::Some(moduli),
                        self.roots_of_unity == roots,
                        self.big_moduli == big_moduli,
                        self.big_roots_of_unity == big_roots,
                        moduli@.len() >= 1,
                        order == self.ciphertext_order,
                        1 <= order <= u64::MAX,
                        composite as int == moduli_product(params@),
                        composite as int == u64_seq_product(moduli@.take(i as int)),
                        forall|j: int| 0 <= j < params@.len() ==> #[trigger] params@[j].wf(),
                        forall|j: int|
                            0 <= j < params@.len() ==> (#[trigger] params@[j]).cyclotomic_order
                                == order,
                        forall|j: int|
                            0 <= j < params@.len() ==> (#[trigger] params@[j]).ciphertext_modulus
                                == moduli@[j],
                        explicit_roots <==> roots is Some,
                        explicit_roots ==> (match roots {
                            Some(ref r) => r.len() == moduli.len() && forall|j: int|
                                0 <= j < params@.len()
                                    ==> (#[trigger] params@[j]).root_of_unity == r@[j],
                            None => false,
                        }),
                        (match (&big_moduli, &big_roots) {
                            (Some(ref bm), Some(ref br)) => bm.len() == moduli.len() && br.len()
                                == moduli.len() && explicit_roots && forall|j: int|
                                0 <= j < params@.len()
                                    ==> (#[trigger] params@[j]).big_ciphertext_modulus == bm@[j]
                                    && params@[j].big_root_of_unity == br@[j],
                            (None, None) => true,
                            _ => false,
                        }),
                        params@.len() == i,
                        i <= moduli.len(),
                    decreases moduli.len() - i,
                {
                    let m: u64 = moduli[i];
                    let limb_result = if explicit_roots {
                        let root: u64 = match roots {
                            Some(ref r) => r[i],
                            None => {
                                return Err(Error::DcrtElementParamsMismatch);
                            },
                        };
                        match (&big_moduli, &big_roots) {
                            (Some(bm), Some(br)) => ElementParams::with_big_ciphertext_params(
                                order, m, root, bm[i], br[i]),
                            _ => ElementParams::with_ciphertext_root_of_unity(order, m, root),
                        }
                    } else {
                        ElementParams::with_modulus(order, m)
                    };
                    let limb = match limb_result {
                        Ok(l) => l,
                        Err(e) => {
                            proof {
                                // A rejected limb contradicts the fully valid
                                // explicit input mode.
                                if self.explicit_chain_ok() {
                                    assert(false);
                                }
                            }
                            return Err(e);
                        },
                    };
                    let ghost pre = params@;
                    params.push_back(limb);
                    proof {
                        assert(params@ == pre.push(limb));
                        assert(params@.drop_last() =~= pre);
                        lemma_moduli_product_drop_last(params@);
                    }
                    let next_composite = match mul_checked(composite, limb.ciphertext_modulus) {
                        Ok(v) => v,
                        Err(e) => {
                            proof {
                                // An overflowing prefix contradicts the whole
                                // product fitting in one word.
                                if self.explicit_chain_ok() {
                                    lemma_u64_seq_product_split(moduli@, i + 1);
                                    lemma_u64_seq_product_split(moduli@.take(i + 1), i as int);
                                    assert(moduli@.take(i + 1).take(i as int) =~= moduli@.take(
                                        i as int));
                                    assert(moduli@.take(i + 1).skip(i as int) =~= seq![
                                        moduli@[i as int],
                                    ]);
                                    assert(u64_seq_product(seq![moduli@[i as int]])
                                        == moduli@[i as int] * 1) by {
                                        assert(seq![moduli@[i as int]].drop_first().len() == 0);
                                        assert(u64_seq_product(
                                            seq![moduli@[i as int]].drop_first()) == 1);
                                    }
                                    assert(u64_seq_product(moduli@.take(i + 1)) == (
                                    composite as int) * (m as int)) by (nonlinear_arith)
                                        requires
                                            u64_seq_product(moduli@.take(i + 1))
                                                == u64_seq_product(moduli@.take(i as int)) * (
                                            moduli@[i as int] * 1),
                                            composite as int == u64_seq_product(moduli@.take(
                                                i as int)),
                                            m == moduli@[i as int],
                                    ;
                                    assert(forall|j: int|
                                        0 <= j < moduli@.skip(i + 1).len()
                                            ==> #[trigger] moduli@.skip(i + 1)[j] >= 1);
                                    lemma_u64_seq_product_parts(moduli@.skip(i + 1));
                                    assert(u64_seq_product(moduli@) >= u64_seq_product(
                                        moduli@.take(i + 1))) by (nonlinear_arith)
                                        requires
                                            u64_seq_product(moduli@) == u64_seq_product(
                                                moduli@.take(i + 1)) * u64_seq_product(
                                                moduli@.skip(i + 1)),
                                            u64_seq_product(moduli@.skip(i + 1)) >= 1,
                                            u64_seq_product(moduli@.take(i + 1)) >= 0,
                                    ;
                                    assert(false);
                                }
                            }
                            return Err(e);
                        },
                    };
                    composite = next_composite;
                    proof {
                        lemma_u64_seq_product_split(moduli@.take(i + 1), i as int);
                        assert(moduli@.take(i + 1).take(i as int) =~= moduli@.take(i as int));
                        assert(moduli@.take(i + 1).skip(i as int) =~= seq![moduli@[i as int]]);
                        assert(u64_seq_product(seq![moduli@[i as int]]) == moduli@[i as int] * 1)
                            by {
                            assert(seq![moduli@[i as int]].drop_first().len() == 0);
                            assert(u64_seq_product(seq![moduli@[i as int]].drop_first()) == 1);
                        }
                        assert(composite as int == u64_seq_product(moduli@.take(i + 1)))
                            by (nonlinear_arith)
                            requires
                                u64_seq_product(moduli@.take(i + 1)) == u64_seq_product(
                                    moduli@.take(i as int)) * (moduli@[i as int] * 1),
                                composite as int == u64_seq_product(moduli@.take(i as int)) * (
                                m as int),
                                m == moduli@[i as int],
                        ;
                    }
                    i = i + 1;
                }
                Ok(DcrtElementParams { params, ciphertext_composite_modulus: composite })
            },
            _ => Err(Error::DcrtElementParamsMismatch),
        }
    }
}

/// One row of the standard lattice security tables.
#[derive(Debug, Clone, Copy, PartialEq, Eq, Structural)]
pub struct LatticeParams {
    /// The secret distribution the row assumes.
    pub distribution_type: DistributionType,
    /// The ring dimension.
    pub ring_dimension: usize,
    /// The minimum security level the row guarantees.
    pub min_security_level: SecurityLevel,
    /// The largest log2 of the composite modulus the row admits.
    pub max_log_q: usize,
}

/// The standard table rows for one distribution and security level, as
/// `(ring_dimension, max_log_q)` pairs in increasing order.
fn security_table(
    distribution_type: DistributionType,
    security_level: SecurityLevel,
) -> (r: Vec<(usize, usize)>)
    ensures
        forall|i: int, j: int|
            0 <= i < j < r@.len() ==> (#[trigger] r@[i]).0 < (#[trigger] r@[j]).0 && r@[i].1
                <= r@[j].1,
{
    match (distribution_type, security_level) {
        (DistributionType::Uniform, SecurityLevel::HeStd128Classic) => vec![
            (1024, 29),
            (2048, 56),
            (4096, 111),
            (8192, 220),
            (16384, 440),
            (32768, 880),
        ],
        (DistributionType::Uniform, SecurityLevel::HeStd192Classic) => vec![
            (1024, 21),
            (2048, 39),
            (4096, 77),
            (8192, 154),
            (16384, 307),
            (32768, 612),
        ],
        (DistributionType::Uniform, SecurityLevel::HeStd256Classic) => vec![
            (1024, 16),
            (2048, 31),
            (4096, 60),
            (8192, 120),
            (16384, 239),
            (32768, 478),
        ],
        (DistributionType::Uniform, SecurityLevel::HeStd128Quantum) => vec![
            (1024, 27),
            (2048, 53),
            (4096, 103),
            (8192, 206),
            (16384, 413),
            (32768, 829),
        ],
        (DistributionType::Uniform, SecurityLevel::HeStd192Quantum) => vec![
            (1024, 19),
            (2048, 37),
            (4096, 72),
            (8192, 143),
            (16384, 286),
            (32768, 573),
        ],
        (DistributionType::Uniform, SecurityLevel::HeStd256Quantum) => vec![
            (1024, 15),
            (2048, 29),
            (4096, 56),
            (8192, 111),
            (16384, 222),
            (32768, 445),
        ],
        (DistributionType::Error, SecurityLevel::HeStd128Classic) => vec![
            (1024, 29),
            (2048, 56),
            (4096, 111),
            (8192, 220),
            (16384, 440),
            (32768, 883),
            (65536, 1749),
            (131072, 3525),
        ],
        (DistributionType::Error, SecurityLevel::HeStd192Classic) => vec![
            (1024, 21),
            (2048, 39),
            (4096, 77),
            (8192, 154),
            (16384, 307),
            (32768, 613),
            (65536, 1201),
            (131072, 2413),
        ],
        (DistributionType::Error, SecurityLevel::HeStd256Classic) => vec![
            (1024, 16),
            (2048, 31),
            (4096, 60),
            (8192, 120),
            (16384, 239),
            (32768, 478),
            (65536, 931),
            (131072, 1868),
        ],
        (DistributionType::Error, SecurityLevel::HeStd128Quantum) => vec![
            (1024, 27),
            (2048, 53),
            (4096, 103),
            (8192, 206),
            (16384, 413),
            (32768, 829),
            (65536, 1665),
            (131072, 3351),
        ],
        (DistributionType::Error, SecurityLevel::HeStd192Quantum) => vec![
            (1024, 19),
            (2048, 37),
            (4096, 72),
            (8192, 143),
            (16384, 286),
            (32768, 573),
            (65536, 1147),
            (131072, 2304),
        ],
        (DistributionType::Error, SecurityLevel::HeStd256Quantum) => vec![
            (1024, 15),
            (2048, 29),
            (4096, 56),
            (8192, 111),
            (16384, 222),
            (32768, 445),
            (65536, 890),
            (131072, 1786),
        ],
        (DistributionType::Ternary, SecurityLevel::HeStd128Classic) => vec![
            (1024, 27),
            (2048, 54),
            (4096, 109),
            (8192, 218),
            (16384, 438),
            (32768, 881),
            (65536, 1747),
            (131072, 3523),
        ],
        (DistributionType::Ternary, SecurityLevel::HeStd192Classic) => vec![
            (1024, 19),
            (2048, 37),
            (4096, 75),
            (8192, 152),
            (16384, 305),
            (32768, 611),
            (65536, 1199),
            (131072, 2411),
        ],
        (DistributionType::Ternary, SecurityLevel::HeStd256Classic) => vec![
            (1024, 14),
            (2048, 29),
            (4096, 58),
            (8192, 118),
            (16384, 237),
            (32768, 476),
            (65536, 929),
            (131072, 1866),
        ],
        (DistributionType::Ternary, SecurityLevel::HeStd128Quantum) => vec![
            (1024, 25),
            (2048, 51),
            (4096, 101),
            (8192, 202),
            (16384, 411),
            (32768, 827),
            (65536, 1663),
            (131072, 3348),
        ],
        (DistributionType::Ternary, SecurityLevel::HeStd192Quantum) => vec![
            (1024, 17),
            (2048, 35),
            (4096, 70),
            (8192, 141),
            (16384, 284),
            (32768, 571),
            (65536, 1145),
            (131072, 2301),
        ],
        (DistributionType::Ternary, SecurityLevel::HeStd256Quantum) => vec![
            (1024, 13),
            (2048, 27),
            (4096, 54),
            (8192, 109),
            (16384, 220),
            (32768, 443),
            (65536, 888),
            (131072, 1784),
        ],
        (_, SecurityLevel::HeStdNotSet) => Vec::new(),
    }
}

impl LatticeParams {
    /// The largest admissible log2 of the modulus for the given distribution,
    /// security level and ring dimension; zero when the tables have no row
    /// for that dimension.
    pub fn find_max_q(
        distribution_type: DistributionType,
        security_level: SecurityLevel,
        ring_dimension: usize,
    ) -> usize {
        let table = security_table(distribution_type, security_level);
        let mut i: usize = 0;
        while i < table.len()
            decreases table@.len() - i,
        {
            let (dim, log_q): (usize, usize) = table[i];
            if dim == ring_dimension {
                return log_q;
            }
            i = i + 1;
        }
        0
    }

    /// The smallest tabled ring dimension whose modulus budget covers
    /// `current_log_q`; twice the largest tabled dimension when none does.
    pub fn find_ring_dimension(
        distribution_type: DistributionType,
        security_level: SecurityLevel,
        current_log_q: usize,
    ) -> usize {
        let table = security_table(distribution_type, security_level);
        let mut prev: usize = 0;
        let mut n: usize = 0;
        let mut i: usize = 0;
        while i < table.len()
            invariant
                n <= 131072,
                i <= table@.len(),
            decreases table@.len() - i,
        {
            let (dim, log_q): (usize, usize) = table[i];
            if current_log_q <= log_q && current_log_q > prev {
                return dim;
            }
            prev = log_q;
            if dim <= 131072 {
                n = dim;
            }
            i = i + 1;
        }
        n * 2
    }
}

} // verus!
