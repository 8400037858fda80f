//! Ring elements of Z_q[x]/(x^N + 1): coefficient/evaluation polynomials
//! over a modular vector, with negation, arithmetic, automorphisms, gadget
//! decomposition, modulus switching and NTT-based multiplication.

use vstd::prelude::*;
use vstd::pervasive::VecAdditionalExecFns;
use crate::arith::{gcd, mod_add, mod_inv, mod_mul, mod_neg, mod_pow, mod_sub, pow_mod};
use crate::constants::PolynomialRingFormat;
use crate::error::{Error, Result};
use crate::params::ElementParams;
use crate::vecmod::{centered_parity, switch_val, VecMod, MODULUS_CEILING};

verus! {

/// The centered absolute value of a residue: its distance to zero when read
/// as a signed representative.
pub open spec fn centered_abs(v: nat, q: nat) -> nat
    recommends
        q > 1,
        v < q,
{
    if v > q / 2 {
        (q - v) as nat
    } else {
        v
    }
}

/// The largest centered absolute value in a sequence of residues.
pub open spec fn max_centered_abs(s: Seq<u64>, q: nat) -> nat
    decreases s.len(),
{
    if s.len() == 0 {
        0
    } else {
        let tail = max_centered_abs(s.drop_first(), q);
        let head = centered_abs(s[0] as nat, q);
        if head >= tail {
            head
        } else {
            tail
        }
    }
}

/// A polynomial ring element: a format tag, its parameter set, and one
/// residue per coefficient slot.
#[derive(Debug, Clone)]
pub struct Poly {
    /// Whether the values are coefficients or evaluations.
    pub format: PolynomialRingFormat,
    /// The ring parameters.
    pub params: ElementParams,
    /// The coefficient or evaluation values.
    pub values: VecMod,
}

impl Poly {
    /// Well-formedness: valid parameters, reduced values under the
    /// parameters' modulus, one value per ring dimension slot.
    pub open spec fn wf(self) -> bool {
        &&& self.params.wf()
        &&& self.values.wf()
        &&& self.values.modulus == self.params.ciphertext_modulus
        &&& self.values.values@.len() == self.params.ring_dimension
    }

    /// The all-zero element, in the default evaluation format.
    pub fn zero(params: ElementParams) -> (r: Poly)
        requires
            params.wf(),
        ensures
            r.wf(),
            r.params == params,
            r.format == PolynomialRingFormat::Evaluation,
            forall|i: int| 0 <= i < r.values.values@.len() ==> #[trigger] r.values.values@[i] == 0,
    {
        Poly {
            format: PolynomialRingFormat::Evaluation,
            params,
            values: VecMod::with_value(params.ring_dimension, 0, params.ciphertext_modulus),
        }
    }

    /// The element with every slot at `modulus - 1`, in the default
    /// evaluation format.
    pub fn max(params: ElementParams) -> (r: Poly)
        requires
            params.wf(),
        ensures
            r.wf(),
            r.params == params,
            r.format == PolynomialRingFormat::Evaluation,
            forall|i: int|
                0 <= i < r.values.values@.len() ==> #[trigger] r.values.values@[i]
                    == params.ciphertext_modulus - 1,
    {
        let m: u64 = params.ciphertext_modulus;
        proof {
            vstd::arithmetic::div_mod::lemma_small_mod((m - 1) as nat, m as nat);
        }
        Poly {
            format: PolynomialRingFormat::Evaluation,
            params,
            values: VecMod::with_value(params.ring_dimension, m - 1, m),
        }
    }

    /// Zero every slot in place.
    pub fn set_zero(&mut self)
        requires
            old(self).wf(),
        ensures
            final(self).wf(),
            final(self).params == old(self).params,
            final(self).format == old(self).format,
            final(self).values.values@.len() == old(self).values.values@.len(),
            forall|i: int|
                0 <= i < final(self).values.values@.len() ==> #[trigger] final(self).values.values@[i] == 0,
    {
        let n: usize = self.values.values.len();
        let mut i: usize = 0;
        while i < n
            invariant
                old(self).wf(),
                self.params == old(self).params,
                self.format == old(self).format,
                self.values.modulus == old(self).values.modulus,
                n == self.values.values@.len(),
                n == old(self).values.values@.len(),
                i <= n,
                forall|j: int| 0 <= j < i ==> #[trigger] self.values.values@[j] == 0,
                forall|j: int|
                    i <= j < n ==> #[trigger] self.values.values@[j] == old(self).values.values@[j],
            decreases n - i,
        {
            self.values.values.set(i, 0);
            i = i + 1;
        }
    }

    /// Set every slot to `modulus - 1` in place.
    pub fn set_max(&mut self)
        requires
            old(self).wf(),
        ensures
            final(self).wf(),
            final(self).params == old(self).params,
            final(self).format == old(self).format,
            final(self).values.values@.len() == old(self).values.values@.len(),
            forall|i: int|
                0 <= i < final(self).values.values@.len() ==> #[trigger] final(self).values.values@[i] == old(self).params.ciphertext_modulus - 1,
    {
        let m: u64 = self.params.ciphertext_modulus;
        let n: usize = self.values.values.len();
        let mut i: usize = 0;
        while i < n
            invariant
                old(self).wf(),
                self.params == old(self).params,
                self.format == old(self).format,
                self.values.modulus == old(self).values.modulus,
                m == self.params.ciphertext_modulus,
                m > 1,
                n == self.values.values@.len(),
                n == old(self).values.values@.len(),
                i <= n,
                forall|j: int| 0 <= j < i ==> #[trigger] self.values.values@[j] == m - 1,
                forall|j: int|
                    i <= j < n ==> #[trigger] self.values.values@[j] == old(self).values.values@[j],
            decreases n - i,
        {
            self.values.values.set(i, m - 1);
            i = i + 1;
        }
    }

    /// Build an element from signed noise values, mapping each to its
    /// residue modulo the ciphertext modulus.
    pub fn from_signed_values(
        params: ElementParams,
        format: PolynomialRingFormat,
        noise: &[i64],
    ) -> (r: Poly)
        requires
            params.wf(),
            noise@.len() == params.ring_dimension,
        ensures
            r.wf(),
            r.params == params,
            r.format == format,
            forall|i: int|
                0 <= i < noise@.len() ==> #[trigger] r.values.values@[i] as int == (noise@[i] as int)
                    % (params.ciphertext_modulus as int),
    {
        let m: u64 = params.ciphertext_modulus;
        let mut values: Vec<u64> = Vec::new();
        let mut i: usize = 0;
        while i < noise.len()
            invariant
                params.wf(),
                m == params.ciphertext_modulus,
                i <= noise@.len(),
                values@.len() == i,
                forall|j: int| 0 <= j < i ==> #[trigger] values@[j] < m,
                forall|j: int|
                    0 <= j < i ==> #[trigger] values@[j] as int == (noise@[j] as int) % (m as int),
            decreases noise@.len() - i,
        {
            let v: i64 = noise[i];
            let reduced: u64 = signed_residue(v, m);
            values.push(reduced);
            i = i + 1;
        }
        Poly { format, params, values: VecMod { values, modulus: m } }
    }

    /// A noise element drawn slot by slot from a discrete Gaussian sampler,
    /// mapped through the signed-residue conversion.
    pub fn discrete_gaussian(
        params: ElementParams,
        format: PolynomialRingFormat,
        sampler: &mut crate::sampler::DiscreteGaussianGeneric,
    ) -> (r: Result<Poly>)
        requires
            params.wf(),
            old(sampler).wf(),
        ensures
            final(sampler).wf(),
            r is Ok ==> r.unwrap().wf(),
            r is Ok ==> r.unwrap().params == params,
            r is Ok ==> r.unwrap().format == format,
    {
        let n: usize = params.ring_dimension;
        let mut noise: Vec<i64> = Vec::new();
        let mut i: usize = 0;
        while i < n
            invariant
                sampler.wf(),
                i <= n,
                noise@.len() == i,
            decreases n - i,
        {
            let v = sampler.random_i64()?;
            noise.push(v);
            i = i + 1;
        }
        Ok(Poly::from_signed_values(params, format, noise.as_slice()))
    }

    /// The format tag.
    pub fn format(&self) -> (r: PolynomialRingFormat)
        ensures
            r == self.format,
    {
        self.format
    }

    /// Whether the element has no slots.
    pub fn is_empty(&self) -> (r: bool)
        ensures
            r == (self.values.values@.len() == 0),
    {
        self.values.is_empty()
    }

    /// The number of slots.
    pub fn len(&self) -> (r: usize)
        ensures
            r == self.values.values@.len(),
    {
        self.values.len()
    }

    /// The ciphertext modulus.
    pub fn modulus(&self) -> (r: u64)
        ensures
            r == self.params.ciphertext_modulus,
    {
        self.params.ciphertext_modulus
    }

    /// The raw values.
    pub fn values(&self) -> (r: &Vec<u64>)
        ensures
            r@ == self.values.values@,
    {
        &self.values.values
    }

    /// The cyclotomic order.
    pub fn cyclotomic_order(&self) -> (r: usize)
        ensures
            r == self.params.cyclotomic_order,
    {
        self.params.cyclotomic_order
    }

    /// Overwrite the slots with the given machine words, each reduced
    /// modulo the ciphertext modulus.
    pub fn set_values(&mut self, values: &[u64])
        requires
            old(self).wf(),
            values@.len() == old(self).values.values@.len(),
        ensures
            final(self).wf(),
            final(self).params == old(self).params,
            final(self).format == old(self).format,
            final(self).values.values@.len() == old(self).values.values@.len(),
            forall|i: int|
                0 <= i < values@.len() ==> #[trigger] final(self).values.values@[i] == values@[i]
                    % old(self).params.ciphertext_modulus,
    {
        let m: u64 = self.params.ciphertext_modulus;
        let n: usize = self.values.values.len();
        let mut i: usize = 0;
        while i < n
            invariant
                old(self).wf(),
                self.params == old(self).params,
                self.format == old(self).format,
                self.values.modulus == old(self).values.modulus,
                m == self.params.ciphertext_modulus,
                m > 1,
                n == self.values.values@.len(),
                n == old(self).values.values@.len(),
                n == values@.len(),
                i <= n,
                forall|j: int| 0 <= j < i ==> #[trigger] self.values.values@[j] == values@[j] % m,
                forall|j: int| 0 <= j < i ==> #[trigger] self.values.values@[j] < m,
                forall|j: int|
                    i <= j < n ==> #[trigger] self.values.values@[j] == old(self).values.values@[j],
            decreases n - i,
        {
            let v: u64 = values[i];
            self.values.values.set(i, v % m);
            i = i + 1;
        }
    }

    /// Negate every slot.
    pub fn neg(&self) -> (r: Poly)
        requires
            self.wf(),
        ensures
            r.wf(),
            r.params == self.params,
            r.format == self.format,
            r.values.values@.len() == self.values.values@.len(),
            forall|i: int|
                0 <= i < self.values.values@.len() ==> #[trigger] r.values.values@[i] as int == (0
                    - self.values.values@[i]) % (self.params.ciphertext_modulus as int),
    {
        let m: u64 = self.params.ciphertext_modulus;
        let n: usize = self.values.values.len();
        let mut out: Vec<u64> = Vec::new();
        let mut i: usize = 0;
        while i < n
            invariant
                self.wf(),
                m == self.params.ciphertext_modulus,
                n == self.values.values@.len(),
                i <= n,
                out@.len() == i,
                forall|j: int| 0 <= j < i ==> #[trigger] out@[j] < m,
                forall|j: int|
                    0 <= j < i ==> #[trigger] out@[j] as int == (0 - self.values.values@[j]) % (
                    m as int),
            decreases n - i,
        {
            let v: u64 = self.values.values[i];
            out.push(mod_neg(v, m));
            i = i + 1;
        }
        Poly { format: self.format, params: self.params, values: VecMod { values: out, modulus: m } }
    }

    /// Add another element slot by slot. Both operands must share the same
    /// parameters and format.
    pub fn add_assign(&mut self, rhs: &Poly)
        requires
            old(self).wf(),
            rhs.wf(),
            old(self).params == rhs.params,
            old(self).format == rhs.format,
        ensures
            final(self).wf(),
            final(self).params == old(self).params,
            final(self).format == old(self).format,
            final(self).values.values@.len() == old(self).values.values@.len(),
            forall|i: int|
                0 <= i < old(self).values.values@.len() ==> #[trigger] final(self).values.values@[i] as int == (old(self).values.values@[i]
                    + rhs.values.values@[i]) % (old(self).params.ciphertext_modulus as int),
    {
        self.values.add_assign(&rhs.values);
    }

    /// Subtract another element slot by slot. Both operands must share the
    /// same parameters and format.
    pub fn sub_assign(&mut self, rhs: &Poly)
        requires
            old(self).wf(),
            rhs.wf(),
            old(self).params == rhs.params,
            old(self).format == rhs.format,
        ensures
            final(self).wf(),
            final(self).params == old(self).params,
            final(self).format == old(self).format,
            final(self).values.values@.len() == old(self).values.values@.len(),
            forall|i: int|
                0 <= i < old(self).values.values@.len() ==> #[trigger] final(self).values.values@[i] as int == (old(self).values.values@[i]
                    - rhs.values.values@[i]) % (old(self).params.ciphertext_modulus as int),
    {
        self.values.sub_assign(&rhs.values);
    }

    /// Add a scalar: to the constant slot in coefficient format, to every
    /// slot in evaluation format.
    pub fn add_scalar_assign(&mut self, rhs: u64)
        requires
            old(self).wf(),
            rhs < old(self).params.ciphertext_modulus,
            old(self).values.values@.len() >= 1,
        ensures
            final(self).wf(),
            final(self).params == old(self).params,
            final(self).format == old(self).format,
            final(self).values.values@.len() == old(self).values.values@.len(),
            old(self).format == PolynomialRingFormat::Coefficient ==> {
                &&& final(self).values.values@[0] as int == (old(self).values.values@[0] + rhs) % (
                old(self).params.ciphertext_modulus as int)
                &&& forall|i: int|
                    1 <= i < old(self).values.values@.len() ==> #[trigger] final(self).values.values@[i] == old(self).values.values@[i]
            },
            old(self).format == PolynomialRingFormat::Evaluation ==> forall|i: int|
                0 <= i < old(self).values.values@.len() ==> #[trigger] final(self).values.values@[i] as int == (old(self).values.values@[i] + rhs) % (old(self).params.ciphertext_modulus as int),
    {
        let m: u64 = self.params.ciphertext_modulus;
        match self.format {
            PolynomialRingFormat::Coefficient => {
                let v: u64 = self.values.values[0];
                self.values.values.set(0, mod_add(v, rhs, m));
            },
            PolynomialRingFormat::Evaluation => {
                self.values.add_scalar_assign(rhs);
            },
        }
    }

    /// Subtract a scalar from every slot.
    pub fn sub_scalar_assign(&mut self, rhs: u64)
        requires
            old(self).wf(),
            rhs < old(self).params.ciphertext_modulus,
        ensures
            final(self).wf(),
            final(self).params == old(self).params,
            final(self).format == old(self).format,
            final(self).values.values@.len() == old(self).values.values@.len(),
            forall|i: int|
                0 <= i < old(self).values.values@.len() ==> #[trigger] final(self).values.values@[i] as int == (old(self).values.values@[i] - rhs) % (old(self).params.ciphertext_modulus as int),
    {
        self.values.sub_scalar_assign(rhs);
    }

    /// Multiply every slot by a scalar.
    pub fn mul_scalar_assign(&mut self, rhs: u64)
        requires
            old(self).wf(),
            rhs < old(self).params.ciphertext_modulus,
        ensures
            final(self).wf(),
            final(self).params == old(self).params,
            final(self).format == old(self).format,
            final(self).values.values@.len() == old(self).values.values@.len(),
            forall|i: int|
                0 <= i < old(self).values.values@.len() ==> #[trigger] final(self).values.values@[i] as int == (old(self).values.values@[i] * rhs) % (old(self).params.ciphertext_modulus as int),
    {
        self.values.mul_scalar_assign(rhs);
    }

    /// Divide every slot by a scalar through its modular inverse. Fails
    /// exactly when the scalar shares a factor with the modulus.
    pub fn div_scalar_assign(&mut self, rhs: u64) -> (r: Result<()>)
        requires
            old(self).wf(),
            rhs < old(self).params.ciphertext_modulus,
        ensures
            final(self).wf(),
            final(self).params == old(self).params,
            final(self).format == old(self).format,
            final(self).values.values@.len() == old(self).values.values@.len(),
            r is Ok <==> gcd(rhs as nat, old(self).params.ciphertext_modulus as nat) == 1,
            r is Ok ==> forall|i: int|
                0 <= i < old(self).values.values@.len() ==> (#[trigger] final(self).values.values@[i] * rhs) % (old(self).params.ciphertext_modulus as int) == (old(self).values.values@[i] as int) % (old(self).params.ciphertext_modulus as int),
    {
        self.values.div_scalar_assign(rhs)
    }

    /// Elementwise multiplicative inverse; `None` exactly when a slot shares
    /// a factor with the modulus (for a prime modulus, when a slot is zero).
    pub fn inverse(&self) -> (r: Option<Poly>)
        requires
            self.wf(),
        ensures
            r is Some ==> {
                &&& r.unwrap().wf()
                &&& r.unwrap().params == self.params
                &&& r.unwrap().format == self.format
                &&& r.unwrap().values.values@.len() == self.values.values@.len()
                &&& forall|i: int|
                    0 <= i < self.values.values@.len() ==> (self.values.values@[i] as int
                        * #[trigger] r.unwrap().values.values@[i] as int) % (
                    self.params.ciphertext_modulus as int) == 1
            },
            r is Some <==> forall|i: int|
                0 <= i < self.values.values@.len() ==> gcd(
                    #[trigger] self.values.values@[i] as nat,
                    self.params.ciphertext_modulus as nat,
                ) == 1,
    {
        match self.values.inverse() {
            Some(values) => Some(
                Poly { format: self.format, params: self.params, values },
            ),
            None => None,
        }
    }

    /// The infinity norm: the largest centered absolute value over all slots.
    pub fn norm(&self) -> (r: u64)
        requires
            self.wf(),
        ensures
            r == max_centered_abs(self.values.values@, self.params.ciphertext_modulus as nat),
    {
        let q: u64 = self.params.ciphertext_modulus;
        let half: u64 = q / 2;
        let n: usize = self.values.values.len();
        let mut best: u64 = 0;
        let mut i: usize = 0;
        proof {
            assert(self.values.values@.skip(0) =~= self.values.values@);
        }
        while i < n
            invariant
                self.wf(),
                q == self.params.ciphertext_modulus,
                half == q / 2,
                n == self.values.values@.len(),
                i <= n,
                max_centered_abs(self.values.values@, q as nat) == if best
                    >= max_centered_abs(self.values.values@.skip(i as int), q as nat) {
                    best as nat
                } else {
                    max_centered_abs(self.values.values@.skip(i as int), q as nat)
                },
                best <= q,
            decreases n - i,
        {
            let v: u64 = self.values.values[i];
            let c: u64 = if v > half {
                q - v
            } else {
                v
            };
            proof {
                let s = self.values.values@.skip(i as int);
                assert(s.drop_first() =~= self.values.values@.skip(i + 1));
                assert(s[0] == self.values.values@[i as int]);
                assert(max_centered_abs(s, q as nat) == if centered_abs(s[0] as nat, q as nat)
                    >= max_centered_abs(s.drop_first(), q as nat) {
                    centered_abs(s[0] as nat, q as nat)
                } else {
                    max_centered_abs(s.drop_first(), q as nat)
                });
            }
            if c > best {
                best = c;
            }
            i = i + 1;
        }
        proof {
            assert(self.values.values@.skip(n as int).len() == 0);
            assert(max_centered_abs(self.values.values@.skip(n as int), q as nat) == 0);
        }
        best
    }

    /// Zero every slot whose index is not a multiple of `w_factor`.
    pub fn make_sparse(&mut self, w_factor: usize)
        requires
            old(self).wf(),
            w_factor >= 1,
        ensures
            final(self).wf(),
            final(self).params == old(self).params,
            final(self).format == old(self).format,
            final(self).values.values@.len() == old(self).values.values@.len(),
            forall|i: int|
                0 <= i < old(self).values.values@.len() ==> #[trigger] final(self).values.values@[i] == (if i % (w_factor as int) == 0 {
                    old(self).values.values@[i]
                } else {
                    0u64
                }),
    {
        let n: usize = self.values.values.len();
        let mut i: usize = 0;
        while i < n
            invariant
                old(self).wf(),
                self.params == old(self).params,
                self.format == old(self).format,
                self.values.modulus == old(self).values.modulus,
                w_factor >= 1,
                n == self.values.values@.len(),
                n == old(self).values.values@.len(),
                i <= n,
                forall|j: int|
                    0 <= j < i ==> #[trigger] self.values.values@[j] == (if j % (w_factor as int)
                        == 0 {
                        old(self).values.values@[j]
                    } else {
                        0u64
                    }),
                forall|j: int|
                    i <= j < n ==> #[trigger] self.values.values@[j] == old(self).values.values@[j],
            decreases n - i,
        {
            if i % w_factor != 0 {
                self.values.values.set(i, 0);
            }
            i = i + 1;
        }
    }

    /// Reduce every slot modulo 2 under the centered-residue rule.
    pub fn mod_2(&self) -> (r: Poly)
        requires
            self.wf(),
        ensures
            r.wf(),
            r.params == self.params,
            r.format == self.format,
            r.values.values@.len() == self.values.values@.len(),
            forall|i: int|
                0 <= i < self.values.values@.len() ==> #[trigger] r.values.values@[i]
                    == centered_parity(self.values.values@[i] as nat,
                    self.params.ciphertext_modulus as nat),
    {
        Poly { format: self.format, params: self.params, values: self.values.rem_mod_2() }
    }

    /// Move the element to a new modulus under the centered-residue rule,
    /// updating the root-of-unity fields alongside.
    pub fn switch_modulus(
        &mut self,
        modulus: u64,
        root_of_unity: u64,
        modulus_arb: u64,
        root_of_unity_arb: u64,
    )
        requires
            old(self).wf(),
            1 < modulus < MODULUS_CEILING,
            modulus % 2 == 1,
            1 <= root_of_unity < modulus,
            1 <= modulus_arb < MODULUS_CEILING,
            modulus_arb % 2 == 1,
            root_of_unity_arb < modulus_arb || root_of_unity_arb == 0,
        ensures
            final(self).wf(),
            final(self).format == old(self).format,
            final(self).params.ciphertext_modulus == modulus,
            final(self).params.root_of_unity == root_of_unity,
            final(self).params.big_ciphertext_modulus == modulus_arb,
            final(self).params.big_root_of_unity == root_of_unity_arb,
            final(self).params.cyclotomic_order == old(self).params.cyclotomic_order,
            final(self).params.ring_dimension == old(self).params.ring_dimension,
            final(self).values.values@.len() == old(self).values.values@.len(),
            forall|i: int|
                0 <= i < old(self).values.values@.len() ==> #[trigger] final(self).values.values@[i] == switch_val(old(self).values.values@[i] as nat,
                    old(self).params.ciphertext_modulus as nat, modulus as nat),
    {
        self.values.switch_modulus(modulus);
        self.params = ElementParams {
            ciphertext_modulus: modulus,
            root_of_unity,
            big_ciphertext_modulus: modulus_arb,
            big_root_of_unity: root_of_unity_arb,
            ..self.params
        };
    }
}

/// The residue of a signed value modulo `m`.
pub fn low_residue(v: i64, m: u64) -> (r: u64)
    requires
        m > 1,
    ensures
        r < m,
        r as int == (v as int) % (m as int),
{
    signed_residue(v, m)
}

/// The residue of a signed value modulo `m`.
fn signed_residue(v: i64, m: u64) -> (r: u64)
    requires
        m > 1,
    ensures
        r < m,
        r as int == (v as int) % (m as int),
{
    if v >= 0 {
        let r: u64 = (v as u64) % m;
        proof {
            vstd::arithmetic::div_mod::lemma_mod_bound(v as int, m as int);
        }
        r
    } else {
        let neg: u64 = ((-(v as i128)) as u64) % m;
        proof {
            vstd::arithmetic::div_mod::lemma_mod_bound(-(v as int), m as int);
        }
        if neg == 0 {
            proof {
                let vi = v as int;
                let mi = m as int;
                vstd::arithmetic::div_mod::lemma_fundamental_div_mod(-vi, mi);
                let q = (-vi) / mi;
                assert(vi == (-q) * mi) by (nonlinear_arith)
                    requires
                        -vi == mi * q + ((-vi) % mi),
                        (-vi) % mi == 0,
                ;
                vstd::arithmetic::div_mod::lemma_mod_multiples_basic(-q, mi);
            }
            0
        } else {
            let r: u64 = m - neg;
            proof {
                let vi = v as int;
                let mi = m as int;
                vstd::arithmetic::div_mod::lemma_fundamental_div_mod(-vi, mi);
                let q = (-vi) / mi;
                assert(vi == (-q - 1) * mi + (mi - (-vi) % mi)) by (nonlinear_arith)
                    requires
                        -vi == mi * q + ((-vi) % mi),
                ;
                vstd::arithmetic::div_mod::lemma_fundamental_div_mod_converse(vi, mi, -q - 1,
                    mi - (-vi) % mi);
            }
            r
        }
    }
}


/// One butterfly stage of the radix-2 transform: pairs `m` apart inside
/// blocks of `2m` are combined with the twiddle `w^pos`.
pub open spec fn butterfly_stage(v: Seq<u64>, m: nat, w: nat, q: nat) -> Seq<u64> {
    Seq::new(
        v.len(),
        |idx: int|
            {
                let pos = idx % ((2 * m) as int);
                if pos < m {
                    (((v[idx] + (pow_mod(w, pos as nat, q) * v[idx + m]) % (q as int)) % (
                    q as int)) as u64)
                } else {
                    (((v[idx - m] - (pow_mod(w, (pos - m) as nat, q) * v[idx]) % (q as int)) % (
                    q as int)) as u64)
                }
            },
    )
}

/// The first `s` butterfly stages of a transform of size `2^logn` with
/// principal root `omega`: stage `t` uses pairs `2^t` apart and the root
/// `omega^(2^logn / 2^(t+1))`.
pub open spec fn butterfly_stages(
    v: Seq<u64>,
    s: nat,
    logn: nat,
    omega: nat,
    q: nat,
) -> Seq<u64>
    decreases s,
{
    if s == 0 {
        v
    } else {
        butterfly_stage(
            butterfly_stages(v, (s - 1) as nat, logn, omega, q),
            vstd::arithmetic::power2::pow2((s - 1) as nat),
            (pow_mod(
                omega,
                (vstd::arithmetic::power2::pow2(logn) / vstd::arithmetic::power2::pow2(s)) as nat,
                q,
            ) as nat),
            q,
        )
    }
}

/// A sequence reordered by bit-reversed indices.
pub open spec fn bit_reversed_order(v: Seq<u64>, logn: nat) -> Seq<u64> {
    Seq::new(v.len(), |i: int| v[crate::utils::rev_bits(i as nat, logn) as int])
}

/// The complete radix-2 transform: bit-reverse, then all `logn` stages.
pub open spec fn cooley_tukey(v: Seq<u64>, logn: nat, omega: nat, q: nat) -> Seq<u64> {
    butterfly_stages(bit_reversed_order(v, logn), logn, logn, omega, q)
}

/// The slotwise modular product of two equal-length sequences.
pub open spec fn pointwise_mul_mod(a: Seq<u64>, b: Seq<u64>, q: nat) -> Seq<u64> {
    Seq::new(a.len(), |i: int| (((a[i] * b[i]) % (q as int)) as u64))
}

/// A sequence extended with zeros up to `len`.
pub open spec fn zero_padded(v: Seq<u64>, len: nat) -> Seq<u64> {
    v + Seq::new((len - v.len()) as nat, |i: int| 0u64)
}

/// Coefficient `j` multiplied by the `j`-th power of the twisting root.
pub open spec fn twisted(v: Seq<u64>, psi: nat, q: nat) -> Seq<u64> {
    Seq::new(v.len(), |j: int| (((v[j] * pow_mod(psi, j as nat, q)) % (q as int)) as u64))
}

/// The inverse multiplication transform: run the butterfly pipeline with
/// the inverse root, scale by the inverse of the transform length, and
/// fold the length-2N cyclic result modulo x^N + 1.
pub open spec fn ntt_inverse_rel(
    old_v: Seq<u64>,
    new_v: Seq<u64>,
    root_inv: u64,
    order_inv: u64,
    root: u64,
    order: nat,
    q: nat,
) -> bool {
    &&& ((root * root_inv) as int) % (q as int) == 1
    &&& (((order % q) * order_inv) as int) % (q as int) == 1
    &&& root_inv < q
    &&& order_inv < q
    &&& forall|l: nat|
        vstd::arithmetic::power2::pow2(l) == order ==> new_v == Seq::new(
            (order / 2) as nat,
            |i: int|
                ((((cooley_tukey(old_v, l, root_inv as nat, q)[i] * order_inv) % (q as int)) - ((
                cooley_tukey(old_v, l, root_inv as nat, q)[i + (order / 2)] * order_inv) % (
                q as int))) % (q as int)) as u64,
        )
}

/// The inverse of the format switch, applied to an evaluation vector: run
/// the inverse pipeline with `psi_inv`, then scale slot `j` by
/// `n_inv * psi_inv^j`.
pub open spec fn eval_to_coeff_rel(
    old_v: Seq<u64>,
    new_v: Seq<u64>,
    psi_inv: u64,
    n_inv: u64,
    psi: u64,
    n: nat,
    q: nat,
) -> bool {
    &&& ((psi * psi_inv) as int) % (q as int) == 1
    &&& (((n % q) * n_inv) as int) % (q as int) == 1
    &&& psi_inv < q
    &&& n_inv < q
    &&& forall|l: nat|
        vstd::arithmetic::power2::pow2(l) == n ==> new_v == Seq::new(
            old_v.len(),
            |j: int|
                (((cooley_tukey(old_v, l, ((psi_inv * psi_inv) as int % (q as int)) as nat, q)[j]
                    * ((n_inv * pow_mod(psi_inv as nat, j as nat, q)) % (q as int))) % (
                q as int)) as u64),
        )
}

/// The base-2 logarithm of a power of two.
pub fn log2_of_pow2(n: usize) -> (r: usize)
    requires
        crate::utils::is_power_of_two(n as nat),
        n <= 0x0400_0000,
    ensures
        vstd::arithmetic::power2::pow2(r as nat) == n,
        r <= 26,
{
    let mut x: usize = n;
    let mut r: usize = 0;
    proof {
        vstd::arithmetic::power2::lemma2_to64();
        assert(n as int == x as int * vstd::arithmetic::power2::pow2(0)) by (nonlinear_arith)
            requires
                x == n,
                vstd::arithmetic::power2::pow2(0) == 1,
        ;
    }
    while x > 1
        invariant
            x >= 1,
            r <= 64,
            crate::utils::is_power_of_two(x as nat),
            n as int == x as int * vstd::arithmetic::power2::pow2(r as nat),
            n <= 0x0400_0000,
        decreases x,
    {
        proof {
            vstd::arithmetic::power2::lemma_pow2_unfold((r + 1) as nat);
            vstd::arithmetic::power2::lemma_pow2_pos(r as nat);
            assert(n as int == (x as int / 2) * vstd::arithmetic::power2::pow2((r + 1) as nat))
                by (nonlinear_arith)
                requires
                    n as int == x as int * vstd::arithmetic::power2::pow2(r as nat),
                    x % 2 == 0,
                    x as int == 2 * (x as int / 2) + (x as int % 2),
                    vstd::arithmetic::power2::pow2((r + 1) as nat) == 2
                        * vstd::arithmetic::power2::pow2(r as nat),
            ;
            assert(r < 64) by {
                vstd::arithmetic::power2::lemma_pow2_pos(r as nat);
                if r >= 27 {
                    vstd::arithmetic::power2::lemma_pow2_strictly_increases(26, r as nat);
                    vstd::arithmetic::power2::lemma2_to64();
                    assert(n as int >= 1 * vstd::arithmetic::power2::pow2(r as nat))
                        by (nonlinear_arith)
                        requires
                            n as int == x as int * vstd::arithmetic::power2::pow2(r as nat),
                            x >= 1,
                            vstd::arithmetic::power2::pow2(r as nat) >= 1,
                    ;
                }
            }
        }
        x = x / 2;
        r = r + 1;
    }
    proof {
        assert(n as int == 1 * vstd::arithmetic::power2::pow2(r as nat)) by (nonlinear_arith)
            requires
                n as int == x as int * vstd::arithmetic::power2::pow2(r as nat),
                x == 1,
        ;
        if r >= 27 {
            vstd::arithmetic::power2::lemma_pow2_strictly_increases(26, r as nat);
            vstd::arithmetic::power2::lemma2_to64();
        }
    }
    r
}

/// Apply the radix-2 Cooley-Tukey butterfly network in place: bit-reverse
/// the order, then run log2(n) stages with powers of `omega` as twiddle
/// factors. The result is exactly the staged butterfly pipeline
/// [`cooley_tukey`] of the input.
fn ntt_in_place(values: &mut Vec<u64>, omega: u64, q: u64)
    requires
        1 < q < MODULUS_CEILING,
        q % 2 == 1,
        omega < q,
        crate::utils::is_power_of_two(old(values)@.len() as nat),
        old(values)@.len() <= 0x0400_0000,
        forall|i: int| 0 <= i < old(values)@.len() ==> #[trigger] old(values)@[i] < q,
    ensures
        final(values)@.len() == old(values)@.len(),
        forall|i: int| 0 <= i < final(values)@.len() ==> #[trigger] final(values)@[i] < q,
        forall|l: nat|
            vstd::arithmetic::power2::pow2(l) == old(values)@.len() ==> final(values)@
                == cooley_tukey(old(values)@, l, omega as nat, q as nat),
{
    let ghost v0 = values@;
    let n: usize = values.len();
    if n <= 1 {
        proof {
            assert forall|l: nat|
                vstd::arithmetic::power2::pow2(l) == v0.len() implies values@ == cooley_tukey(
                v0, l, omega as nat, q as nat) by {
                assert(l == 0) by {
                    if l > 0 {
                        vstd::arithmetic::power2::lemma_pow2_strictly_increases(0, l);
                        vstd::arithmetic::power2::lemma2_to64();
                    }
                }
                assert(bit_reversed_order(v0, 0) =~= v0);
                assert(butterfly_stages(bit_reversed_order(v0, 0), 0, 0, omega as nat,
                    q as nat) == bit_reversed_order(v0, 0));
            }
        }
        return ;
    }
    let logn: usize = log2_of_pow2(n);

    // Bit-reversed reordering.
    let mut reordered: Vec<u64> = Vec::new();
    let mut i: usize = 0;
    proof {
        vstd::arithmetic::power2::lemma2_to64();
        if logn >= 32 {
            vstd::arithmetic::power2::lemma_pow2_strictly_increases(26, logn as nat);
        }
    }
    while i < n
        invariant
            n == values@.len(),
            v0 == values@,
            i <= n,
            reordered@.len() == i,
            logn < 32,
            vstd::arithmetic::power2::pow2(logn as nat) == n,
            forall|j: int| 0 <= j < n ==> #[trigger] values@[j] < q,
            forall|j: int| 0 <= j < i ==> #[trigger] reordered@[j] < q,
            forall|j: int|
                0 <= j < i ==> #[trigger] reordered@[j] == v0[crate::utils::rev_bits(
                    j as nat, logn as nat) as int],
        decreases n - i,
    {
        let src: usize = crate::utils::reverse_bits(i, logn);
        proof {
            crate::utils::lemma_rev_bits_bound(i as nat, logn as nat);
        }
        reordered.push(values[src]);
        i = i + 1;
    }
    *values = reordered;
    proof {
        assert(values@ =~= bit_reversed_order(v0, logn as nat));
    }
    let ghost base = bit_reversed_order(v0, logn as nat);

    let ghost logni = logn as nat;
    let mut m: usize = 1;
    let ghost mut s: nat = 0;
    proof {
        vstd::arithmetic::power2::lemma2_to64();
        assert(butterfly_stages(base, 0, logni, omega as nat, q as nat) == base);
    }
    while m < n
        invariant
            1 < q < MODULUS_CEILING,
            q % 2 == 1,
            omega < q,
            n == values@.len(),
            vstd::arithmetic::power2::pow2(logni) == n,
            m == vstd::arithmetic::power2::pow2(s),
            m <= n,
            n <= 0x0400_0000,
            base == bit_reversed_order(v0, logni),
            base.len() == n,
            v0.len() == n,
            values@ == butterfly_stages(base, s, logni, omega as nat, q as nat),
            forall|j: int| 0 <= j < n ==> #[trigger] values@[j] < q,
        decreases n - m,
    {
        proof {
            if s >= logni {
                if s == logni {
                    assert(m == n);
                } else {
                    vstd::arithmetic::power2::lemma_pow2_strictly_increases(logni, s);
                }
            }
            vstd::arithmetic::power2::lemma_pow2_adds((s + 1) as nat, (logni - s - 1) as nat);
            vstd::arithmetic::power2::lemma_pow2_unfold((s + 1) as nat);
            vstd::arithmetic::power2::lemma_pow2_pos((logni - s - 1) as nat);
        }
        let m2: usize = m * 2;
        proof {
            let p_m2 = vstd::arithmetic::power2::pow2((s + 1) as nat) as int;
            let rest = vstd::arithmetic::power2::pow2((logni - s - 1) as nat) as int;
            assert(n as int == p_m2 * rest);
            assert(m2 as int == p_m2);
            assert((n as int) % (m2 as int) == 0) by {
                vstd::arithmetic::div_mod::lemma_mod_multiples_basic(rest, m2 as int);
                assert(p_m2 * rest == rest * p_m2) by (nonlinear_arith);
            }
            assert(m2 <= n) by (nonlinear_arith)
                requires
                    n as int == p_m2 * rest,
                    m2 as int == p_m2,
                    rest >= 1,
                    p_m2 >= 0,
            ;
        }
        let omega_m: u64 = crate::arith::mod_pow(omega, (n / m2) as u64, q);
        let ghost w = omega_m as nat;
        let ghost prev = values@;
        let ghost stage_spec = butterfly_stage(prev, m as nat, w, q as nat);
        proof {
            assert(stage_spec.len() == n);
        }
        let mut k: usize = 0;
        while k < n
            invariant
                1 < q < MODULUS_CEILING,
                q % 2 == 1,
                omega_m < q,
                w == omega_m as nat,
                n == values@.len(),
                prev.len() == n,
                m >= 1,
                m2 == 2 * m,
                m2 <= n,
                k <= n,
                (k as int) % (m2 as int) == 0,
                (n as int) % (m2 as int) == 0,
                stage_spec == butterfly_stage(prev, m as nat, w, q as nat),
                forall|t: int| 0 <= t < k ==> #[trigger] values@[t] == stage_spec[t],
                forall|t: int| k <= t < n ==> #[trigger] values@[t] == prev[t],
                forall|j: int| 0 <= j < n ==> #[trigger] prev[j] < q,
                forall|j: int| 0 <= j < n ==> #[trigger] values@[j] < q,
            decreases n - k,
        {
            proof {
                // k and n are multiples of m2 and k < n, so k + m2 <= n.
                vstd::arithmetic::div_mod::lemma_fundamental_div_mod(k as int, m2 as int);
                vstd::arithmetic::div_mod::lemma_fundamental_div_mod(n as int, m2 as int);
                let a = k as int / m2 as int;
                let b = n as int / m2 as int;
                assert(k as int + m2 as int <= n as int) by (nonlinear_arith)
                    requires
                        k as int == m2 as int * a,
                        n as int == m2 as int * b,
                        k < n,
                        m2 >= 1,
                ;
            }
            let mut cur: u64 = 1;
            let mut j: usize = 0;
            proof {
                vstd::arithmetic::power::lemma_pow0(w as int);
                vstd::arithmetic::div_mod::lemma_small_mod(1, q as nat);
            }
            while j < m
                invariant
                    1 < q < MODULUS_CEILING,
                    q % 2 == 1,
                    omega_m < q,
                    w == omega_m as nat,
                    cur < q,
                    cur as int == pow_mod(w, j as nat, q as nat),
                    n == values@.len(),
                    prev.len() == n,
                    m >= 1,
                    m2 == 2 * m,
                    j <= m,
                    k + m2 <= n,
                    (k as int) % (m2 as int) == 0,
                    stage_spec == butterfly_stage(prev, m as nat, w, q as nat),
                    forall|t: int| 0 <= t < k ==> #[trigger] values@[t] == stage_spec[t],
                    forall|t: int| k <= t < k + j ==> #[trigger] values@[t] == stage_spec[t],
                    forall|t: int| k + j <= t < k + m ==> #[trigger] values@[t] == prev[t],
                    forall|t: int|
                        k + m <= t < k + m + j ==> #[trigger] values@[t] == stage_spec[t],
                    forall|t: int| k + m + j <= t < n ==> #[trigger] values@[t] == prev[t],
                    forall|t: int| 0 <= t < n ==> #[trigger] prev[t] < q,
                    forall|t: int| 0 <= t < n ==> #[trigger] values@[t] < q,
                decreases m - j,
            {
                let lo: usize = k + j;
                let hi: usize = k + j + m;
                let t: u64 = crate::arith::mod_mul(cur, values[hi], q);
                let u: u64 = values[lo];
                values.set(lo, crate::arith::mod_add(u, t, q));
                values.set(hi, crate::arith::mod_sub(u, t, q));
                proof {
                    // The written pair matches the stage formula.
                    vstd::arithmetic::div_mod::lemma_fundamental_div_mod(k as int, m2 as int);
                    let a = k as int / m2 as int;
                    assert((lo as int) % (m2 as int) == j as int && (hi as int) % (m2 as int) == (
                    j + m) as int) by {
                        vstd::arithmetic::div_mod::lemma_mod_multiples_vanish(a, j as int,
                            m2 as int);
                        vstd::arithmetic::div_mod::lemma_mod_multiples_vanish(a, (j + m) as int,
                            m2 as int);
                        assert(lo as int == a * (m2 as int) + j) by (nonlinear_arith)
                            requires
                                k as int == (m2 as int) * a,
                                lo == k + j,
                        ;
                        assert(hi as int == a * (m2 as int) + (j + m)) by (nonlinear_arith)
                            requires
                                k as int == (m2 as int) * a,
                                hi == k + j + m,
                        ;
                        vstd::arithmetic::div_mod::lemma_small_mod(j as nat, m2 as nat);
                        vstd::arithmetic::div_mod::lemma_small_mod((j + m) as nat, m2 as nat);
                        assert((a * (m2 as int) + j) % (m2 as int) == (j as int) % (m2 as int)) by {
                            vstd::arithmetic::div_mod::lemma_mod_multiples_vanish(a, j as int,
                                m2 as int);
                            assert(a * (m2 as int) == (m2 as int) * a) by (nonlinear_arith);
                        }
                        assert((a * (m2 as int) + (j + m)) % (m2 as int) == ((j + m) as int) % (
                        m2 as int)) by {
                            vstd::arithmetic::div_mod::lemma_mod_multiples_vanish(a,
                                (j + m) as int, m2 as int);
                            assert(a * (m2 as int) == (m2 as int) * a) by (nonlinear_arith);
                        }
                    }
                    assert(values@[lo as int] == stage_spec[lo as int]);
                    assert(values@[hi as int] == stage_spec[hi as int]);
                }
                cur = crate::arith::mod_mul(cur, omega_m, q);
                proof {
                    vstd::arithmetic::div_mod::lemma_mul_mod_noop_general(
                        vstd::arithmetic::power::pow(w as int, j as nat), w as int, q as int);
                    vstd::arithmetic::power::lemma_pow1(w as int);
                    vstd::arithmetic::power::lemma_pow_adds(w as int, j as nat, 1);
                    assert(cur as int == pow_mod(w, (j + 1) as nat, q as nat));
                }
                j = j + 1;
            }
            k = k + m2;
            proof {
                vstd::arithmetic::div_mod::lemma_mod_add_multiples_vanish(
                    (k - m2) as int, m2 as int);
            }
        }
        proof {
            assert(values@ =~= stage_spec);
            assert(n as int / m2 as int == vstd::arithmetic::power2::pow2(logni) as int
                / vstd::arithmetic::power2::pow2((s + 1) as nat) as int);
            assert(butterfly_stages(base, (s + 1) as nat, logni, omega as nat, q as nat)
                == butterfly_stage(butterfly_stages(base, s, logni, omega as nat, q as nat),
                vstd::arithmetic::power2::pow2(s), (pow_mod(omega as nat,
                    (vstd::arithmetic::power2::pow2(logni) / vstd::arithmetic::power2::pow2(
                        (s + 1) as nat)) as nat, q as nat) as nat), q as nat));
            assert(w == (pow_mod(omega as nat, (vstd::arithmetic::power2::pow2(logni)
                / vstd::arithmetic::power2::pow2((s + 1) as nat)) as nat, q as nat) as nat));
        }
        m = m2;
        proof {
            s = s + 1;
        }
    }
    proof {
        assert(m == n);
        assert(s == logni) by {
            if s < logni {
                vstd::arithmetic::power2::lemma_pow2_strictly_increases(s, logni);
            }
            if s > logni {
                vstd::arithmetic::power2::lemma_pow2_strictly_increases(logni, s);
            }
        }
        assert forall|l: nat| vstd::arithmetic::power2::pow2(l) == v0.len() implies values@
            == cooley_tukey(v0, l, omega as nat, q as nat) by {
            assert(l == logni) by {
                if l < logni {
                    vstd::arithmetic::power2::lemma_pow2_strictly_increases(l, logni);
                }
                if l > logni {
                    vstd::arithmetic::power2::lemma_pow2_strictly_increases(logni, l);
                }
            }
        }
    }
}

/// Transient evaluation-domain representation over the full cyclotomic
/// order, produced and consumed only inside multiplication.
#[derive(Debug, Clone)]
pub struct NttPoly {
    /// The format of the element this transform came from.
    pub format: PolynomialRingFormat,
    /// The ring parameters.
    pub params: ElementParams,
    /// One value per cyclotomic-order slot.
    pub values: Vec<u64>,
}

impl NttPoly {
    /// Well-formedness: valid parameters and one reduced value per
    /// cyclotomic-order slot.
    pub open spec fn wf(self) -> bool {
        &&& self.params.wf()
        &&& self.values@.len() == self.params.cyclotomic_order
        &&& forall|i: int|
            0 <= i < self.values@.len() ==> #[trigger] self.values@[i]
                < self.params.ciphertext_modulus
    }

    /// Pointwise product with another transformed element of the same
    /// parameters.
    pub fn mul_assign(&mut self, rhs: &NttPoly)
        requires
            old(self).wf(),
            rhs.wf(),
            old(self).params == rhs.params,
        ensures
            final(self).wf(),
            final(self).params == old(self).params,
            final(self).format == old(self).format,
            final(self).values@.len() == old(self).values@.len(),
            forall|i: int|
                0 <= i < old(self).values@.len() ==> #[trigger] final(self).values@[i] as int == (
                old(self).values@[i] * rhs.values@[i]) % (
                old(self).params.ciphertext_modulus as int),
    {
        let q: u64 = self.params.ciphertext_modulus;
        let n: usize = self.values.len();
        let mut i: usize = 0;
        while i < n
            invariant
                1 < q,
                q == self.params.ciphertext_modulus,
                self.params == old(self).params,
                self.format == old(self).format,
                old(self).wf(),
                rhs.wf(),
                rhs.params == old(self).params,
                n == self.values@.len(),
                n == old(self).values@.len(),
                n == rhs.values@.len(),
                i <= n,
                forall|j: int| i <= j < n ==> #[trigger] self.values@[j] == old(self).values@[j],
                forall|j: int|
                    0 <= j < i ==> #[trigger] self.values@[j] as int == (old(self).values@[j]
                        * rhs.values@[j]) % (q as int),
                forall|j: int| 0 <= j < i ==> #[trigger] self.values@[j] < q,
            decreases n - i,
        {
            let a: u64 = self.values[i];
            let b: u64 = rhs.values[i];
            self.values.set(i, crate::arith::mod_mul(a, b, q));
            i = i + 1;
        }
    }

    /// Inverse transform: run the butterflies with the inverse root, scale
    /// by the inverse of the transform length, and reduce the length-2N
    /// cyclic result modulo x^N + 1. Fails exactly when the root of unity or
    /// the transform length has no inverse under the modulus.
    pub fn inv(&self) -> (r: Result<Poly>)
        requires
            self.wf(),
        ensures
            r is Ok <==> gcd(self.params.root_of_unity as nat,
                self.params.ciphertext_modulus as nat) == 1 && gcd(
                (((self.params.cyclotomic_order as u64) % self.params.ciphertext_modulus) as nat),
                self.params.ciphertext_modulus as nat,
            ) == 1,
            crate::arith::is_prime(self.params.ciphertext_modulus as nat) ==> r is Ok,
            r is Err ==> r == Result::<Poly>::Err(Error::NoInverse),
            r is Ok ==> r.unwrap().wf(),
            r is Ok ==> r.unwrap().params == self.params,
            r is Ok ==> r.unwrap().format == self.format,
            r is Ok ==> exists|ri: u64, oi: u64|
                #[trigger] ntt_inverse_rel(self.values@, r.unwrap().values.values@, ri, oi,
                    self.params.root_of_unity, self.params.cyclotomic_order as nat,
                    self.params.ciphertext_modulus as nat),
    {
        let q: u64 = self.params.ciphertext_modulus;
        let order: usize = self.params.cyclotomic_order;
        let n: usize = self.params.ring_dimension;
        let root_inv: u64 = match mod_inv(self.params.root_of_unity, q) {
            Some(v) => v,
            None => {
                proof {
                    // A prime modulus makes the reduced root invertible.
                    if crate::arith::is_prime(q as nat) {
                        crate::arith::lemma_prime_coprime(
                            self.params.root_of_unity as nat, q as nat);
                        assert(false);
                    }
                }
                return Err(Error::NoInverse);
            },
        };
        let order_mod: u64 = (order as u64) % q;
        let order_inv: u64 = match mod_inv(order_mod, q) {
            Some(v) => v,
            None => {
                proof {
                    // The power-of-two order stays coprime to a prime modulus.
                    if crate::arith::is_prime(q as nat) {
                        crate::arith::lemma_pow2_mod_coprime(order as nat, q as nat);
                        assert(false);
                    }
                }
                return Err(Error::NoInverse);
            },
        };
        let mut work: Vec<u64> = crate::vecmod::clone_values(&self.values);
        ntt_in_place(&mut work, root_inv, q);
        let ghost ct = work@;
        // Scale by the inverse of the transform length, then fold the
        // cyclic result into x^N + 1: c[j] = d[j] - d[j + N].
        let mut out: Vec<u64> = Vec::new();
        let mut i: usize = 0;
        proof {
            assert(2 * (order / 2) == order) by {
                assert(order % 2 == 0) by {
                    assert(crate::utils::is_power_of_two(order as nat));
                }
            }
        }
        while i < n
            invariant
                1 < q < MODULUS_CEILING,
                q % 2 == 1,
                order_inv < q,
                n == self.params.ring_dimension,
                order == self.params.cyclotomic_order,
                n == order / 2,
                order == 2 * n,
                ct == work@,
                work@.len() == order,
                i <= n,
                out@.len() == i,
                forall|j: int| 0 <= j < order ==> #[trigger] work@[j] < q,
                forall|j: int| 0 <= j < i ==> #[trigger] out@[j] < q,
                forall|j: int|
                    0 <= j < i ==> #[trigger] out@[j] as int == ((((ct[j] * order_inv) % (
                    q as int)) - ((ct[j + n] * order_inv) % (q as int))) % (q as int)),
            decreases n - i,
        {
            let lo: u64 = crate::arith::mod_mul(work[i], order_inv, q);
            let hi: u64 = crate::arith::mod_mul(work[i + n], order_inv, q);
            out.push(crate::arith::mod_sub(lo, hi, q));
            i = i + 1;
        }
        let result = Poly {
            format: self.format,
            params: self.params,
            values: VecMod { values: out, modulus: q },
        };
        proof {
            assert(ntt_inverse_rel(self.values@, result.values.values@, root_inv, order_inv,
                self.params.root_of_unity, order as nat, q as nat)) by {
                assert((((order as nat) % (q as nat)) * order_inv) as int % (q as int) == 1)
                    by {
                    assert(order_mod as int == (order as int) % (q as int));
                }
                assert forall|l: nat|
                    vstd::arithmetic::power2::pow2(l) == order as nat implies result
                    .values.values@ == Seq::new(
                    (order as nat / 2) as nat,
                    |i2: int|
                        ((((cooley_tukey(self.values@, l, root_inv as nat, q as nat)[i2]
                            * order_inv) % (q as int)) - ((cooley_tukey(self.values@, l,
                            root_inv as nat, q as nat)[i2 + (order as nat / 2)] * order_inv) % (
                        q as int))) % (q as int)) as u64,
                ) by {
                    assert(ct == cooley_tukey(self.values@, l, root_inv as nat, q as nat));
                    assert(result.values.values@ =~= Seq::new(
                        (order as nat / 2) as nat,
                        |i2: int|
                            ((((ct[i2] * order_inv) % (q as int)) - ((ct[i2 + n] * order_inv) % (
                            q as int))) % (q as int)) as u64,
                    ));
                }
            }
        }
        Ok(result)
    }
}

impl Poly {
    /// Forward transform for multiplication: zero-pad the coefficients to
    /// the cyclotomic order and run the butterfly network with the stored
    /// root of unity.
    pub fn ntt(&self) -> (r: NttPoly)
        requires
            self.wf(),
        ensures
            r.wf(),
            r.params == self.params,
            r.format == self.format,
            forall|l: nat|
                vstd::arithmetic::power2::pow2(l) == self.params.cyclotomic_order
                    ==> r.values@ == cooley_tukey(
                    zero_padded(self.values.values@, self.params.cyclotomic_order as nat), l,
                    self.params.root_of_unity as nat, self.params.ciphertext_modulus as nat),
    {
        let q: u64 = self.params.ciphertext_modulus;
        let order: usize = self.params.cyclotomic_order;
        let mut work: Vec<u64> = crate::vecmod::clone_values(&self.values.values);
        let mut i: usize = self.values.values.len();
        while i < order
            invariant
                work@.len() == i,
                i <= order || i == self.values.values@.len(),
                i >= self.values.values@.len(),
                self.wf(),
                q == self.params.ciphertext_modulus,
                order == self.params.cyclotomic_order,
                forall|j: int| 0 <= j < work@.len() ==> #[trigger] work@[j] < q,
                forall|j: int|
                    0 <= j < self.values.values@.len() ==> #[trigger] work@[j]
                        == self.values.values@[j],
                forall|j: int|
                    self.values.values@.len() <= j < i ==> #[trigger] work@[j] == 0,
            decreases order - i,
        {
            let ghost prework = work@;
            work.push(0);
            proof {
                assert forall|j: int|
                    0 <= j < self.values.values@.len() implies #[trigger] work@[j]
                    == self.values.values@[j] by {
                    assert(work@[j] == prework[j]);
                }
                assert forall|j: int|
                    self.values.values@.len() <= j < i + 1 implies #[trigger] work@[j]
                    == 0u64 by {
                    if j < i {
                        assert(work@[j] == prework[j]);
                    }
                }
            }
            i = i + 1;
        }
        proof {
            assert(self.values.values@.len() == self.params.ring_dimension);
            assert(self.params.ring_dimension == self.params.cyclotomic_order / 2);
            assert(self.params.cyclotomic_order / 2 <= self.params.cyclotomic_order);
            assert(work@ =~= zero_padded(self.values.values@, order as nat));
        }
        ntt_in_place(&mut work, self.params.root_of_unity, q);
        NttPoly { format: self.format, params: self.params, values: work }
    }

    /// Multiply by another element: forward transforms, a pointwise product
    /// and an inverse transform, replacing quadratic convolution. Fails
    /// exactly when the inverse transform cannot invert the root of unity
    /// or the transform length.
    pub fn multiply(&self, rhs: &Poly) -> (r: Result<Poly>)
        requires
            self.wf(),
            rhs.wf(),
            self.params == rhs.params,
            self.format == rhs.format,
        ensures
            r is Ok <==> gcd(self.params.root_of_unity as nat,
                self.params.ciphertext_modulus as nat) == 1 && gcd(
                (((self.params.cyclotomic_order as u64) % self.params.ciphertext_modulus) as nat),
                self.params.ciphertext_modulus as nat,
            ) == 1,
            crate::arith::is_prime(self.params.ciphertext_modulus as nat) ==> r is Ok,
            r is Err ==> r == Result::<Poly>::Err(Error::NoInverse),
            r is Ok ==> r.unwrap().wf(),
            r is Ok ==> r.unwrap().params == self.params,
            r is Ok ==> r.unwrap().format == self.format,
            r is Ok ==> forall|l: nat|
                vstd::arithmetic::power2::pow2(l) == self.params.cyclotomic_order
                    ==> exists|ri: u64, oi: u64|
                    #[trigger] ntt_inverse_rel(
                        pointwise_mul_mod(
                            cooley_tukey(
                                zero_padded(self.values.values@,
                                    self.params.cyclotomic_order as nat),
                                l,
                                self.params.root_of_unity as nat,
                                self.params.ciphertext_modulus as nat,
                            ),
                            cooley_tukey(
                                zero_padded(rhs.values.values@,
                                    self.params.cyclotomic_order as nat),
                                l,
                                self.params.root_of_unity as nat,
                                self.params.ciphertext_modulus as nat,
                            ),
                            self.params.ciphertext_modulus as nat,
                        ),
                        r.unwrap().values.values@,
                        ri,
                        oi,
                        self.params.root_of_unity,
                        self.params.cyclotomic_order as nat,
                        self.params.ciphertext_modulus as nat,
                    ),
    {
        let mut lhs_t = self.ntt();
        let rhs_t = rhs.ntt();
        let ghost lhs_fwd = lhs_t.values@;
        let ghost rhs_fwd = rhs_t.values@;
        lhs_t.mul_assign(&rhs_t);
        proof {
            assert(lhs_t.values@ =~= pointwise_mul_mod(lhs_fwd, rhs_fwd,
                self.params.ciphertext_modulus as nat));
        }
        let out = lhs_t.inv();
        proof {
            if out is Ok {
                let q = self.params.ciphertext_modulus as nat;
                let order = self.params.cyclotomic_order as nat;
                let (ri, oi): (u64, u64) = choose|ri: u64, oi: u64|
                    #[trigger] ntt_inverse_rel(lhs_t.values@, out.unwrap().values.values@, ri,
                        oi, self.params.root_of_unity, order, q);
                assert forall|l: nat| vstd::arithmetic::power2::pow2(l) == order implies exists|
                    ri2: u64,
                    oi2: u64,
                |
                    #[trigger] ntt_inverse_rel(
                        pointwise_mul_mod(
                            cooley_tukey(zero_padded(self.values.values@, order), l,
                                self.params.root_of_unity as nat, q),
                            cooley_tukey(zero_padded(rhs.values.values@, order), l,
                                self.params.root_of_unity as nat, q),
                            q,
                        ),
                        out.unwrap().values.values@,
                        ri2,
                        oi2,
                        self.params.root_of_unity,
                        order,
                        q,
                    ) by {
                    assert(lhs_fwd == cooley_tukey(zero_padded(self.values.values@, order), l,
                        self.params.root_of_unity as nat, q));
                    assert(rhs_fwd == cooley_tukey(zero_padded(rhs.values.values@, order), l,
                        self.params.root_of_unity as nat, q));
                    assert(ntt_inverse_rel(
                        pointwise_mul_mod(
                            cooley_tukey(zero_padded(self.values.values@, order), l,
                                self.params.root_of_unity as nat, q),
                            cooley_tukey(zero_padded(rhs.values.values@, order), l,
                                self.params.root_of_unity as nat, q),
                            q,
                        ),
                        out.unwrap().values.values@,
                        ri,
                        oi,
                        self.params.root_of_unity,
                        order,
                        q,
                    ));
                }
            }
        }
        out
    }
}

/// The `i`-th base-`2^b` digit of `x`, counted from the least significant.
pub open spec fn base_digit(x: nat, i: nat, b: nat) -> nat {
    (x / vstd::arithmetic::power2::pow2(i * b)) % vstd::arithmetic::power2::pow2(b)
}

/// The weighted sum of the first `w` base-`2^b` digits of `x`.
pub open spec fn digit_recompose(x: nat, w: nat, b: nat) -> nat
    decreases w,
{
    if w == 0 {
        0
    } else {
        digit_recompose(x, (w - 1) as nat, b) + base_digit(x, (w - 1) as nat, b)
            * vstd::arithmetic::power2::pow2((w - 1) as nat * b)
    }
}

/// The first `w` digits recompose to `x` reduced modulo `2^(w*b)`.
proof fn lemma_digit_recompose_mod(x: nat, w: nat, b: nat)
    ensures
        digit_recompose(x, w, b) == x % vstd::arithmetic::power2::pow2(w * b),
    decreases w,
{
    vstd::arithmetic::power2::lemma_pow2_pos(w * b);
    if w == 0 {
        assert(w * b == 0) by (nonlinear_arith)
            requires
                w == 0,
        ;
        assert(vstd::arithmetic::power2::pow2(0) == 1) by {
            vstd::arithmetic::power2::lemma2_to64();
        }
        vstd::arithmetic::div_mod::lemma_mod_bound(x as int, 1);
    } else {
        lemma_digit_recompose_mod(x, (w - 1) as nat, b);
        let y = vstd::arithmetic::power2::pow2((w - 1) as nat * b);
        let z = vstd::arithmetic::power2::pow2(b);
        vstd::arithmetic::power2::lemma_pow2_pos((w - 1) as nat * b);
        vstd::arithmetic::power2::lemma_pow2_pos(b);
        vstd::arithmetic::power2::lemma_pow2_adds((w - 1) as nat * b, b);
        assert((w - 1) as nat * b + b == w * b) by (nonlinear_arith)
            requires
                w >= 1,
        ;
        vstd::arithmetic::div_mod::lemma_mod_breakdown(x as int, y as int, z as int);
        assert((x as int) % ((y * z) as int) == y * ((x as int / y as int) % (z as int)) + (
        x as int) % (y as int));
        assert(digit_recompose(x, w, b) == x % y + ((x / y) % z) * y);
        assert(y * ((x as int / y as int) % z as int) == ((x / y) % z) * y as int)
            by (nonlinear_arith);
    }
}

/// The gadget round trip: summing the base-`2^b` digits of `x` weighted by
/// the powers of the base reproduces `x`, whenever the window count covers
/// all bits of `x`.
pub proof fn lemma_gadget_round_trip(x: nat, w: nat, b: nat)
    requires
        x < vstd::arithmetic::power2::pow2(w * b),
    ensures
        digit_recompose(x, w, b) == x,
{
    lemma_digit_recompose_mod(x, w, b);
    vstd::arithmetic::div_mod::lemma_small_mod(x, vstd::arithmetic::power2::pow2(w * b));
}

/// The number of bits needed to write `q` in binary.
pub fn bit_length(q: u64) -> (r: usize)
    ensures
        q < vstd::arithmetic::power2::pow2(r as nat),
        r <= 64,
        q > 0 ==> r >= 1 && vstd::arithmetic::power2::pow2((r - 1) as nat) <= q,
{
    let mut x: u64 = q;
    let mut c: usize = 0;
    proof {
        vstd::arithmetic::power2::lemma2_to64();
        vstd::arithmetic::div_mod::lemma_div_basics(q as int);
    }
    while x > 0
        invariant
            c <= 64,
            x as int == q as int / vstd::arithmetic::power2::pow2(c as nat) as int,
            x > 0 ==> c < 64,
            c > 0 ==> vstd::arithmetic::power2::pow2((c - 1) as nat) <= q,
        decreases x,
    {
        proof {
            let p = vstd::arithmetic::power2::pow2(c as nat) as int;
            vstd::arithmetic::power2::lemma_pow2_pos(c as nat);
            vstd::arithmetic::div_mod::lemma_fundamental_div_mod(q as int, p);
            vstd::arithmetic::div_mod::lemma_mod_bound(q as int, p);
            assert(q as int >= p) by (nonlinear_arith)
                requires
                    q as int == p * (x as int) + (q as int) % p,
                    (q as int) % p >= 0,
                    x >= 1,
                    p >= 1,
            ;
            vstd::arithmetic::power2::lemma_pow2_unfold((c + 1) as nat);
            vstd::arithmetic::div_mod::lemma_div_denominator(q as int, p, 2);
            assert(p * 2 == vstd::arithmetic::power2::pow2((c + 1) as nat)) by (nonlinear_arith)
                requires
                    vstd::arithmetic::power2::pow2((c + 1) as nat) == 2
                        * vstd::arithmetic::power2::pow2(c as nat),
                    p == vstd::arithmetic::power2::pow2(c as nat) as int,
            ;
            assert(c + 1 <= 64) by {
                if c >= 64 {
                    vstd::arithmetic::power2::lemma2_to64_rest();
                    if c > 64 {
                        vstd::arithmetic::power2::lemma_pow2_strictly_increases(64, c as nat);
                    }
                    assert(q as int / vstd::arithmetic::power2::pow2(c as nat) as int == 0) by {
                        vstd::arithmetic::div_mod::lemma_basic_div(q as int,
                            vstd::arithmetic::power2::pow2(c as nat) as int);
                    }
                }
            }
        }
        x = x / 2;
        c = c + 1;
        proof {
            if c == 64 {
                vstd::arithmetic::power2::lemma2_to64_rest();
                vstd::arithmetic::div_mod::lemma_basic_div(q as int,
                    vstd::arithmetic::power2::pow2(64) as int);
            }
        }
    }
    proof {
        let p = vstd::arithmetic::power2::pow2(c as nat) as int;
        vstd::arithmetic::power2::lemma_pow2_pos(c as nat);
        vstd::arithmetic::div_mod::lemma_fundamental_div_mod(q as int, p);
        vstd::arithmetic::div_mod::lemma_mod_bound(q as int, p);
        assert(q as int == p * 0 + q as int % p);
        assert(p * 0 == 0) by (nonlinear_arith);
        if q > 0 && c == 0 {
            vstd::arithmetic::power2::lemma2_to64();
            vstd::arithmetic::div_mod::lemma_div_basics(q as int);
        }
    }
    c
}

impl Poly {
    /// Convert between coefficient and evaluation representation: twist by
    /// powers of the stored root of unity and run the forward butterflies,
    /// or undo both with their inverses. Fails exactly when the inverse
    /// direction cannot invert the root of unity or the ring dimension.
    pub fn switch_format(&mut self) -> (r: Result<()>)
        requires
            old(self).wf(),
        ensures
            final(self).wf(),
            final(self).params == old(self).params,
            final(self).values.values@.len() == old(self).values.values@.len(),
            r is Ok ==> final(self).format == (match old(self).format {
                PolynomialRingFormat::Coefficient => PolynomialRingFormat::Evaluation,
                PolynomialRingFormat::Evaluation => PolynomialRingFormat::Coefficient,
            }),
            r is Err ==> final(self).format == old(self).format && final(self).values.values@
                == old(self).values.values@,
            old(self).format == PolynomialRingFormat::Coefficient ==> r is Ok && forall|l: nat|
                vstd::arithmetic::power2::pow2(l) == old(self).values.values@.len() ==> final(self).values.values@ == cooley_tukey(
                    twisted(old(self).values.values@, old(self).params.root_of_unity as nat,
                        old(self).params.ciphertext_modulus as nat),
                    l,
                    ((old(self).params.root_of_unity * old(self).params.root_of_unity) as int % (
                    old(self).params.ciphertext_modulus as int)) as nat,
                    old(self).params.ciphertext_modulus as nat,
                ),
            old(self).format == PolynomialRingFormat::Evaluation ==> (r is Ok <==> gcd(
                old(self).params.root_of_unity as nat, old(self).params.ciphertext_modulus as nat,
            ) == 1 && gcd(
                (((old(self).params.ring_dimension as u64)
                    % old(self).params.ciphertext_modulus) as nat),
                old(self).params.ciphertext_modulus as nat,
            ) == 1),
            crate::arith::is_prime(old(self).params.ciphertext_modulus as nat) ==> r is Ok,
            r is Err ==> r == Result::<()>::Err(Error::NoInverse),
            old(self).format == PolynomialRingFormat::Evaluation && r is Ok ==> exists|
                pi: u64,
                ni: u64,
            |
                #[trigger] eval_to_coeff_rel(old(self).values.values@, final(self).values.values@, pi, ni, old(self).params.root_of_unity,
                    old(self).values.values@.len() as nat,
                    old(self).params.ciphertext_modulus as nat),
    {
        let q: u64 = self.params.ciphertext_modulus;
        let psi: u64 = self.params.root_of_unity;
        let n: usize = self.values.values.len();
        proof {
            assert(crate::utils::is_power_of_two(self.params.cyclotomic_order as nat));
            assert(self.params.ring_dimension == self.params.cyclotomic_order / 2);
        }
        match self.format {
            PolynomialRingFormat::Coefficient => {
                // Twist coefficient j by psi^j, then transform with psi^2.
                let mut cur: u64 = 1;
                let mut j: usize = 0;
                proof {
                    vstd::arithmetic::power::lemma_pow0(psi as int);
                    vstd::arithmetic::div_mod::lemma_small_mod(1, q as nat);
                }
                while j < n
                    invariant
                        old(self).wf(),
                        self.params == old(self).params,
                        self.format == old(self).format,
                        self.values.modulus == old(self).values.modulus,
                        q == self.params.ciphertext_modulus,
                        psi == self.params.root_of_unity,
                        1 < q < MODULUS_CEILING,
                        q % 2 == 1,
                        psi < q,
                        cur < q,
                        cur as int == pow_mod(psi as nat, j as nat, q as nat),
                        n == self.values.values@.len(),
                        n == old(self).values.values@.len(),
                        j <= n,
                        forall|t: int| 0 <= t < n ==> #[trigger] self.values.values@[t] < q,
                        forall|t: int|
                            0 <= t < j ==> #[trigger] self.values.values@[t] == twisted(
                                old(self).values.values@, psi as nat, q as nat)[t],
                        forall|t: int|
                            j <= t < n ==> #[trigger] self.values.values@[t] == old(self).values.values@[t],
                    decreases n - j,
                {
                    let v: u64 = self.values.values[j];
                    self.values.values.set(j, mod_mul(v, cur, q));
                    proof {
                        let ov = old(self).values.values@[j as int] as int;
                        vstd::arithmetic::div_mod::lemma_mul_mod_noop_general(ov,
                            pow_mod(psi as nat, j as nat, q as nat), q as int);
                        assert(self.values.values@[j as int] == twisted(
                            old(self).values.values@, psi as nat, q as nat)[j as int]);
                    }
                    cur = mod_mul(cur, psi, q);
                    proof {
                        vstd::arithmetic::div_mod::lemma_mul_mod_noop_general(
                            vstd::arithmetic::power::pow(psi as int, j as nat), psi as int,
                            q as int);
                        vstd::arithmetic::power::lemma_pow1(psi as int);
                        vstd::arithmetic::power::lemma_pow_adds(psi as int, j as nat, 1);
                    }
                    j = j + 1;
                }
                proof {
                    assert(self.values.values@ =~= twisted(old(self).values.values@, psi as nat,
                        q as nat));
                }
                let omega: u64 = mod_mul(psi, psi, q);
                ntt_in_place(&mut self.values.values, omega, q);
                self.format = PolynomialRingFormat::Evaluation;
                Ok(())
            },
            PolynomialRingFormat::Evaluation => {
                let psi_inv: u64 = match mod_inv(psi, q) {
                    Some(v) => v,
                    None => {
                        proof {
                            // A prime modulus makes the stored root invertible.
                            if crate::arith::is_prime(q as nat) {
                                crate::arith::lemma_prime_coprime(psi as nat, q as nat);
                                assert(false);
                            }
                        }
                        return Err(Error::NoInverse);
                    },
                };
                let n_inv: u64 = match mod_inv((n as u64) % q, q) {
                    Some(v) => v,
                    None => {
                        proof {
                            // The power-of-two dimension stays coprime to a
                            // prime modulus.
                            if crate::arith::is_prime(q as nat) {
                                assert(crate::utils::is_power_of_two(n as nat)) by {
                                    assert(n == self.params.cyclotomic_order / 2);
                                    assert(crate::utils::is_power_of_two(
                                        (self.params.cyclotomic_order as nat) / 2));
                                }
                                crate::arith::lemma_pow2_mod_coprime(n as nat, q as nat);
                                assert(false);
                            }
                        }
                        return Err(Error::NoInverse);
                    },
                };
                let omega_inv: u64 = mod_mul(psi_inv, psi_inv, q);
                let ghost pre = self.values.values@;
                ntt_in_place(&mut self.values.values, omega_inv, q);
                let ghost ct = self.values.values@;
                // Undo the length scaling and the twist.
                let mut cur: u64 = n_inv;
                let mut j: usize = 0;
                proof {
                    vstd::arithmetic::power::lemma_pow0(psi_inv as int);
                    vstd::arithmetic::div_mod::lemma_small_mod(n_inv as nat, q as nat);
                    vstd::arithmetic::div_mod::lemma_mul_mod_noop_general(n_inv as int, 1,
                        q as int);
                    assert(cur as int == (n_inv * pow_mod(psi_inv as nat, 0, q as nat)) % (
                    q as int)) by {
                        assert(pow_mod(psi_inv as nat, 0, q as nat) == 1) by {
                            vstd::arithmetic::div_mod::lemma_small_mod(1, q as nat);
                        }
                        assert(n_inv * 1 == n_inv) by (nonlinear_arith);
                    }
                }
                while j < n
                    invariant
                        old(self).wf(),
                        self.params == old(self).params,
                        self.format == old(self).format,
                        self.values.modulus == old(self).values.modulus,
                        q == self.params.ciphertext_modulus,
                        1 < q < MODULUS_CEILING,
                        q % 2 == 1,
                        psi_inv < q,
                        n_inv < q,
                        cur < q,
                        cur as int == (n_inv * pow_mod(psi_inv as nat, j as nat, q as nat)) % (
                        q as int),
                        n == old(self).values.values@.len(),
                        n == self.values.values@.len(),
                        ct.len() == n,
                        j <= n,
                        forall|t: int| 0 <= t < n ==> #[trigger] ct[t] < q,
                        forall|t: int|
                            0 <= t < j ==> #[trigger] self.values.values@[t] as int == ((ct[t]
                                * ((n_inv * pow_mod(psi_inv as nat, t as nat, q as nat)) % (
                            q as int))) % (q as int)),
                        forall|t: int|
                            j <= t < n ==> #[trigger] self.values.values@[t] == ct[t],
                        forall|t: int| 0 <= t < n ==> #[trigger] self.values.values@[t] < q,
                    decreases n - j,
                {
                    let v: u64 = self.values.values[j];
                    self.values.values.set(j, mod_mul(v, cur, q));
                    cur = mod_mul(cur, psi_inv, q);
                    proof {
                        let pj = pow_mod(psi_inv as nat, j as nat, q as nat);
                        let pj1 = pow_mod(psi_inv as nat, (j + 1) as nat, q as nat);
                        // cur advances from n_inv * psi_inv^j to n_inv * psi_inv^(j+1).
                        crate::arith::lemma_mul_pow_step(n_inv as int, psi_inv as int, j as nat,
                            q as int);
                        assert(cur as int == (n_inv * pj1) % (q as int));
                    }
                    j = j + 1;
                }
                self.format = PolynomialRingFormat::Coefficient;
                proof {
                    assert(eval_to_coeff_rel(pre, self.values.values@, psi_inv, n_inv, psi,
                        n as nat, q as nat)) by {
                        assert(((psi * psi_inv) as int) % (q as int) == 1);
                        assert forall|l: nat|
                            vstd::arithmetic::power2::pow2(l) == n as nat implies self
                            .values.values@ == Seq::new(
                            pre.len(),
                            |t: int|
                                (((cooley_tukey(pre, l, ((psi_inv * psi_inv) as int % (
                                q as int)) as nat, q as nat)[t] * ((n_inv * pow_mod(
                                    psi_inv as nat, t as nat, q as nat)) % (q as int))) % (
                                q as int)) as u64),
                        ) by {
                            assert(ct == cooley_tukey(pre, l, ((psi_inv * psi_inv) as int % (
                            q as int)) as nat, q as nat)) by {
                                assert(omega_inv as nat == ((psi_inv * psi_inv) as int % (
                                q as int)) as nat);
                            }
                            assert(self.values.values@ =~= Seq::new(
                                pre.len(),
                                |t: int|
                                    (((ct[t] * ((n_inv * pow_mod(psi_inv as nat, t as nat,
                                        q as nat)) % (q as int))) % (q as int)) as u64),
                            ));
                        }
                    }
                }
                Ok(())
            },
        }
    }

    /// Bring the element into the requested format; a no-op when it is
    /// already there.
    pub fn set_format(&mut self, format: PolynomialRingFormat) -> (r: Result<()>)
        requires
            old(self).wf(),
        ensures
            final(self).wf(),
            final(self).params == old(self).params,
            final(self).values.values@.len() == old(self).values.values@.len(),
            r is Ok ==> final(self).format == format,
            old(self).format == format ==> r is Ok && *final(self) == *old(self),
            r is Ok <==> old(self).format == format || old(self).format
                == PolynomialRingFormat::Coefficient || (gcd(old(self).params.root_of_unity as nat,
                old(self).params.ciphertext_modulus as nat) == 1 && gcd(
                (((old(self).params.ring_dimension as u64)
                    % old(self).params.ciphertext_modulus) as nat),
                old(self).params.ciphertext_modulus as nat,
            ) == 1),
            crate::arith::is_prime(old(self).params.ciphertext_modulus as nat) ==> r is Ok,
            r is Err ==> r == Result::<()>::Err(Error::NoInverse),
            r is Err ==> final(self).format == old(self).format && final(self).values.values@
                == old(self).values.values@,
    {
        if !format_eq(self.format, format) {
            self.switch_format()
        } else {
            Ok(())
        }
    }

    /// Scalar multiplication followed by division: multiply every slot by
    /// `p`, then divide by `q_div` through its inverse.
    pub fn multiply_and_round(&self, p: u64, q_div: u64) -> (r: Result<Poly>)
        requires
            self.wf(),
            p < self.params.ciphertext_modulus,
            q_div < self.params.ciphertext_modulus,
        ensures
            r is Ok ==> r.unwrap().wf() && r.unwrap().params == self.params && r.unwrap().format
                == self.format,
            r is Ok <==> gcd(q_div as nat, self.params.ciphertext_modulus as nat) == 1,
            r is Ok ==> r.unwrap().values.values@.len() == self.values.values@.len(),
            r is Ok ==> forall|i: int|
                0 <= i < self.values.values@.len() ==> (#[trigger] r.unwrap().values.values@[i]
                    * q_div) % (self.params.ciphertext_modulus as int) == (self.values.values@[i]
                    * p) % (self.params.ciphertext_modulus as int),
    {
        let mut out = Poly {
            format: self.format,
            params: self.params,
            values: VecMod {
                values: crate::vecmod::clone_values(&self.values.values),
                modulus: self.values.modulus,
            },
        };
        out.mul_scalar_assign(p);
        let ghost scaled = out.values.values@;
        match out.div_scalar_assign(q_div) {
            Ok(()) => {
                proof {
                    let q = self.params.ciphertext_modulus as int;
                    assert forall|i: int|
                        0 <= i < self.values.values@.len() implies (#[trigger] out
                        .values.values@[i] * q_div) % q == (self.values.values@[i] * p) % q by {
                        // The scaled value is already reduced, so its residue
                        // is itself.
                        vstd::arithmetic::div_mod::lemma_small_mod(scaled[i] as nat,
                            self.params.ciphertext_modulus as nat);
                    }
                }
                Ok(out)
            },
            Err(e) => Err(e),
        }
    }

    /// Write each coefficient in base `2^base_bits`: element `i` of the
    /// result holds the `i`-th digit of every coefficient. With
    /// `eval_mode_answer` each digit element is converted to evaluation
    /// format before returning.
    pub fn base_decompose(&self, base_bits: usize, eval_mode_answer: bool) -> (r: Result<
        Vec<Poly>,
    >)
        requires
            self.wf(),
            1 <= base_bits <= 63,
        ensures
            r is Ok,
            r is Ok ==> {
                &&& r.unwrap()@.len() >= 1
                &&& (self.params.ciphertext_modulus as nat) < vstd::arithmetic::power2::pow2((r.unwrap()@.len() * base_bits as nat) as nat)
                &&& (r.unwrap()@.len() > 1 ==> vstd::arithmetic::power2::pow2((((r.unwrap()@.len() - 1) * base_bits) as nat) as nat) <= self.params.ciphertext_modulus as nat)
                &&& forall|i: int|
                    0 <= i < r.unwrap()@.len() ==> (#[trigger] r.unwrap()@[i]).wf()
                        && r.unwrap()@[i].params == self.params
                &&& forall|i: int|
                    0 <= i < r.unwrap()@.len() ==> (#[trigger] r.unwrap()@[i]).format == (
                    if eval_mode_answer {
                        PolynomialRingFormat::Evaluation
                    } else {
                        PolynomialRingFormat::Coefficient
                    })
                &&& !eval_mode_answer ==> forall|i: int, j: int|
                    0 <= i < r.unwrap()@.len() && 0 <= j < self.values.values@.len()
                        ==> (#[trigger] r.unwrap()@[i].values.values@[j]) as nat == base_digit(
                        self.values.values@[j] as nat, i as nat, base_bits as nat)
            },
    {
        let q: u64 = self.params.ciphertext_modulus;
        let n: usize = self.values.values.len();
        let bits: usize = bit_length(q);
        let windows: usize = (bits + base_bits - 1) / base_bits;
        proof {
            // windows * base_bits covers every bit of q.
            let bi = bits as int;
            let bb = base_bits as int;
            let w = windows as int;
            vstd::arithmetic::div_mod::lemma_fundamental_div_mod(bi + bb - 1, bb);
            vstd::arithmetic::div_mod::lemma_mod_bound(bi + bb - 1, bb);
            assert(w * bb >= bi && w >= 1 && w * bb <= bi + bb - 1) by (nonlinear_arith)
                requires
                    w == (bi + bb - 1) / bb,
                    bi + bb - 1 == bb * w + (bi + bb - 1) % bb,
                    0 <= (bi + bb - 1) % bb && (bi + bb - 1) % bb < bb,
                    bb >= 1,
                    bi >= 1,
            ;
            vstd::arithmetic::power2::lemma_pow2_pos(bits as nat);
            if (windows * base_bits) as nat != bits as nat {
                vstd::arithmetic::power2::lemma_pow2_strictly_increases(bits as nat,
                    (windows * base_bits) as nat);
            }
            if windows > 1 {
                // The next-to-last window still lies inside the bit length.
                assert((w - 1) * bb <= bi - 1) by (nonlinear_arith)
                    requires
                        w * bb <= bi + bb - 1,
                ;
                if ((windows - 1) * base_bits) as nat != (bits - 1) as nat {
                    vstd::arithmetic::power2::lemma_pow2_strictly_increases(
                        (((windows - 1) * base_bits)) as nat, (bits - 1) as nat);
                }
            }
        }
        let mut result: Vec<Poly> = Vec::new();
        let mut i: usize = 0;
        while i < windows
            invariant
                self.wf(),
                q == self.params.ciphertext_modulus,
                n == self.values.values@.len(),
                1 <= base_bits <= 63,
                i <= windows,
                result@.len() == i,
                windows >= 1,
                forall|t: int|
                    0 <= t < i ==> (#[trigger] result@[t]).wf() && result@[t].params == self.params
                        && result@[t].format == PolynomialRingFormat::Coefficient,
                !eval_mode_answer ==> forall|t: int, j: int|
                    0 <= t < i && 0 <= j < n ==> (#[trigger] result@[t].values.values@[j]) as nat
                        == base_digit(self.values.values@[j] as nat, t as nat, base_bits as nat),
            decreases windows - i,
        {
            let mut digit_values: Vec<u64> = Vec::new();
            let mut j: usize = 0;
            while j < n
                invariant
                    self.wf(),
                    q == self.params.ciphertext_modulus,
                    n == self.values.values@.len(),
                    1 <= base_bits <= 63,
                    j <= n,
                    digit_values@.len() == j,
                    forall|t: int| 0 <= t < j ==> #[trigger] digit_values@[t] < q,
                    forall|t: int|
                        0 <= t < j ==> (#[trigger] digit_values@[t]) as nat == base_digit(
                            self.values.values@[t] as nat, i as nat, base_bits as nat),
                decreases n - j,
            {
                let v: u64 = self.values.values[j];
                digit_values.push(extract_digit(v, i, base_bits));
                proof {
                    assert(base_digit(v as nat, i as nat, base_bits as nat) <= v as nat) by {
                        lemma_base_digit_le(v as nat, i as nat, base_bits as nat);
                    }
                }
                j = j + 1;
            }
            let digit_poly = Poly {
                format: PolynomialRingFormat::Coefficient,
                params: self.params,
                values: VecMod { values: digit_values, modulus: q },
            };
            result.push(digit_poly);
            i = i + 1;
        }
        if eval_mode_answer {
            let mut converted: Vec<Poly> = Vec::new();
            let mut t: usize = 0;
            while t < result.len()
                invariant
                    t <= result@.len(),
                    converted@.len() == t,
                    forall|u: int|
                        0 <= u < result@.len() ==> (#[trigger] result@[u]).wf()
                            && result@[u].params == self.params && result@[u].format
                            == PolynomialRingFormat::Coefficient,
                    forall|u: int|
                        0 <= u < t ==> (#[trigger] converted@[u]).wf() && converted@[u].params
                            == self.params && converted@[u].format
                            == PolynomialRingFormat::Evaluation,
                    self.wf(),
                    eval_mode_answer,
                decreases result@.len() - t,
            {
                let mut p = Poly {
                    format: result[t].format,
                    params: result[t].params,
                    values: VecMod {
                        values: crate::vecmod::clone_values(&result[t].values.values),
                        modulus: result[t].values.modulus,
                    },
                };
                match p.set_format(PolynomialRingFormat::Evaluation) {
                    Ok(()) => {},
                    Err(e) => {
                        return Err(e);
                    },
                }
                converted.push(p);
                t = t + 1;
            }
            proof {
                assert(converted@.len() == result@.len());
            }
            return Ok(converted);
        }
        Ok(result)
    }

    /// The dual gadget vector: the element multiplied by each power
    /// `2^(i*base_bits)` of the base, with the same window count as
    /// [`Poly::base_decompose`].
    pub fn powers_of_base(&self, base_bits: usize) -> (r: Vec<Poly>)
        requires
            self.wf(),
            1 <= base_bits <= 63,
        ensures
            r@.len() >= 1,
            (self.params.ciphertext_modulus as nat) < vstd::arithmetic::power2::pow2((r@.len()
                * base_bits as nat) as nat),
            r@.len() > 1 ==> vstd::arithmetic::power2::pow2((((r@.len() - 1)
                * base_bits) as nat) as nat) <= self.params.ciphertext_modulus as nat,
            forall|i: int| 0 <= i < r@.len() ==> (#[trigger] r@[i]).wf() && r@[i].params
                == self.params && r@[i].format == self.format,
            forall|i: int, j: int|
                0 <= i < r@.len() && 0 <= j < self.values.values@.len()
                    ==> (#[trigger] r@[i].values.values@[j]) as int == (self.values.values@[j]
                    * pow_mod(2, (i * base_bits) as nat, self.params.ciphertext_modulus as nat)) % (
                self.params.ciphertext_modulus as int),
    {
        let q: u64 = self.params.ciphertext_modulus;
        let bits: usize = bit_length(q);
        let windows: usize = (bits + base_bits - 1) / base_bits;
        proof {
            vstd::arithmetic::div_mod::lemma_div_is_ordered_by_denominator(
                (bits + base_bits - 1) as int, 1, base_bits as int);
            vstd::arithmetic::div_mod::lemma_div_basics((bits + base_bits - 1) as int);
            let bi = bits as int;
            let bb = base_bits as int;
            let w = windows as int;
            vstd::arithmetic::div_mod::lemma_fundamental_div_mod(bi + bb - 1, bb);
            vstd::arithmetic::div_mod::lemma_mod_bound(bi + bb - 1, bb);
            assert(w >= 1 && w * bb >= bi && w * bb <= bi + bb - 1) by (nonlinear_arith)
                requires
                    w == (bi + bb - 1) / bb,
                    bi + bb - 1 == bb * w + (bi + bb - 1) % bb,
                    0 <= (bi + bb - 1) % bb && (bi + bb - 1) % bb < bb,
                    bb >= 1,
                    bi >= 1,
            ;
            vstd::arithmetic::power2::lemma_pow2_pos(bits as nat);
            if (windows * base_bits) as nat != bits as nat {
                vstd::arithmetic::power2::lemma_pow2_strictly_increases(bits as nat,
                    (windows * base_bits) as nat);
            }
            if windows > 1 {
                assert((w - 1) * bb <= bi - 1) by (nonlinear_arith)
                    requires
                        w * bb <= bi + bb - 1,
                ;
                if ((windows - 1) * base_bits) as nat != (bits - 1) as nat {
                    vstd::arithmetic::power2::lemma_pow2_strictly_increases(
                        (((windows - 1) * base_bits)) as nat, (bits - 1) as nat);
                }
            }
        }
        let mut result: Vec<Poly> = Vec::new();
        let mut i: usize = 0;
        while i < windows
            invariant
                self.wf(),
                q == self.params.ciphertext_modulus,
                1 <= base_bits <= 63,
                i <= windows,
                1 <= windows <= 128,
                result@.len() == i,
                forall|t: int|
                    0 <= t < i ==> (#[trigger] result@[t]).wf() && result@[t].params == self.params
                        && result@[t].format == self.format,
                forall|t: int, j: int|
                    0 <= t < i && 0 <= j < self.values.values@.len()
                        ==> (#[trigger] result@[t].values.values@[j]) as int == (
                    self.values.values@[j] * pow_mod(2, (t * base_bits) as nat, q as nat)) % (
                    q as int),
            decreases windows - i,
        {
            proof {
                assert(i * base_bits <= windows * 64 && windows * 64 <= u64::MAX)
                    by (nonlinear_arith)
                    requires
                        i < windows,
                        base_bits <= 63,
                        windows <= 128,
                ;
            }
            let shift: u64 = (i as u64) * (base_bits as u64);
            let factor: u64 = mod_pow(2 % q, shift, q);
            let mut p = Poly {
                format: self.format,
                params: self.params,
                values: VecMod {
                    values: crate::vecmod::clone_values(&self.values.values),
                    modulus: q,
                },
            };
            p.mul_scalar_assign(factor);
            proof {
                vstd::arithmetic::power::lemma_pow_mod_noop(2, shift as nat, q as int);
                assert forall|j: int| 0 <= j < self.values.values@.len() implies (#[trigger] p
                    .values.values@[j]) as int == (self.values.values@[j] * pow_mod(2,
                    (i * base_bits) as nat, q as nat)) % (q as int) by {
                    let pm = pow_mod(2, shift as nat, q as nat);
                    assert(factor as int == pm);
                    vstd::arithmetic::div_mod::lemma_mul_mod_noop_general(
                        self.values.values@[j] as int, pm, q as int);
                    vstd::arithmetic::div_mod::lemma_mod_bound(pm, q as int);
                }
            }
            result.push(p);
            i = i + 1;
        }
        result
    }
}

/// The `i`-th base-`2^b` digit of a word.
fn extract_digit(v: u64, i: usize, b: usize) -> (r: u64)
    requires
        1 <= b <= 63,
    ensures
        r as nat == base_digit(v as nat, i as nat, b as nat),
        r <= v,
{
    proof {
        vstd::arithmetic::power2::lemma_pow2_pos((i * b) as nat);
        vstd::arithmetic::power2::lemma_pow2_pos(b as nat);
    }
    let shift: u64 = match (i as u64).checked_mul(b as u64) {
        Some(s) => s,
        None => 64,
    };
    if shift >= 64 {
        proof {
            // The digit window lies past every bit of v, so the digit is 0.
            vstd::arithmetic::power2::lemma2_to64_rest();
            if (i * b) as nat != 64 {
                vstd::arithmetic::power2::lemma_pow2_strictly_increases(64, (i * b) as nat);
            }
            vstd::arithmetic::div_mod::lemma_basic_div(v as int,
                vstd::arithmetic::power2::pow2((i * b) as nat) as int);
            vstd::arithmetic::div_mod::lemma_small_mod(0,
                vstd::arithmetic::power2::pow2(b as nat));
        }
        0
    } else {
        proof {
            vstd::arithmetic::power2::lemma_pow2_strictly_increases(shift as nat, 64);
            vstd::arithmetic::power2::lemma_pow2_strictly_increases(b as nat, 64);
            vstd::arithmetic::power2::lemma2_to64_rest();
            assert(1u64 * vstd::arithmetic::power2::pow2(shift as nat)
                == vstd::arithmetic::power2::pow2(shift as nat)) by (nonlinear_arith);
            assert(1u64 * vstd::arithmetic::power2::pow2(b as nat)
                == vstd::arithmetic::power2::pow2(b as nat)) by (nonlinear_arith);
            vstd::bits::lemma_u64_shl_is_mul(1u64, shift);
            vstd::bits::lemma_u64_shl_is_mul(1u64, b as u64);
        }
        let pw: u64 = 1u64 << shift;
        let bp: u64 = 1u64 << (b as u64);
        let quot: u64 = v / pw;
        let r: u64 = quot % bp;
        proof {
            vstd::arithmetic::div_mod::lemma_mod_bound(quot as int, bp as int);
            vstd::arithmetic::div_mod::lemma_div_is_ordered_by_denominator(v as int, 1, pw as int);
            vstd::arithmetic::div_mod::lemma_div_basics(v as int);
            assert(quot <= v);
            assert(r <= quot) by {
                if r > quot {
                    vstd::arithmetic::div_mod::lemma_small_mod(quot as nat, bp as nat);
                }
            }
        }
        r
    }
}

/// The digit of a word never exceeds the word.
proof fn lemma_base_digit_le(v: nat, i: nat, b: nat)
    ensures
        base_digit(v, i, b) <= v,
{
    let p = vstd::arithmetic::power2::pow2(i * b);
    let z = vstd::arithmetic::power2::pow2(b);
    vstd::arithmetic::power2::lemma_pow2_pos(i * b);
    vstd::arithmetic::power2::lemma_pow2_pos(b);
    vstd::arithmetic::div_mod::lemma_div_is_ordered_by_denominator(v as int, 1, p as int);
    vstd::arithmetic::div_mod::lemma_div_basics(v as int);
    let q = v / p;
    vstd::arithmetic::div_mod::lemma_mod_bound(q as int, z as int);
    if q % z > q {
        vstd::arithmetic::div_mod::lemma_small_mod(q, z);
    }
}

/// Structural equality of format tags.
fn format_eq(a: PolynomialRingFormat, b: PolynomialRingFormat) -> (r: bool)
    ensures
        r == (a == b),
{
    match (a, b) {
        (PolynomialRingFormat::Coefficient, PolynomialRingFormat::Coefficient) => true,
        (PolynomialRingFormat::Evaluation, PolynomialRingFormat::Evaluation) => true,
        _ => false,
    }
}

/// The coefficient-domain action of the Galois map x -> x^k: source slot
/// `j` lands in slot `(j*k) mod N`, negated when the wrap count
/// `(j*k) div N` is odd.
pub open spec fn coeff_automorphism_rel(a: Seq<u64>, b: Seq<u64>, k: nat, n: nat, q: nat) -> bool {
    forall|j: int|
        0 <= j < n ==> (#[trigger] b[(j * k) % (n as int)]) as int == (if ((j * k) / (n as int))
            % 2 == 1 {
            (0 - a[j]) % (q as int)
        } else {
            a[j] as int
        })
}

/// Cancelling a unit and its inverse under the modulus: from
/// `(k*kinv) % n == 1` it follows that `(((j*k) % n) * kinv) % n == j` for
/// any `j < n`.
proof fn lemma_perm_inverse(j: int, k: int, kinv: int, n: int)
    requires
        n > 1,
        0 <= j < n,
        k >= 0,
        kinv >= 0,
        ((k % n) * kinv) % n == 1,
    ensures
        (((j * k) % n) * kinv) % n == j,
{
    vstd::arithmetic::div_mod::lemma_mul_mod_noop_general(j * k, kinv, n);
    assert((((j * k) % n) * kinv) % n == ((j * k) * kinv) % n);
    assert((j * k) * kinv == j * (k * kinv)) by (nonlinear_arith);
    vstd::arithmetic::div_mod::lemma_mul_mod_noop_general(k, kinv, n);
    assert((k * kinv) % n == ((k % n) * kinv) % n);
    vstd::arithmetic::div_mod::lemma_mul_mod_noop_general(j, k * kinv, n);
    assert((j * ((k * kinv) % n)) % n == (j * (k * kinv)) % n);
    assert(j * 1 == j) by (nonlinear_arith);
    vstd::arithmetic::div_mod::lemma_small_mod(j as nat, n as nat);
}

impl Poly {
    /// The Galois map x -> x^k for odd `k`. In coefficient format it sends
    /// coefficient `j` to slot `(j*k) mod N`, negated when the wrap count
    /// `(j*k) div N` is odd; in evaluation format it permutes the
    /// bit-reversed slot order accordingly.
    pub fn automorphism_transform(&self, k: usize) -> (r: Poly)
        requires
            self.wf(),
            k % 2 == 1,
            1 <= k < self.params.cyclotomic_order,
        ensures
            r.wf(),
            r.params == self.params,
            r.format == self.format,
            r.values.values@.len() == self.values.values@.len(),
            self.format == PolynomialRingFormat::Coefficient ==> coeff_automorphism_rel(
                self.values.values@, r.values.values@, k as nat,
                self.params.ring_dimension as nat, self.params.ciphertext_modulus as nat),
            self.format == PolynomialRingFormat::Evaluation && self.params.ring_dimension >= 2
                ==> forall|l: nat|
                vstd::arithmetic::power2::pow2(l) == self.params.ring_dimension ==> forall|
                    i: int,
                |
                    0 <= i < self.params.ring_dimension ==> #[trigger] r.values.values@[i]
                        == self.values.values@[crate::utils::rev_bits(
                        (((2 * crate::utils::rev_bits(i as nat, l) + 1) * (k as nat)) / 2) % (
                        self.params.ring_dimension as nat), l) as int],
    {
        let q: u64 = self.params.ciphertext_modulus;
        let n: usize = self.values.values.len();
        proof {
            assert(n == self.params.ring_dimension);
            assert(self.params.ring_dimension == self.params.cyclotomic_order / 2);
            assert(crate::utils::is_power_of_two(self.params.cyclotomic_order as nat));
        }
        if n <= 1 {
            let out = Poly {
                format: self.format,
                params: self.params,
                values: VecMod {
                    values: crate::vecmod::clone_values(&self.values.values),
                    modulus: q,
                },
            };
            proof {
                if n == 1 {
                    assert forall|j: int| 0 <= j < 1 implies (#[trigger] out.values.values@[(j * k)
                        % (n as int)]) as int == (if ((j * k) / (n as int)) % 2 == 1 {
                        (0 - self.values.values@[j]) % (q as int)
                    } else {
                        self.values.values@[j] as int
                    }) by {
                        assert(j == 0);
                        assert(0 * k == 0) by (nonlinear_arith);
                        vstd::arithmetic::div_mod::lemma_small_mod(0, 1);
                        vstd::arithmetic::div_mod::lemma_basic_div(0, 1);
                    }
                }
            }
            return out;
        }
        match self.format {
            PolynomialRingFormat::Coefficient => {
                // The target map j -> (j*k) % N is inverted slot by slot, so
                // every output index is written exactly once.
                proof {
                    assert(crate::utils::is_power_of_two(n as nat)) by {
                        assert(self.params.cyclotomic_order / 2 == n);
                        assert(crate::utils::is_power_of_two(
                            (self.params.cyclotomic_order as nat) / 2));
                    }
                    crate::arith::lemma_odd_coprime_pow2(k as nat, n as nat);
                    vstd::arithmetic::div_mod::lemma_mod_bound(k as int, n as int);
                    assert(crate::arith::gcd((k % n) as nat, n as nat) == crate::arith::gcd(
                        k as nat, n as nat)) by {
                        assert(crate::arith::gcd(k as nat, n as nat) == crate::arith::gcd(n as nat,
                            (k % n) as nat));
                        assert(crate::arith::gcd((k % n) as nat, n as nat) == crate::arith::gcd(
                            n as nat, ((k % n) as nat) % (n as nat)));
                        vstd::arithmetic::div_mod::lemma_small_mod((k % n) as nat, n as nat);
                    }
                }
                let k_red: u64 = (k as u64) % (n as u64);
                let kinv: u64 = match mod_inv(k_red, n as u64) {
                    Some(v) => v,
                    None => {
                        proof {
                            assert(false);
                        }
                        0
                    },
                };
                let mut out: Vec<u64> = Vec::new();
                let mut i: usize = 0;
                while i < n
                    invariant
                        self.wf(),
                        q == self.params.ciphertext_modulus,
                        n == self.values.values@.len(),
                        n == self.params.ring_dimension,
                        2 <= n,
                        1 <= k < self.params.cyclotomic_order,
                        self.params.cyclotomic_order == 2 * n,
                        kinv < n,
                        ((k_red as int) * (kinv as int)) % (n as int) == 1,
                        k_red == (k as u64) % (n as u64),
                        i <= n,
                        out@.len() == i,
                        forall|t: int| 0 <= t < i ==> #[trigger] out@[t] < q,
                        forall|t: int|
                            0 <= t < i ==> (#[trigger] out@[t]) as int == (
                            if (((((t * kinv) % (n as int)) * k) / (n as int)) % 2) == 1 {
                                (0 - self.values.values@[((t * kinv) % (n as int))]) % (q as int)
                            } else {
                                self.values.values@[((t * kinv) % (n as int))] as int
                            }),
                    decreases n - i,
                {
                    proof {
                        assert((i as int) * (kinv as int) <= 0xffff_ffff_ffff_ffff)
                            by (nonlinear_arith)
                            requires
                                0 <= (i as int) && (i as int) <= 0x0400_0000,
                                0 <= (kinv as int) && (kinv as int) <= 0x0400_0000,
                        ;
                    }
                    let j: usize = ((i as u64 * kinv) % (n as u64)) as usize;
                    proof {
                        vstd::arithmetic::div_mod::lemma_mod_bound((i as int) * (kinv as int),
                            n as int);
                        assert((j as int) * (k as int) <= 0xffff_ffff_ffff_ffff)
                            by (nonlinear_arith)
                            requires
                                0 <= (j as int) && (j as int) < (n as int),
                                0 <= (k as int) && (k as int) <= 2 * (n as int),
                                (n as int) <= 0x0400_0000,
                        ;
                    }
                    let jk: u64 = (j as u64) * (k as u64);
                    let wrap: u64 = (jk / (n as u64)) % 2;
                    let v: u64 = self.values.values[j];
                    let pushed: u64 = if wrap == 1 {
                        crate::arith::mod_neg(v, q)
                    } else {
                        v
                    };
                    out.push(pushed);
                    i = i + 1;
                }
                let result = Poly {
                    format: self.format,
                    params: self.params,
                    values: VecMod { values: out, modulus: q },
                };
                proof {
                    let ni = n as int;
                    assert forall|j: int| 0 <= j < ni implies (#[trigger] result
                        .values.values@[(j * k) % ni]) as int == (if ((j * k) / ni) % 2 == 1 {
                        (0 - self.values.values@[j]) % (q as int)
                    } else {
                        self.values.values@[j] as int
                    }) by {
                        let i0 = (j * k) % ni;
                        vstd::arithmetic::div_mod::lemma_mod_bound(j * k, ni);
                        lemma_perm_inverse(j, k as int, kinv as int, ni);
                        assert((i0 * kinv) % ni == j);
                    }
                }
                result
            },
            PolynomialRingFormat::Evaluation => {
                let logn: usize = log2_of_pow2(n);
                proof {
                    vstd::arithmetic::power2::lemma2_to64();
                    if logn >= 32 {
                        vstd::arithmetic::power2::lemma_pow2_strictly_increases(26, logn as nat);
                    }
                }
                let mut out: Vec<u64> = Vec::new();
                let mut i: usize = 0;
                while i < n
                    invariant
                        self.wf(),
                        q == self.params.ciphertext_modulus,
                        n == self.values.values@.len(),
                        n == self.params.ring_dimension,
                        2 <= n,
                        1 <= k < self.params.cyclotomic_order,
                        self.params.cyclotomic_order == 2 * n,
                        logn < 32,
                        vstd::arithmetic::power2::pow2(logn as nat) == n,
                        i <= n,
                        out@.len() == i,
                        forall|t: int| 0 <= t < i ==> #[trigger] out@[t] < q,
                        forall|t: int|
                            0 <= t < i ==> #[trigger] out@[t] == self.values.values@[
                                crate::utils::rev_bits((((2 * crate::utils::rev_bits(t as nat,
                                logn as nat) + 1) * (k as nat)) / 2) % (n as nat), logn as nat) as int],
                    decreases n - i,
                {
                    let jrev: usize = crate::utils::reverse_bits(i, logn);
                    proof {
                        assert(jrev < n);
                        assert((2 * (jrev as int) + 1) * (k as int) <= 0xffff_ffff_ffff_ffff)
                            by (nonlinear_arith)
                            requires
                                0 <= (jrev as int) && (jrev as int) < (n as int),
                                0 <= (k as int) && (k as int) <= 2 * (n as int),
                                (n as int) <= 0x0400_0000,
                        ;
                    }
                    let jk: u64 = (2 * (jrev as u64) + 1) * (k as u64);
                    let src: usize = ((jk / 2) % (n as u64)) as usize;
                    proof {
                        vstd::arithmetic::div_mod::lemma_mod_bound((jk / 2) as int, n as int);
                    }
                    let src_rev: usize = crate::utils::reverse_bits(src, logn);
                    out.push(self.values.values[src_rev]);
                    proof {
                        crate::utils::lemma_rev_bits_bound(src as nat, logn as nat);
                        assert(out@[i as int] == self.values.values@[crate::utils::rev_bits(
                            (((2 * crate::utils::rev_bits(i as nat, logn as nat) + 1) * (k as nat)) / 2)
                                % (n as nat), logn as nat) as int]);
                    }
                    i = i + 1;
                }
                let result = Poly {
                    format: self.format,
                    params: self.params,
                    values: VecMod { values: out, modulus: q },
                };
                proof {
                    assert forall|l: nat|
                        vstd::arithmetic::power2::pow2(l)
                            == self.params.ring_dimension implies forall|t: int|
                        0 <= t < self.params.ring_dimension ==> #[trigger] result
                            .values.values@[t] == self.values.values@[crate::utils::rev_bits(
                            (((2 * crate::utils::rev_bits(t as nat, l) + 1) * (k as nat)) / 2) % (
                            self.params.ring_dimension as nat), l) as int] by {
                        assert(l == logn as nat) by {
                            if l < logn as nat {
                                vstd::arithmetic::power2::lemma_pow2_strictly_increases(l,
                                    logn as nat);
                            }
                            if l > logn as nat {
                                vstd::arithmetic::power2::lemma_pow2_strictly_increases(
                                    logn as nat, l);
                            }
                        }
                    }
                }
                result
            },
        }
    }

    /// The evaluation-domain automorphism with a caller-supplied index
    /// table, amortizing repeated use of the same `k`.
    pub fn automorphism_transform_precompute(&self, k: usize, table: &[usize]) -> (r: Poly)
        requires
            self.wf(),
            k % 2 == 1,
            self.format == PolynomialRingFormat::Evaluation,
            table@.len() == self.values.values@.len(),
            forall|i: int| 0 <= i < table@.len() ==> #[trigger] table@[i] < table@.len(),
        ensures
            r.wf(),
            r.params == self.params,
            r.format == self.format,
            r.values.values@.len() == self.values.values@.len(),
            forall|i: int|
                0 <= i < table@.len() ==> #[trigger] r.values.values@[i]
                    == self.values.values@[table@[i] as int],
    {
        let q: u64 = self.params.ciphertext_modulus;
        let n: usize = self.values.values.len();
        let mut out: Vec<u64> = Vec::new();
        let mut i: usize = 0;
        while i < n
            invariant
                self.wf(),
                q == self.params.ciphertext_modulus,
                n == self.values.values@.len(),
                n == table@.len(),
                forall|t: int| 0 <= t < n ==> #[trigger] table@[t] < n,
                i <= n,
                out@.len() == i,
                forall|t: int| 0 <= t < i ==> #[trigger] out@[t] < q,
                forall|t: int|
                    0 <= t < i ==> #[trigger] out@[t] == self.values.values@[table@[t] as int],
            decreases n - i,
        {
            let idx: usize = table[i];
            out.push(self.values.values[idx]);
            i = i + 1;
        }
        Poly { format: self.format, params: self.params, values: VecMod { values: out, modulus: q } }
    }

    /// Ring conjugation: the automorphism with `k = cyclotomic_order - 1`.
    pub fn transpose(&self) -> (r: Poly)
        requires
            self.wf(),
        ensures
            r.wf(),
            r.params == self.params,
            r.format == self.format,
            r.values.values@.len() == self.values.values@.len(),
            self.format == PolynomialRingFormat::Coefficient ==> coeff_automorphism_rel(
                self.values.values@, r.values.values@,
                (self.params.cyclotomic_order - 1) as nat, self.params.ring_dimension as nat,
                self.params.ciphertext_modulus as nat),
            self.format == PolynomialRingFormat::Evaluation && self.params.ring_dimension >= 2
                ==> forall|l: nat|
                vstd::arithmetic::power2::pow2(l) == self.params.ring_dimension ==> forall|
                    i: int,
                |
                    0 <= i < self.params.ring_dimension ==> #[trigger] r.values.values@[i]
                        == self.values.values@[crate::utils::rev_bits(
                        (((2 * crate::utils::rev_bits(i as nat, l) + 1) * ((
                        self.params.cyclotomic_order - 1) as nat)) / 2) % (
                        self.params.ring_dimension as nat), l) as int],
    {
        proof {
            assert(self.params.cyclotomic_order % 2 == 0) by {
                assert(crate::utils::is_power_of_two(self.params.cyclotomic_order as nat));
            }
        }
        self.automorphism_transform(self.params.cyclotomic_order - 1)
    }
}


/// The modulus-switch round trip law: moving a residue from `q1` to `q2`
/// and back reproduces it exactly, whenever its centered magnitude is below
/// half the smaller modulus.
pub proof fn lemma_switch_modulus_round_trip(v: nat, q1: nat, q2: nat)
    requires
        1 < q1,
        1 < q2,
        q1 % 2 == 1,
        q2 % 2 == 1,
        v < q1,
        centered_abs(v, q1) < (if q1 <= q2 {
            q1
        } else {
            q2
        }) / 2,
    ensures
        switch_val(switch_val(v, q1, q2), q2, q1) == v,
{
    let bound = (if q1 <= q2 { q1 } else { q2 }) / 2;
    let half1 = q1 / 2;
    let half2 = q2 / 2;
    vstd::arithmetic::div_mod::lemma_div_is_ordered(
        (if q1 <= q2 { q1 } else { q2 }) as int, q1 as int, 2);
    vstd::arithmetic::div_mod::lemma_div_is_ordered(
        (if q1 <= q2 { q1 } else { q2 }) as int, q2 as int, 2);
    if v <= half1 {
        // Nonnegative centered value: it is preserved unchanged both ways.
        assert(centered_abs(v, q1) == v);
        assert(v < bound);
        let w = switch_val(v, q1, q2);
        assert(w == v) by {
            if q2 > q1 {
            } else {
                assert(v < q2) by {
                    vstd::arithmetic::div_mod::lemma_fundamental_div_mod(q2 as int, 2);
                }
            }
        }
        assert(switch_val(w, q2, q1) == v) by {
            assert(v <= half2) by {
                vstd::arithmetic::div_mod::lemma_fundamental_div_mod(q2 as int, 2);
            }
            if q1 > q2 {
            } else {
                assert(v < q1);
            }
        }
    } else {
        // Negative centered value: the signed representative is v - q1.
        assert(centered_abs(v, q1) == q1 - v);
        assert(q1 - v < bound);
        let s: int = v as int - q1 as int;
        assert(0 - (bound as int) < s < 0);
        if q2 > q1 {
            let w = switch_val(v, q1, q2);
            assert(w == v + (q2 - q1));
            assert(w as int == q2 + s);
            assert(w > half2) by {
                vstd::arithmetic::div_mod::lemma_fundamental_div_mod(q2 as int, 2);
            }
            // Backward: q1 < q2, so the reducing branch runs.
            let a = (q2 as int) / (q1 as int);
            let r2 = (q2 as int) % (q1 as int);
            vstd::arithmetic::div_mod::lemma_fundamental_div_mod(q2 as int, q1 as int);
            vstd::arithmetic::div_mod::lemma_mod_bound(q2 as int, q1 as int);
            assert(a >= 1) by (nonlinear_arith)
                requires
                    q2 as int == (q1 as int) * a + r2,
                    0 <= r2 && r2 < q1 as int,
                    (q2 as int) > (q1 as int),
                    q1 as int > 1,
            ;
            let shifted = w + (q1 - (q2 % q1));
            assert(shifted as int == v as int + (q1 as int) * a) by (nonlinear_arith)
                requires
                    shifted as int == w + q1 - r2,
                    w as int == v + q2 - q1,
                    q2 as int == (q1 as int) * a + r2,
            ;
            assert(shifted >= q1) by (nonlinear_arith)
                requires
                    shifted as int == v as int + (q1 as int) * a,
                    a >= 1,
                    v as int >= 0,
                    q1 as int > 1,
            ;
            assert((shifted as int) % (q1 as int) == v as int) by {
                vstd::arithmetic::div_mod::lemma_mod_multiples_vanish(a, v as int, q1 as int);
                assert((q1 as int) * a + v as int == shifted as int);
                vstd::arithmetic::div_mod::lemma_small_mod(v, q1);
            }
            assert(switch_val(w, q2, q1) == v);
        } else {
            // Forward with q2 <= q1: the reducing branch runs.
            let b = (q1 as int) / (q2 as int);
            let r1 = (q1 as int) % (q2 as int);
            vstd::arithmetic::div_mod::lemma_fundamental_div_mod(q1 as int, q2 as int);
            vstd::arithmetic::div_mod::lemma_mod_bound(q1 as int, q2 as int);
            assert(b >= 1) by (nonlinear_arith)
                requires
                    q1 as int == (q2 as int) * b + r1,
                    0 <= r1 && r1 < q2 as int,
                    (q2 as int) <= (q1 as int),
                    q2 as int > 1,
            ;
            let shifted = v + (q2 - (q1 % q2));
            assert(shifted as int == (q2 as int) * b + (q2 as int + s)) by (nonlinear_arith)
                requires
                    shifted as int == v + q2 - r1,
                    q1 as int == (q2 as int) * b + r1,
                    s == v as int - q1 as int,
            ;
            assert(q2 as int + s > half2 as int) by {
                vstd::arithmetic::div_mod::lemma_fundamental_div_mod(q2 as int, 2);
            }
            assert(shifted >= q2) by (nonlinear_arith)
                requires
                    shifted as int == (q2 as int) * b + (q2 as int + s),
                    b >= 1,
                    q2 as int + s > 0,
                    q2 as int > 1,
            ;
            let w0: int = shifted % (q2 as int);
            assert(w0 as int == q2 as int + s) by {
                vstd::arithmetic::div_mod::lemma_fundamental_div_mod_converse(shifted as int,
                    q2 as int, b, q2 as int + s);
            }
            assert(switch_val(v, q1, q2) == w0);
            // Backward with q1 >= q2.
            assert(w0 > half2);
            if q1 > q2 {
                assert(switch_val(w0 as nat, q2, q1) == w0 + (q1 - q2));
                assert(w0 + (q1 - q2) == v);
            } else {
                assert(q1 == q2);
                assert((q2 as int) % (q1 as int) == 0) by {
                    vstd::arithmetic::div_mod::lemma_mod_self_0(q1 as int);
                }
                let shifted2 = w0 + (q1 - (q2 % q1));
                assert(shifted2 as int == q1 as int + w0 as int);
                assert(shifted2 >= q1);
                assert((shifted2 as int) % (q1 as int) == w0 as int) by {
                    vstd::arithmetic::div_mod::lemma_mod_multiples_vanish(1, w0 as int, q1 as int);
                    vstd::arithmetic::div_mod::lemma_small_mod(w0 as nat, q1);
                }
                assert(w0 as int == v as int);
            }
        }
    }
}

/// The round trip law lifted to whole value sequences, as produced by the
/// modulus-switch operations.
pub proof fn lemma_switch_modulus_round_trip_seq(s: Seq<u64>, q1: u64, q2: u64)
    requires
        1 < q1,
        1 < q2,
        q1 % 2 == 1,
        q2 % 2 == 1,
        forall|i: int| 0 <= i < s.len() ==> #[trigger] s[i] < q1,
        forall|i: int|
            0 <= i < s.len() ==> centered_abs(#[trigger] s[i] as nat, q1 as nat) < (if q1 <= q2 {
                q1 as nat
            } else {
                q2 as nat
            }) / 2,
    ensures
        forall|i: int|
            0 <= i < s.len() ==> switch_val(switch_val(#[trigger] s[i] as nat, q1 as nat,
                q2 as nat), q2 as nat, q1 as nat) == s[i] as nat,
{
    assert forall|i: int| 0 <= i < s.len() implies switch_val(switch_val(#[trigger] s[i] as nat,
        q1 as nat, q2 as nat), q2 as nat, q1 as nat) == s[i] as nat by {
        lemma_switch_modulus_round_trip(s[i] as nat, q1 as nat, q2 as nat);
    }
}


/// Double negation under the modulus returns a reduced value unchanged.
proof fn lemma_double_negation(x: nat, q: nat)
    requires
        q > 1,
        x < q,
    ensures
        (0 - ((0 - (x as int)) % (q as int))) % (q as int) == x as int,
{
    let qi = q as int;
    if x == 0 {
        vstd::arithmetic::div_mod::lemma_small_mod(0, q);
    } else {
        vstd::arithmetic::div_mod::lemma_fundamental_div_mod_converse(0 - (x as int), qi, -1,
            qi - x);
        assert((0 - (x as int)) % qi == qi - x);
        vstd::arithmetic::div_mod::lemma_fundamental_div_mod_converse(0 - (qi - x), qi, -1,
            x as int);
    }
}

/// The automorphism composition law in coefficient format: applying the
/// Galois map by `k2` and then by `k1` acts on every source slot exactly as
/// the single map by `k1*k2 mod m` does, `m` being the cyclotomic order.
pub proof fn lemma_automorphism_composition(
    a: Seq<u64>,
    b: Seq<u64>,
    c: Seq<u64>,
    d: Seq<u64>,
    k1: nat,
    k2: nat,
    n: nat,
    q: nat,
)
    requires
        n >= 1,
        crate::utils::is_power_of_two(n),
        q > 1,
        k1 % 2 == 1,
        k2 % 2 == 1,
        forall|i: int| 0 <= i < n ==> #[trigger] a[i] < q,
        a.len() == n,
        b.len() == n,
        c.len() == n,
        d.len() == n,
        coeff_automorphism_rel(a, b, k2, n, q),
        coeff_automorphism_rel(b, c, k1, n, q),
        coeff_automorphism_rel(a, d, (((k1 * k2) as int) % ((2 * n) as int)) as nat, n, q),
    ensures
        forall|i: int| 0 <= i < n ==> #[trigger] c[i] == d[i],
{
    let ni = n as int;
    let k12: int = ((k1 * k2) as int) % ((2 * n) as int);
    assert forall|j: int| 0 <= j < n implies #[trigger] c[(j * k12) % ni] == d[(j * k12) % ni] by {
        let j1 = (j * k2) % ni;
        let e2 = (j * k2) / ni;
        let e1 = (j1 * k1) / ni;
        let i0 = (j1 * k1) % ni;
        vstd::arithmetic::div_mod::lemma_mod_bound(j * k2, ni);
        vstd::arithmetic::div_mod::lemma_mod_bound(j1 * k1, ni);
        vstd::arithmetic::div_mod::lemma_mod_bound(j * k12, ni);
        vstd::arithmetic::div_mod::lemma_fundamental_div_mod(j * k2, ni);
        vstd::arithmetic::div_mod::lemma_fundamental_div_mod(j1 * k1, ni);
        vstd::arithmetic::div_mod::lemma_fundamental_div_mod(j * k12, ni);
        vstd::arithmetic::div_mod::lemma_fundamental_div_mod((k1 * k2) as int, 2 * ni);
        vstd::arithmetic::div_mod::lemma_mod_bound((k1 * k2) as int, 2 * ni);
        let t = (k1 * k2) as int / (2 * ni);
        // j*k1*k2 decomposes as n*(k1*e2 + e1) + i0.
        assert(j * (k1 * k2) as int == ni * (k1 * e2 + e1) + i0) by (nonlinear_arith)
            requires
                j * k2 == ni * e2 + j1,
                j1 * k1 == ni * e1 + i0,
        ;
        // j*k12 differs from j*k1*k2 by a multiple of 2n.
        assert(j * k12 == j * (k1 * k2) as int - (2 * ni) * (j * t)) by (nonlinear_arith)
            requires
                k12 == (k1 * k2) as int - (2 * ni) * t,
        ;
        let e12 = (j * k12) / ni;
        let i12 = (j * k12) % ni;
        // Same target slot.
        assert(i12 == i0 && e12 == k1 * e2 + e1 - 2 * (j * t)) by {
            assert(j * k12 == ni * (k1 * e2 + e1 - 2 * (j * t)) + i0) by (nonlinear_arith)
                requires
                    j * k12 == ni * (k1 * e2 + e1) + i0 - (2 * ni) * (j * t),
            ;
            vstd::arithmetic::div_mod::lemma_fundamental_div_mod_converse(j * k12, ni,
                k1 * e2 + e1 - 2 * (j * t), i0);
        }
        // Same sign: k1 odd makes the wrap parities agree.
        assert(e12 % 2 == (e1 + e2) % 2) by {
            assert((k1 * e2 + e1 - 2 * (j * t)) % 2 == (e1 + e2) % 2) by {
                let d2 = (k1 as int - 1) / 2;
                assert(k1 as int == 2 * d2 + 1) by {
                    vstd::arithmetic::div_mod::lemma_fundamental_div_mod(k1 as int, 2);
                }
                assert(k1 * e2 + e1 - 2 * (j * t) == (e1 + e2) + 2 * (d2 * e2 - j * t))
                    by (nonlinear_arith)
                    requires
                        k1 as int == 2 * d2 + 1,
                ;
                vstd::arithmetic::div_mod::lemma_mod_multiples_vanish(d2 * e2 - j * t, e1 + e2,
                    2);
            }
        }
        // Read the three relations at the linked slots.
        assert(b[j1] as int == (if e2 % 2 == 1 {
            (0 - a[j]) % (q as int)
        } else {
            a[j] as int
        }));
        assert(c[i0] as int == (if e1 % 2 == 1 {
            (0 - b[j1]) % (q as int)
        } else {
            b[j1] as int
        }));
        assert(d[i12] as int == (if e12 % 2 == 1 {
            (0 - a[j]) % (q as int)
        } else {
            a[j] as int
        }));
        vstd::arithmetic::div_mod::lemma_mod_bound(e1, 2);
        vstd::arithmetic::div_mod::lemma_mod_bound(e2, 2);
        vstd::arithmetic::div_mod::lemma_mod_bound(e12, 2);
        if e1 % 2 == 1 && e2 % 2 == 1 {
            assert(e12 % 2 == 0) by {
                vstd::arithmetic::div_mod::lemma_add_mod_noop(e1, e2, 2);
            }
            lemma_double_negation(a[j] as nat, q);
        } else if e1 % 2 == 0 && e2 % 2 == 0 {
            assert(e12 % 2 == 0) by {
                vstd::arithmetic::div_mod::lemma_add_mod_noop(e1, e2, 2);
            }
        } else {
            assert(e12 % 2 == 1) by {
                vstd::arithmetic::div_mod::lemma_add_mod_noop(e1, e2, 2);
                vstd::arithmetic::div_mod::lemma_small_mod(1, 2);
            }
        }
    }
    // Every target slot is reached: k1*k2 mod 2n is odd, so it is a unit
    // modulo the power-of-two dimension, and the slot map is onto.
    assert(k12 % 2 == 1) by {
        vstd::arithmetic::div_mod::lemma_mul_mod_noop_general(k1 as int, k2 as int, 2);
        vstd::arithmetic::div_mod::lemma_small_mod(1, 2);
        assert(((k1 * k2) as int) % 2 == 1) by {
            assert((1int * 1) % 2 == 1) by (nonlinear_arith);
        }
        vstd::arithmetic::div_mod::lemma_fundamental_div_mod((k1 * k2) as int, 2 * ni);
        vstd::arithmetic::div_mod::lemma_fundamental_div_mod((k1 * k2) as int, 2);
        let qq = (k1 * k2) as int / (2 * ni);
        let hh = (k1 * k2) as int / 2;
        assert(k12 == 2 * (hh - ni * qq) + 1) by (nonlinear_arith)
            requires
                (k1 * k2) as int == (2 * ni) * qq + k12,
                (k1 * k2) as int == 2 * hh + 1,
        ;
        vstd::arithmetic::div_mod::lemma_mod_bound((k1 * k2) as int, 2 * ni);
        vstd::arithmetic::div_mod::lemma_fundamental_div_mod_converse(k12, 2, hh - ni * qq, 1);
    }
    assert forall|i: int| 0 <= i < n implies #[trigger] c[i] == d[i] by {
        if n == 1 {
            assert(c[(0 * k12) % ni] == d[(0 * k12) % ni]);
            assert(0 * k12 == 0) by (nonlinear_arith);
            vstd::arithmetic::div_mod::lemma_mod_bound(0, 1);
            assert(i == 0);
        } else {
            crate::arith::lemma_odd_inverse_exists_pow2((k12 as nat), n);
            let kinv = choose|x: nat| x < n && #[trigger] (((k12 as nat) * x) % n) == 1nat % n;
            assert(((k12 as nat) * kinv) % n == 1) by {
                vstd::arithmetic::div_mod::lemma_small_mod(1, n);
            }
            let j0 = (i * (kinv as int)) % ni;
            vstd::arithmetic::div_mod::lemma_mod_bound(i * (kinv as int), ni);
            assert((j0 * k12) % ni == i) by {
                assert(((kinv as int) % ni) * k12 % ni == 1) by {
                    vstd::arithmetic::div_mod::lemma_small_mod(kinv, n);
                    assert((kinv as int) * k12 == k12 * (kinv as int)) by (nonlinear_arith);
                }
                lemma_perm_inverse(i, kinv as int, k12, ni);
            }
            assert(c[(j0 * k12) % ni] == d[(j0 * k12) % ni]);
        }
    }
}

} // verus!


