//! Vector of residues under a shared odd modulus, with elementwise modular
//! operations, exponentiation, inversion, uniform sampling, and the
//! centered-residue modulus switch.

use vstd::prelude::*;
use vstd::pervasive::VecAdditionalExecFns;
use crate::arith::{gcd, mod_add, mod_inv, mod_mul, mod_pow, mod_sub, pow_mod};
use crate::error::{Error, Result};
use crate::rng::random_u64_below;

verus! {

/// Largest admissible modulus bound: moduli fit in 61 bits, and every
/// intermediate sum of two residues then fits in a word.
pub const MODULUS_CEILING: u64 = 0x2000_0000_0000_0000;

/// A vector of values sharing one odd modulus.
#[derive(Debug, Clone)]
pub struct VecMod {
    /// The residues, each strictly below the modulus.
    pub values: Vec<u64>,
    /// The shared odd modulus.
    pub modulus: u64,
}

/// The centered-residue modulus switch rule for one value: a residue above
/// half the old modulus is a negative value, and keeps its signed meaning
/// under the new modulus.
pub open spec fn switch_val(v: nat, old_m: nat, new_m: nat) -> nat
    recommends
        old_m > 1,
        new_m > 1,
        v < old_m,
{
    let half = old_m / 2;
    if new_m > old_m {
        if v > half {
            (v + (new_m - old_m)) as nat
        } else {
            v
        }
    } else {
        let shifted = if v > half {
            (v + (new_m - (old_m % new_m))) as nat
        } else {
            v
        };
        if shifted >= new_m {
            shifted % new_m
        } else {
            shifted
        }
    }
}

/// Parity of the centered representative of `v` modulo `m`.
pub open spec fn centered_parity(v: nat, m: nat) -> nat
    recommends
        m > 1,
        v < m,
{
    if v > m / 2 {
        (v + 1) % 2
    } else {
        v % 2
    }
}

impl VecMod {
    /// Well-formedness: an odd modulus within the word budget, and every
    /// value reduced.
    pub open spec fn wf(self) -> bool {
        &&& 1 < self.modulus < MODULUS_CEILING
        &&& self.modulus % 2 == 1
        &&& forall|i: int| 0 <= i < self.values@.len() ==> #[trigger] self.values@[i] < self.modulus
    }

    /// A vector of `len` copies of `value % modulus`.
    pub fn with_value(len: usize, value: u64, modulus: u64) -> (r: VecMod)
        requires
            1 < modulus < MODULUS_CEILING,
            modulus % 2 == 1,
        ensures
            r.wf(),
            r.modulus == modulus,
            r.values@.len() == len,
            forall|i: int| 0 <= i < len ==> #[trigger] r.values@[i] == value % modulus,
    {
        let reduced: u64 = value % modulus;
        let mut values: Vec<u64> = Vec::new();
        let mut i: usize = 0;
        while i < len
            invariant
                i <= len,
                values@.len() == i,
                reduced == value % modulus,
                reduced < modulus,
                forall|j: int| 0 <= j < i ==> #[trigger] values@[j] == reduced,
            decreases len - i,
        {
            values.push(reduced);
            i = i + 1;
        }
        VecMod { values, modulus }
    }

    /// A vector built from machine integers, each reduced modulo `modulus`.
    pub fn with_values_usize(values: &[usize], modulus: u64) -> (r: VecMod)
        requires
            1 < modulus < MODULUS_CEILING,
            modulus % 2 == 1,
            forall|i: int| 0 <= i < values@.len() ==> #[trigger] values@[i] <= u64::MAX,
        ensures
            r.wf(),
            r.modulus == modulus,
            r.values@.len() == values@.len(),
            forall|i: int|
                0 <= i < values@.len() ==> #[trigger] r.values@[i] == (values@[i] as u64) % modulus,
    {
        let mut out: Vec<u64> = Vec::new();
        let mut i: usize = 0;
        while i < values.len()
            invariant
                i <= values@.len(),
                out@.len() == i,
                1 < modulus,
                forall|j: int| 0 <= j < values@.len() ==> #[trigger] values@[j] <= u64::MAX,
                forall|j: int|
                    0 <= j < i ==> #[trigger] out@[j] == (values@[j] as u64) % modulus,
                forall|j: int| 0 <= j < i ==> #[trigger] out@[j] < modulus,
            decreases values@.len() - i,
        {
            let v: usize = values[i];
            out.push((v as u64) % modulus);
            i = i + 1;
        }
        VecMod { values: out, modulus }
    }

    /// A vector of `length` values drawn below `modulus`.
    pub fn random(length: usize, modulus: u64) -> (r: VecMod)
        requires
            1 < modulus < MODULUS_CEILING,
            modulus % 2 == 1,
        ensures
            r.wf(),
            r.modulus == modulus,
            r.values@.len() == length,
    {
        let mut values: Vec<u64> = Vec::new();
        let mut i: usize = 0;
        while i < length
            invariant
                i <= length,
                values@.len() == i,
                1 < modulus,
                forall|j: int| 0 <= j < i ==> #[trigger] values@[j] < modulus,
            decreases length - i,
        {
            values.push(random_u64_below(modulus));
            i = i + 1;
        }
        VecMod { values, modulus }
    }

    /// Number of entries.
    pub fn len(&self) -> (r: usize)
        ensures
            r == self.values@.len(),
    {
        self.values.len()
    }

    /// Whether the vector has no entries.
    pub fn is_empty(&self) -> (r: bool)
        ensures
            r == (self.values@.len() == 0),
    {
        self.values.len() == 0
    }

    /// The shared modulus.
    pub fn modulus(&self) -> (r: u64)
        ensures
            r == self.modulus,
    {
        self.modulus
    }

    /// Elementwise sum with another vector under the shared modulus.
    pub fn add_assign(&mut self, rhs: &VecMod)
        requires
            old(self).wf(),
            rhs.wf(),
            old(self).modulus == rhs.modulus,
            old(self).values@.len() == rhs.values@.len(),
        ensures
            final(self).wf(),
            final(self).modulus == old(self).modulus,
            final(self).values@.len() == old(self).values@.len(),
            forall|i: int|
                0 <= i < old(self).values@.len() ==> #[trigger] final(self).values@[i] == (old(
                    self,
                ).values@[i] + rhs.values@[i]) % (old(self).modulus as int),
    {
        let m: u64 = self.modulus;
        let n: usize = self.values.len();
        let mut i: usize = 0;
        while i < n
            invariant
                self.modulus == m,
                1 < m < MODULUS_CEILING,
                m % 2 == 1,
                n == self.values@.len(),
                n == rhs.values@.len(),
                n == old(self).values@.len(),
                i <= n,
                rhs.wf(),
                rhs.modulus == m,
                forall|j: int| 0 <= j < n ==> #[trigger] old(self).values@[j] < m,
                forall|j: int| i <= j < n ==> #[trigger] self.values@[j] == old(self).values@[j],
                forall|j: int|
                    0 <= j < i ==> #[trigger] self.values@[j] == (old(self).values@[j]
                        + rhs.values@[j]) % (m as int),
                forall|j: int| 0 <= j < i ==> #[trigger] self.values@[j] < m,
            decreases n - i,
        {
            let a: u64 = self.values[i];
            let b: u64 = rhs.values[i];
            self.values.set(i, mod_add(a, b, m));
            i = i + 1;
        }
    }

    /// Elementwise difference with another vector under the shared modulus.
    pub fn sub_assign(&mut self, rhs: &VecMod)
        requires
            old(self).wf(),
            rhs.wf(),
            old(self).modulus == rhs.modulus,
            old(self).values@.len() == rhs.values@.len(),
        ensures
            final(self).wf(),
            final(self).modulus == old(self).modulus,
            final(self).values@.len() == old(self).values@.len(),
            forall|i: int|
                0 <= i < old(self).values@.len() ==> #[trigger] final(self).values@[i] == (old(
                    self,
                ).values@[i] - rhs.values@[i]) % (old(self).modulus as int),
    {
        let m: u64 = self.modulus;
        let n: usize = self.values.len();
        let mut i: usize = 0;
        while i < n
            invariant
                self.modulus == m,
                1 < m < MODULUS_CEILING,
                m % 2 == 1,
                n == self.values@.len(),
                n == rhs.values@.len(),
                n == old(self).values@.len(),
                i <= n,
                rhs.wf(),
                rhs.modulus == m,
                forall|j: int| 0 <= j < n ==> #[trigger] old(self).values@[j] < m,
                forall|j: int| i <= j < n ==> #[trigger] self.values@[j] == old(self).values@[j],
                forall|j: int|
                    0 <= j < i ==> #[trigger] self.values@[j] == (old(self).values@[j]
                        - rhs.values@[j]) % (m as int),
                forall|j: int| 0 <= j < i ==> #[trigger] self.values@[j] < m,
            decreases n - i,
        {
            let a: u64 = self.values[i];
            let b: u64 = rhs.values[i];
            self.values.set(i, mod_sub(a, b, m));
            i = i + 1;
        }
    }

    /// Elementwise product with another vector under the shared modulus.
    pub fn mul_assign(&mut self, rhs: &VecMod)
        requires
            old(self).wf(),
            rhs.wf(),
            old(self).modulus == rhs.modulus,
            old(self).values@.len() == rhs.values@.len(),
        ensures
            final(self).wf(),
            final(self).modulus == old(self).modulus,
            final(self).values@.len() == old(self).values@.len(),
            forall|i: int|
                0 <= i < old(self).values@.len() ==> #[trigger] final(self).values@[i] == (old(
                    self,
                ).values@[i] * rhs.values@[i]) % (old(self).modulus as int),
    {
        let m: u64 = self.modulus;
        let n: usize = self.values.len();
        let mut i: usize = 0;
        while i < n
            invariant
                self.modulus == m,
                1 < m < MODULUS_CEILING,
                m % 2 == 1,
                n == self.values@.len(),
                n == rhs.values@.len(),
                n == old(self).values@.len(),
                i <= n,
                rhs.wf(),
                rhs.modulus == m,
                forall|j: int| 0 <= j < n ==> #[trigger] old(self).values@[j] < m,
                forall|j: int| i <= j < n ==> #[trigger] self.values@[j] == old(self).values@[j],
                forall|j: int|
                    0 <= j < i ==> #[trigger] self.values@[j] == (old(self).values@[j]
                        * rhs.values@[j]) % (m as int),
                forall|j: int| 0 <= j < i ==> #[trigger] self.values@[j] < m,
            decreases n - i,
        {
            let a: u64 = self.values[i];
            let b: u64 = rhs.values[i];
            self.values.set(i, mod_mul(a, b, m));
            i = i + 1;
        }
    }

    /// Add one scalar to every entry.
    pub fn add_scalar_assign(&mut self, rhs: u64)
        requires
            old(self).wf(),
            rhs < old(self).modulus,
        ensures
            final(self).wf(),
            final(self).modulus == old(self).modulus,
            final(self).values@.len() == old(self).values@.len(),
            forall|i: int|
                0 <= i < old(self).values@.len() ==> #[trigger] final(self).values@[i] == (old(
                    self,
                ).values@[i] + rhs) % (old(self).modulus as int),
    {
        let m: u64 = self.modulus;
        let n: usize = self.values.len();
        let mut i: usize = 0;
        while i < n
            invariant
                self.modulus == m,
                1 < m < MODULUS_CEILING,
                m % 2 == 1,
                rhs < m,
                n == self.values@.len(),
                n == old(self).values@.len(),
                i <= n,
                forall|j: int| 0 <= j < n ==> #[trigger] old(self).values@[j] < m,
                forall|j: int| i <= j < n ==> #[trigger] self.values@[j] == old(self).values@[j],
                forall|j: int|
                    0 <= j < i ==> #[trigger] self.values@[j] == (old(self).values@[j] + rhs) % (
                    m as int),
                forall|j: int| 0 <= j < i ==> #[trigger] self.values@[j] < m,
            decreases n - i,
        {
            let a: u64 = self.values[i];
            self.values.set(i, mod_add(a, rhs, m));
            i = i + 1;
        }
    }

    /// Subtract one scalar from every entry.
    pub fn sub_scalar_assign(&mut self, rhs: u64)
        requires
            old(self).wf(),
            rhs < old(self).modulus,
        ensures
            final(self).wf(),
            final(self).modulus == old(self).modulus,
            final(self).values@.len() == old(self).values@.len(),
            forall|i: int|
                0 <= i < old(self).values@.len() ==> #[trigger] final(self).values@[i] == (old(
                    self,
                ).values@[i] - rhs) % (old(self).modulus as int),
    {
        let m: u64 = self.modulus;
        let n: usize = self.values.len();
        let mut i: usize = 0;
        while i < n
            invariant
                self.modulus == m,
                1 < m < MODULUS_CEILING,
                m % 2 == 1,
                rhs < m,
                n == self.values@.len(),
                n == old(self).values@.len(),
                i <= n,
                forall|j: int| 0 <= j < n ==> #[trigger] old(self).values@[j] < m,
                forall|j: int| i <= j < n ==> #[trigger] self.values@[j] == old(self).values@[j],
                forall|j: int|
                    0 <= j < i ==> #[trigger] self.values@[j] == (old(self).values@[j] - rhs) % (
                    m as int),
                forall|j: int| 0 <= j < i ==> #[trigger] self.values@[j] < m,
            decreases n - i,
        {
            let a: u64 = self.values[i];
            self.values.set(i, mod_sub(a, rhs, m));
            i = i + 1;
        }
    }

    /// Multiply every entry by one scalar.
    pub fn mul_scalar_assign(&mut self, rhs: u64)
        requires
            old(self).wf(),
            rhs < old(self).modulus,
        ensures
            final(self).wf(),
            final(self).modulus == old(self).modulus,
            final(self).values@.len() == old(self).values@.len(),
            forall|i: int|
                0 <= i < old(self).values@.len() ==> #[trigger] final(self).values@[i] == (old(
                    self,
                ).values@[i] * rhs) % (old(self).modulus as int),
    {
        let m: u64 = self.modulus;
        let n: usize = self.values.len();
        let mut i: usize = 0;
        while i < n
            invariant
                self.modulus == m,
                1 < m < MODULUS_CEILING,
                m % 2 == 1,
                rhs < m,
                n == self.values@.len(),
                n == old(self).values@.len(),
                i <= n,
                forall|j: int| 0 <= j < n ==> #[trigger] old(self).values@[j] < m,
                forall|j: int| i <= j < n ==> #[trigger] self.values@[j] == old(self).values@[j],
                forall|j: int|
                    0 <= j < i ==> #[trigger] self.values@[j] == (old(self).values@[j] * rhs) % (
                    m as int),
                forall|j: int| 0 <= j < i ==> #[trigger] self.values@[j] < m,
            decreases n - i,
        {
            let a: u64 = self.values[i];
            self.values.set(i, mod_mul(a, rhs, m));
            i = i + 1;
        }
    }

    /// Divide every entry by a scalar: multiply by its modular inverse.
    /// Fails exactly when the scalar shares a factor with the modulus.
    pub fn div_scalar_assign(&mut self, rhs: u64) -> (r: Result<()>)
        requires
            old(self).wf(),
            rhs < old(self).modulus,
        ensures
            final(self).wf(),
            final(self).modulus == old(self).modulus,
            final(self).values@.len() == old(self).values@.len(),
            r is Ok <==> gcd(rhs as nat, old(self).modulus as nat) == 1,
            r is Ok ==> forall|i: int|
                0 <= i < old(self).values@.len() ==> (#[trigger] final(self).values@[i] * rhs) % (
                old(self).modulus as int) == (old(self).values@[i] as int) % (old(
                    self,
                ).modulus as int),
            r is Err ==> *final(self) == *old(self),
    {
        let m: u64 = self.modulus;
        let inv: u64 = match mod_inv(rhs, m) {
            Some(v) => v,
            None => {
                return Err(Error::NoInverse);
            },
        };
        let ghost pre = self.values@;
        self.mul_scalar_assign(inv);
        proof {
            let mi = m as int;
            assert forall|i: int| 0 <= i < pre.len() implies (#[trigger] final(self).values@[i]
                * rhs) % mi == (pre[i] as int) % mi by {
                let v = pre[i] as int;
                let w = final(self).values@[i] as int;
                // w == v * inv % m, and inv * rhs == 1 (mod m)
                crate::arith::lemma_div_scalar_cancels(v, inv as int, rhs as int, w, mi);
            }
        }
        Ok(())
    }

    /// Elementwise multiplicative inverse. Returns `None` exactly when some
    /// entry shares a factor with the modulus; for a prime modulus that means
    /// exactly the zero entries.
    pub fn inverse(&self) -> (r: Option<VecMod>)
        requires
            self.wf(),
        ensures
            r is Some ==> {
                &&& r.unwrap().wf()
                &&& r.unwrap().modulus == self.modulus
                &&& r.unwrap().values@.len() == self.values@.len()
                &&& forall|i: int|
                    0 <= i < self.values@.len() ==> (self.values@[i] as int
                        * #[trigger] r.unwrap().values@[i] as int) % (self.modulus as int) == 1
            },
            r is Some <==> forall|i: int|
                0 <= i < self.values@.len() ==> gcd(#[trigger] self.values@[i] as nat,
                    self.modulus as nat) == 1,
    {
        let m: u64 = self.modulus;
        let n: usize = self.values.len();
        let mut out: Vec<u64> = Vec::new();
        let mut i: usize = 0;
        while i < n
            invariant
                self.wf(),
                m == self.modulus,
                n == self.values@.len(),
                i <= n,
                out@.len() == i,
                forall|j: int| 0 <= j < i ==> #[trigger] out@[j] < m,
                forall|j: int|
                    0 <= j < i ==> (self.values@[j] as int * #[trigger] out@[j] as int) % (
                    m as int) == 1,
                forall|j: int|
                    0 <= j < i ==> gcd(#[trigger] self.values@[j] as nat, m as nat) == 1,
            decreases n - i,
        {
            let v: u64 = self.values[i];
            match mod_inv(v, m) {
                Some(inv) => {
                    out.push(inv);
                },
                None => {
                    proof {
                        assert(gcd(self.values@[i as int] as nat, m as nat) != 1);
                    }
                    return None;
                },
            }
            i = i + 1;
        }
        Some(VecMod { values: out, modulus: m })
    }

    /// Reduce every entry modulo 2 under the centered-residue rule: the
    /// parity of the signed representative.
    pub fn rem_mod_2_assign(&mut self)
        requires
            old(self).wf(),
        ensures
            final(self).wf(),
            final(self).modulus == old(self).modulus,
            final(self).values@.len() == old(self).values@.len(),
            forall|i: int|
                0 <= i < old(self).values@.len() ==> #[trigger] final(self).values@[i]
                    == centered_parity(old(self).values@[i] as nat, old(self).modulus as nat),
    {
        let m: u64 = self.modulus;
        let half: u64 = m / 2;
        let n: usize = self.values.len();
        let mut i: usize = 0;
        while i < n
            invariant
                self.modulus == m,
                1 < m < MODULUS_CEILING,
                m % 2 == 1,
                half == m / 2,
                n == self.values@.len(),
                n == old(self).values@.len(),
                i <= n,
                forall|j: int| 0 <= j < n ==> #[trigger] old(self).values@[j] < m,
                forall|j: int| i <= j < n ==> #[trigger] self.values@[j] == old(self).values@[j],
                forall|j: int|
                    0 <= j < i ==> #[trigger] self.values@[j] == centered_parity(
                        old(self).values@[j] as nat, m as nat),
                forall|j: int| 0 <= j < i ==> #[trigger] self.values@[j] < m,
            decreases n - i,
        {
            let v: u64 = self.values[i];
            let bit: u64 = if v > half {
                (v + 1) % 2
            } else {
                v % 2
            };
            self.values.set(i, bit);
            i = i + 1;
        }
    }

    /// The vector of centered parities, leaving `self` unchanged.
    pub fn rem_mod_2(&self) -> (r: VecMod)
        requires
            self.wf(),
        ensures
            r.wf(),
            r.modulus == self.modulus,
            r.values@.len() == self.values@.len(),
            forall|i: int|
                0 <= i < self.values@.len() ==> #[trigger] r.values@[i] == centered_parity(
                    self.values@[i] as nat, self.modulus as nat),
    {
        let mut result = VecMod { values: clone_values(&self.values), modulus: self.modulus };
        result.rem_mod_2_assign();
        result
    }

    /// Raise every entry to the `exponent`-th power under the modulus.
    pub fn pow_assign(&mut self, exponent: u64)
        requires
            old(self).wf(),
        ensures
            final(self).wf(),
            final(self).modulus == old(self).modulus,
            final(self).values@.len() == old(self).values@.len(),
            forall|i: int|
                0 <= i < old(self).values@.len() ==> #[trigger] final(self).values@[i] == pow_mod(
                    old(self).values@[i] as nat, exponent as nat, old(self).modulus as nat),
    {
        let m: u64 = self.modulus;
        let n: usize = self.values.len();
        let mut i: usize = 0;
        while i < n
            invariant
                self.modulus == m,
                1 < m < MODULUS_CEILING,
                m % 2 == 1,
                n == self.values@.len(),
                n == old(self).values@.len(),
                i <= n,
                forall|j: int| 0 <= j < n ==> #[trigger] old(self).values@[j] < m,
                forall|j: int| i <= j < n ==> #[trigger] self.values@[j] == old(self).values@[j],
                forall|j: int|
                    0 <= j < i ==> #[trigger] self.values@[j] == pow_mod(
                        old(self).values@[j] as nat, exponent as nat, m as nat),
                forall|j: int| 0 <= j < i ==> #[trigger] self.values@[j] < m,
            decreases n - i,
        {
            let v: u64 = self.values[i];
            self.values.set(i, mod_pow(v, exponent, m));
            i = i + 1;
        }
    }

    /// The vector of powers, leaving `self` unchanged.
    pub fn pow(&self, exponent: u64) -> (r: VecMod)
        requires
            self.wf(),
        ensures
            r.wf(),
            r.modulus == self.modulus,
            r.values@.len() == self.values@.len(),
            forall|i: int|
                0 <= i < self.values@.len() ==> #[trigger] r.values@[i] == pow_mod(
                    self.values@[i] as nat, exponent as nat, self.modulus as nat),
    {
        let mut result = VecMod { values: clone_values(&self.values), modulus: self.modulus };
        result.pow_assign(exponent);
        result
    }

    /// Move every entry to a new modulus under the centered-residue rule.
    pub fn switch_modulus(&mut self, new_modulus: u64)
        requires
            old(self).wf(),
            1 < new_modulus < MODULUS_CEILING,
            new_modulus % 2 == 1,
        ensures
            final(self).wf(),
            final(self).modulus == new_modulus,
            final(self).values@.len() == old(self).values@.len(),
            forall|i: int|
                0 <= i < old(self).values@.len() ==> #[trigger] final(self).values@[i]
                    == switch_val(old(self).values@[i] as nat, old(self).modulus as nat,
                    new_modulus as nat),
    {
        let m: u64 = self.modulus;
        let half: u64 = m / 2;
        let n: usize = self.values.len();
        let mut i: usize = 0;
        while i < n
            invariant
                self.modulus == m,
                1 < m < MODULUS_CEILING,
                m % 2 == 1,
                1 < new_modulus < MODULUS_CEILING,
                new_modulus % 2 == 1,
                half == m / 2,
                n == self.values@.len(),
                n == old(self).values@.len(),
                i <= n,
                forall|j: int| 0 <= j < n ==> #[trigger] old(self).values@[j] < m,
                forall|j: int| i <= j < n ==> #[trigger] self.values@[j] == old(self).values@[j],
                forall|j: int|
                    0 <= j < i ==> #[trigger] self.values@[j] == switch_val(
                        old(self).values@[j] as nat, m as nat, new_modulus as nat),
                forall|j: int| 0 <= j < i ==> #[trigger] self.values@[j] < new_modulus,
            decreases n - i,
        {
            let v: u64 = self.values[i];
            let w: u64 = if new_modulus > m {
                if v > half {
                    v + (new_modulus - m)
                } else {
                    v
                }
            } else {
                let shifted: u64 = if v > half {
                    v + (new_modulus - (m % new_modulus))
                } else {
                    v
                };
                if shifted >= new_modulus {
                    shifted % new_modulus
                } else {
                    shifted
                }
            };
            proof {
                vstd::arithmetic::div_mod::lemma_mod_bound(m as int, new_modulus as int);
                if w >= new_modulus {
                    vstd::arithmetic::div_mod::lemma_mod_bound(
                        (v + (new_modulus - (m % new_modulus))) as int, new_modulus as int);
                }
            }
            self.values.set(i, w);
            i = i + 1;
        }
        self.modulus = new_modulus;
    }
}

/// Copy a vector of words element by element.
pub fn clone_values(values: &Vec<u64>) -> (r: Vec<u64>)
    ensures
        r@ == values@,
{
    let mut out: Vec<u64> = Vec::new();
    let mut i: usize = 0;
    while i < values.len()
        invariant
            i <= values@.len(),
            out@ == values@.subrange(0, i as int),
        decreases values@.len() - i,
    {
        out.push(values[i]);
        proof {
            assert(out@ =~= values@.subrange(0, (i + 1) as int));
        }
        i = i + 1;
    }
    proof {
        assert(values@.subrange(0, values@.len() as int) =~= values@);
    }
    out
}

} // verus!
