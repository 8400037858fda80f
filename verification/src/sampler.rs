//! Discrete Gaussian sampling support: random bit generation, the
//! Knuth-Yao decision-tree base sampler, the Peikert inversion base
//! sampler, sampler combiners, and the convolution-based generic sampler.
//!
//! The probability tables these samplers consume are fixed-point integers;
//! building them from a mean and standard deviation is floating-point work
//! that lives outside the verified core, which receives the tables as
//! plain values.

use vstd::prelude::*;
use crate::constants::BaseSamplerType;
use crate::error::{Error, Result};
use crate::rng::{random_u32, random_u64};
use crate::vecmod::VecMod;

verus! {

/// Fixed-point precision of the convolution sampler.
pub const PRECISION: usize = 53;

/// Number of Bernoulli comparison flips in the flip-and-round step.
pub const BERNOULLI_FLIPS: usize = 23;

/// Retry ceiling for every rejection loop: exhaustion is a fault, never a
/// silently degraded sample.
pub const SAMPLER_RETRY_LIMIT: u64 = 1_000_000;

/// A source of signed samples and raw bits.
pub trait Sampler {
    /// Draw one signed sample.
    fn random_i64(&mut self) -> Result<i64>;

    /// Draw one bit.
    fn random_bit(&mut self) -> (r: u16)
        ensures
            r <= 1,
    ;
}

/// Serves random bits one at a time from 32-bit refills.
#[derive(Debug)]
pub struct BitGenerator {
    /// The current word of bits.
    pub sequence: u32,
    /// How many bits of the word are still unserved.
    pub counter: u32,
}

impl BitGenerator {
    /// A generator with a fresh word.
    pub fn new() -> (r: BitGenerator)
        ensures
            r.counter == 0,
    {
        BitGenerator { sequence: random_u32(), counter: 0 }
    }

    /// The next bit, refilling the word when it runs out.
    pub fn generate(&mut self) -> (r: u16)
        ensures
            r <= 1,
    {
        if self.counter == 0 || self.counter > 32 {
            self.sequence = random_u32();
            self.counter = 32;
        }
        self.counter = self.counter - 1;
        let bit: u32 = (self.sequence >> self.counter) & 1;
        proof {
            let s = self.sequence;
            let c = self.counter;
            assert(((s >> c) & 1) <= 1) by (bit_vector);
        }
        bit as u16
    }

    /// A single uniform bit as a word-sized value.
    pub fn gen_uint(&self) -> (r: u64)
        ensures
            r <= 1,
    {
        let w: u32 = random_u32();
        let bit: u32 = w & 1;
        proof {
            assert((w & 1) <= 1) by (bit_vector);
        }
        bit as u64
    }

    /// A vector of uniform bits under the given modulus.
    pub fn gen_vec_mod(&self, length: usize, modulus: u64) -> (r: VecMod)
        requires
            1 < modulus < crate::vecmod::MODULUS_CEILING,
            modulus % 2 == 1,
        ensures
            r.wf(),
            r.modulus == modulus,
            r.values@.len() == length,
            forall|i: int| 0 <= i < length ==> #[trigger] r.values@[i] <= 1,
    {
        let mut values: Vec<u64> = Vec::new();
        let mut i: usize = 0;
        while i < length
            invariant
                i <= length,
                values@.len() == i,
                modulus > 1,
                forall|j: int| 0 <= j < i ==> #[trigger] values@[j] <= 1,
            decreases length - i,
        {
            values.push(self.gen_uint());
            i = i + 1;
        }
        VecMod { values, modulus }
    }
}

/// The first position whose table entry exceeds the drawn value, used to
/// locate the bucket of a uniform variate in a cumulative table.
pub fn find_in_vector(values: &Vec<u64>, seed: u64) -> (r: usize)
    ensures
        r <= values@.len(),
        r < values@.len() ==> values@[r as int] > seed,
        forall|i: int| 0 <= i < r ==> #[trigger] values@[i] <= seed,
{
    let mut i: usize = 0;
    while i < values.len()
        invariant
            i <= values@.len(),
            forall|j: int| 0 <= j < i ==> #[trigger] values@[j] <= seed,
        decreases values@.len() - i,
    {
        if values[i] > seed {
            return i;
        }
        i = i + 1;
    }
    i
}

/// A base sampler over a bounded support `[mean - fin, mean + fin]`,
/// backed either by a Knuth-Yao decision tree or by a Peikert cumulative
/// table, both held as fixed-point integers.
#[derive(Debug)]
pub struct BaseSampler {
    /// Which sampling algorithm the tables belong to.
    pub base_sampler_type: BaseSamplerType,
    /// The bit source for the tree descent.
    pub bit_generator: BitGenerator,
    /// Support radius of the distribution table.
    pub fin: usize,
    /// The integer part of the center.
    pub mean: i64,
    /// Number of rows of the probability matrix.
    pub matrix_size: usize,
    /// First bit level with any probability mass.
    pub first_non_zero: usize,
    /// Last bit level held by the tree.
    pub end_index: usize,
    /// The discrete distribution generating tree, one row per node.
    pub ddg_tree: Vec<Vec<i16>>,
    /// Number of probability-matrix one-bits per bit level.
    pub hamming_weights: Vec<u32>,
    /// The cumulative distribution table for the Peikert variant.
    pub values: Vec<u64>,
}

impl BaseSampler {
    /// Bounds under which sampling arithmetic cannot overflow.
    pub open spec fn wf(self) -> bool {
        &&& self.fin <= 0x1000_0000
        &&& -0x1000_0000_0000 <= self.mean <= 0x1000_0000_0000
        &&& self.matrix_size <= 2 * self.fin + 2
    }

    /// Build a Knuth-Yao sampler from a 64-bit fixed-point probability
    /// matrix over the support `[mean - fin, mean + fin]`, compiling the
    /// matrix into a binary decision tree. Fails on a matrix whose bit
    /// weights are inconsistent with a probability distribution.
    pub fn new_knuth_yao(
        prob_matrix: &Vec<u64>,
        fin: usize,
        mean: i64,
        bit_generator: BitGenerator,
    ) -> (r: Result<BaseSampler>)
        requires
            prob_matrix@.len() == 2 * fin + 1,
            fin <= 0x1000_0000,
            -0x1000_0000_0000 <= mean <= 0x1000_0000_0000,
            prob_matrix@.len() < 0x7000,
        ensures
            r is Ok ==> r.unwrap().wf(),
            r is Ok ==> r.unwrap().fin == fin && r.unwrap().mean == mean,
            r is Ok ==> r.unwrap().base_sampler_type == BaseSamplerType::KnuthYao,
            r is Ok ==> {
                &&& r.unwrap().matrix_size == prob_matrix@.len()
                &&& r.unwrap().hamming_weights@.len() == 64
                &&& r.unwrap().first_non_zero < 64
                &&& r.unwrap().first_non_zero <= r.unwrap().end_index <= 64
                &&& forall|t: int|
                    0 <= t < r.unwrap().ddg_tree@.len()
                        ==> (#[trigger] r.unwrap().ddg_tree@[t])@.len() == r.unwrap().end_index
                        - r.unwrap().first_non_zero
            },
            (forall|i: int| 0 <= i < prob_matrix@.len() ==> #[trigger] prob_matrix@[i] == 0)
                ==> r == Result::<BaseSampler>::Err(Error::DcrtElementParamsMismatch),
            r is Err ==> r == Result::<BaseSampler>::Err(Error::DcrtElementParamsMismatch) || r
                == Result::<BaseSampler>::Err(Error::Overflow),
    {
        let matrix_size: usize = prob_matrix.len();
        let ghost all_zero = forall|i: int|
            0 <= i < prob_matrix@.len() ==> #[trigger] prob_matrix@[i] == 0;

        // Column weights: how many rows have a one at each bit level.
        let mut hamming_weights: Vec<u32> = Vec::new();
        let mut level: usize = 0;
        while level < 64
            invariant
                hamming_weights@.len() == level,
                level <= 64,
                matrix_size < 0x7000,
                matrix_size == prob_matrix@.len(),
                all_zero == (forall|t: int|
                    0 <= t < prob_matrix@.len() ==> #[trigger] prob_matrix@[t] == 0),
                forall|t: int| 0 <= t < level ==> #[trigger] hamming_weights@[t] <= 0x7000,
                all_zero ==> forall|t: int|
                    0 <= t < level ==> #[trigger] hamming_weights@[t] == 0,
            decreases 64 - level,
        {
            let mut weight: u32 = 0;
            let mut row: usize = 0;
            while row < matrix_size
                invariant
                    row <= matrix_size,
                    matrix_size < 0x7000,
                    matrix_size == prob_matrix@.len(),
                    all_zero == (forall|t: int|
                        0 <= t < prob_matrix@.len() ==> #[trigger] prob_matrix@[t] == 0),
                    level < 64,
                    weight <= row,
                    all_zero ==> weight == 0,
                decreases matrix_size - row,
            {
                let entry: u64 = prob_matrix[row];
                let bit: u64 = (entry >> ((63 - level) as u64)) & 1;
                proof {
                    let e = entry;
                    let sh = (63 - level) as u64;
                    assert(sh < 64 ==> ((e >> sh) & 1) <= 1) by (bit_vector);
                    assert(sh < 64 && e == 0 ==> ((e >> sh) & 1) == 0) by (bit_vector);
                }
                if bit == 1 {
                    weight = weight + 1;
                }
                row = row + 1;
            }
            hamming_weights.push(weight);
            level = level + 1;
        }

        // First bit level carrying probability mass.
        let mut first_non_zero: usize = 64;
        let mut i: usize = 0;
        while i < 64
            invariant
                i <= 64,
                hamming_weights@.len() == 64,
                first_non_zero <= 64,
                all_zero ==> forall|t: int|
                    0 <= t < 64 ==> #[trigger] hamming_weights@[t] == 0,
                all_zero ==> first_non_zero == 64,
            decreases 64 - i,
        {
            if hamming_weights[i] != 0 && first_non_zero == 64 {
                first_non_zero = i;
            }
            i = i + 1;
        }
        if first_non_zero == 64 {
            return Err(Error::DcrtElementParamsMismatch);
        }
        proof {
            // A bit level carries mass, so the matrix is not all zero.
            assert(!all_zero);
        }

        // Walk the levels, tracking how many tree nodes stay internal.
        let mut end_index: usize = first_non_zero;
        let mut node_count: i64 = 1;
        let mut shift: usize = 0;
        while shift < first_non_zero && node_count < 0x4000_0000
            invariant
                1 <= node_count <= 0x8000_0000,
            decreases first_non_zero - shift,
        {
            node_count = node_count * 2;
            shift = shift + 1;
        }
        let mut max_node_count: i64 = node_count;
        let mut lvl: usize = first_non_zero;
        while lvl < 64
            invariant
                !all_zero,
                all_zero == (forall|t: int|
                    0 <= t < prob_matrix@.len() ==> #[trigger] prob_matrix@[t] == 0),
                hamming_weights@.len() == 64,
                first_non_zero <= lvl,
                lvl <= 64,
                end_index <= 64,
                -0x8000 <= node_count <= 0x8000_0001,
                1 <= max_node_count <= 0x1_0000_0000,
                forall|t: int| 0 <= t < 64 ==> #[trigger] hamming_weights@[t] <= 0x7000,
            decreases 64 - lvl,
        {
            if node_count <= 0 {
                break ;
            }
            if node_count > 0x4000_0000 {
                return Err(Error::Overflow);
            }
            node_count = node_count * 2;
            end_index = lvl + 1;
            if node_count >= max_node_count {
                max_node_count = node_count;
            }
            node_count = node_count - (hamming_weights[lvl] as i64);
            if node_count <= 0 {
                if node_count < 0 {
                    end_index = end_index - 1;
                }
                break ;
            }
            lvl = lvl + 1;
        }
        if end_index < first_non_zero || max_node_count > 0x1_0000 {
            return Err(Error::Overflow);
        }
        let width: usize = end_index - first_non_zero;
        let rows: usize = max_node_count as usize;

        // Lay the tree out: -2 marks a dead branch, -1 an internal node,
        // a nonnegative entry a terminal outcome index.
        let mut ddg_tree: Vec<Vec<i16>> = Vec::new();
        let mut t: usize = 0;
        while t < rows
            invariant
                t <= rows,
                ddg_tree@.len() == t,
                forall|u: int| 0 <= u < t ==> (#[trigger] ddg_tree@[u])@.len() == width,
            decreases rows - t,
        {
            let mut row_vec: Vec<i16> = Vec::new();
            let mut c: usize = 0;
            while c < width
                invariant
                    c <= width,
                    row_vec@.len() == c,
                decreases width - c,
            {
                row_vec.push(-2);
                c = c + 1;
            }
            ddg_tree.push(row_vec);
            t = t + 1;
        }

        let mut count: i64 = 1;
        let mut warm: usize = 0;
        while warm < first_non_zero && count < 0x4000_0000
            invariant
                1 <= count <= 0x8000_0000,
            decreases first_non_zero - warm,
        {
            count = count * 2;
            warm = warm + 1;
        }
        if count >= 0x4000_0000 {
            return Err(Error::Overflow);
        }
        let mut lvl2: usize = first_non_zero;
        while lvl2 < end_index
            invariant
                !all_zero,
                all_zero == (forall|t: int|
                    0 <= t < prob_matrix@.len() ==> #[trigger] prob_matrix@[t] == 0),
                hamming_weights@.len() == 64,
                matrix_size == prob_matrix@.len(),
                matrix_size < 0x7000,
                first_non_zero <= lvl2,
                lvl2 <= end_index,
                end_index <= 64,
                -0x8000_0000 <= count <= 0x1_0000_0000,
                ddg_tree@.len() == rows,
                rows <= 0x1_0000,
                width == end_index - first_non_zero,
                forall|u: int| 0 <= u < rows ==> (#[trigger] ddg_tree@[u])@.len() == width,
                matrix_size < 0x7000,
                matrix_size == prob_matrix@.len(),
                hamming_weights@.len() == 64,
            decreases end_index - lvl2,
        {
            if count > 0x4000_0000 {
                return Err(Error::Overflow);
            }
            count = count * 2;
            count = count - (hamming_weights[lvl2] as i64);
            if count < 0 || count > 0x2_0000 {
                return Err(Error::Overflow);
            }
            // Mark the internal nodes of this level.
            let internal: usize = if count as usize <= rows {
                count as usize
            } else {
                rows
            };
            let mut node: usize = 0;
            while node < internal
                invariant
                    node <= internal,
                    internal <= rows,
                    ddg_tree@.len() == rows,
                    width == end_index - first_non_zero,
                    forall|u: int| 0 <= u < rows ==> (#[trigger] ddg_tree@[u])@.len() == width,
                    first_non_zero <= lvl2 < end_index,
                    end_index <= 64,
                decreases internal - node,
            {
                let col: usize = lvl2 - first_non_zero;
                if col < ddg_tree[node].len() {
                    set_tree_entry(&mut ddg_tree, node, col, -1);
                }
                node = node + 1;
            }
            // Attach terminal outcomes for the one-bits of this level.
            let mut placed: u32 = 0;
            let mut rowi: usize = 0;
            while rowi < matrix_size
                invariant
                    rowi <= matrix_size,
                    matrix_size == prob_matrix@.len(),
                    matrix_size < 0x7000,
                    placed <= rowi,
                    ddg_tree@.len() == rows,
                    width == end_index - first_non_zero,
                    forall|u: int| 0 <= u < rows ==> (#[trigger] ddg_tree@[u])@.len() == width,
                    0 <= count <= 0x2_0000,
                    first_non_zero <= lvl2 < end_index,
                    end_index <= 64,
                decreases matrix_size - rowi,
            {
                let entry: u64 = prob_matrix[rowi];
                let bit: u64 = (entry >> ((63 - lvl2) as u64)) & 1;
                proof {
                    let e = entry;
                    let sh = (63 - lvl2) as u64;
                    assert(sh < 64 ==> ((e >> sh) & 1) <= 1) by (bit_vector);
                }
                if bit == 1 {
                    let target: usize = (count as usize) + (placed as usize);
                    let col: usize = lvl2 - first_non_zero;
                    if target < ddg_tree.len() {
                        if col < ddg_tree[target].len() {
                            set_tree_entry(&mut ddg_tree, target, col, rowi as i16);
                        }
                    }
                    placed = placed + 1;
                }
                rowi = rowi + 1;
            }
            lvl2 = lvl2 + 1;
        }

        Ok(
            BaseSampler {
                base_sampler_type: BaseSamplerType::KnuthYao,
                bit_generator,
                fin,
                mean,
                matrix_size,
                first_non_zero,
                end_index,
                ddg_tree,
                hamming_weights,
                values: Vec::new(),
            },
        )
    }

    /// Build a Peikert inversion sampler from a 64-bit fixed-point
    /// cumulative distribution table over `[mean - fin, mean + fin]`.
    pub fn new_peikert(
        cdf: Vec<u64>,
        fin: usize,
        mean: i64,
        bit_generator: BitGenerator,
    ) -> (r: BaseSampler)
        requires
            cdf@.len() == 2 * fin + 1,
            fin <= 0x1000_0000,
            -0x1000_0000_0000 <= mean <= 0x1000_0000_0000,
        ensures
            r.wf(),
            r.fin == fin,
            r.mean == mean,
            r.base_sampler_type == BaseSamplerType::Peikert,
            r.values@ == cdf@,
    {
        let matrix_size: usize = cdf.len();
        BaseSampler {
            base_sampler_type: BaseSamplerType::Peikert,
            bit_generator,
            fin,
            mean,
            matrix_size,
            first_non_zero: 0,
            end_index: 0,
            ddg_tree: Vec::new(),
            hamming_weights: Vec::new(),
            values: cdf,
        }
    }

    /// One draw from the configured distribution. Every returned sample
    /// lies within the table support around the mean.
    pub fn sample_i64(&mut self) -> (r: Result<i64>)
        requires
            old(self).wf(),
        ensures
            final(self).wf(),
            r is Ok ==> old(self).mean - old(self).fin <= r.unwrap() <= old(self).mean + old(
                self,
            ).fin,
            r is Err ==> r == Result::<i64>::Err(Error::RetryLimitExceeded),
    {
        match self.base_sampler_type {
            BaseSamplerType::KnuthYao => self.gen_i64_knuth_yao(),
            BaseSamplerType::Peikert => self.gen_i64_peikert(),
        }
    }

    /// One raw bit from the underlying generator.
    pub fn sample_bit(&mut self) -> (r: u16)
        requires
            old(self).wf(),
        ensures
            final(self).wf(),
            r <= 1,
    {
        let ghost pre = *self;
        let r = self.bit_generator.generate();
        proof {
            assert(final(self).fin == pre.fin);
        }
        r
    }

    /// Knuth-Yao sampling: descend the decision tree one random bit at a
    /// time; a dead node restarts the walk, and the retry ceiling turns
    /// exhaustion into a loud fault.
    fn gen_i64_knuth_yao(&mut self) -> (r: Result<i64>)
        requires
            old(self).wf(),
        ensures
            final(self).wf(),
            r is Ok ==> old(self).mean - old(self).fin <= r.unwrap() <= old(self).mean + old(
                self,
            ).fin,
            r is Err ==> r == Result::<i64>::Err(Error::RetryLimitExceeded),
    {
        let mut tries: u64 = 0;
        while tries < SAMPLER_RETRY_LIMIT
            invariant
                self.wf(),
                self.fin == old(self).fin,
                self.mean == old(self).mean,
                self.matrix_size == old(self).matrix_size,
            decreases SAMPLER_RETRY_LIMIT - tries,
        {
            let mut node_index: usize = 0;
            let mut level: usize = 0;
            while level < 64
                invariant
                    self.wf(),
                    self.fin == old(self).fin,
                    self.mean == old(self).mean,
                    self.matrix_size == old(self).matrix_size,
                    level <= 64,
                    node_index <= 0xffff_ffff,
                decreases 64 - level,
            {
                let bit: u16 = self.bit_generator.generate();
                if node_index > 0x7fff_ffff {
                    break ;
                }
                node_index = node_index * 2 + (bit as usize);
                if self.first_non_zero <= level {
                    if level <= self.end_index && self.first_non_zero <= level {
                        let col: usize = level - self.first_non_zero;
                        if node_index < self.ddg_tree.len() {
                            if col < self.ddg_tree[node_index].len() {
                                let ans: i16 = tree_entry(&self.ddg_tree, node_index, col);
                                if ans >= 0 {
                                    if (ans as usize) < self.matrix_size && (ans as usize) + 1
                                        != self.matrix_size {
                                        // Terminal outcome: recenter on the support.
                                        proof {
                                            assert(self.matrix_size <= 2 * self.fin + 2);
                                            assert(ans as int <= 2 * self.fin + 1);
                                        }
                                        let v: i64 = (ans as i64) - (self.fin as i64)
                                            + self.mean;
                                        proof {
                                            assert(v as int <= old(self).mean + old(self).fin);
                                            assert(v as int >= old(self).mean - old(self).fin);
                                        }
                                        return Ok(v);
                                    } else {
                                        break ;
                                    }
                                } else if ans == -2 {
                                    break ;
                                }
                            } else {
                                break ;
                            }
                        } else {
                            break ;
                        }
                    }
                }
                level = level + 1;
            }
            tries = tries + 1;
        }
        Err(Error::RetryLimitExceeded)
    }

    /// Peikert sampling: draw one uniform fixed-point variate and locate
    /// its bucket in the cumulative table.
    fn gen_i64_peikert(&mut self) -> (r: Result<i64>)
        requires
            old(self).wf(),
        ensures
            final(self).wf(),
            r is Ok ==> old(self).mean - old(self).fin <= r.unwrap() <= old(self).mean + old(
                self,
            ).fin,
            r is Err ==> r == Result::<i64>::Err(Error::RetryLimitExceeded),
    {
        let seed: u64 = random_u64();
        let bucket: usize = find_in_vector(&self.values, seed);
        if bucket > 2 * self.fin {
            return Err(Error::RetryLimitExceeded);
        }
        Ok((bucket as i64) - (self.fin as i64) + self.mean)
    }
}

impl Sampler for BaseSampler {
    fn random_i64(&mut self) -> Result<i64> {
        if !(self.fin <= 0x1000_0000 && -0x1000_0000_0000 <= self.mean && self.mean
            <= 0x1000_0000_0000 && self.matrix_size <= 2 * self.fin + 2) {
            return Err(Error::Overflow);
        }
        self.sample_i64()
    }

    fn random_bit(&mut self) -> (r: u16) {
        self.bit_generator.generate()
    }
}

/// Combines two draws of an inner sampler into `x1*a + x2*b`, widening the
/// variance by roughly `x1^2 + x2^2`.
pub struct SamplerCombiner<S: Sampler> {
    /// The inner sampler drawn from twice per sample.
    pub sampler: S,
    /// Weight of the first draw.
    pub x1: i64,
    /// Weight of the second draw.
    pub x2: i64,
}

impl<S: Sampler> SamplerCombiner<S> {
    /// One combined draw; arithmetic faults are reported, never wrapped.
    pub fn combined_i64(&mut self) -> Result<i64> {
        let a = self.sampler.random_i64()?;
        let b = self.sampler.random_i64()?;
        let t1 = match self.x1.checked_mul(a) {
            Some(v) => v,
            None => {
                return Err(Error::Overflow);
            },
        };
        let t2 = match self.x2.checked_mul(b) {
            Some(v) => v,
            None => {
                return Err(Error::Overflow);
            },
        };
        match t1.checked_add(t2) {
            Some(v) => Ok(v),
            None => Err(Error::Overflow),
        }
    }
}

impl<S: Sampler> Sampler for SamplerCombiner<S> {
    fn random_i64(&mut self) -> Result<i64> {
        self.combined_i64()
    }

    fn random_bit(&mut self) -> (r: u16) {
        self.sampler.random_bit()
    }
}

/// Uniform sampling of residues under a configurable modulus.
#[derive(Debug, Clone, Copy)]
pub struct DiscreteUniform {
    /// The modulus below which values are drawn.
    pub modulus: u64,
}

impl DiscreteUniform {
    /// A sampler for the given modulus.
    pub fn new(modulus: u64) -> (r: DiscreteUniform)
        ensures
            r.modulus == modulus,
    {
        DiscreteUniform { modulus }
    }

    /// Change the modulus.
    pub fn set_modulus(&mut self, modulus: u64)
        ensures
            final(self).modulus == modulus,
    {
        self.modulus = modulus;
    }

    /// One uniform residue.
    pub fn gen_uint(&self) -> (r: u64)
        requires
            self.modulus >= 1,
        ensures
            r < self.modulus,
    {
        crate::rng::random_u64_below(self.modulus)
    }

    /// A vector of uniform residues.
    pub fn gen_vec_mod(&self, length: usize) -> (r: VecMod)
        requires
            1 < self.modulus < crate::vecmod::MODULUS_CEILING,
            self.modulus % 2 == 1,
        ensures
            r.wf(),
            r.modulus == self.modulus,
            r.values@.len() == length,
    {
        VecMod::random(length, self.modulus)
    }

    /// A vector of uniform residues under a new modulus, which is retained.
    pub fn gen_vec_mod_with_modulus(&mut self, length: usize, modulus: u64) -> (r: VecMod)
        requires
            1 < modulus < crate::vecmod::MODULUS_CEILING,
            modulus % 2 == 1,
        ensures
            final(self).modulus == modulus,
            r.wf(),
            r.modulus == modulus,
            r.values@.len() == length,
    {
        self.modulus = modulus;
        VecMod::random(length, modulus)
    }
}

/// One bit of a fixed-point word.
pub fn extract_bit(number: u64, n: usize) -> (r: u16)
    requires
        n < 64,
    ensures
        r <= 1,
{
    let bit: u64 = (number >> (n as u64)) & 1;
    proof {
        let x = number;
        let sh = n as u64;
        assert(sh < 64 ==> ((x >> sh) & 1) <= 1) by (bit_vector);
    }
    bit as u16
}


/// Read one entry of the decision tree.
fn tree_entry(tree: &Vec<Vec<i16>>, r: usize, c: usize) -> (v: i16)
    requires
        r < tree@.len(),
        c < tree@[r as int]@.len(),
    ensures
        v == tree@[r as int]@[c as int],
{
    let row: &Vec<i16> = &tree[r];
    row[c]
}

/// Write one entry of the decision tree.
fn set_tree_entry(tree: &mut Vec<Vec<i16>>, r: usize, c: usize, v: i16)
    requires
        r < old(tree)@.len(),
        c < old(tree)@[r as int]@.len(),
    ensures
        final(tree)@.len() == old(tree)@.len(),
        forall|t: int| 0 <= t < old(tree)@.len() && t != r ==> #[trigger] final(tree)@[t] == old(
            tree,
        )@[t],
        final(tree)@[r as int]@ == old(tree)@[r as int]@.update(c as int, v),
{
    let mut row: Vec<i16> = Vec::new();
    tree.set_and_swap(r, &mut row);
    row.set(c, v);
    tree.set_and_swap(r, &mut row);
    proof {
        assert(final(tree)@[r as int]@ == old(tree)@[r as int]@.update(c as int, v));
    }
}


/// Floor division of a signed value by a positive divisor: the unique `r`
/// with `r*b <= a < (r+1)*b`.
fn floor_div_i64(a: i64, b: u64) -> (r: i64)
    requires
        1 <= b <= 0x1_0000_0000,
        -0x1000_0000_0000_0000 <= a <= 0x1000_0000_0000_0000,
    ensures
        r * b <= a < (r + 1) * b,
        -0x2000_0000_0000_0000 <= r <= 0x1000_0000_0000_0000,
{
    if a >= 0 {
        let r: i64 = ((a as u64) / b) as i64;
        proof {
            vstd::arithmetic::div_mod::lemma_fundamental_div_mod(a as int, b as int);
            vstd::arithmetic::div_mod::lemma_mod_bound(a as int, b as int);
            let q = a as int / b as int;
            assert(r == q);
            assert(q * b <= a < (q + 1) * b) by (nonlinear_arith)
                requires
                    a as int == b * q + ((a as int) % (b as int)),
                    0 <= ((a as int) % (b as int)) && ((a as int) % (b as int)) < (b as int),
            ;
            assert(r <= a) by (nonlinear_arith)
                requires
                    r * b <= a as int,
                    r >= 0,
                    b >= 1,
            ;
        }
        r
    } else {
        let na: u64 = (-(a as i128)) as u64;
        let q: u64 = na / b;
        let rem: u64 = na % b;
        proof {
            vstd::arithmetic::div_mod::lemma_fundamental_div_mod(na as int, b as int);
            vstd::arithmetic::div_mod::lemma_mod_bound(na as int, b as int);
        }
        if rem == 0 {
            let r: i64 = -(q as i64);
            proof {
                assert(r * b <= a < (r + 1) * b) by (nonlinear_arith)
                    requires
                        na as int == b * (q as int),
                        a as int == -(na as int),
                        r as int == -(q as int),
                        b >= 1,
                ;
                vstd::arithmetic::div_mod::lemma_div_is_ordered_by_denominator(na as int, 1,
                    b as int);
                vstd::arithmetic::div_mod::lemma_div_basics(na as int);
                assert(q <= na);
            }
            r
        } else {
            let r: i64 = -(q as i64) - 1;
            proof {
                assert(r * b <= a < (r + 1) * b) by (nonlinear_arith)
                    requires
                        na as int == b * (q as int) + rem,
                        0 < rem && (rem as int) < (b as int),
                        a as int == -(na as int),
                        r as int == -(q as int) - 1,
                        b >= 1,
                ;
                vstd::arithmetic::div_mod::lemma_div_is_ordered_by_denominator(na as int, 1,
                    b as int);
                vstd::arithmetic::div_mod::lemma_div_basics(na as int);
                assert(q <= na);
            }
            r
        }
    }
}

/// Convolution-based wide sampler: a tower of combiners over a family of
/// base samplers, with a bit-by-bit flip-and-round stage and a base-2^b
/// digit recomposition loop resolving the fractional center.
pub struct DiscreteGaussianGeneric {
    /// One base sampler per residue of the recomposition base.
    pub base_samplers: Vec<BaseSampler>,
    /// The combiner weights of each widening level.
    pub combiner_factors: Vec<(i64, i64)>,
    /// Number of digit recomposition rounds.
    pub k: usize,
    /// Log2 of the recomposition base.
    pub log_base: usize,
}

impl DiscreteGaussianGeneric {
    /// Structural bounds for overflow-free sampling.
    pub open spec fn wf(self) -> bool {
        &&& 1 <= self.log_base <= 16
        &&& self.base_samplers@.len() >= 1
        &&& self.base_samplers@.len() >= vstd::arithmetic::power2::pow2(self.log_base as nat)
        &&& forall|i: int|
            0 <= i < self.base_samplers@.len() ==> (#[trigger] self.base_samplers@[i]).wf()
        &&& self.combiner_factors@.len() <= 4
        &&& self.k <= 64
    }

    /// Assemble the sampler from its base family and combiner weights. The
    /// recomposition round count follows the fixed-point precision budget.
    pub fn new(
        base_samplers: Vec<BaseSampler>,
        combiner_factors: Vec<(i64, i64)>,
        log_base: usize,
    ) -> (r: Result<DiscreteGaussianGeneric>)
        ensures
            r is Ok <==> {
                &&& 1 <= log_base <= 16
                &&& combiner_factors@.len() <= 4
                &&& base_samplers@.len() >= vstd::arithmetic::power2::pow2(log_base as nat)
                &&& base_samplers@.len() >= 1
                &&& forall|i: int|
                    0 <= i < base_samplers@.len() ==> (#[trigger] base_samplers@[i]).wf()
            },
            r is Ok ==> r.unwrap().wf(),
            r is Ok ==> r.unwrap().log_base == log_base,
            r is Ok ==> r.unwrap().base_samplers == base_samplers,
            r is Ok ==> r.unwrap().combiner_factors == combiner_factors,
            r is Ok ==> r.unwrap().k == (PRECISION - BERNOULLI_FLIPS + log_base - 1) as int
                / (log_base as int),
    {
        if log_base < 1 || log_base > 16 {
            return Err(Error::DcrtElementParamsMismatch);
        }
        if combiner_factors.len() > 4 {
            return Err(Error::DcrtElementParamsMismatch);
        }
        proof {
            vstd::arithmetic::power2::lemma2_to64();
            vstd::arithmetic::power2::lemma_pow2_strictly_increases(log_base as nat, 17);
            assert(1 * vstd::arithmetic::power2::pow2(log_base as nat)
                == vstd::arithmetic::power2::pow2(log_base as nat)) by (nonlinear_arith);
            vstd::bits::lemma_usize_shl_is_mul(1usize, log_base);
        }
        let needed: usize = 1usize << log_base;
        proof {
            assert(needed == vstd::arithmetic::power2::pow2(log_base as nat));
        }
        if base_samplers.len() < needed || base_samplers.len() == 0 {
            return Err(Error::DcrtElementParamsMismatch);
        }
        let mut i: usize = 0;
        while i < base_samplers.len()
            invariant
                i <= base_samplers@.len(),
                1 <= log_base <= 16,
                combiner_factors@.len() <= 4,
                base_samplers@.len() >= vstd::arithmetic::power2::pow2(log_base as nat),
                base_samplers@.len() >= 1,
                forall|t: int| 0 <= t < i ==> (#[trigger] base_samplers@[t]).wf(),
            decreases base_samplers@.len() - i,
        {
            let ok: bool = base_samplers[i].fin <= 0x1000_0000 && -0x1000_0000_0000
                <= base_samplers[i].mean && base_samplers[i].mean <= 0x1000_0000_0000
                && base_samplers[i].matrix_size <= 2 * base_samplers[i].fin + 2;
            if !ok {
                return Err(Error::DcrtElementParamsMismatch);
            }
            i = i + 1;
        }
        let k: usize = (PRECISION - BERNOULLI_FLIPS + log_base - 1) / log_base;
        proof {
            vstd::arithmetic::div_mod::lemma_div_is_ordered_by_denominator(
                (PRECISION - BERNOULLI_FLIPS + log_base - 1) as int, 1, log_base as int);
            vstd::arithmetic::div_mod::lemma_div_basics(
                (PRECISION - BERNOULLI_FLIPS + log_base - 1) as int);
        }
        Ok(DiscreteGaussianGeneric { base_samplers, combiner_factors, k, log_base })
    }

    /// One draw from the narrowest base sampler.
    pub fn random_i64(&mut self) -> (r: Result<i64>)
        requires
            old(self).wf(),
        ensures
            final(self).wf(),
            r is Ok ==> old(self).base_samplers@[0].mean - old(self).base_samplers@[0].fin
                <= r.unwrap() <= old(self).base_samplers@[0].mean + old(
                self,
            ).base_samplers@[0].fin,
            r is Err ==> r == Result::<i64>::Err(Error::RetryLimitExceeded),
    {
        base_sample_at(&mut self.base_samplers, 0)
    }

    /// One wide draw through the combiner tower.
    pub fn wide_i64(&mut self) -> (r: Result<i64>)
        requires
            old(self).wf(),
        ensures
            final(self).wf(),
            r is Err ==> r == Result::<i64>::Err(Error::RetryLimitExceeded) || r == Result::<
                i64,
            >::Err(Error::Overflow),
    {
        let levels: usize = self.combiner_factors.len();
        self.wide_at(levels)
    }

    /// A draw at combiner level `level`: level zero is the base sampler,
    /// each further level combines two draws of the level below.
    fn wide_at(&mut self, level: usize) -> (r: Result<i64>)
        requires
            old(self).wf(),
            level <= old(self).combiner_factors@.len(),
        ensures
            final(self).wf(),
            final(self).combiner_factors == old(self).combiner_factors,
            r is Err ==> r == Result::<i64>::Err(Error::RetryLimitExceeded) || r == Result::<
                i64,
            >::Err(Error::Overflow),
        decreases level,
    {
        if level == 0 {
            base_sample_at(&mut self.base_samplers, 0)
        } else {
            let (x1, x2): (i64, i64) = self.combiner_factors[level - 1];
            let a = self.wide_at(level - 1)?;
            let b = self.wide_at(level - 1)?;
            let t1 = match x1.checked_mul(a) {
                Some(v) => v,
                None => {
                    return Err(Error::Overflow);
                },
            };
            let t2 = match x2.checked_mul(b) {
                Some(v) => v,
                None => {
                    return Err(Error::Overflow);
                },
            };
            match t1.checked_add(t2) {
                Some(v) => Ok(v),
                None => Err(Error::Overflow),
            }
        }
    }

    /// Resolve a fixed-point fractional center: compare its low bits
    /// against random flips, then recompose the survivor digit by digit
    /// through the base sampler family.
    ///
    /// `center_fixed` is the fractional center scaled by `2^PRECISION`.
    pub fn flip_and_round(&mut self, center_fixed: u64) -> (r: Result<i64>)
        requires
            old(self).wf(),
            center_fixed < 0x20_0000_0000_0000,
        ensures
            final(self).wf(),
            r is Ok ==> -0x1000_0000_0000_0000 <= r.unwrap() <= 0x1000_0000_0000_0000,
            r is Err ==> r == Result::<i64>::Err(Error::RetryLimitExceeded) || r == Result::<
                i64,
            >::Err(Error::Overflow),
    {
        proof {
            vstd::bits::lemma_u64_shr_is_div(center_fixed, BERNOULLI_FLIPS as u64);
            vstd::arithmetic::power2::lemma2_to64();
            vstd::arithmetic::div_mod::lemma_div_is_ordered_by_denominator(center_fixed as int,
                1, vstd::arithmetic::power2::pow2(BERNOULLI_FLIPS as nat) as int);
            vstd::arithmetic::div_mod::lemma_div_basics(center_fixed as int);
            vstd::arithmetic::power2::lemma_pow2_pos(BERNOULLI_FLIPS as nat);
        }
        let base_c: i64 = (center_fixed >> (BERNOULLI_FLIPS as u64)) as i64;
        let mut i: usize = BERNOULLI_FLIPS;
        while i > 0
            invariant
                self.wf(),
                i <= BERNOULLI_FLIPS,
                0 <= base_c <= center_fixed,
                center_fixed < 0x20_0000_0000_0000,
            decreases i,
        {
            i = i - 1;
            let bit: u16 = base_sample_bit(&mut self.base_samplers, 0);
            let t: u16 = extract_bit(center_fixed, i);
            if bit > t {
                return self.sample_c(base_c);
            }
            if bit < t {
                return self.sample_c(base_c + 1);
            }
        }
        self.sample_c(base_c + 1)
    }

    /// The base-2^log_base digit recomposition loop: each round feeds the
    /// low digit of the running center through the matching base sampler
    /// and shifts the center down by one digit.
    pub fn sample_c(&mut self, center: i64) -> (r: Result<i64>)
        requires
            old(self).wf(),
            -0x40_0000_0000_0000 <= center <= 0x40_0000_0000_0000,
        ensures
            final(self).wf(),
            r is Ok ==> -0x1000_0000_0000_0000 <= r.unwrap() <= 0x1000_0000_0000_0000,
            r is Err ==> r == Result::<i64>::Err(Error::RetryLimitExceeded) || r == Result::<
                i64,
            >::Err(Error::Overflow),
    {
        let mut c: i64 = center;
        let base: u64 = 1u64 << (self.log_base as u64);
        proof {
            vstd::arithmetic::power2::lemma2_to64();
            vstd::arithmetic::power2::lemma_pow2_strictly_increases(self.log_base as nat, 17);
            assert(1 * vstd::arithmetic::power2::pow2(self.log_base as nat)
                == vstd::arithmetic::power2::pow2(self.log_base as nat)) by (nonlinear_arith);
            vstd::bits::lemma_u64_shl_is_mul(1u64, self.log_base as u64);
        }
        let mut round: usize = 0;
        while round < self.k
            invariant
                self.wf(),
                self.k == old(self).k,
                self.log_base == old(self).log_base,
                base == vstd::arithmetic::power2::pow2(self.log_base as nat),
                2 <= base <= 0x2_0000,
                -0x1000_0000_0000_0000 <= c <= 0x1000_0000_0000_0000,
            decreases self.k - round,
        {
            let idx_residue: u64 = crate::poly::low_residue(c, base);
            let idx: usize = idx_residue as usize;
            proof {
                vstd::arithmetic::power2::lemma_pow2_strictly_increases(self.log_base as nat, 17);
            }
            let mut sample: i64 = if idx < self.base_samplers.len() {
                base_sample_at(&mut self.base_samplers, idx)?
            } else {
                return Err(Error::Overflow);
            };
            if c < 0 && idx_residue != 0 {
                sample = sample - 1;
            }
            let shifted: i64 = floor_div_i64(c, base);
            c = match shifted.checked_add(sample) {
                Some(v) => v,
                None => {
                    return Err(Error::Overflow);
                },
            };
            if c < -0x1000_0000_0000_0000 || c > 0x1000_0000_0000_0000 {
                return Err(Error::Overflow);
            }
            round = round + 1;
        }
        Ok(c)
    }
}

/// One draw from the base sampler at `index`, keeping the family well
/// formed.
fn base_sample_at(samplers: &mut Vec<BaseSampler>, index: usize) -> (r: Result<i64>)
    requires
        index < old(samplers)@.len(),
        forall|i: int| 0 <= i < old(samplers)@.len() ==> (#[trigger] old(samplers)@[i]).wf(),
    ensures
        final(samplers)@.len() == old(samplers)@.len(),
        forall|i: int| 0 <= i < final(samplers)@.len() ==> (#[trigger] final(samplers)@[i]).wf(),
        r is Ok ==> -0x3000_0000_0000 <= r.unwrap() <= 0x3000_0000_0000,
        r is Ok ==> old(samplers)@[index as int].mean - old(samplers)@[index as int].fin
            <= r.unwrap() <= old(samplers)@[index as int].mean + old(samplers)@[index as int].fin,
        r is Err ==> r == Result::<i64>::Err(Error::RetryLimitExceeded),
{
    let mut taken = BaseSampler {
        base_sampler_type: BaseSamplerType::Peikert,
        bit_generator: BitGenerator { sequence: 0, counter: 0 },
        fin: 0,
        mean: 0,
        matrix_size: 0,
        first_non_zero: 0,
        end_index: 0,
        ddg_tree: Vec::new(),
        hamming_weights: Vec::new(),
        values: Vec::new(),
    };
    samplers.set_and_swap(index, &mut taken);
    proof {
        assert(taken == old(samplers)@[index as int]);
    }
    let ghost orig = taken;
    let out = taken.sample_i64();
    proof {
        if out is Ok {
            assert(orig.mean - orig.fin <= out.unwrap() <= orig.mean + orig.fin);
        }
    }
    samplers.set_and_swap(index, &mut taken);
    proof {
        assert(forall|i: int|
            0 <= i < final(samplers)@.len() && i != index ==> (#[trigger] final(samplers)@[i])
                == old(samplers)@[i]);
    }
    out
}

/// One raw bit from the base sampler at `index`.
fn base_sample_bit(samplers: &mut Vec<BaseSampler>, index: usize) -> (r: u16)
    requires
        index < old(samplers)@.len(),
        forall|i: int| 0 <= i < old(samplers)@.len() ==> (#[trigger] old(samplers)@[i]).wf(),
    ensures
        r <= 1,
        final(samplers)@.len() == old(samplers)@.len(),
        forall|i: int| 0 <= i < final(samplers)@.len() ==> (#[trigger] final(samplers)@[i]).wf(),
{
    let mut taken = BaseSampler {
        base_sampler_type: BaseSamplerType::Peikert,
        bit_generator: BitGenerator { sequence: 0, counter: 0 },
        fin: 0,
        mean: 0,
        matrix_size: 0,
        first_non_zero: 0,
        end_index: 0,
        ddg_tree: Vec::new(),
        hamming_weights: Vec::new(),
        values: Vec::new(),
    };
    samplers.set_and_swap(index, &mut taken);
    let out = taken.sample_bit();
    samplers.set_and_swap(index, &mut taken);
    out
}

} // verus!
