//! Number-theoretic transform over a modular vector, driven by a
//! precomputed table of root-of-unity powers.

use vstd::prelude::*;
use vstd::pervasive::VecAdditionalExecFns;
use crate::arith::{mod_add, mod_mul, mod_sub};
use crate::utils::{is_power_of_two, reverse_bits};
use crate::vecmod::VecMod;
use crate::poly::{bit_reversed_order, log2_of_pow2};

verus! {

/// One butterfly stage driven by a table of root powers: pairs `m` apart
/// are combined with the twiddle `table[pos * stride]`.
pub open spec fn table_butterfly_stage(
    v: Seq<u64>,
    m: nat,
    table: Seq<u64>,
    stride: nat,
    q: nat,
) -> Seq<u64> {
    Seq::new(
        v.len(),
        |idx: int|
            {
                let pos = idx % ((2 * m) as int);
                if pos < m {
                    (((v[idx] + (table[pos * stride] * v[idx + m]) % (q as int)) % (
                    q as int)) as u64)
                } else {
                    (((v[idx - m] - (table[(pos - m) * stride] * v[idx]) % (q as int)) % (
                    q as int)) as u64)
                }
            },
    )
}

/// The first `s` table-driven stages of a transform of size `2^logn`:
/// stage `t` pairs entries `2^t` apart with table stride `2^logn / 2^(t+1)`.
pub open spec fn table_butterfly_stages(
    v: Seq<u64>,
    s: nat,
    logn: nat,
    table: Seq<u64>,
    q: nat,
) -> Seq<u64>
    decreases s,
{
    if s == 0 {
        v
    } else {
        table_butterfly_stage(
            table_butterfly_stages(v, (s - 1) as nat, logn, table, q),
            vstd::arithmetic::power2::pow2((s - 1) as nat),
            table,
            (vstd::arithmetic::power2::pow2(logn) / vstd::arithmetic::power2::pow2(s)) as nat,
            q,
        )
    }
}

/// The complete table-driven transform: bit-reverse, then all stages.
pub open spec fn table_cooley_tukey(v: Seq<u64>, logn: nat, table: Seq<u64>, q: nat) -> Seq<
    u64,
> {
    table_butterfly_stages(bit_reversed_order(v, logn), logn, logn, table, q)
}

/// A modulus together with a root of unity for it.
#[derive(Debug, Clone, Copy, PartialEq, Eq, Structural, Hash)]
pub struct ModulusRoot {
    /// The modulus.
    pub modulus: u64,
    /// A root of unity under the modulus.
    pub root_of_unity: u64,
}

/// A pair of modulus/root combinations, as used by transforms that work
/// under two moduli at once.
#[derive(Debug, Clone, Copy, PartialEq, Eq, Structural, Hash)]
pub struct ModulusRootPair {
    /// The first modulus and root.
    pub first: ModulusRoot,
    /// The second modulus and root.
    pub second: ModulusRoot,
}

/// Forward radix-2 Cooley-Tukey transform of `input`, reading the twiddle
/// factors from `root_of_unity_table`, whose entry `i` holds the `i`-th
/// power of the chosen principal root. The input length must be a power of
/// two and the table must cover half of it. Every output value stays
/// reduced under the shared modulus.
pub fn forward_transform_iterative(input: &VecMod, root_of_unity_table: &VecMod) -> (r: VecMod)
    requires
        input.wf(),
        root_of_unity_table.wf(),
        input.modulus == root_of_unity_table.modulus,
        is_power_of_two(input.values@.len() as nat),
        input.values@.len() <= 0x0400_0000,
        2 * root_of_unity_table.values@.len() >= input.values@.len(),
    ensures
        r.wf(),
        r.modulus == input.modulus,
        r.values@.len() == input.values@.len(),
        forall|l: nat|
            vstd::arithmetic::power2::pow2(l) == input.values@.len() ==> r.values@
                == table_cooley_tukey(input.values@, l, root_of_unity_table.values@,
                input.modulus as nat),
{
    let q: u64 = input.modulus;
    let n: usize = input.values.len();
    let ghost v0 = input.values@;
    let ghost tab = root_of_unity_table.values@;
    let logn: usize = log2_of_pow2(n);
    proof {
        vstd::arithmetic::power2::lemma2_to64();
        if logn >= 32 {
            vstd::arithmetic::power2::lemma_pow2_strictly_increases(26, logn as nat);
        }
    }

    // Bit-reversed reordering of the input.
    let mut output: Vec<u64> = Vec::new();
    let mut i: usize = 0;
    while i < n
        invariant
            input.wf(),
            q == input.modulus,
            n == input.values@.len(),
            v0 == input.values@,
            logn < 32,
            vstd::arithmetic::power2::pow2(logn as nat) == n,
            i <= n,
            output@.len() == i,
            forall|j: int| 0 <= j < i ==> #[trigger] output@[j] < q,
            forall|j: int|
                0 <= j < i ==> #[trigger] output@[j] == v0[crate::utils::rev_bits(j as nat,
                    logn as nat) as int],
        decreases n - i,
    {
        let src: usize = reverse_bits(i, logn);
        proof {
            crate::utils::lemma_rev_bits_bound(i as nat, logn as nat);
        }
        output.push(input.values[src]);
        i = i + 1;
    }
    proof {
        assert(output@ =~= bit_reversed_order(v0, logn as nat));
    }
    let ghost base = bit_reversed_order(v0, logn as nat);
    let ghost logni = logn as nat;

    // Butterfly stages; the twiddle for pair `i` of stage `logm` is table
    // entry `i << (logn - logm)`.
    let mut logm: usize = 1;
    let ghost mut sdone: nat = 0;
    proof {
        assert(table_butterfly_stages(base, 0, logni, tab, q as nat) == base);
        vstd::arithmetic::power2::lemma2_to64();
    }
    while logm <= logn
        invariant
            input.wf(),
            root_of_unity_table.wf(),
            q == input.modulus,
            q == root_of_unity_table.modulus,
            n == input.values@.len(),
            tab == root_of_unity_table.values@,
            2 * tab.len() >= n,
            logn < 32,
            vstd::arithmetic::power2::pow2(logni) == n,
            logni == logn as nat,
            1 <= logm,
            logm <= logn + 1,
            sdone == (logm - 1) as nat,
            base == bit_reversed_order(v0, logni),
            base.len() == n,
            v0.len() == n,
            output@ == table_butterfly_stages(base, sdone, logni, tab, q as nat),
            output@.len() == n,
            forall|j: int| 0 <= j < n ==> #[trigger] output@[j] < q,
        decreases logn + 1 - logm,
    {
        proof {
            vstd::arithmetic::power2::lemma_pow2_strictly_increases((logm - 1) as nat,
                logn as nat);
            vstd::arithmetic::power2::lemma_pow2_adds((logm - 1) as nat, 1);
            vstd::arithmetic::power2::lemma2_to64();
            if logm < logn {
                vstd::arithmetic::power2::lemma_pow2_strictly_increases(logm as nat, logn as nat);
            }
            vstd::arithmetic::power2::lemma_pow2_adds(logm as nat, (logn - logm) as nat);
            vstd::arithmetic::power2::lemma_pow2_pos((logn - logm) as nat);
            assert(1 * vstd::arithmetic::power2::pow2((logm - 1) as nat)
                == vstd::arithmetic::power2::pow2((logm - 1) as nat)) by (nonlinear_arith);
        }
        let limit: usize = 1usize << (logm - 1);
        proof {
            vstd::bits::lemma_usize_shl_is_mul(1usize, (logm - 1) as usize);
            assert(limit == vstd::arithmetic::power2::pow2((logm - 1) as nat));
            vstd::arithmetic::power2::lemma_pow2_unfold(logm as nat);
        }
        let step: usize = limit * 2;
        let ghost stride = vstd::arithmetic::power2::pow2((logn - logm) as nat);
        proof {
            assert(step == vstd::arithmetic::power2::pow2(logm as nat));
            let rest = stride as int;
            vstd::arithmetic::power2::lemma_pow2_pos((logn - logm) as nat);
            assert(n as int == (step as int) * rest);
            assert((n as int) % (step as int) == 0) by {
                vstd::arithmetic::div_mod::lemma_mod_multiples_basic(rest, step as int);
                assert((step as int) * rest == rest * (step as int)) by (nonlinear_arith);
            }
            assert(step <= n) by (nonlinear_arith)
                requires
                    n as int == (step as int) * rest,
                    rest >= 1,
                    step as int >= 0,
            ;
            vstd::arithmetic::power2::lemma_pow2_adds((logm - 1) as nat, (logn - logm) as nat);
            assert((limit as int) * rest == vstd::arithmetic::power2::pow2(
                ((logm - 1) + (logn - logm)) as nat) as int);
            assert(2 * ((limit as int) * rest) == n as int) by {
                vstd::arithmetic::power2::lemma_pow2_unfold(logn as nat);
                assert((logm - 1) + (logn - logm) == logn - 1);
            }
        }
        let ghost prev = output@;
        let ghost stage_spec = table_butterfly_stage(prev, limit as nat, tab, stride, q as nat);
        proof {
            assert(stage_spec.len() == n);
        }
        let mut j: usize = 0;
        while j < n
            invariant
                input.wf(),
                root_of_unity_table.wf(),
                q == input.modulus,
                q == root_of_unity_table.modulus,
                n == input.values@.len(),
                tab == root_of_unity_table.values@,
                2 * tab.len() >= n,
                prev.len() == n,
                limit >= 1,
                step == 2 * limit,
                step <= n,
                logm <= logn,
                logn < 32,
                vstd::arithmetic::power2::pow2(logni) == n,
                stride == vstd::arithmetic::power2::pow2((logn - logm) as nat),
                stride >= 1,
                2 * ((limit as int) * (stride as int)) == n as int,
                j <= n,
                (j as int) % (step as int) == 0,
                (n as int) % (step as int) == 0,
                stage_spec == table_butterfly_stage(prev, limit as nat, tab, stride, q as nat),
                output@.len() == n,
                forall|t: int| 0 <= t < j ==> #[trigger] output@[t] == stage_spec[t],
                forall|t: int| j <= t < n ==> #[trigger] output@[t] == prev[t],
                forall|t: int| 0 <= t < n ==> #[trigger] prev[t] < q,
                forall|t: int| 0 <= t < n ==> #[trigger] output@[t] < q,
            decreases n - j,
        {
            proof {
                vstd::arithmetic::div_mod::lemma_fundamental_div_mod(j as int, step as int);
                vstd::arithmetic::div_mod::lemma_fundamental_div_mod(n as int, step as int);
                let a = j as int / step as int;
                let b = n as int / step as int;
                assert(j as int + step as int <= n as int) by (nonlinear_arith)
                    requires
                        j as int == step as int * a,
                        n as int == step as int * b,
                        j < n,
                        step >= 1,
                ;
            }
            let mut i2: usize = 0;
            while i2 < limit
                invariant
                    input.wf(),
                    root_of_unity_table.wf(),
                    q == input.modulus,
                    q == root_of_unity_table.modulus,
                    n == input.values@.len(),
                    tab == root_of_unity_table.values@,
                    2 * tab.len() >= n,
                    prev.len() == n,
                    limit >= 1,
                    step == 2 * limit,
                    j + step <= n,
                    i2 <= limit,
                    logm <= logn,
                    logn < 32,
                    vstd::arithmetic::power2::pow2(logni) == n,
                    stride == vstd::arithmetic::power2::pow2((logn - logm) as nat),
                    stride >= 1,
                    2 * ((limit as int) * (stride as int)) == n as int,
                    (j as int) % (step as int) == 0,
                    stage_spec == table_butterfly_stage(prev, limit as nat, tab, stride,
                        q as nat),
                    output@.len() == n,
                    forall|t: int| 0 <= t < j ==> #[trigger] output@[t] == stage_spec[t],
                    forall|t: int| j <= t < j + i2 ==> #[trigger] output@[t] == stage_spec[t],
                    forall|t: int| j + i2 <= t < j + limit ==> #[trigger] output@[t] == prev[t],
                    forall|t: int|
                        j + limit <= t < j + limit + i2 ==> #[trigger] output@[t]
                            == stage_spec[t],
                    forall|t: int| j + limit + i2 <= t < n ==> #[trigger] output@[t] == prev[t],
                    forall|t: int| 0 <= t < n ==> #[trigger] prev[t] < q,
                    forall|t: int| 0 <= t < n ==> #[trigger] output@[t] < q,
                decreases limit - i2,
            {
                proof {
                    // The twiddle index stays in the first half of the table.
                    assert(2 * ((i2 as int) * (stride as int)) < n as int) by (nonlinear_arith)
                        requires
                            0 <= (i2 as int) && (i2 as int) < (limit as int),
                            stride as int >= 1,
                            2 * ((limit as int) * (stride as int)) == n as int,
                    ;
                    assert((i2 as int) * (stride as int) >= 0) by (nonlinear_arith)
                        requires
                            i2 as int >= 0,
                            stride as int >= 0,
                    ;
                    vstd::bits::lemma_usize_shl_is_mul(i2, (logn - logm) as usize);
                }
                let table_index: usize = i2 << (logn - logm);
                let omega: u64 = root_of_unity_table.values[table_index];
                let index_even: usize = j + i2;
                let index_odd: usize = index_even + limit;
                let odd_val: u64 = output[index_odd];
                let even_val: u64 = output[index_even];
                let omega_factor: u64 = mod_mul(omega, odd_val, q);
                output.set(index_even, mod_add(even_val, omega_factor, q));
                output.set(index_odd, mod_sub(even_val, omega_factor, q));
                proof {
                    vstd::arithmetic::div_mod::lemma_fundamental_div_mod(j as int, step as int);
                    let a = j as int / step as int;
                    assert((index_even as int) % (step as int) == i2 as int && (
                    index_odd as int) % (step as int) == (i2 + limit) as int) by {
                        assert(index_even as int == a * (step as int) + i2) by (nonlinear_arith)
                            requires
                                j as int == (step as int) * a,
                                index_even == j + i2,
                        ;
                        assert(index_odd as int == a * (step as int) + (i2 + limit))
                            by (nonlinear_arith)
                            requires
                                j as int == (step as int) * a,
                                index_odd == j + i2 + limit,
                        ;
                        vstd::arithmetic::div_mod::lemma_small_mod(i2 as nat, step as nat);
                        vstd::arithmetic::div_mod::lemma_small_mod((i2 + limit) as nat,
                            step as nat);
                        assert((a * (step as int) + i2) % (step as int) == (i2 as int) % (
                        step as int)) by {
                            vstd::arithmetic::div_mod::lemma_mod_multiples_vanish(a, i2 as int,
                                step as int);
                            assert(a * (step as int) == (step as int) * a) by (nonlinear_arith);
                        }
                        assert((a * (step as int) + (i2 + limit)) % (step as int) == ((i2
                            + limit) as int) % (step as int)) by {
                            vstd::arithmetic::div_mod::lemma_mod_multiples_vanish(a,
                                (i2 + limit) as int, step as int);
                            assert(a * (step as int) == (step as int) * a) by (nonlinear_arith);
                        }
                    }
                    assert(output@[index_even as int] == stage_spec[index_even as int]);
                    assert(output@[index_odd as int] == stage_spec[index_odd as int]);
                }
                i2 = i2 + 1;
            }
            j = j + step;
            proof {
                vstd::arithmetic::div_mod::lemma_mod_add_multiples_vanish((j - step) as int,
                    step as int);
            }
        }
        proof {
            assert(output@ =~= stage_spec);
            assert(table_butterfly_stages(base, (sdone + 1) as nat, logni, tab, q as nat)
                == table_butterfly_stage(table_butterfly_stages(base, sdone, logni, tab,
                    q as nat), vstd::arithmetic::power2::pow2(sdone),
                tab, (vstd::arithmetic::power2::pow2(logni) / vstd::arithmetic::power2::pow2(
                    (sdone + 1) as nat)) as nat, q as nat));
            assert(limit as nat == vstd::arithmetic::power2::pow2(sdone));
            vstd::arithmetic::power2::lemma_pow2_subtracts(logm as nat, logni);
            assert(stride == (vstd::arithmetic::power2::pow2(logni)
                / vstd::arithmetic::power2::pow2((sdone + 1) as nat)) as nat);
            sdone = sdone + 1;
        }
        logm = logm + 1;
    }
    proof {
        assert(sdone == logni);
        assert forall|l: nat| vstd::arithmetic::power2::pow2(l) == v0.len() implies output@
            == table_cooley_tukey(v0, l, tab, q as nat) by {
            assert(l == logni) by {
                if l < logni {
                    vstd::arithmetic::power2::lemma_pow2_strictly_increases(l, logni);
                }
                if l > logni {
                    vstd::arithmetic::power2::lemma_pow2_strictly_increases(logni, l);
                }
            }
        }
    }
    VecMod { values: output, modulus: q }
}

} // verus!
