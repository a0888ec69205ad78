//! Folding support for evaluation vectors: the coset fold itself, and the
//! prover-side reordering that turns the NTT-natural stacked layout into the
//! per-coset layout the folding optimization consumes.

pub use crate::fold::compute_fold;

use crate::field::{f_mul, f_pow, fp_views, fp_wf, Fp, P, TWO_ADICITY};
use crate::ntt::{
    intt_batch, lemma_log2_pow2, ntt_batch_spec, root_of_unity, root_of_unity_spec,
};
use crate::parameters::FoldType;
use vstd::arithmetic::div_mod::lemma_fundamental_div_mod_converse;
use vstd::arithmetic::mul::lemma_mul_inequality;
use vstd::arithmetic::power2::{lemma_pow2_pos, pow2};
use vstd::prelude::*;

verus! {

/// The per-block coset and size correction applied after the inverse
/// transform: entry `j` of block `i` is scaled by
/// `size_inv * (gen_inv^i)^j`.
pub open spec fn rescale_spec(t: Seq<int>, size_inv: int, gen_inv: int, size: int) -> Seq<int> {
    Seq::new(
        t.len(),
        |x: int|
            f_mul(
                t[x],
                f_mul(size_inv, f_pow(f_pow(gen_inv, (x / size) as nat), (x % size) as nat)),
            ),
    )
}

/// The inverse of the canonical root of order `2^l`, as the inversion
/// exponentiation computes it.
pub open spec fn inv_root_spec(l: nat) -> int {
    f_pow(root_of_unity_spec(l), (P - 2) as nat)
}

/// The inverse of `2^l` as an element of the field, as the inversion
/// exponentiation computes it.
pub open spec fn size_inv_spec(l: nat) -> int {
    f_pow(pow2(l) as int % (P as int), (P - 2) as nat)
}

/// Convert stacked coset evaluations into the layout the prover-helps
/// folding consumes. Under the naive policy the input is returned unchanged;
/// under prover-helps each `2^folding_factor` block is inverse-transformed
/// and then rescaled by the size correction and its coset offset.
pub fn restructure_evaluations(
    stacked_evaluations: Vec<Fp>,
    fold_type: FoldType,
    _domain_gen: Fp,
    domain_gen_inv: Fp,
    folding_factor: usize,
) -> (r: Vec<Fp>)
    requires
        fp_wf(stacked_evaluations@),
        domain_gen_inv.inv(),
        folding_factor <= TWO_ADICITY,
        stacked_evaluations@.len() % pow2(folding_factor as nat) == 0,
    ensures
        fp_wf(r@),
        r@.len() == stacked_evaluations@.len(),
        fold_type is Naive ==> r@ == stacked_evaluations@,
        fold_type is ProverHelps ==> fp_views(r@) == rescale_spec(
            ntt_batch_spec(
                fp_views(stacked_evaluations@),
                inv_root_spec(folding_factor as nat),
                pow2(folding_factor as nat) as int,
            ),
            size_inv_spec(folding_factor as nat),
            domain_gen_inv@,
            pow2(folding_factor as nat) as int,
        ),
{
    match fold_type {
        FoldType::Naive => stacked_evaluations,
        FoldType::ProverHelps => {
            let mut values = stacked_evaluations;
            proof {
                vstd::bits::lemma_usize_pow2_no_overflow(folding_factor as nat);
                assert(usize::BITS == 32 || usize::BITS == 64);
                vstd::arithmetic::power2::lemma2_to64();
                vstd::arithmetic::power2::lemma2_to64_rest();
                lemma_pow2_pos(folding_factor as nat);
                lemma_log2_pow2(folding_factor as nat);
            }
            let folding_size: usize = 1usize << folding_factor;
            proof {
                vstd::bits::lemma_usize_shl_is_mul(1usize, folding_factor);
            }

            // Undo the forward transform on each block.
            let root = match root_of_unity(folding_size) {
                Some(root) => root,
                None => {
                    proof {
                        assert(false);
                    }
                    return values;
                },
            };
            let root_inv = root.inverse();
            intt_batch(&mut values, root_inv, folding_size);

            // Apply the coset and size correction.
            let size_inv = Fp::from_u64(folding_size as u64).inverse();
            let ghost t = fp_views(values@);
            let ghost goal = rescale_spec(
                t,
                size_inv_spec(folding_factor as nat),
                domain_gen_inv@,
                folding_size as int,
            );
            let len = values.len();
            let num_blocks = len / folding_size;
            proof {
                vstd::arithmetic::div_mod::lemma_fundamental_div_mod(
                    len as int,
                    folding_size as int,
                );
                assert(folding_size as int * num_blocks as int == num_blocks as int
                    * folding_size as int) by (nonlinear_arith);
            }
            let mut result: Vec<Fp> = Vec::new();
            let mut coset_offset_inv = Fp::one();
            let mut i: usize = 0;
            proof {
                vstd::arithmetic::power::lemma_pow0(domain_gen_inv@);
            }
            while i < num_blocks
                invariant
                    fp_wf(values@),
                    domain_gen_inv.inv(),
                    size_inv.inv(),
                    size_inv@ == size_inv_spec(folding_factor as nat),
                    folding_size as int == pow2(folding_factor as nat),
                    folding_size >= 1,
                    len == values@.len(),
                    t == fp_views(values@),
                    goal == rescale_spec(
                        t,
                        size_inv_spec(folding_factor as nat),
                        domain_gen_inv@,
                        folding_size as int,
                    ),
                    len == num_blocks * folding_size,
                    i <= num_blocks,
                    coset_offset_inv.inv(),
                    coset_offset_inv@ == f_pow(domain_gen_inv@, i as nat),
                    result@.len() == i * folding_size,
                    fp_wf(result@),
                    forall|x: int|
                        0 <= x < i * folding_size ==> (#[trigger] result@[x])@ == goal[x],
                decreases num_blocks - i,
            {
                proof {
                    lemma_mul_inequality(i as int + 1, num_blocks as int, folding_size as int);
                    lemma_mul_inequality(i as int, num_blocks as int, folding_size as int);
                    assert((i as int + 1) * folding_size as int == i as int * folding_size as int
                        + folding_size as int) by (nonlinear_arith);
                }
                let base = i * folding_size;
                let mut scale = size_inv;
                let mut j: usize = 0;
                proof {
                    vstd::arithmetic::power::lemma_pow0(coset_offset_inv@);
                    crate::field::lemma_fp_bound(size_inv);
                    assert(f_pow(coset_offset_inv@, 0) == 1);
                    assert(f_mul(size_inv@, 1) == size_inv@);
                }
                while j < folding_size
                    invariant
                        fp_wf(values@),
                        size_inv.inv(),
                        domain_gen_inv.inv(),
                        coset_offset_inv.inv(),
                        coset_offset_inv@ == f_pow(domain_gen_inv@, i as nat),
                        len == values@.len(),
                        t == fp_views(values@),
                        goal == rescale_spec(
                            t,
                            size_inv_spec(folding_factor as nat),
                            domain_gen_inv@,
                            folding_size as int,
                        ),
                        size_inv@ == size_inv_spec(folding_factor as nat),
                        folding_size >= 1,
                        i < num_blocks,
                        base == i * folding_size,
                        base + folding_size <= len,
                        j <= folding_size,
                        scale.inv(),
                        scale@ == f_mul(size_inv@, f_pow(coset_offset_inv@, j as nat)),
                        result@.len() == i * folding_size + j,
                        fp_wf(result@),
                        forall|x: int|
                            0 <= x < i * folding_size + j ==> (#[trigger] result@[x])@ == goal[x],
                    decreases folding_size - j,
                {
                    result.push(values[base + j].mul(scale));
                    proof {
                        let x = i as int * folding_size as int + j as int;
                        lemma_fundamental_div_mod_converse(
                            x,
                            folding_size as int,
                            i as int,
                            j as int,
                        );
                        crate::field::lemma_f_mul_assoc(
                            size_inv@,
                            f_pow(coset_offset_inv@, j as nat),
                            coset_offset_inv@,
                        );
                        crate::field::lemma_f_pow_step(coset_offset_inv@, j as nat);
                    }
                    scale = scale.mul(coset_offset_inv);
                    j = j + 1;
                }
                coset_offset_inv = coset_offset_inv.mul(domain_gen_inv);
                proof {
                    crate::field::lemma_f_pow_step(domain_gen_inv@, i as nat);
                }
                i = i + 1;
                proof {
                    assert(i as int * folding_size as int == (i - 1) as int * folding_size as int
                        + folding_size as int) by (nonlinear_arith);
                }
            }
            proof {
                assert(fp_views(result@) =~= goal);
            }
            result
        },
    }
}

} // verus!
