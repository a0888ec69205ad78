//! The coset-folding round reduction of the low-degree test: the evaluations
//! of a function on a coset of size `2^k` are folded `k` times, one random
//! scalar per round, into the single evaluation of the folded function on the
//! quotient coset.

use crate::field::{f_add, f_mul, f_pow, f_sub, fp_views, fp_wf, Fp, P};
use vstd::arithmetic::power2::{lemma_pow2_pos, lemma_pow2_unfold, pow2};
use vstd::prelude::*;

verus! {

/// One folding round: values `i` and `i + half` pair off into
/// `two_inv * ((v0 + v1) + r * (offset_inv * gen_inv^i) * (v0 - v1))`,
/// halving the vector.
pub open spec fn fold_round(v: Seq<int>, r: int, offset_inv: int, gen_inv: int, two_inv: int) -> Seq<
    int,
> {
    let half = v.len() as int / 2;
    Seq::new(
        (v.len() / 2) as nat,
        |i: int|
            f_mul(
                two_inv,
                f_add(
                    f_add(v[i], v[i + half]),
                    f_mul(r, f_mul(f_mul(offset_inv, f_pow(gen_inv, i as nat)), f_sub(v[i], v[i + half]))),
                ),
            ),
    )
}

/// `rounds` folding rounds, consuming the randomness sequence from its end
/// and squaring the coset offset and generator inverses between rounds.
pub open spec fn fold_rounds(
    v: Seq<int>,
    randomness: Seq<int>,
    offset_inv: int,
    gen_inv: int,
    two_inv: int,
    rounds: nat,
) -> Seq<int>
    decreases rounds,
{
    if rounds == 0 {
        v
    } else {
        fold_rounds(
            fold_round(v, randomness.last(), offset_inv, gen_inv, two_inv),
            randomness.drop_last(),
            f_mul(offset_inv, offset_inv),
            f_mul(gen_inv, gen_inv),
            two_inv,
            (rounds - 1) as nat,
        )
    }
}

/// The fold of the evaluations of `f` on the coset `offset * <gen>` of size
/// `2^folding_factor`: the value of the `folding_factor`-times-folded
/// function at the corresponding point of the quotient coset. The randomness
/// is consumed from the end of the sequence, one scalar per round.
pub fn compute_fold(
    answers: &[Fp],
    folding_randomness: &[Fp],
    coset_offset_inv: Fp,
    coset_gen_inv: Fp,
    two_inv: Fp,
    folding_factor: usize,
) -> (r: Fp)
    requires
        fp_wf(answers@),
        fp_wf(folding_randomness@),
        coset_offset_inv.inv(),
        coset_gen_inv.inv(),
        two_inv.inv(),
        folding_factor < usize::BITS,
        answers@.len() == pow2(folding_factor as nat),
        folding_randomness@.len() >= folding_factor,
    ensures
        r.inv(),
        r@ == fold_rounds(
            fp_views(answers@),
            fp_views(folding_randomness@),
            coset_offset_inv@,
            coset_gen_inv@,
            two_inv@,
            folding_factor as nat,
        )[0],
{
    let ghost goal = fold_rounds(
        fp_views(answers@),
        fp_views(folding_randomness@),
        coset_offset_inv@,
        coset_gen_inv@,
        two_inv@,
        folding_factor as nat,
    );
    let mut coset_offset_inv = coset_offset_inv;
    let mut coset_gen_inv = coset_gen_inv;

    // Local working copy of the coset evaluations.
    let mut answers_vec: Vec<Fp> = Vec::new();
    let mut c: usize = 0;
    while c < answers.len()
        invariant
            c <= answers@.len(),
            answers_vec@ =~= answers@.take(c as int),
        decreases answers@.len() - c,
    {
        answers_vec.push(answers[c]);
        c = c + 1;
    }
    proof {
        assert(answers_vec@ =~= answers@);
        assert(fp_views(folding_randomness@).take(folding_randomness@.len() as int) =~= fp_views(
            folding_randomness@,
        ));
    }

    let mut rec: usize = 0;
    while rec < folding_factor
        invariant
            rec <= folding_factor,
            folding_factor < usize::BITS,
            fp_wf(answers_vec@),
            fp_wf(folding_randomness@),
            folding_randomness@.len() >= folding_factor,
            coset_offset_inv.inv(),
            coset_gen_inv.inv(),
            two_inv.inv(),
            answers_vec@.len() == pow2((folding_factor - rec) as nat),
            goal == fold_rounds(
                fp_views(answers_vec@),
                fp_views(folding_randomness@).take(folding_randomness@.len() - rec),
                coset_offset_inv@,
                coset_gen_inv@,
                two_inv@,
                (folding_factor - rec) as nat,
            ),
        decreases folding_factor - rec,
    {
        let offset = answers_vec.len() / 2;
        let r_scalar = folding_randomness[folding_randomness.len() - 1 - rec];
        let ghost cur = fp_views(answers_vec@);
        let ghost off0 = coset_offset_inv@;
        let ghost gen0 = coset_gen_inv@;
        let ghost remaining = fp_views(folding_randomness@).take(
            folding_randomness@.len() - rec,
        );
        proof {
            lemma_pow2_unfold((folding_factor - rec) as nat);
            lemma_pow2_pos((folding_factor - rec - 1) as nat);
            assert(remaining.last() == r_scalar@);
        }
        let mut new_answers: Vec<Fp> = Vec::new();
        let mut coset_index_inv = Fp::one();
        let mut i: usize = 0;
        proof {
            assert(f_pow(coset_gen_inv@, 0) == 1) by {
                vstd::arithmetic::power::lemma_pow0(coset_gen_inv@);
            }
        }
        while i < offset
            invariant
                i <= offset,
                offset == answers_vec@.len() / 2,
                answers_vec@.len() == 2 * offset,
                2 * offset <= usize::MAX,
                fp_wf(answers_vec@),
                cur == fp_views(answers_vec@),
                r_scalar.inv(),
                coset_offset_inv.inv(),
                coset_gen_inv.inv(),
                two_inv.inv(),
                coset_index_inv.inv(),
                coset_index_inv@ == f_pow(coset_gen_inv@, i as nat),
                new_answers@.len() == i,
                fp_wf(new_answers@),
                forall|j: int|
                    0 <= j < i ==> (#[trigger] new_answers@[j])@ == fold_round(
                        cur,
                        r_scalar@,
                        coset_offset_inv@,
                        coset_gen_inv@,
                        two_inv@,
                    )[j],
            decreases offset - i,
        {
            let f_value_0 = answers_vec[i];
            let f_value_1 = answers_vec[i + offset];
            let point_inv = coset_offset_inv.mul(coset_index_inv);

            let left = f_value_0.add(f_value_1);
            let right = point_inv.mul(f_value_0.sub(f_value_1));

            new_answers.push(two_inv.mul(left.add(r_scalar.mul(right))));
            coset_index_inv = coset_index_inv.mul(coset_gen_inv);
            proof {
                crate::field::lemma_f_pow_step(coset_gen_inv@, i as nat);
            }
            i = i + 1;
        }
        answers_vec = new_answers;

        // The next round folds the squared coset.
        coset_offset_inv = coset_offset_inv.mul(coset_offset_inv);
        coset_gen_inv = coset_gen_inv.mul(coset_gen_inv);
        rec = rec + 1;
        proof {
            assert(fp_views(answers_vec@) =~= fold_round(cur, remaining.last(), off0, gen0, two_inv@));
            assert(remaining.drop_last() =~= fp_views(folding_randomness@).take(
                folding_randomness@.len() - rec,
            ));
        }
    }
    proof {
        assert(fp_views(answers_vec@).len() == 1) by {
            vstd::arithmetic::power2::lemma2_to64();
        }
    }
    answers_vec[0]
}

/// One folding round is the polynomial fold on a two-point coset: where the
/// two values are the evaluations of the line `c0 + c1*y` at the coset pair
/// `x` and `-x`, and the supplied scalars really invert 2 and `x`, the round
/// returns the folded line `c0 + r*c1`.
pub proof fn lemma_fold_round_on_line(
    c0: int,
    c1: int,
    x: int,
    x_inv: int,
    gen_inv: int,
    two_inv: int,
    r: int,
)
    requires
        f_mul(2, two_inv) == 1,
        f_mul(x, x_inv) == 1,
        0 <= x_inv < P as int,
    ensures
        ({
            let a = f_add(c0, f_mul(c1, x));
            let b = f_add(c0, f_mul(c1, f_sub(0, x)));
            fold_round(seq![a, b], r, x_inv, gen_inv, two_inv)[0] == f_add(c0, f_mul(r, c1))
        }),
{
    let p = P as int;
    let a = f_add(c0, f_mul(c1, x));
    let b = f_add(c0, f_mul(c1, f_sub(0, x)));
    let folded = fold_round(seq![a, b], r, x_inv, gen_inv, two_inv);

    // The evaluations, as single residues of integer expressions.
    assert(a == (c0 + c1 * x) % p) by {
        vstd::arithmetic::div_mod::lemma_add_mod_noop_right(c0, c1 * x, p);
    }
    assert(b == (c0 - c1 * x) % p) by {
        vstd::arithmetic::div_mod::lemma_mul_mod_noop_right(c1, 0 - x, p);
        vstd::arithmetic::div_mod::lemma_add_mod_noop_right(c0, c1 * (0 - x), p);
        assert(c1 * (0 - x) == 0 - c1 * x) by (nonlinear_arith);
    }

    // The symmetric part is 2*c0 and the antisymmetric part is 2*c1*x.
    let left = f_add(a, b);
    assert(left == (2 * c0) % p) by {
        vstd::arithmetic::div_mod::lemma_add_mod_noop(c0 + c1 * x, c0 - c1 * x, p);
    }
    let diff = f_sub(a, b);
    assert(diff == (2 * (c1 * x)) % p) by {
        vstd::arithmetic::div_mod::lemma_sub_mod_noop(c0 + c1 * x, c0 - c1 * x, p);
        assert((c0 + c1 * x) - (c0 - c1 * x) == 2 * (c1 * x)) by (nonlinear_arith);
    }

    // The coset point inverse of the first pair is x_inv itself.
    let point_inv = f_mul(x_inv, f_pow(gen_inv, 0));
    assert(f_pow(gen_inv, 0) == 1) by {
        vstd::arithmetic::power::lemma_pow0(gen_inv);
    }
    assert(point_inv == x_inv) by {
        vstd::arithmetic::div_mod::lemma_small_mod(x_inv as nat, P as nat);
    }

    // Multiplying the difference by x_inv cancels the x: the right part is
    // 2*c1 up to multiples of p.
    let right = f_mul(point_inv, diff);
    assert(right == (2 * c1) % p) by {
        vstd::arithmetic::div_mod::lemma_mul_mod_noop_right(x_inv, 2 * (c1 * x), p);
        let q = (x * x_inv) / p;
        vstd::arithmetic::div_mod::lemma_fundamental_div_mod(x * x_inv, p);
        assert(x * x_inv == p * q + 1);
        assert(x_inv * (2 * (c1 * x)) == p * (q * (2 * c1)) + 2 * c1) by (nonlinear_arith)
            requires
                x * x_inv == p * q + 1,
        ;
        vstd::arithmetic::div_mod::lemma_mod_multiples_vanish(q * (2 * c1), 2 * c1, p);
    }

    // Fold, then strip the factor 2 with its inverse.
    let inner = f_add(left, f_mul(r, right));
    assert(inner == (2 * c0 + 2 * (r * c1)) % p) by {
        vstd::arithmetic::div_mod::lemma_mul_mod_noop_right(r, 2 * c1, p);
        assert(r * (2 * c1) == 2 * (r * c1)) by (nonlinear_arith);
        vstd::arithmetic::div_mod::lemma_add_mod_noop(2 * c0, 2 * (r * c1), p);
    }
    assert(f_mul(two_inv, inner) == (c0 + r * c1) % p) by {
        vstd::arithmetic::div_mod::lemma_mul_mod_noop_right(two_inv, 2 * c0 + 2 * (r * c1), p);
        let q2 = (2 * two_inv) / p;
        vstd::arithmetic::div_mod::lemma_fundamental_div_mod(2 * two_inv, p);
        assert(2 * two_inv == p * q2 + 1);
        assert(two_inv * (2 * c0 + 2 * (r * c1)) == p * (q2 * (c0 + r * c1)) + (c0 + r * c1))
            by (nonlinear_arith)
            requires
                2 * two_inv == p * q2 + 1,
        ;
        vstd::arithmetic::div_mod::lemma_mod_multiples_vanish(q2 * (c0 + r * c1), c0 + r * c1, p);
    }

    assert(folded[0] == f_mul(two_inv, inner));
    assert(f_add(c0, f_mul(r, c1)) == (c0 + r * c1) % p) by {
        vstd::arithmetic::div_mod::lemma_add_mod_noop_right(c0, r * c1, p);
    }
}

} // verus!
