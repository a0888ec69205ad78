//! Number-theoretic transforms over the field's two-adic subgroup, and the
//! Reed-Solomon coset encoder built on them: a coefficient vector is expanded
//! into a rate-`1/expansion` codeword by scaling each coset block, running a
//! batched transform, and transposing into codeword order.

use crate::field::{
    f_add, f_mul, f_pow, fp_views, fp_wf, lemma_f_mul_assoc, lemma_f_pow_add, lemma_f_pow_mul, Fp,
    P, TWO_ADICITY, TWO_ADIC_GENERATOR,
};
use crate::poly_utils::helpers::horner_spec;
use vstd::arithmetic::power::pow;
use vstd::arithmetic::div_mod::{
    lemma_fundamental_div_mod, lemma_fundamental_div_mod_converse, lemma_mod_multiples_basic,
};
use vstd::arithmetic::mul::lemma_mul_inequality;
use vstd::arithmetic::power2::{lemma_pow2_pos, lemma_pow2_unfold, pow2};
use vstd::prelude::*;

verus! {

/// How many times 2 divides `n` down to 1: the exponent of `n` when `n` is a
/// power of two.
pub open spec fn log2(n: nat) -> nat
    decreases n,
{
    if n <= 1 {
        0
    } else {
        1 + log2(n / 2)
    }
}

/// Whether the two-adic subgroup has an element of order `n`: `n` is a power
/// of two no larger than `2^TWO_ADICITY`.
pub open spec fn is_supported_order(n: nat) -> bool {
    n == pow2(log2(n)) && log2(n) <= TWO_ADICITY
}

/// The canonical root of unity of order `2^l`: the two-adic generator raised
/// to `2^(TWO_ADICITY - l)`.
pub open spec fn root_of_unity_spec(l: nat) -> int {
    f_pow(TWO_ADIC_GENERATOR as int, pow2((TWO_ADICITY - l) as nat))
}

/// The first `j` terms of output point `i` of the transform of `a` by `root`:
/// the partial sum of `a[j] * root^(i*j)`.
pub open spec fn ntt_sum(a: Seq<int>, root: int, i: int, j: int) -> int
    decreases j,
{
    if j <= 0 {
        0
    } else {
        f_add(ntt_sum(a, root, i, j - 1), f_mul(a[j - 1], f_pow(root, (i * (j - 1)) as nat)))
    }
}

/// The size-`size` transform by `root` applied independently to each
/// contiguous block: output `k` is point `k % size` of the transform of the
/// block holding `k`.
pub open spec fn ntt_batch_spec(a: Seq<int>, root: int, size: int) -> Seq<int> {
    Seq::new(
        a.len(),
        |k: int|
            ntt_sum(a.subrange((k / size) * size, (k / size) * size + size), root, k % size, size),
    )
}

/// A row-major `rows x cols` matrix read back column-major.
pub open spec fn transpose_spec(t: Seq<int>, rows: int, cols: int) -> Seq<int> {
    Seq::new(t.len(), |k: int| t[(k % rows) * cols + k / rows])
}

/// The coefficient vector repeated once per coset: block `i`, entry `j` is
/// `c[j] * root^(i*j)`, the coefficient scaled onto coset representative
/// `root^i`.
pub open spec fn expand_stack_spec(c: Seq<int>, root: int, expansion: int) -> Seq<int> {
    Seq::new(
        (c.len() * expansion) as nat,
        |k: int|
            f_mul(c[k % c.len() as int], f_pow(root, ((k / c.len() as int) * (k % c.len() as int)) as nat)),
    )
}

/// `log2` inverts `pow2`.
pub proof fn lemma_log2_pow2(l: nat)
    ensures
        log2(pow2(l)) == l,
    decreases l,
{
    vstd::arithmetic::power2::lemma2_to64();
    if l > 0 {
        lemma_pow2_unfold(l);
        lemma_pow2_pos((l - 1) as nat);
        lemma_log2_pow2((l - 1) as nat);
    }
}

/// A power of two has no odd factor besides 1.
proof fn lemma_odd_factor_of_pow2(m: nat, l: nat, j: nat)
    requires
        m % 2 == 1,
        m * pow2(l) == pow2(j),
    ensures
        m == 1,
    decreases l,
{
    lemma_pow2_pos(l);
    lemma_pow2_pos(j);
    if l == 0 {
        vstd::arithmetic::power2::lemma2_to64();
        assert(m == pow2(j));
        if j > 0 {
            lemma_pow2_unfold(j);
            assert(pow2(j) % 2 == 0) by (nonlinear_arith)
                requires
                    pow2(j) == 2 * pow2((j - 1) as nat),
            ;
        }
    } else {
        lemma_pow2_unfold(l);
        assert(j > 0) by {
            vstd::arithmetic::power2::lemma2_to64();
            if j == 0 {
                assert(m * pow2(l) == 1);
                assert(pow2(l) >= 2);
                assert(m * pow2(l) >= 2 || m == 0) by (nonlinear_arith)
                    requires
                        pow2(l) >= 2,
                ;
            }
        }
        lemma_pow2_unfold(j);
        assert(m * (2 * pow2((l - 1) as nat)) == 2 * pow2((j - 1) as nat));
        assert(m * pow2((l - 1) as nat) == pow2((j - 1) as nat)) by (nonlinear_arith)
            requires
                m * (2 * pow2((l - 1) as nat)) == 2 * pow2((j - 1) as nat),
        ;
        lemma_odd_factor_of_pow2(m, (l - 1) as nat, (j - 1) as nat);
    }
}

/// The root of unity of the requested order, or nothing where the two-adic
/// subgroup has no element of that order (the order is not a power of two, or
/// exceeds `2^TWO_ADICITY`).
pub fn root_of_unity(order: usize) -> (r: Option<Fp>)
    ensures
        r is Some <==> is_supported_order(order as nat),
        r is Some ==> (r->0).inv() && (r->0)@ == root_of_unity_spec(log2(order as nat)),
{
    let mut l: usize = 0;
    let mut m: usize = order;
    proof {
        vstd::arithmetic::power2::lemma2_to64();
    }
    while m > 1 && m % 2 == 0
        invariant
            order as int == m * pow2(l as nat),
            l <= 64,
        decreases m,
    {
        proof {
            lemma_pow2_unfold(l as nat + 1);
            assert((m / 2) * pow2(l as nat + 1) == m * pow2(l as nat)) by (nonlinear_arith)
                requires
                    m % 2 == 0,
                    m >= 2,
                    pow2(l as nat + 1) == 2 * pow2(l as nat),
            ;
            assert(l < 64) by {
                lemma_pow2_pos(l as nat);
                if l >= 64 {
                    vstd::arithmetic::power2::lemma2_to64_rest();
                    assert(l == 64);
                    assert(order as int >= 2 * pow2(64)) by (nonlinear_arith)
                        requires
                            order as int == m * pow2(l as nat),
                            m >= 2,
                            pow2(l as nat) >= pow2(64),
                    ;
                }
            }
        }
        m = m / 2;
        l = l + 1;
    }
    if m != 1 || l > 27 {
        proof {
            let n = order as nat;
            if is_supported_order(n) {
                let j = log2(n);
                if m == 0 {
                    lemma_pow2_pos(j);
                    assert(order == 0) by (nonlinear_arith)
                        requires
                            order as int == 0 * pow2(l as nat),
                    ;
                } else if m != 1 {
                    lemma_odd_factor_of_pow2(m as nat, l as nat, j);
                } else {
                    // order == pow2(l) with l > 27, yet log2(order) <= 27
                    lemma_log2_pow2(l as nat);
                }
            }
        }
        return None;
    }
    proof {
        assert(order as int == pow2(l as nat)) by (nonlinear_arith)
            requires
                order as int == 1 * pow2(l as nat),
        ;
        lemma_log2_pow2(l as nat);
    }
    let e: u64 = 1u64 << (27 - l) as u64;
    proof {
        vstd::bits::lemma_u64_pow2_no_overflow((27 - l) as nat);
        vstd::bits::lemma_u64_shl_is_mul(1u64, (27 - l) as u64);
    }
    Some(Fp::from_u64(TWO_ADIC_GENERATOR).exp_u64(e))
}

/// The transform of each contiguous `size`-block of the buffer by `root`, in
/// place.
pub fn ntt_batch(values: &mut Vec<Fp>, root: Fp, size: usize)
    requires
        fp_wf(old(values)@),
        root.inv(),
        size >= 1,
        old(values)@.len() % (size as nat) == 0,
    ensures
        fp_wf(final(values)@),
        final(values)@.len() == old(values)@.len(),
        fp_views(final(values)@) == ntt_batch_spec(fp_views(old(values)@), root@, size as int),
{
    let ghost t = fp_views(values@);
    let ghost goal = ntt_batch_spec(t, root@, size as int);
    let len = values.len();
    let num_blocks = len / size;
    proof {
        lemma_fundamental_div_mod(len as int, size as int);
        assert(size as int * num_blocks as int == num_blocks as int * size as int)
            by (nonlinear_arith);
    }
    let mut result: Vec<Fp> = Vec::new();
    let mut b: usize = 0;
    while b < num_blocks
        invariant
            fp_wf(values@),
            root.inv(),
            size >= 1,
            len == values@.len(),
            t == fp_views(values@),
            goal == ntt_batch_spec(t, root@, size as int),
            len == num_blocks * size,
            b <= num_blocks,
            result@.len() == b * size,
            fp_wf(result@),
            forall|k: int| 0 <= k < b * size ==> (#[trigger] result@[k])@ == goal[k],
        decreases num_blocks - b,
    {
        proof {
            lemma_mul_inequality(b as int + 1, num_blocks as int, size as int);
            lemma_mul_inequality(b as int, num_blocks as int, size as int);
            assert((b as int + 1) * size as int == b as int * size as int + size as int)
                by (nonlinear_arith);
        }
        let base = b * size;
        let ghost block = t.subrange(base as int, base as int + size);
        let mut i: usize = 0;
        let mut root_i = Fp::one();
        proof {
            vstd::arithmetic::power::lemma_pow0(root@);
        }
        while i < size
            invariant
                fp_wf(values@),
                root.inv(),
                size >= 1,
                len == values@.len(),
                t == fp_views(values@),
                goal == ntt_batch_spec(t, root@, size as int),
                len == num_blocks * size,
                b < num_blocks,
                base == b * size,
                base + size <= len,
                block == t.subrange(base as int, base as int + size),
                i <= size,
                root_i.inv(),
                root_i@ == f_pow(root@, i as nat),
                result@.len() == b * size + i,
                fp_wf(result@),
                forall|k: int| 0 <= k < b * size + i ==> (#[trigger] result@[k])@ == goal[k],
            decreases size - i,
        {
            let mut sum = Fp::zero();
            let mut w = Fp::one();
            let mut j: usize = 0;
            proof {
                vstd::arithmetic::power::lemma_pow0(root@);
            }
            while j < size
                invariant
                    fp_wf(values@),
                    root.inv(),
                    root_i.inv(),
                    root_i@ == f_pow(root@, i as nat),
                    size >= 1,
                    len == values@.len(),
                    t == fp_views(values@),
                    base + size <= len,
                    block == t.subrange(base as int, base as int + size),
                    i < size,
                    j <= size,
                    sum.inv(),
                    w.inv(),
                    sum@ == ntt_sum(block, root@, i as int, j as int),
                    w@ == f_pow(root@, (i * j) as nat),
                decreases size - j,
            {
                let ghost j0 = j as int;
                sum = sum.add(values[base + j].mul(w));
                w = w.mul(root_i);
                j = j + 1;
                proof {
                    assert(block[j0] == t[base + j0]);
                    crate::field::lemma_f_pow_add(root@, (i as int * j0) as nat, i as nat);
                    assert(i as int * j0 + i as int == i as int * (j0 + 1)) by (nonlinear_arith);
                }
            }
            result.push(sum);
            root_i = root_i.mul(root);
            proof {
                let k = b as int * size as int + i as int;
                lemma_fundamental_div_mod_converse(k, size as int, b as int, i as int);
                assert(goal[k] == ntt_sum(block, root@, i as int, size as int));
                crate::field::lemma_f_pow_step(root@, i as nat);
            }
            i = i + 1;
        }
        b = b + 1;
        proof {
            assert(b as int * size as int == (b - 1) as int * size as int + size as int)
                by (nonlinear_arith);
        }
    }
    proof {
        assert(fp_views(result@) =~= goal);
    }
    *values = result;
}

/// The unnormalized inverse transform of each `size`-block: the forward
/// transform by the inverse root; the `1/size` correction is the caller's.
pub fn intt_batch(values: &mut Vec<Fp>, root_inv: Fp, size: usize)
    requires
        fp_wf(old(values)@),
        root_inv.inv(),
        size >= 1,
        old(values)@.len() % (size as nat) == 0,
    ensures
        fp_wf(final(values)@),
        final(values)@.len() == old(values)@.len(),
        fp_views(final(values)@) == ntt_batch_spec(fp_views(old(values)@), root_inv@, size as int),
{
    ntt_batch(values, root_inv, size)
}

/// Reinterpret a row-major `rows x cols` buffer as column-major, in place.
pub fn transpose(values: &mut Vec<Fp>, rows: usize, cols: usize)
    requires
        fp_wf(old(values)@),
        old(values)@.len() == rows * cols,
    ensures
        fp_wf(final(values)@),
        final(values)@.len() == old(values)@.len(),
        fp_views(final(values)@) == transpose_spec(fp_views(old(values)@), rows as int, cols as int),
{
    let ghost t = fp_views(values@);
    let ghost goal = transpose_spec(t, rows as int, cols as int);
    let len = values.len();
    let mut result: Vec<Fp> = Vec::new();
    let mut j: usize = 0;
    while j < cols
        invariant
            fp_wf(values@),
            len == values@.len(),
            t == fp_views(values@),
            goal == transpose_spec(t, rows as int, cols as int),
            len == rows * cols,
            j <= cols,
            result@.len() == j * rows,
            fp_wf(result@),
            forall|k: int| 0 <= k < j * rows ==> (#[trigger] result@[k])@ == goal[k],
        decreases cols - j,
    {
        let mut i: usize = 0;
        proof {
            lemma_mul_inequality(j as int + 1, cols as int, rows as int);
            lemma_mul_inequality(j as int, cols as int, rows as int);
            assert(cols * rows == rows * cols) by (nonlinear_arith);
        }
        while i < rows
            invariant
                fp_wf(values@),
                len == values@.len(),
                t == fp_views(values@),
                goal == transpose_spec(t, rows as int, cols as int),
                len == rows * cols,
                j < cols,
                i <= rows,
                result@.len() == j * rows + i,
                (j + 1) * rows <= len,
                fp_wf(result@),
                forall|k: int| 0 <= k < j * rows + i ==> (#[trigger] result@[k])@ == goal[k],
            decreases rows - i,
        {
            proof {
                lemma_mul_inequality(i as int + 1, rows as int, cols as int);
                assert(i * cols + j < rows * cols) by (nonlinear_arith)
                    requires
                        (i + 1) * cols <= rows * cols,
                        j < cols,
                ;
            }
            result.push(values[i * cols + j]);
            proof {
                let k = j as int * rows as int + i as int;
                assert(k < rows as int * cols as int) by (nonlinear_arith)
                    requires
                        (j as int + 1) * rows as int <= rows as int * cols as int,
                        0 <= i < rows,
                        0 <= j,
                        k == j as int * rows as int + i as int,
                ;
                lemma_fundamental_div_mod_converse(k, rows as int, j as int, i as int);
                assert(goal[k] == t[i as int * cols as int + j as int]);
            }
            i = i + 1;
        }
        j = j + 1;
        proof {
            assert(j as int * rows as int == (j - 1) as int * rows as int + rows as int)
                by (nonlinear_arith);
        }
    }
    proof {
        assert(cols as int * rows as int == rows as int * cols as int) by (nonlinear_arith);
        assert(fp_views(result@) =~= goal);
    }
    *values = result;
}

/// Reed-Solomon encoding at rate `1/expansion`: the evaluations of the
/// degree-`< k` polynomial with the given coefficients on `expansion`
/// disjoint cosets of the two-adic domain of size `k * expansion`, in
/// codeword (position-major) order. Nothing is returned where the field has
/// no root of unity of that order.
pub fn expand_from_coeff(coeffs: &[Fp], expansion: usize) -> (r: Option<Vec<Fp>>)
    requires
        fp_wf(coeffs@),
        coeffs@.len() * expansion <= usize::MAX,
    ensures
        r is Some <==> is_supported_order((coeffs@.len() * expansion) as nat),
        r is Some ==> {
            let root = root_of_unity_spec(log2((coeffs@.len() * expansion) as nat));
            &&& fp_wf((r->0)@)
            &&& (r->0)@.len() == coeffs@.len() * expansion
            &&& fp_views((r->0)@) == transpose_spec(
                ntt_batch_spec(
                    expand_stack_spec(fp_views(coeffs@), root, expansion as int),
                    f_pow(root, expansion as nat),
                    coeffs@.len() as int,
                ),
                expansion as int,
                coeffs@.len() as int,
            )
            &&& forall|p: int|
                0 <= p < coeffs@.len() * expansion ==> #[trigger] fp_views((r->0)@)[p]
                    == horner_spec(
                    fp_views(coeffs@),
                    f_pow(
                        root,
                        (p % (expansion as int) + expansion * (p / (expansion as int))) as nat,
                    ),
                )
        },
{
    let k = coeffs.len();
    let expanded_size = k * expansion;
    let root = match root_of_unity(expanded_size) {
        Some(root) => root,
        None => {
            return None;
        },
    };
    proof {
        lemma_pow2_pos(log2(expanded_size as nat));
        assert(k >= 1 && expansion >= 1) by (nonlinear_arith)
            requires
                k * expansion >= 1,
        ;
    }
    let ghost c = fp_views(coeffs@);
    let ghost stack = expand_stack_spec(c, root@, expansion as int);

    // Scale the coefficients onto each coset representative.
    let mut result: Vec<Fp> = Vec::new();
    let mut i: usize = 0;
    while i < expansion
        invariant
            fp_wf(coeffs@),
            root.inv(),
            k == coeffs@.len(),
            k >= 1,
            expansion >= 1,
            k * expansion <= usize::MAX,
            c == fp_views(coeffs@),
            stack == expand_stack_spec(c, root@, expansion as int),
            i <= expansion,
            result@.len() == i * k,
            fp_wf(result@),
            forall|x: int| 0 <= x < i * k ==> (#[trigger] result@[x])@ == stack[x],
        decreases expansion - i,
    {
        proof {
            lemma_mul_inequality(i as int + 1, expansion as int, k as int);
            assert(expansion as int * k as int == k as int * expansion as int)
                by (nonlinear_arith);
            assert((i as int + 1) * k as int == i as int * k as int + k as int)
                by (nonlinear_arith);
        }
        let root_i = root.exp_u64(i as u64);
        let mut offset = Fp::one();
        let mut j: usize = 0;
        proof {
            vstd::arithmetic::power::lemma_pow0(root_i@);
        }
        while j < k
            invariant
                fp_wf(coeffs@),
                root.inv(),
                root_i.inv(),
                root_i@ == f_pow(root@, i as nat),
                k == coeffs@.len(),
                k >= 1,
                i < expansion,
                c == fp_views(coeffs@),
                stack == expand_stack_spec(c, root@, expansion as int),
                i as int * k as int + k as int <= c.len() * expansion as int,
                j <= k,
                offset.inv(),
                offset@ == f_pow(root_i@, j as nat),
                result@.len() == i * k + j,
                fp_wf(result@),
                forall|x: int| 0 <= x < i * k + j ==> (#[trigger] result@[x])@ == stack[x],
            decreases k - j,
        {
            result.push(coeffs[j].mul(offset));
            proof {
                let x = i as int * k as int + j as int;
                lemma_fundamental_div_mod_converse(x, k as int, i as int, j as int);
                crate::field::lemma_f_pow_mul(root@, i as nat, j as nat);
                assert(stack[x] == f_mul(c[j as int], f_pow(root@, (i as int * j as int) as nat)));
                crate::field::lemma_f_pow_step(root_i@, j as nat);
            }
            offset = offset.mul(root_i);
            j = j + 1;
        }
        i = i + 1;
        proof {
            assert(i as int * k as int == (i - 1) as int * k as int + k as int)
                by (nonlinear_arith);
        }
    }
    proof {
        assert(expansion as int * k as int == k as int * expansion as int) by (nonlinear_arith);
        assert(fp_views(result@) =~= stack);
        assert(result@.len() as int % (k as int) == 0) by {
            lemma_mod_multiples_basic(expansion as int, k as int);
        }
    }

    // Batched transform of size `k` across the cosets, then transpose into
    // codeword order.
    let root_k = root.exp_u64(expansion as u64);
    ntt_batch(&mut result, root_k, k);
    transpose(&mut result, expansion, k);
    proof {
        assert(result@.len() == k * expansion) by (nonlinear_arith)
            requires
                result@.len() == expansion as int * k as int,
        ;
        assert forall|p: int| 0 <= p < c.len() * expansion implies #[trigger] fp_views(result@)[p]
            == horner_spec(
            c,
            f_pow(root@, (p % (expansion as int) + expansion * (p / (expansion as int))) as nat),
        ) by {
            lemma_codeword_evaluates(c, root@, expansion as int, p);
        }
    }
    Some(result)
}

/// The plain integer power sum of the first `j` coefficients at `x`.
spec fn power_sum_int(c: Seq<int>, x: int, j: int) -> int
    decreases j,
{
    if j <= 0 {
        0
    } else {
        power_sum_int(c, x, j - 1) + c[j - 1] * pow(x, (j - 1) as nat)
    }
}

/// A transform point at exponent step 1 is the reduced integer power sum.
proof fn lemma_ntt_sum_is_power_sum(c: Seq<int>, x: int, j: int)
    requires
        0 <= j <= c.len(),
    ensures
        ntt_sum(c, x, 1, j) == power_sum_int(c, x, j) % (P as int),
    decreases j,
{
    if j > 0 {
        lemma_ntt_sum_is_power_sum(c, x, j - 1);
        assert(f_mul(c[j - 1], f_pow(x, (j - 1) as nat)) == (c[j - 1] * pow(x, (j - 1) as nat)) % (
        P as int)) by {
            vstd::arithmetic::div_mod::lemma_mul_mod_noop_right(
                c[j - 1],
                pow(x, (j - 1) as nat),
                P as int,
            );
        }
        vstd::arithmetic::div_mod::lemma_add_mod_noop(
            power_sum_int(c, x, j - 1),
            c[j - 1] * pow(x, (j - 1) as nat),
            P as int,
        );
        vstd::arithmetic::div_mod::lemma_mod_twice(power_sum_int(c, x, j - 1), P as int);
        vstd::arithmetic::div_mod::lemma_mod_twice(c[j - 1] * pow(x, (j - 1) as nat), P as int);
    }
}

/// A transform point at exponent step `i` reads the same terms as one at
/// step 1 by the `i`-th power of the root.
proof fn lemma_ntt_sum_base_change(c: Seq<int>, root: int, i: int, j: int)
    requires
        0 <= i,
        0 <= j <= c.len(),
    ensures
        ntt_sum(c, root, i, j) == ntt_sum(c, f_pow(root, i as nat), 1, j),
    decreases j,
{
    if j > 0 {
        lemma_ntt_sum_base_change(c, root, i, j - 1);
        lemma_f_pow_mul(root, i as nat, (j - 1) as nat);
    }
}

/// Dropping the first coefficient shifts the power sum down by one factor.
proof fn lemma_power_sum_shift(c: Seq<int>, x: int, j: int)
    requires
        1 <= j <= c.len(),
    ensures
        power_sum_int(c, x, j) == power_sum_int(c.drop_first(), x, j - 1) * x + c[0],
    decreases j,
{
    vstd::arithmetic::power::lemma_pow0(x);
    if j == 1 {
        assert(power_sum_int(c, x, 0) == 0);
        assert(power_sum_int(c, x, 1) == c[0] * pow(x, 0));
        assert(power_sum_int(c.drop_first(), x, 0) == 0);
    } else {
        lemma_power_sum_shift(c, x, j - 1);
        let tail = c.drop_first();
        assert(c[j - 1] == tail[j - 2]);
        assert(pow(x, (j - 1) as nat) == x * pow(x, (j - 2) as nat)) by {
            vstd::arithmetic::power::lemma_pow1(x);
            vstd::arithmetic::power::lemma_pow_adds(x, 1, (j - 2) as nat);
        }
        assert(power_sum_int(tail, x, j - 1) * x == power_sum_int(tail, x, j - 2) * x + tail[j - 2]
            * pow(x, (j - 1) as nat)) by (nonlinear_arith)
            requires
                power_sum_int(tail, x, j - 1) == power_sum_int(tail, x, j - 2) + tail[j - 2] * pow(
                    x,
                    (j - 2) as nat,
                ),
                pow(x, (j - 1) as nat) == x * pow(x, (j - 2) as nat),
        ;
    }
}

/// The Horner rule computes the reduced integer power sum.
proof fn lemma_horner_is_power_sum(c: Seq<int>, x: int)
    ensures
        horner_spec(c, x) == power_sum_int(c, x, c.len() as int) % (P as int),
    decreases c.len(),
{
    let p = P as int;
    if c.len() == 0 {
    } else {
        let tail = c.drop_first();
        lemma_horner_is_power_sum(tail, x);
        let st = power_sum_int(tail, x, tail.len() as int);
        assert(f_mul(st % p, x) == (st * x) % p) by {
            vstd::arithmetic::div_mod::lemma_mul_mod_noop_left(st, x, p);
        }
        assert(((st * x) % p + c[0]) % p == (st * x + c[0]) % p) by {
            vstd::arithmetic::div_mod::lemma_add_mod_noop_right(c[0], st * x, p);
        }
        lemma_power_sum_shift(c, x, c.len() as int);
    }
}

/// A transform of coset-scaled coefficients reads the plain coefficients at
/// a shifted exponent: scaling by `root^(i*t)` then transforming by
/// `root^e` at point `m` is transforming by `root` at point `i + e*m`.
proof fn lemma_ntt_sum_coset(c: Seq<int>, block: Seq<int>, root: int, e: int, i: int, m: int, j: int)
    requires
        0 <= e,
        0 <= i,
        0 <= m,
        0 <= j <= c.len(),
        j <= block.len(),
        forall|t: int| 0 <= t < j ==> #[trigger] block[t] == f_mul(c[t], f_pow(root, (i * t) as nat)),
    ensures
        ntt_sum(block, f_pow(root, e as nat), m, j) == ntt_sum(c, root, i + e * m, j),
    decreases j,
{
    if j > 0 {
        lemma_ntt_sum_coset(c, block, root, e, i, m, j - 1);
        let t = j - 1;
        lemma_f_pow_mul(root, e as nat, (m * t) as nat);
        lemma_f_mul_assoc(c[t], f_pow(root, (i * t) as nat), f_pow(root, (e * (m * t)) as nat));
        lemma_f_pow_add(root, (i * t) as nat, (e * (m * t)) as nat);
        assert(i * t + e * (m * t) == (i + e * m) * t) by (nonlinear_arith);
    }
}

/// The Reed-Solomon codeword holds polynomial evaluations: position `p` of
/// the expanded, transformed and transposed buffer is the coefficient
/// polynomial evaluated, by the Horner rule, at the root of unity raised to
/// `(p % expansion) + expansion * (p / expansion)` - that is, at the point
/// of the domain that position addresses.
pub proof fn lemma_codeword_evaluates(c: Seq<int>, root: int, expansion: int, p: int)
    requires
        c.len() >= 1,
        expansion >= 1,
        0 <= p < c.len() * expansion,
    ensures
        transpose_spec(
            ntt_batch_spec(
                expand_stack_spec(c, root, expansion),
                f_pow(root, expansion as nat),
                c.len() as int,
            ),
            expansion,
            c.len() as int,
        )[p] == horner_spec(c, f_pow(root, (p % expansion + expansion * (p / expansion)) as nat)),
{
    let k = c.len() as int;
    let e = expansion;
    let stack = expand_stack_spec(c, root, e);
    let transformed = ntt_batch_spec(stack, f_pow(root, e as nat), k);
    let i = p % e;
    let m = p / e;
    vstd::arithmetic::div_mod::lemma_fundamental_div_mod(p, e);
    assert(m < k) by (nonlinear_arith)
        requires
            p < k * e,
            p == e * m + i,
            0 <= i < e,
            e >= 1,
            0 <= m,
    ;
    assert(i < e && 0 <= i && 0 <= m);
    let q = i * k + m;
    assert(0 <= q < e * k) by (nonlinear_arith)
        requires
            0 <= i < e,
            0 <= m < k,
            q == i * k + m,
    ;
    assert(stack.len() == k * e && transformed.len() == k * e && k * e == e * k)
        by (nonlinear_arith)
        requires
            stack.len() == c.len() * e,
            transformed.len() == stack.len(),
            k == c.len(),
    ;
    assert(transpose_spec(transformed, e, k)[p] == transformed[q]);
    vstd::arithmetic::div_mod::lemma_fundamental_div_mod_converse(q, k, i, m);
    assert(0 <= i * k && i * k + k <= stack.len()) by (nonlinear_arith)
        requires
            0 <= i < e,
            stack.len() == k * e,
            k >= 1,
    ;
    let block = stack.subrange(i * k, i * k + k);
    assert(transformed[q] == ntt_sum(block, f_pow(root, e as nat), m, k));
    assert forall|t: int| 0 <= t < k implies #[trigger] block[t] == f_mul(
        c[t],
        f_pow(root, (i * t) as nat),
    ) by {
        let x = i * k + t;
        vstd::arithmetic::div_mod::lemma_fundamental_div_mod_converse(x, k, i, t);
        assert(0 <= x < stack.len()) by (nonlinear_arith)
            requires
                0 <= i < e,
                0 <= t < k,
                x == i * k + t,
                stack.len() == k * e,
        ;
        assert(block[t] == stack[x]);
    }
    lemma_ntt_sum_coset(c, block, root, e, i, m, k);
    lemma_ntt_sum_base_change(c, root, i + e * m, k);
    lemma_ntt_sum_is_power_sum(c, f_pow(root, (i + e * m) as nat), k);
    lemma_horner_is_power_sum(c, f_pow(root, (i + e * m) as nat));
}

} // verus!
