//! Vertices of the Boolean hypercube, packed into a machine integer: bit
//! `i` (most-significant first) selects coordinate `i` of the matching
//! multilinear point.

use vstd::arithmetic::div_mod::{
    lemma_div_denominator, lemma_fundamental_div_mod, lemma_hoist_over_denominator,
    lemma_mod_multiples_vanish,
};
use vstd::arithmetic::power::pow;
use vstd::arithmetic::power2::{lemma_pow2_adds, lemma_pow2_pos, lemma_pow2_unfold, pow2};
use vstd::prelude::*;

verus! {

/// A vertex of the Boolean hypercube `{0,1}^n`, bit-packed: the value is
/// below `2^n` for the ambient dimension `n`.
#[derive(Clone, Copy, Debug, PartialEq, Eq, PartialOrd, Ord)]
pub struct BinaryHypercubePoint(pub usize);

/// Bit `i` of `v` (least-significant bit is bit 0).
pub open spec fn bit_int(v: int, i: nat) -> int {
    (v / pow2(i) as int) % 2
}

/// Base-3 digit `i` of `t` (least-significant digit is digit 0).
pub open spec fn trit_int(t: int, i: nat) -> int {
    (t / pow(3, i)) % 3
}

/// The vertex encoded by a sequence of bits, most-significant first, read by
/// the Horner rule.
pub open spec fn vertex_of(s: Seq<int>) -> int
    decreases s.len(),
{
    if s.len() == 0 {
        0
    } else {
        vertex_of(s.drop_last()) * 2 + s.last()
    }
}

/// The Horner reading of a zero/one sequence lies below `2^n` and its bits
/// read the sequence back, most-significant first.
pub proof fn lemma_vertex_of_bits(s: Seq<int>)
    requires
        forall|i: int| 0 <= i < s.len() ==> #[trigger] s[i] == 0 || s[i] == 1,
    ensures
        0 <= vertex_of(s) < pow2(s.len()),
        forall|i: int|
            0 <= i < s.len() ==> #[trigger] s[i] == bit_int(vertex_of(s), (s.len() - 1 - i) as nat),
    decreases s.len(),
{
    let n = s.len() as int;
    if s.len() == 0 {
        vstd::arithmetic::power2::lemma2_to64();
    } else {
        let s1 = s.drop_last();
        lemma_vertex_of_bits(s1);
        let v1 = vertex_of(s1);
        let b = s.last();
        let v = vertex_of(s);
        assert(v == 2 * v1 + b);
        lemma_pow2_unfold(s.len());
        assert(v < pow2(s.len()));
        assert(v / 2 == v1 && v % 2 == b) by {
            lemma_fundamental_div_mod(v, 2);
        }
        vstd::arithmetic::power2::lemma2_to64();
        assert(bit_int(v, 0) == v % 2);
        assert forall|i: int| 0 <= i < n - 1 implies #[trigger] s[i] == bit_int(
            v,
            (n - 1 - i) as nat,
        ) by {
            let k = (n - 2 - i) as nat;
            lemma_pow2_pos(k);
            lemma_pow2_unfold(k + 1);
            lemma_div_denominator(v, 2, pow2(k) as int);
            assert(v / pow2(k + 1) as int == v1 / pow2(k) as int);
            assert(s1[i] == bit_int(v1, k));
        }
    }
}

/// Bit `k` of a number is untouched by adding a multiple of `2^m` for
/// `k < m`: the low bits come from the remainder alone.
pub proof fn lemma_bit_of_low_part(v: int, m: nat)
    requires
        0 <= v,
    ensures
        forall|k: nat| k < m ==> #[trigger] bit_int(v, k) == bit_int(v % pow2(m) as int, k),
{
    assert forall|k: nat| k < m implies #[trigger] bit_int(v, k) == bit_int(
        v % pow2(m) as int,
        k,
    ) by {
        let p_m = pow2(m) as int;
        let p_k = pow2(k) as int;
        let p_d = pow2((m - k) as nat) as int;
        lemma_pow2_pos(m);
        lemma_pow2_pos(k);
        lemma_pow2_pos((m - k) as nat);
        lemma_pow2_adds(k, (m - k) as nat);
        let hb = v / p_m;
        let lo = v % p_m;
        lemma_fundamental_div_mod(v, p_m);
        assert(v == p_m * hb + lo);
        // v / 2^k == 2^(m-k) * hb + lo / 2^k
        assert(p_m * hb == (p_d * hb) * p_k) by (nonlinear_arith)
            requires
                p_m == p_k * p_d,
        ;
        lemma_hoist_over_denominator(lo, p_d * hb, p_k as nat);
        assert(lo / p_k + p_d * hb == (lo + (p_d * hb) * p_k) / p_k);
        assert(v / p_k == p_d * hb + lo / p_k);
        // the multiple 2^(m-k) * hb is even, so it drops out of the parity
        assert(p_d == 2 * pow2((m - k - 1) as nat)) by {
            lemma_pow2_unfold((m - k) as nat);
        }
        lemma_mod_multiples_vanish(pow2((m - k - 1) as nat) as int * hb, lo / p_k, 2);
        assert(p_d * hb + lo / p_k == 2 * (pow2((m - k - 1) as nat) as int * hb) + lo / p_k)
            by (nonlinear_arith)
            requires
                p_d == 2 * pow2((m - k - 1) as nat),
        ;
    }
}

} // verus!
