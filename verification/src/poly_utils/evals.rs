//! A multilinear polynomial stored as its dense table of values on the
//! Boolean hypercube, evaluated anywhere by Lagrange interpolation.

use crate::field::{f_add, f_mul, Fp, P};
use crate::poly_utils::hypercube::{bit_int, lemma_vertex_of_bits};
use crate::poly_utils::sequential_lag_poly::LagrangePolynomialIterator;
use crate::poly_utils::{eq_poly_spec, lemma_eq_poly_delta, MultilinearPoint};
use vstd::arithmetic::power2::{lemma2_to64, lemma_pow2_pos, pow2};
use vstd::prelude::*;

verus! {

/// The Lagrange interpolation sum over the first `k` hypercube vertices: the
/// table value at each vertex weighted by the equality polynomial of the
/// point against that vertex.
pub open spec fn weighted_sum(t: Seq<int>, p: Seq<int>, k: int) -> int
    decreases k,
{
    if k <= 0 {
        0
    } else {
        f_add(weighted_sum(t, p, k - 1), f_mul(eq_poly_spec(p, k - 1), t[k - 1]))
    }
}

/// At a Boolean point the interpolation sum collapses onto the table entry of
/// the matching vertex: summed up to `k`, it is the entry once the vertex has
/// been passed and 0 before.
pub proof fn lemma_weighted_sum_delta(t: Seq<int>, p: Seq<int>, v: int, k: int)
    requires
        0 <= v < pow2(p.len()),
        t.len() == pow2(p.len()),
        0 <= k <= t.len(),
        forall|i: int| 0 <= i < t.len() ==> 0 <= #[trigger] t[i] < P as int,
        forall|i: int| 0 <= i < p.len() ==> p[i] == bit_int(v, (p.len() - 1 - i) as nat),
    ensures
        weighted_sum(t, p, k) == if v < k {
            t[v]
        } else {
            0int
        },
    decreases k,
{
    if k > 0 {
        lemma_weighted_sum_delta(t, p, v, k - 1);
        lemma_eq_poly_delta(p, v, k - 1);
        if k - 1 == v {
            assert(f_mul(1, t[v]) == t[v] % (P as int));
            vstd::arithmetic::div_mod::lemma_small_mod(t[v] as nat, P as nat);
            assert(f_add(0, t[v]) == t[v] % (P as int));
        } else {
            assert(f_mul(0, t[k - 1]) == 0);
            let w = weighted_sum(t, p, k - 1);
            assert(f_add(w, 0) == w % (P as int));
            vstd::arithmetic::div_mod::lemma_small_mod(w as nat, P as nat);
        }
    }
}

/// Evaluating at a Boolean point is direct indexing: the full interpolation
/// sum against the point whose coordinates are the bits of vertex `v` equals
/// the table entry at `v`.
pub proof fn lemma_boolean_evaluation(t: Seq<int>, p: Seq<int>, v: int)
    requires
        0 <= v < pow2(p.len()),
        t.len() == pow2(p.len()),
        forall|i: int| 0 <= i < t.len() ==> 0 <= #[trigger] t[i] < P as int,
        forall|i: int| 0 <= i < p.len() ==> p[i] == bit_int(v, (p.len() - 1 - i) as nat),
    ensures
        weighted_sum(t, p, pow2(p.len()) as int) == t[v],
{
    lemma_weighted_sum_delta(t, p, v, pow2(p.len()) as int);
}

/// A dense table of `2^n` field values indexed by hypercube vertex.
#[derive(Clone, Debug)]
pub struct EvaluationsList {
    evals: Vec<Fp>,
    num_variables: usize,
}

impl EvaluationsList {
    /// The sequence of residues stored in the table, in vertex order.
    pub closed spec fn view(&self) -> Seq<int> {
        Seq::new(self.evals@.len(), |i: int| self.evals@[i]@)
    }

    /// The declared number of variables.
    pub closed spec fn num_vars(&self) -> nat {
        self.num_variables as nat
    }

    /// The table length is the full hypercube of its dimension and every
    /// entry is a well-formed field element.
    pub closed spec fn wf(&self) -> bool {
        &&& self@.len() == pow2(self.num_vars())
        &&& self.num_variables < usize::BITS
        &&& forall|i: int| 0 <= i < self.evals@.len() ==> (#[trigger] self.evals@[i]).inv()
    }

    /// A table over the given values; the length must be a power of two.
    pub fn new(evals: Vec<Fp>) -> (r: EvaluationsList)
        requires
            exists|n: nat| n < usize::BITS && evals@.len() == pow2(n),
            forall|i: int| 0 <= i < evals@.len() ==> (#[trigger] evals@[i]).inv(),
        ensures
            r.wf(),
            r@ == Seq::new(evals@.len(), |i: int| evals@[i]@),
            pow2(r.num_vars()) == evals@.len(),
    {
        let ghost n0 = choose|n: nat| n < usize::BITS && evals@.len() == pow2(n);
        let len = evals.len();
        let mut num_variables: usize = 0;
        let mut m = len;
        proof {
            lemma2_to64();
            lemma_pow2_pos(n0);
        }
        while m > 1
            invariant
                exists|k: nat| k < usize::BITS && m == pow2(k),
                len == m * pow2(num_variables as nat),
                num_variables < usize::BITS,
                m >= 1,
                n0 < usize::BITS,
                len == pow2(n0),
            decreases m,
        {
            let ghost k = choose|k: nat| k < usize::BITS && m == pow2(k);
            proof {
                if k == 0 {
                    lemma2_to64();
                    assert(m == 1);
                }
                vstd::arithmetic::power2::lemma_pow2_unfold(k);
                vstd::arithmetic::power2::lemma_pow2_adds(num_variables as nat + 1, (k - 1) as nat);
                vstd::arithmetic::power2::lemma_pow2_unfold(num_variables as nat + 1);
                lemma_pow2_pos((k - 1) as nat);
                lemma_pow2_pos(num_variables as nat);
                assert(m / 2 == pow2((k - 1) as nat));
                assert(len == (m / 2) * pow2(num_variables as nat + 1)) by (nonlinear_arith)
                    requires
                        len == m * pow2(num_variables as nat),
                        m == 2 * pow2((k - 1) as nat),
                        m / 2 == pow2((k - 1) as nat),
                        pow2(num_variables as nat + 1) == 2 * pow2(num_variables as nat),
                ;
                assert(num_variables as nat + 1 < usize::BITS) by {
                    assert(pow2(num_variables as nat + 1) <= len) by (nonlinear_arith)
                        requires
                            len == (m / 2) * pow2(num_variables as nat + 1),
                            m / 2 >= 1,
                    ;
                    assert(len < pow2(usize::BITS as nat)) by {
                        vstd::arithmetic::power2::lemma_pow2_strictly_increases(
                            n0,
                            usize::BITS as nat,
                        );
                    }
                    if usize::BITS <= num_variables + 1 {
                        vstd::arithmetic::power2::lemma_pow2_strictly_increases(
                            usize::BITS as nat,
                            num_variables as nat + 2,
                        );
                    }
                }
            }
            m = m / 2;
            num_variables = num_variables + 1;
        }
        proof {
            let k = choose|k: nat| k < usize::BITS && m == pow2(k);
            if k != 0 {
                lemma_pow2_pos((k - 1) as nat);
                vstd::arithmetic::power2::lemma_pow2_unfold(k);
            }
            lemma2_to64();
            assert(m == 1);
        }
        let r = EvaluationsList { evals, num_variables };
        proof {
            assert(r@ =~= Seq::new(r.evals@.len(), |i: int| r.evals@[i]@));
        }
        r
    }

    /// The value of the multilinear polynomial at an arbitrary point: the
    /// Lagrange interpolation sum over the whole hypercube. A Boolean point
    /// short-circuits to direct indexing; any other point accumulates the
    /// sum with the amortized weight iterator.
    pub fn evaluate(&self, point: &MultilinearPoint) -> (r: Fp)
        requires
            self.wf(),
            point.wf(),
            point@.len() == self.num_vars(),
        ensures
            r.inv(),
            r@ == weighted_sum(self@, point@, pow2(self.num_vars()) as int),
    {
        proof {
            broadcast use crate::field::lemma_fp_bound;

            vstd::bits::lemma_usize_pow2_no_overflow(self.num_vars());
        }
        if let Some(bhp) = point.to_hypercube() {
            proof {
                lemma_vertex_of_bits(point@);
                lemma_boolean_evaluation(self@, point@, bhp.0 as int);
            }
            return self.evals[bhp.0];
        }

        let mut sum = Fp::zero();
        let mut lag_iterator = LagrangePolynomialIterator::new(point);
        let n_evals = self.evals.len();
        let mut k: usize = 0;
        while k < n_evals
            invariant
                self.wf(),
                point.wf(),
                point@.len() == self.num_vars(),
                n_evals == pow2(self.num_vars()),
                k <= n_evals,
                sum.inv(),
                sum@ == weighted_sum(self@, point@, k as int),
                lag_iterator.wf(),
                lag_iterator.target() == point@,
                lag_iterator.num_vars() == self.num_vars(),
                lag_iterator.visited() == k,
            decreases n_evals - k,
        {
            let pair = lag_iterator.next();
            let (b, lag) = pair.unwrap();
            proof {
                broadcast use crate::field::lemma_fp_bound;
            }
            sum = sum.add(lag.mul(self.evals[b.0]));
            k = k + 1;
        }
        sum
    }

    /// Read access to the backing values.
    pub fn evals(&self) -> (r: &Vec<Fp>)
        ensures
            Seq::new(r@.len(), |i: int| r@[i]@) == self@,
    {
        &self.evals
    }

    /// Mutable access to the backing values: the residues behind the
    /// returned reference are the table's, and whatever the caller leaves
    /// there becomes the table's contents.
    pub fn evals_mut(&mut self) -> (r: &mut Vec<Fp>)
        ensures
            crate::field::fp_views((*r)@) == old(self)@,
            final(self)@ == crate::field::fp_views((*final(r))@),
            final(self).num_vars() == old(self).num_vars(),
    {
        &mut self.evals
    }

    /// The number of stored values, `2^num_variables`.
    pub fn num_evals(&self) -> (r: usize)
        ensures
            r == self@.len(),
    {
        self.evals.len()
    }

    /// The number of variables of the stored polynomial.
    pub fn num_variables(&self) -> (r: usize)
        ensures
            r == self.num_vars(),
    {
        self.num_variables
    }
}

} // verus!
