//! An amortized generator of Lagrange basis weights over the Boolean
//! hypercube: vertices are visited in increasing order, and the partial
//! products of basis factors shared between consecutive vertices are kept on
//! a stack instead of being recomputed.

use crate::field::{f_mul, f_sub, Fp};
use crate::poly_utils::hypercube::{bit_int, BinaryHypercubePoint};
use crate::poly_utils::{eq_factor, eq_poly_spec, lemma_eq_poly_bound, MultilinearPoint};
use vstd::arithmetic::div_mod::lemma_div_denominator;
use vstd::arithmetic::power2::{lemma_pow2_pos, pow2};
use vstd::prelude::*;

verus! {

/// The running product of the first `j` Lagrange basis factors of vertex `v`
/// against point `q`: factor `i` pairs coordinate `i` with bit
/// `q.len() - 1 - i` of `v`, and factors enter the product first-coordinate
/// innermost, the order in which the stack accumulates them.
pub open spec fn lagrange_prefix(q: Seq<int>, v: int, j: int) -> int
    decreases j,
{
    if j <= 0 {
        1
    } else {
        f_mul(lagrange_prefix(q, v, j - 1), eq_factor(q[j - 1], bit_int(v, (q.len() - j) as nat)))
    }
}

/// A lazy traversal of the hypercube in increasing vertex order, yielding the
/// Lagrange weight of each vertex against a fixed target point.
pub struct LagrangePolynomialIterator {
    last_position: Option<usize>,
    point: Vec<Fp>,
    point_negated: Vec<Fp>,
    stack: Vec<Fp>,
    num_variables: usize,
}

impl LagrangePolynomialIterator {
    /// The target point, most-significant coordinate first (the backing
    /// storage is reversed so index 0 pairs with the least-significant bit).
    pub closed spec fn target(&self) -> Seq<int> {
        Seq::new(
            self.point@.len(),
            |i: int| self.point@[self.point@.len() - 1 - i]@,
        )
    }

    /// The dimension of the traversed hypercube.
    pub closed spec fn num_vars(&self) -> nat {
        self.num_variables as nat
    }

    /// The vertex most recently yielded, if any.
    pub closed spec fn position(&self) -> Option<int> {
        match self.last_position {
            Option::None => Option::None,
            Option::Some(p) => Option::Some(p as int),
        }
    }

    /// How many vertices have been yielded so far.
    pub open spec fn visited(&self) -> int {
        match self.position() {
            Option::None => 0,
            Option::Some(p) => p + 1,
        }
    }

    /// Structural well-formedness: the reversed point and complement arrays
    /// agree, and the stack holds exactly the partial Lagrange products of
    /// the current position.
    pub closed spec fn wf(&self) -> bool {
        let n = self.num_variables as int;
        &&& self.point@.len() == n
        &&& self.point_negated@.len() == n
        &&& self.num_variables < usize::BITS
        &&& forall|j: int| 0 <= j < n ==> (#[trigger] self.point@[j]).inv()
        &&& forall|j: int| 0 <= j < n ==> (#[trigger] self.point_negated@[j]).inv()
        &&& forall|j: int| 0 <= j < n ==> (#[trigger] self.point_negated@[j])@ == f_sub(1, self.point@[j]@)
        &&& self.stack@.len() == n + 1
        &&& forall|j: int| 0 <= j <= n ==> (#[trigger] self.stack@[j]).inv()
        &&& {
            let pos = self.visited() - 1;
            let cur = if self.position() is Some {
                self.position()->0
            } else {
                0
            };
            &&& 0 <= cur < pow2(self.num_variables as nat)
            &&& forall|j: int|
                0 <= j <= n ==> (#[trigger] self.stack@[j])@ == lagrange_prefix(
                    self.target(),
                    cur,
                    j,
                )
        }
    }

    /// A fresh traversal of the hypercube of `point`'s dimension: nothing has
    /// been yielded, and the stack holds the all-complements prefix products
    /// of vertex 0.
    pub fn new(point: &MultilinearPoint) -> (r: LagrangePolynomialIterator)
        requires
            point.wf(),
            point@.len() < usize::BITS,
        ensures
            r.wf(),
            r.target() == point@,
            r.num_vars() == point@.len(),
            r.position() is None,
    {
        let num_variables = point.0.len();
        let ghost q = point@;

        // Stack of running prefix products for vertex 0: every factor is a
        // complement, accumulated first coordinate innermost.
        let mut stack: Vec<Fp> = Vec::new();
        stack.push(Fp::one());
        let mut point_negated: Vec<Fp> = Vec::new();
        let mut running_product = Fp::one();
        let mut i: usize = 0;
        proof {
            lemma_pow2_pos(num_variables as nat);
        }
        while i < num_variables
            invariant
                point.wf(),
                num_variables == q.len(),
                q == point@,
                i <= num_variables,
                point_negated@.len() == i,
                stack@.len() == i + 1,
                running_product.inv(),
                running_product@ == lagrange_prefix(q, 0, i as int),
                forall|j: int| 0 <= j < i ==> (#[trigger] point_negated@[j]).inv(),
                forall|j: int|
                    0 <= j < i ==> (#[trigger] point_negated@[j])@ == f_sub(1, point.0@[j]@),
                forall|j: int| 0 <= j <= i ==> (#[trigger] stack@[j]).inv(),
                forall|j: int|
                    0 <= j <= i ==> (#[trigger] stack@[j])@ == lagrange_prefix(q, 0, j),
            decreases num_variables - i,
        {
            let neg = Fp::one().sub(point.0[i]);
            point_negated.push(neg);
            running_product = running_product.mul(neg);
            stack.push(running_product);
            proof {
                lemma_pow2_pos((q.len() - 1 - i) as nat);
                assert(bit_int(0, (q.len() - 1 - i) as nat) == 0);
                assert(eq_factor(q[i as int], 0) == f_sub(1, q[i as int]));
            }
            i = i + 1;
        }

        // Reverse the point and its complements so index 0 pairs with the
        // least-significant bit of the position.
        let mut point_rev: Vec<Fp> = Vec::new();
        let mut point_negated_rev: Vec<Fp> = Vec::new();
        let mut k: usize = num_variables;
        while k > 0
            invariant
                point.wf(),
                num_variables == q.len(),
                q == point@,
                k <= num_variables,
                point_negated@.len() == num_variables,
                forall|j: int| 0 <= j < num_variables ==> (#[trigger] point_negated@[j]).inv(),
                forall|j: int|
                    0 <= j < num_variables ==> (#[trigger] point_negated@[j])@ == f_sub(
                        1,
                        point.0@[j]@,
                    ),
                point_rev@.len() == num_variables - k,
                point_negated_rev@.len() == num_variables - k,
                forall|j: int|
                    0 <= j < num_variables - k ==> #[trigger] point_rev@[j] == point.0@[
                        num_variables - 1 - j],
                forall|j: int|
                    0 <= j < num_variables - k ==> #[trigger] point_negated_rev@[j]
                        == point_negated@[num_variables - 1 - j],
            decreases k,
        {
            k = k - 1;
            point_rev.push(point.0[k]);
            point_negated_rev.push(point_negated[k]);
        }

        let r = LagrangePolynomialIterator {
            last_position: Option::None,
            point: point_rev,
            point_negated: point_negated_rev,
            stack,
            num_variables,
        };
        proof {
            assert(r.target() =~= q);
            lemma_pow2_pos(num_variables as nat);
        }
        r
    }
}

/// Products modulo `P` may be reassociated: multiplying `a` by `b * c` is
/// multiplying `a * c` by `b`.
proof fn lemma_f_mul_shuffle(a: int, b: int, c: int)
    ensures
        f_mul(a, f_mul(b, c)) == f_mul(f_mul(a, c), b),
{
    let p = crate::field::P as int;
    vstd::arithmetic::div_mod::lemma_mul_mod_noop_general(a, b * c, p);
    vstd::arithmetic::div_mod::lemma_mul_mod_noop_general(a * c, b, p);
    assert(a * (b * c) == (a * c) * b) by (nonlinear_arith);
}

/// Every prefix product is a canonical residue.
proof fn lemma_prefix_bound(q: Seq<int>, v: int, j: int)
    ensures
        0 <= lagrange_prefix(q, v, j) < crate::field::P as int,
{
    if j <= 0 {
    } else {
        assert(lagrange_prefix(q, v, j) == f_mul(
            lagrange_prefix(q, v, j - 1),
            eq_factor(q[j - 1], bit_int(v, (q.len() - j) as nat)),
        ));
    }
}

/// The prefix products accumulate the same factors as the equality
/// polynomial, only associated the other way round: the first `k` factors
/// times the remaining kernel is the whole kernel.
proof fn lemma_prefix_split(q: Seq<int>, v: int, k: int)
    requires
        0 <= k <= q.len(),
    ensures
        f_mul(lagrange_prefix(q, v, k), eq_poly_spec(q.skip(k), v)) == eq_poly_spec(q, v),
    decreases k,
{
    if k == 0 {
        assert(q.skip(0) =~= q);
        lemma_eq_poly_bound(q, v);
        vstd::arithmetic::div_mod::lemma_small_mod(
            eq_poly_spec(q, v) as nat,
            crate::field::P as nat,
        );
    } else {
        lemma_prefix_split(q, v, k - 1);
        let tail = q.skip(k - 1);
        assert(tail.drop_first() =~= q.skip(k));
        assert(tail[0] == q[k - 1]);
        assert(tail.len() - 1 == q.len() - k);
        assert(eq_poly_spec(tail, v) == f_mul(
            eq_poly_spec(q.skip(k), v),
            eq_factor(q[k - 1], bit_int(v, (q.len() - k) as nat)),
        ));
        lemma_f_mul_shuffle(
            lagrange_prefix(q, v, k - 1),
            eq_poly_spec(q.skip(k), v),
            eq_factor(q[k - 1], bit_int(v, (q.len() - k) as nat)),
        );
    }
}

/// The full prefix product equals the equality polynomial itself.
proof fn lemma_prefix_full(q: Seq<int>, v: int)
    ensures
        lagrange_prefix(q, v, q.len() as int) == eq_poly_spec(q, v),
{
    let n = q.len() as int;
    lemma_prefix_split(q, v, n);
    assert(q.skip(n) =~= Seq::<int>::empty());
    assert(eq_poly_spec(q.skip(n), v) == 1);
    lemma_prefix_bound(q, v, n);
    vstd::arithmetic::div_mod::lemma_small_mod(
        lagrange_prefix(q, v, n) as nat,
        crate::field::P as nat,
    );
}

/// A prefix product only reads the high bits its factors touch: two vertices
/// that agree on bits `q.len() - j` and above share their first `j` factors.
proof fn lemma_prefix_stable(q: Seq<int>, v1: int, v2: int, j: int)
    requires
        0 <= j <= q.len(),
        forall|k: nat|
            q.len() - j <= k < q.len() ==> #[trigger] bit_int(v1, k) == bit_int(v2, k),
    ensures
        lagrange_prefix(q, v1, j) == lagrange_prefix(q, v2, j),
    decreases j,
{
    if j > 0 {
        lemma_prefix_stable(q, v1, v2, j - 1);
        assert(bit_int(v1, (q.len() - j) as nat) == bit_int(v2, (q.len() - j) as nat));
    }
}

/// Two numbers with the same quotient by `2^l` agree on every bit at or
/// above `l`.
proof fn lemma_high_bits_stable(v1: int, v2: int, l: nat)
    requires
        0 <= v1,
        0 <= v2,
        v1 / pow2(l) as int == v2 / pow2(l) as int,
    ensures
        forall|k: nat| k >= l ==> #[trigger] bit_int(v1, k) == bit_int(v2, k),
{
    assert forall|k: nat| k >= l implies #[trigger] bit_int(v1, k) == bit_int(v2, k) by {
        lemma_pow2_pos(l);
        lemma_pow2_pos((k - l) as nat);
        lemma_pow2_pos(k);
        vstd::arithmetic::power2::lemma_pow2_adds(l, (k - l) as nat);
        lemma_div_denominator(v1, pow2(l) as int, pow2((k - l) as nat) as int);
        lemma_div_denominator(v2, pow2(l) as int, pow2((k - l) as nat) as int);
    }
}

impl LagrangePolynomialIterator {
    /// The next vertex in increasing order together with its Lagrange weight
    /// against the target point; nothing once the whole hypercube has been
    /// visited. Between consecutive vertices only the stack levels whose bits
    /// changed are recomputed.
    pub fn next(&mut self) -> (r: Option<(BinaryHypercubePoint, Fp)>)
        requires
            old(self).wf(),
        ensures
            final(self).wf(),
            final(self).target() == old(self).target(),
            final(self).num_vars() == old(self).num_vars(),
            old(self).visited() < pow2(old(self).num_vars()) ==> {
                &&& r is Some
                &&& ({
                    let (b, w) = r->0;
                    &&& b.0 as int == old(self).visited()
                    &&& w.inv()
                    &&& w@ == eq_poly_spec(old(self).target(), old(self).visited())
                })
                &&& final(self).visited() == old(self).visited() + 1
            },
            old(self).visited() >= pow2(old(self).num_vars()) ==> r is None
                && final(self).visited() == old(self).visited(),
    {
        let ghost q = old(self).target();
        let n = self.num_variables;

        // a) The first pull yields vertex 0 with the all-complements product.
        if self.last_position.is_none() {
            self.last_position = Some(0);
            let w = self.stack[self.stack.len() - 1];
            proof {
                lemma_pow2_pos(n as nat);
                lemma_prefix_full(q, 0);
            }
            return Some((BinaryHypercubePoint(0), w));
        }

        // b) The traversal is over once the previous vertex was the top one.
        let last_position = self.last_position.unwrap();
        proof {
            vstd::bits::lemma_usize_pow2_no_overflow(n as nat);
            vstd::bits::lemma_usize_shl_is_mul(1usize, n);
        }
        if last_position + 1 >= 1usize << n {
            return None;
        }

        // c) Move to the next vertex: find the lowest stack level whose bit
        // changed, discard everything above it, and rebuild those levels.
        let next_position = last_position + 1;
        let x: u64 = last_position as u64;
        proof {
            assert(usize::BITS == 32 || usize::BITS == 64);
            vstd::arithmetic::power2::lemma2_to64();
            vstd::arithmetic::power2::lemma2_to64_rest();
            if (n as nat) < 63 {
                vstd::arithmetic::power2::lemma_pow2_strictly_increases(n as nat, 63);
            }
            assert(x + 1 < 0x8000000000000000u64);
        }
        let ghost y: u64 = (x + 1) as u64;
        let bit_diff: u64 = x ^ (x + 1);
        proof {
            assert(bit_diff & 1 == 1 && bit_diff < 0xffffffffffffffffu64) by (bit_vector)
                requires
                    bit_diff == x ^ y,
                    y == x + 1,
                    y < 0x8000000000000000u64,
            ;
        }
        let low_index_of_prefix: usize = (bit_diff + 1).trailing_zeros() as usize;

        let ghost pos = last_position as int;
        let ghost nxt = pos + 1;
        let ghost l = low_index_of_prefix as nat;
        proof {
            let z: u64 = (bit_diff + 1) as u64;
            assert(z & 1 == 0 && z != 0) by (bit_vector)
                requires
                    bit_diff & 1 == 1,
                    bit_diff < 0xffffffffffffffffu64,
                    z == bit_diff + 1,
            ;
            vstd::std_specs::bits::axiom_u64_trailing_zeros(z);
            let lw = vstd::std_specs::bits::u64_trailing_zeros(z) as u64;
            assert((z >> lw) & 1u64 == 1u64);
            let s: u64 = (64 - lw) as u64;
            assert(z << s == 0);
            let mm: u64 = n as u64;
            assert(1u64 << mm == pow2(n as nat)) by {
                vstd::bits::lemma_u64_pow2_no_overflow(n as nat);
                vstd::bits::lemma_u64_shl_is_mul(1u64, mm);
            }
            assert(y < 1u64 << mm);
            assert((y >> lw) == (x >> lw) && 1u64 <= lw && lw <= mm) by (bit_vector)
                requires
                    y == x + 1,
                    z == (x ^ y) + 1,
                    (z >> lw) & 1u64 == 1u64,
                    z << s == 0,
                    s == 64 - lw,
                    lw < 64u64,
                    z & 1 == 0,
                    x < 0x8000000000000000u64,
                    y < (1u64 << mm),
                    mm < 64u64,
            ;
            vstd::bits::lemma_u64_shr_is_div(x, lw);
            vstd::bits::lemma_u64_shr_is_div(y, lw);
            assert(pos / pow2(l) as int == nxt / pow2(l) as int);
            lemma_high_bits_stable(pos, nxt, l);
        }

        // Discard the stack levels whose bits changed.
        let keep = self.stack.len() - low_index_of_prefix;
        self.stack.truncate(keep);
        proof {
            assert forall|j: int| 0 <= j < keep implies lagrange_prefix(q, pos, j)
                == lagrange_prefix(q, nxt, j) by {
                lemma_prefix_stable(q, pos, nxt, j);
            }
        }

        // Rebuild the discarded levels with the factors of the new vertex.
        let mut bit_index = low_index_of_prefix;
        while bit_index > 0
            invariant
                self.num_variables == n,
                self.num_variables == old(self).num_variables,
                self.point == old(self).point,
                self.point_negated == old(self).point_negated,
                self.last_position == old(self).last_position,
                old(self).wf(),
                q == self.target(),
                self.point@.len() == n,
                self.point_negated@.len() == n,
                forall|j: int| 0 <= j < n ==> (#[trigger] self.point@[j]).inv(),
                forall|j: int| 0 <= j < n ==> (#[trigger] self.point_negated@[j]).inv(),
                forall|j: int|
                    0 <= j < n ==> (#[trigger] self.point_negated@[j])@ == f_sub(
                        1,
                        self.point@[j]@,
                    ),
                bit_index <= low_index_of_prefix,
                low_index_of_prefix <= n,
                n < usize::BITS,
                next_position as int == nxt,
                0 < nxt < pow2(n as nat),
                self.stack@.len() == n + 1 - bit_index,
                forall|j: int| 0 <= j < n + 1 - bit_index ==> (#[trigger] self.stack@[j]).inv(),
                forall|j: int|
                    0 <= j < n + 1 - bit_index ==> (#[trigger] self.stack@[j])@
                        == lagrange_prefix(q, nxt, j),
            decreases bit_index,
        {
            bit_index = bit_index - 1;
            let last_element = self.stack[self.stack.len() - 1];
            let next_bit: bool = (next_position >> bit_index) % 2 == 1;
            proof {
                vstd::bits::lemma_usize_shr_is_div(next_position, bit_index);
                assert(self.point@[bit_index as int]@ == q[n - 1 - bit_index]);
                crate::field::lemma_fp_bound(self.point@[bit_index as int]);
                vstd::arithmetic::div_mod::lemma_small_mod(
                    self.point@[bit_index as int]@ as nat,
                    crate::field::P as nat,
                );
            }
            let f = if next_bit {
                self.point[bit_index]
            } else {
                self.point_negated[bit_index]
            };
            let top = last_element.mul(f);
            self.stack.push(top);
            proof {
                let j = n + 1 - bit_index - 1;
                assert(f@ == eq_factor(q[j - 1], bit_int(nxt, bit_index as nat)));
                assert(lagrange_prefix(q, nxt, j) == f_mul(
                    lagrange_prefix(q, nxt, j - 1),
                    eq_factor(q[j - 1], bit_int(nxt, (q.len() - j) as nat)),
                ));
            }
        }

        self.last_position = Some(next_position);
        let w = self.stack[self.stack.len() - 1];
        proof {
            lemma_prefix_full(q, nxt);
        }
        Some((BinaryHypercubePoint(next_position), w))
    }
}

} // verus!
