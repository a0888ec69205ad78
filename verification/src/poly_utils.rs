//! Multilinear evaluation points and the equality-polynomial (Lagrange basis)
//! kernels over binary and ternary hypercubes.

pub mod evals;
pub mod fold;
pub mod helpers;
pub mod hypercube;
pub mod sequential_lag_poly;

use crate::field::{f_add, f_mul, f_pow, f_sub, Fp};
use crate::poly_utils::hypercube::{bit_int, trit_int, vertex_of, BinaryHypercubePoint};
use vstd::arithmetic::div_mod::lemma_div_denominator;
use vstd::arithmetic::power::pow;
use vstd::arithmetic::power2::{lemma_pow2_adds, lemma_pow2_unfold, pow2};
use vstd::prelude::*;

verus! {

/// An evaluation point for a multilinear polynomial: one field element per
/// variable, most-significant variable first.
#[derive(Clone, Debug, PartialEq, Eq)]
pub struct MultilinearPoint(pub Vec<Fp>);

impl MultilinearPoint {
    /// The sequence of residues this point stands for, most-significant first.
    pub open spec fn view(&self) -> Seq<int> {
        Seq::new(self.0@.len(), |i: int| self.0@[i]@)
    }

    /// Every coordinate is a well-formed field element.
    pub open spec fn wf(&self) -> bool {
        forall|i: int| 0 <= i < self.0@.len() ==> (#[trigger] self.0@[i]).inv()
    }

    /// The number of variables of the point.
    pub fn n_variables(&self) -> (r: usize)
        ensures
            r == self@.len(),
    {
        self.0.len()
    }
}

/// The multilinear factor a single coordinate contributes for one vertex bit:
/// the coordinate where the bit is set, its complement where it is clear.
pub open spec fn eq_factor(c: int, b: int) -> int {
    if b == 1 {
        c % (crate::field::P as int)
    } else {
        f_sub(1, c)
    }
}

/// The equality polynomial (multilinear Lagrange basis weight) of a point
/// against a hypercube vertex, most-significant coordinate outermost: the
/// product over all coordinates of [`eq_factor`] with the matching bit of `v`.
pub open spec fn eq_poly_spec(p: Seq<int>, v: int) -> int
    decreases p.len(),
{
    if p.len() == 0 {
        1
    } else {
        f_mul(eq_poly_spec(p.drop_first(), v), eq_factor(p[0], bit_int(v, (p.len() - 1) as nat)))
    }
}

/// The bilinear extension of equality of two coordinates:
/// `a * b + (1 - a) * (1 - b)`.
pub open spec fn eq_outside_factor(a: int, b: int) -> int {
    f_add(f_mul(a, b), f_mul(f_sub(1, a), f_sub(1, b)))
}

/// The equality kernel of two arbitrary points of equal dimension: the
/// product over all coordinates of [`eq_outside_factor`].
pub open spec fn eq_poly_outside_spec(a: Seq<int>, b: Seq<int>) -> int
    decreases a.len(),
{
    if a.len() == 0 {
        1
    } else {
        f_mul(eq_poly_outside_spec(a.drop_last(), b.drop_last()), eq_outside_factor(a.last(), b.last()))
    }
}

/// The degree-2 Lagrange basis factor through the ternary alphabet `{0,1,2}`
/// for digit `d`, evaluated at coordinate `c`; `1/2` enters as the constant
/// inverse of two.
pub open spec fn eq3_factor(c: int, d: int) -> int {
    let two_inv = ((crate::field::P + 1) / 2) as int;
    if d == 0 {
        f_mul(f_mul(f_sub(c, 1), f_sub(c, 2)), two_inv)
    } else if d == 1 {
        f_mul(f_mul(c, f_sub(c, 2)), (crate::field::P - 1) as int)
    } else {
        f_mul(f_mul(c, f_sub(c, 1)), two_inv)
    }
}

/// The ternary equality kernel of a point against a base-3 index, most
/// significant digit outermost: the product over all coordinates of
/// [`eq3_factor`] with the matching digit of `t`.
pub open spec fn eq_poly3_spec(p: Seq<int>, t: int) -> int
    decreases p.len(),
{
    if p.len() == 0 {
        1
    } else {
        f_mul(eq_poly3_spec(p.drop_first(), t), eq3_factor(p[0], trit_int(t, (p.len() - 1) as nat)))
    }
}

impl MultilinearPoint {
    /// The point with coordinate `i` equal to bit `num_variables - 1 - i` of
    /// the vertex, mapped to the field's zero and one.
    pub fn from_binary_hypercube_point(point: BinaryHypercubePoint, num_variables: usize) -> (r:
        MultilinearPoint)
        requires
            num_variables <= usize::BITS,
            point.0 < pow2(num_variables as nat),
        ensures
            r.wf(),
            r@.len() == num_variables,
            forall|i: int|
                0 <= i < num_variables ==> r@[i] == bit_int(
                    point.0 as int,
                    (num_variables - 1 - i) as nat,
                ),
    {
        let mut coords: Vec<Fp> = Vec::new();
        let mut i: usize = 0;
        while i < num_variables
            invariant
                i <= num_variables,
                num_variables <= usize::BITS,
                coords@.len() == i,
                forall|j: int| 0 <= j < i ==> (#[trigger] coords@[j]).inv(),
                forall|j: int|
                    0 <= j < i ==> coords@[j]@ == bit_int(
                        point.0 as int,
                        (num_variables - 1 - j) as nat,
                    ),
            decreases num_variables - i,
        {
            let shift: usize = num_variables - 1 - i;
            let b: usize = (point.0 >> shift) % 2;
            proof {
                lemma_shift_is_div(point.0, shift);
            }
            if b == 1 {
                coords.push(Fp::one());
            } else {
                coords.push(Fp::zero());
            }
            i = i + 1;
        }
        MultilinearPoint(coords)
    }

    /// The vertex whose bits are this point's coordinates, where every
    /// coordinate is exactly zero or one; no value otherwise.
    pub fn to_hypercube(&self) -> (r: Option<BinaryHypercubePoint>)
        requires
            self.wf(),
            pow2(self@.len()) <= usize::MAX + 1,
        ensures
            r is Some <==> (forall|i: int| 0 <= i < self@.len() ==> #[trigger] self@[i] == 0 || self@[i] == 1),
            r is Some ==> (r->0).0 as int == vertex_of(self@) && (r->0).0 < pow2(self@.len()),
    {
        let n = self.0.len();
        let mut counter: usize = 0;
        let mut i: usize = 0;
        proof {
            vstd::arithmetic::power2::lemma2_to64();
        }
        while i < n
            invariant
                self.wf(),
                i <= n,
                n == self@.len(),
                pow2(n as nat) <= usize::MAX + 1,
                forall|j: int| 0 <= j < i ==> #[trigger] self@[j] == 0 || self@[j] == 1,
                counter as int == vertex_of(self@.take(i as int)),
                counter < pow2(i as nat),
            decreases n - i,
        {
            proof {
                lemma_vertex_of_take_step(self@, i as int);
                lemma_pow2_unfold(i as nat + 1);
                if i as nat + 1 < n as nat {
                    vstd::arithmetic::power2::lemma_pow2_strictly_increases(i as nat + 1, n as nat);
                }
            }
            let coord = self.0[i];
            if coord.is_zero() {
                counter = counter * 2;
            } else if coord.is_one() {
                counter = counter * 2 + 1;
            } else {
                proof {
                    assert(self@[i as int] != 0 && self@[i as int] != 1);
                }
                return None;
            }
            i = i + 1;
        }
        proof {
            assert(self@.take(n as int) =~= self@);
        }
        Some(BinaryHypercubePoint(counter))
    }

    /// The point `(x^(2^(n-1)), ..., x^4, x^2, x)`: a univariate argument
    /// expanded by repeated squaring, highest power first.
    pub fn expand_from_univariate(point: Fp, num_variables: usize) -> (r: MultilinearPoint)
        requires
            point.inv(),
        ensures
            r.wf(),
            r@.len() == num_variables,
            forall|i: int|
                0 <= i < num_variables ==> r@[i] == f_pow(point@, pow2((num_variables - 1 - i) as nat)),
    {
        let mut res: Vec<Fp> = Vec::new();
        let mut cur = point;
        let mut k: usize = 0;
        proof {
            vstd::arithmetic::power2::lemma2_to64();
            vstd::arithmetic::power::lemma_pow1(point@);
            crate::field::lemma_fp_bound(point);
            vstd::arithmetic::div_mod::lemma_small_mod(point@ as nat, crate::field::P as nat);
            assert(f_pow(point@, pow2(0)) == point@);
        }
        while k < num_variables
            invariant
                point.inv(),
                cur.inv(),
                k <= num_variables,
                res@.len() == k,
                cur@ == f_pow(point@, pow2(k as nat)),
                forall|j: int| 0 <= j < k ==> (#[trigger] res@[j]).inv(),
                forall|j: int| 0 <= j < k ==> res@[j]@ == f_pow(point@, pow2(j as nat)),
            decreases num_variables - k,
        {
            res.push(cur);
            let ghost c0 = cur@;
            cur = cur.mul(cur);
            k = k + 1;
            proof {
                lemma_square_of_pow(point@, (k - 1) as nat);
            }
        }
        // Reverse so the higher power is first.
        let mut coords: Vec<Fp> = Vec::new();
        let mut i: usize = num_variables;
        while i > 0
            invariant
                num_variables <= res@.len(),
                res@.len() == num_variables,
                i <= num_variables,
                coords@.len() == num_variables - i,
                forall|j: int| 0 <= j < num_variables ==> (#[trigger] res@[j]).inv(),
                forall|j: int| 0 <= j < num_variables ==> res@[j]@ == f_pow(point@, pow2(j as nat)),
                forall|j: int| 0 <= j < num_variables - i ==> (#[trigger] coords@[j]).inv(),
                forall|j: int|
                    0 <= j < num_variables - i ==> coords@[j]@ == f_pow(
                        point@,
                        pow2((num_variables - 1 - j) as nat),
                    ),
            decreases i,
        {
            i = i - 1;
            coords.push(res[i]);
        }
        MultilinearPoint(coords)
    }
}

impl MultilinearPoint {
    /// A point of `num_variables` coordinates drawn independently from the
    /// thread-local generator.
    pub fn rand(rng: &mut rand::rngs::ThreadRng, num_variables: usize) -> (r: MultilinearPoint)
        ensures
            r.wf(),
            r@.len() == num_variables,
    {
        let mut coords: Vec<Fp> = Vec::new();
        let mut i: usize = 0;
        while i < num_variables
            invariant
                i <= num_variables,
                coords@.len() == i,
                forall|j: int| 0 <= j < i ==> (#[trigger] coords@[j]).inv(),
            decreases num_variables - i,
        {
            coords.push(Fp::from_u64(random_u64(rng)));
            i = i + 1;
        }
        MultilinearPoint(coords)
    }
}

#[verifier::external_type_specification]
#[verifier::external_body]
pub struct ExThreadRng(rand::rngs::ThreadRng);

/// Relies on rand's `RngCore::next_u64` on `ThreadRng` to draw one machine
/// word; nothing is promised of the value drawn.
#[verifier::external_body]
fn random_u64(rng: &mut rand::rngs::ThreadRng) -> u64 {
    rand::RngCore::next_u64(rng)
}

impl From<Fp> for MultilinearPoint {
    /// The one-variable point holding a single coordinate.
    fn from(value: Fp) -> (r: MultilinearPoint)
        ensures
            r@ =~= seq![value@],
            value.inv() ==> r.wf(),
    {
        MultilinearPoint(vec![value])
    }
}

impl vstd::std_specs::convert::FromSpecImpl<Fp> for MultilinearPoint {
    open spec fn obeys_from_spec() -> bool {
        false
    }

    open spec fn from_spec(t: Fp) -> MultilinearPoint {
        vstd::pervasive::arbitrary()
    }
}

/// The equality polynomial of a point against a hypercube vertex: 1 exactly
/// at the vertex whose bits match a Boolean point, and the multilinear
/// extension elsewhere.
pub fn eq_poly(coords: &MultilinearPoint, point: BinaryHypercubePoint) -> (r: Fp)
    requires
        coords.wf(),
        point.0 < pow2(coords@.len()),
    ensures
        r.inv(),
        r@ == eq_poly_spec(coords@, point.0 as int),
{
    broadcast use crate::field::lemma_fp_bound;

    let ghost v = point.0 as int;
    let n = coords.0.len();
    let mut acc = Fp::one();
    let mut cur: usize = point.0;
    let mut i: usize = 0;
    proof {
        vstd::arithmetic::power2::lemma2_to64();
        assert(coords@.skip(n as int) =~= Seq::<int>::empty());
    }
    while i < n
        invariant
            coords.wf(),
            n == coords@.len(),
            i <= n,
            acc.inv(),
            v == point.0 as int,
            cur as int == v / pow2(i as nat) as int,
            acc@ == eq_poly_spec(coords@.skip(n - i), v),
        decreases n - i,
    {
        let val = coords.0[n - 1 - i];
        proof {
            crate::field::lemma_fp_bound(val);
            vstd::arithmetic::div_mod::lemma_small_mod(val@ as nat, crate::field::P as nat);
        }
        let f = if cur % 2 == 1 {
            val
        } else {
            Fp::one().sub(val)
        };
        acc = acc.mul(f);
        proof {
            assert(coords@.skip(n - i - 1).drop_first() =~= coords@.skip(n - i));
            assert(f@ == eq_factor(coords@[n - 1 - i], bit_int(v, i as nat)));
            lemma_pow2_unfold(i as nat + 1);
            vstd::arithmetic::power2::lemma_pow2_pos(i as nat);
            lemma_div_denominator(v, pow2(i as nat) as int, 2);
        }
        cur = cur / 2;
        i = i + 1;
    }
    proof {
        assert(coords@.skip(0) =~= coords@);
    }
    acc
}

/// The bilinear equality kernel of two arbitrary points of equal dimension:
/// the product over coordinates of `a*b + (1-a)*(1-b)`.
pub fn eq_poly_outside(coords: &MultilinearPoint, point: &MultilinearPoint) -> (r: Fp)
    requires
        coords.wf(),
        point.wf(),
        coords@.len() == point@.len(),
    ensures
        r.inv(),
        r@ == eq_poly_outside_spec(coords@, point@),
{
    let n = coords.0.len();
    let mut acc = Fp::one();
    let mut i: usize = 0;
    proof {
        assert(coords@.take(0) =~= Seq::<int>::empty());
        assert(point@.take(0) =~= Seq::<int>::empty());
    }
    while i < n
        invariant
            coords.wf(),
            point.wf(),
            n == coords@.len(),
            coords@.len() == point@.len(),
            i <= n,
            acc.inv(),
            acc@ == eq_poly_outside_spec(coords@.take(i as int), point@.take(i as int)),
        decreases n - i,
    {
        let l = coords.0[i];
        let r = point.0[i];
        let term = l.mul(r).add(Fp::one().sub(l).mul(Fp::one().sub(r)));
        acc = acc.mul(term);
        proof {
            assert(coords@.take(i + 1).drop_last() =~= coords@.take(i as int));
            assert(point@.take(i + 1).drop_last() =~= point@.take(i as int));
        }
        i = i + 1;
    }
    proof {
        assert(coords@.take(n as int) =~= coords@);
        assert(point@.take(n as int) =~= point@);
    }
    acc
}

/// The ternary equality kernel: the product over coordinates of the unique
/// degree-2 Lagrange basis polynomial through `{0,1,2}` selected by the
/// matching base-3 digit of `point`.
pub fn eq_poly3(coords: &MultilinearPoint, point: usize) -> (r: Fp)
    requires
        coords.wf(),
        (point as int) < pow(3, coords@.len() as nat),
    ensures
        r.inv(),
        r@ == eq_poly3_spec(coords@, point as int),
{
    let ghost v = point as int;
    let two = Fp::one().add(Fp::one());
    let two_inv = Fp::two_inv();
    let neg_one = Fp::one().neg();
    let n = coords.0.len();
    let mut acc = Fp::one();
    let mut cur: usize = point;
    let mut i: usize = 0;
    proof {
        assert(pow(3, 0nat) == 1) by {
            reveal(pow);
        }
        assert(coords@.skip(n as int) =~= Seq::<int>::empty());
    }
    while i < n
        invariant
            coords.wf(),
            n == coords@.len(),
            i <= n,
            acc.inv(),
            two@ == 2,
            two.inv(),
            two_inv@ == ((crate::field::P + 1) / 2) as int,
            two_inv.inv(),
            neg_one@ == (crate::field::P - 1) as int,
            neg_one.inv(),
            v == point as int,
            cur as int == v / pow(3, i as nat),
            acc@ == eq_poly3_spec(coords@.skip(n - i), v),
        decreases n - i,
    {
        let val = coords.0[n - 1 - i];
        let b = cur % 3;
        let f = if b == 0 {
            val.sub(Fp::one()).mul(val.sub(two)).mul(two_inv)
        } else if b == 1 {
            val.mul(val.sub(two)).mul(neg_one)
        } else {
            val.mul(val.sub(Fp::one())).mul(two_inv)
        };
        acc = acc.mul(f);
        proof {
            assert(coords@.skip(n - i - 1).drop_first() =~= coords@.skip(n - i));
            assert(f@ == eq3_factor(coords@[n - 1 - i], trit_int(v, i as nat)));
            assert(pow(3, i as nat + 1) == 3 * pow(3, i as nat)) by {
                reveal(pow);
                vstd::arithmetic::power::lemma_pow_adds(3, 1, i as nat);
                vstd::arithmetic::power::lemma_pow1(3);
            }
            vstd::arithmetic::power::lemma_pow_positive(3, i as nat);
            lemma_div_denominator(v, pow(3, i as nat), 3);
        }
        cur = cur / 3;
        i = i + 1;
    }
    proof {
        assert(coords@.skip(0) =~= coords@);
    }
    acc
}

/// Round trip between a hypercube vertex and its Boolean point: a coordinate
/// sequence that reads out the bits of a vertex `v < 2^n`, most-significant
/// first, is a zero/one sequence whose Horner reading is `v` again.
pub proof fn lemma_hypercube_round_trip(s: Seq<int>, v: int, n: nat)
    requires
        0 <= v < pow2(n),
        s.len() == n,
        forall|i: int| 0 <= i < n ==> s[i] == bit_int(v, (n - 1 - i) as nat),
    ensures
        forall|i: int| 0 <= i < n ==> s[i] == 0 || s[i] == 1,
        vertex_of(s) == v,
    decreases n,
{
    vstd::arithmetic::power2::lemma_pow2_pos(0);
    if n == 0 {
        assert(pow2(0) == 1) by {
            vstd::arithmetic::power2::lemma2_to64();
        }
        assert(s =~= Seq::<int>::empty());
    } else {
        let s1 = s.drop_last();
        let v1 = v / 2;
        lemma_pow2_unfold(n);
        assert(forall|i: int|
            0 <= i < n - 1 ==> #[trigger] s1[i] == bit_int(v, (n - 1 - i) as nat));
        assert forall|i: int| 0 <= i < n - 1 implies #[trigger] s1[i] == bit_int(
            v1,
            (n - 2 - i) as nat,
        ) by {
            lemma_pow2_unfold((n - 1 - i) as nat);
            vstd::arithmetic::power2::lemma_pow2_pos((n - 2 - i) as nat);
            lemma_div_denominator(v, 2, pow2((n - 2 - i) as nat) as int);
        }
        lemma_hypercube_round_trip(s1, v1, (n - 1) as nat);
        assert(pow2(0) == 1) by {
            vstd::arithmetic::power2::lemma2_to64();
        }
        assert(s[n - 1] == bit_int(v, 0));
        assert(s.last() == v % 2);
        assert(vertex_of(s) == (v / 2) * 2 + v % 2);
        assert(v == 2 * (v / 2) + v % 2) by {
            vstd::arithmetic::div_mod::lemma_fundamental_div_mod(v, 2);
        }
    }
}

/// The equality polynomial is a canonical residue.
pub proof fn lemma_eq_poly_bound(p: Seq<int>, v: int)
    ensures
        0 <= eq_poly_spec(p, v) < crate::field::P as int,
{
    if p.len() == 0 {
    } else {
        assert(eq_poly_spec(p, v) == f_mul(
            eq_poly_spec(p.drop_first(), v),
            eq_factor(p[0], bit_int(v, (p.len() - 1) as nat)),
        ));
    }
}

/// The equality polynomial reads only the low `p.len()` bits of the vertex.
pub proof fn lemma_eq_poly_low_bits(p: Seq<int>, v1: int, v2: int)
    requires
        forall|k: nat| k < p.len() ==> #[trigger] bit_int(v1, k) == bit_int(v2, k),
    ensures
        eq_poly_spec(p, v1) == eq_poly_spec(p, v2),
    decreases p.len(),
{
    if p.len() > 0 {
        lemma_eq_poly_low_bits(p.drop_first(), v1, v2);
        assert(bit_int(v1, (p.len() - 1) as nat) == bit_int(v2, (p.len() - 1) as nat));
    }
}

/// The equality polynomial of a Boolean point is the indicator of its own
/// vertex: weight 1 at the matching vertex of the hypercube and 0 at every
/// other.
pub proof fn lemma_eq_poly_delta(p: Seq<int>, v: int, b: int)
    requires
        0 <= v < pow2(p.len()),
        0 <= b < pow2(p.len()),
        forall|i: int| 0 <= i < p.len() ==> p[i] == bit_int(v, (p.len() - 1 - i) as nat),
    ensures
        eq_poly_spec(p, b) == if b == v {
            1int
        } else {
            0int
        },
    decreases p.len(),
{
    let n = p.len() as int;
    vstd::arithmetic::power2::lemma2_to64();
    if p.len() == 0 {
        assert(v == 0 && b == 0);
    } else {
        let m = (n - 1) as nat;
        let pm = pow2(m) as int;
        vstd::arithmetic::power2::lemma_pow2_pos(m);
        lemma_pow2_unfold(n as nat);
        let hv = bit_int(v, m);
        let hb = bit_int(b, m);
        let v1 = v % pm;
        let b1 = b % pm;
        assert(hv == v / pm && hb == b / pm) by {
            vstd::arithmetic::div_mod::lemma_multiply_divide_lt(v, pm, 2);
            vstd::arithmetic::div_mod::lemma_multiply_divide_lt(b, pm, 2);
            vstd::arithmetic::div_mod::lemma_div_pos_is_pos(v, pm);
            vstd::arithmetic::div_mod::lemma_div_pos_is_pos(b, pm);
            vstd::arithmetic::div_mod::lemma_small_mod((v / pm) as nat, 2);
            vstd::arithmetic::div_mod::lemma_small_mod((b / pm) as nat, 2);
        }
        vstd::arithmetic::div_mod::lemma_fundamental_div_mod(v, pm);
        vstd::arithmetic::div_mod::lemma_fundamental_div_mod(b, pm);
        let tail = p.drop_first();
        crate::poly_utils::hypercube::lemma_bit_of_low_part(v, m);
        crate::poly_utils::hypercube::lemma_bit_of_low_part(b, m);
        assert forall|i: int| 0 <= i < tail.len() implies tail[i] == bit_int(
            v1,
            (tail.len() - 1 - i) as nat,
        ) by {
            assert(tail[i] == p[i + 1]);
            assert(p[i + 1] == bit_int(v, (n - 2 - i) as nat));
        }
        lemma_eq_poly_delta(tail, v1, b1);
        lemma_eq_poly_low_bits(tail, b, b1);
        lemma_eq_poly_bound(tail, b);
        assert(p[0] == hv);
        assert(eq_poly_spec(p, b) == f_mul(eq_poly_spec(tail, b), eq_factor(p[0], hb)));
        if hv == hb {
            assert(eq_factor(p[0], hb) == 1);
            assert(f_mul(eq_poly_spec(tail, b), 1) == eq_poly_spec(tail, b)) by {
                vstd::arithmetic::div_mod::lemma_small_mod(
                    eq_poly_spec(tail, b) as nat,
                    crate::field::P as nat,
                );
            }
            assert(b == v <==> b1 == v1);
        } else {
            assert(eq_factor(p[0], hb) == 0);
            assert(f_mul(eq_poly_spec(tail, b), 0) == 0);
            assert(b != v);
        }
    }
}

/// The ternary equality kernel is a canonical residue.
pub proof fn lemma_eq_poly3_bound(p: Seq<int>, t: int)
    ensures
        0 <= eq_poly3_spec(p, t) < crate::field::P as int,
{
    if p.len() == 0 {
    } else {
        assert(eq_poly3_spec(p, t) == f_mul(
            eq_poly3_spec(p.drop_first(), t),
            eq3_factor(p[0], trit_int(t, (p.len() - 1) as nat)),
        ));
    }
}

/// On the ternary alphabet the degree-2 basis factor is the indicator of its
/// own digit.
proof fn lemma_eq3_factor_delta(c: int, d: int)
    requires
        c == 0 || c == 1 || c == 2,
        d == 0 || d == 1 || d == 2,
    ensures
        eq3_factor(c, d) == if c == d {
            1int
        } else {
            0int
        },
{
    let p = crate::field::P as int;
    let two_inv = ((crate::field::P + 1) / 2) as int;
    assert(f_mul(2, two_inv) == 1);
    if d == 0 {
        if c == 0 {
            assert((2013265920int * 2013265919int) % 2013265921int == 2) by (nonlinear_arith);
            assert(f_mul(f_sub(0, 1), f_sub(0, 2)) == 2);
            assert(eq3_factor(0, 0) == 1);
        } else if c == 1 {
            assert(f_sub(1, 1) == 0);
            assert(f_mul(0, f_sub(1, 2)) == 0);
            assert(eq3_factor(1, 0) == 0);
        } else {
            assert(f_sub(2, 2) == 0);
            assert(f_mul(f_sub(2, 1), 0) == 0);
            assert(eq3_factor(2, 0) == 0);
        }
    } else if d == 1 {
        if c == 0 {
            assert(f_mul(0, f_sub(0, 2)) == 0);
            assert(eq3_factor(0, 1) == 0);
        } else if c == 1 {
            assert(f_sub(1, 2) == p - 1);
            assert(f_mul(1, p - 1) == p - 1);
            assert((2013265920int * 2013265920int) % 2013265921int == 1) by (nonlinear_arith);
            assert(f_mul(p - 1, p - 1) == 1);
            assert(eq3_factor(1, 1) == 1);
        } else {
            assert(f_sub(2, 2) == 0);
            assert(f_mul(2, 0) == 0);
            assert(eq3_factor(2, 1) == 0);
        }
    } else {
        if c == 0 {
            assert(f_mul(0, f_sub(0, 1)) == 0);
            assert(eq3_factor(0, 2) == 0);
        } else if c == 1 {
            assert(f_sub(1, 1) == 0);
            assert(f_mul(1, 0) == 0);
            assert(eq3_factor(1, 2) == 0);
        } else {
            assert(f_sub(2, 1) == 1);
            assert(f_mul(2, 1) == 2);
            assert(eq3_factor(2, 2) == 1);
        }
    }
}

/// Base-3 digits below position `m` are untouched by the part of the number
/// above `3^m`.
proof fn lemma_trit_of_low_part(v: int, m: nat)
    requires
        0 <= v,
    ensures
        forall|k: nat| k < m ==> #[trigger] trit_int(v, k) == trit_int(v % pow(3, m), k),
{
    assert forall|k: nat| k < m implies #[trigger] trit_int(v, k) == trit_int(
        v % pow(3, m),
        k,
    ) by {
        let p_m = pow(3, m);
        let p_k = pow(3, k);
        let p_d = pow(3, (m - k) as nat);
        vstd::arithmetic::power::lemma_pow_positive(3, m);
        vstd::arithmetic::power::lemma_pow_positive(3, k);
        vstd::arithmetic::power::lemma_pow_positive(3, (m - k) as nat);
        vstd::arithmetic::power::lemma_pow_adds(3, k, (m - k) as nat);
        let hb = v / p_m;
        let lo = v % p_m;
        vstd::arithmetic::div_mod::lemma_fundamental_div_mod(v, p_m);
        assert(p_m * hb == (p_d * hb) * p_k) by (nonlinear_arith)
            requires
                p_m == p_k * p_d,
        ;
        vstd::arithmetic::div_mod::lemma_hoist_over_denominator(lo, p_d * hb, p_k as nat);
        assert(v / p_k == p_d * hb + lo / p_k);
        assert(p_d == 3 * pow(3, (m - k - 1) as nat)) by {
            vstd::arithmetic::power::lemma_pow_adds(3, 1, (m - k - 1) as nat);
            vstd::arithmetic::power::lemma_pow1(3);
        }
        vstd::arithmetic::div_mod::lemma_mod_multiples_vanish(
            pow(3, (m - k - 1) as nat) * hb,
            lo / p_k,
            3,
        );
        assert(p_d * hb + lo / p_k == 3 * (pow(3, (m - k - 1) as nat) * hb) + lo / p_k)
            by (nonlinear_arith)
            requires
                p_d == 3 * pow(3, (m - k - 1) as nat),
        ;
    }
}

/// The ternary kernel reads only the low `p.len()` digits of the index.
proof fn lemma_eq_poly3_low_trits(p: Seq<int>, t1: int, t2: int)
    requires
        forall|k: nat| k < p.len() ==> #[trigger] trit_int(t1, k) == trit_int(t2, k),
    ensures
        eq_poly3_spec(p, t1) == eq_poly3_spec(p, t2),
    decreases p.len(),
{
    if p.len() > 0 {
        lemma_eq_poly3_low_trits(p.drop_first(), t1, t2);
        assert(trit_int(t1, (p.len() - 1) as nat) == trit_int(t2, (p.len() - 1) as nat));
    }
}

/// The ternary kernel of a point whose coordinates are the base-3 digits of
/// index `v` is the indicator of `v`: weight 1 at `v` and 0 at every other
/// index below `3^n`.
pub proof fn lemma_eq_poly3_delta(p: Seq<int>, v: int, t: int)
    requires
        0 <= v < pow(3, p.len()),
        0 <= t < pow(3, p.len()),
        forall|i: int| 0 <= i < p.len() ==> p[i] == trit_int(v, (p.len() - 1 - i) as nat),
    ensures
        eq_poly3_spec(p, t) == if t == v {
            1int
        } else {
            0int
        },
    decreases p.len(),
{
    let n = p.len() as int;
    if p.len() == 0 {
        assert(pow(3, 0nat) == 1) by {
            reveal(pow);
        }
        assert(v == 0 && t == 0);
    } else {
        let m = (n - 1) as nat;
        let pm = pow(3, m);
        vstd::arithmetic::power::lemma_pow_positive(3, m);
        assert(pow(3, m + 1) == 3 * pm) by {
            vstd::arithmetic::power::lemma_pow_adds(3, 1, m);
            vstd::arithmetic::power::lemma_pow1(3);
        }
        let hv = trit_int(v, m);
        let ht = trit_int(t, m);
        let v1 = v % pm;
        let t1 = t % pm;
        assert(hv == v / pm && ht == t / pm) by {
            vstd::arithmetic::div_mod::lemma_multiply_divide_lt(v, pm, 3);
            vstd::arithmetic::div_mod::lemma_multiply_divide_lt(t, pm, 3);
            vstd::arithmetic::div_mod::lemma_div_pos_is_pos(v, pm);
            vstd::arithmetic::div_mod::lemma_div_pos_is_pos(t, pm);
            vstd::arithmetic::div_mod::lemma_small_mod((v / pm) as nat, 3);
            vstd::arithmetic::div_mod::lemma_small_mod((t / pm) as nat, 3);
        }
        vstd::arithmetic::div_mod::lemma_fundamental_div_mod(v, pm);
        vstd::arithmetic::div_mod::lemma_fundamental_div_mod(t, pm);
        let tail = p.drop_first();
        lemma_trit_of_low_part(v, m);
        lemma_trit_of_low_part(t, m);
        assert forall|i: int| 0 <= i < tail.len() implies tail[i] == trit_int(
            v1,
            (tail.len() - 1 - i) as nat,
        ) by {
            assert(tail[i] == p[i + 1]);
            assert(p[i + 1] == trit_int(v, (n - 2 - i) as nat));
        }
        lemma_eq_poly3_delta(tail, v1, t1);
        lemma_eq_poly3_low_trits(tail, t, t1);
        lemma_eq_poly3_bound(tail, t);
        assert(p[0] == hv);
        assert(eq_poly3_spec(p, t) == f_mul(eq_poly3_spec(tail, t), eq3_factor(p[0], ht)));
        lemma_eq3_factor_delta(hv, ht);
        if hv == ht {
            assert(f_mul(eq_poly3_spec(tail, t), 1) == eq_poly3_spec(tail, t)) by {
                vstd::arithmetic::div_mod::lemma_small_mod(
                    eq_poly3_spec(tail, t) as nat,
                    crate::field::P as nat,
                );
            }
            assert(t == v <==> t1 == v1);
        } else {
            assert(f_mul(eq_poly3_spec(tail, t), 0) == 0);
            assert(t != v);
        }
    }
}

/// Squaring an element that is `x^(2^k)` yields `x^(2^(k+1))`, modulo `P`.
proof fn lemma_square_of_pow(x: int, k: nat)
    ensures
        f_mul(f_pow(x, pow2(k)), f_pow(x, pow2(k))) == f_pow(x, pow2(k + 1)),
{
    let p = crate::field::P as int;
    vstd::arithmetic::div_mod::lemma_mul_mod_noop_general(pow(x, pow2(k)), pow(x, pow2(k)), p);
    vstd::arithmetic::power::lemma_pow_adds(x, pow2(k), pow2(k));
    lemma_pow2_adds(k, 1);
    vstd::arithmetic::power2::lemma_pow2_unfold(1);
    assert(pow2(1) == 2) by {
        vstd::arithmetic::power2::lemma_pow2_unfold(1);
        vstd::arithmetic::power2::lemma_pow2(0nat);
        vstd::arithmetic::power2::lemma_pow2(1nat);
        vstd::arithmetic::power::lemma_pow1(2);
    }
    assert(pow2(k) + pow2(k) == pow2(k + 1)) by (nonlinear_arith)
        requires
            pow2(k + 1) == pow2(k) * pow2(1),
            pow2(1) == 2,
    ;
}

/// A right shift of a machine word is division by the matching power of two.
proof fn lemma_shift_is_div(v: usize, s: usize)
    requires
        s < usize::BITS,
    ensures
        v >> s == v as int / pow2(s as nat) as int,
{
    vstd::bits::lemma_usize_shr_is_div(v, s);
}

/// One step of the most-significant-first Horner reading of a vertex.
proof fn lemma_vertex_of_take_step(s: Seq<int>, i: int)
    requires
        0 <= i < s.len(),
    ensures
        vertex_of(s.take(i + 1)) == vertex_of(s.take(i)) * 2 + s[i],
{
    assert(s.take(i + 1).drop_last() =~= s.take(i));
    assert(s.take(i + 1).last() == s[i]);
}

} // verus!
