//! A concrete two-adic prime field: integers modulo `P = 15 * 2^27 + 1`.
//!
//! Every kernel of this crate works over this field. The modulus has a large
//! two-adic multiplicative subgroup (order `2^27`), which supplies the
//! power-of-two roots of unity that the NTT-backed components require.

use vstd::arithmetic::div_mod::{
    lemma_mod_bound, lemma_mul_mod_noop_general, lemma_sub_mod_noop,
};
use vstd::arithmetic::power::{
    lemma_pow1, lemma_pow_adds, lemma_pow_distributes, lemma_pow_mod_noop, pow,
};
use vstd::prelude::*;

verus! {

/// The field modulus: a prime of the form `15 * 2^27 + 1`.
pub const P: u64 = 2013265921;

/// Largest `l` such that the multiplicative group has an element of order `2^l`.
pub const TWO_ADICITY: u64 = 27;

/// A generator of the two-adic subgroup: an element of order exactly `2^27`.
pub const TWO_ADIC_GENERATOR: u64 = 440564289;

/// A field element: a canonical residue modulo [`P`].
#[derive(Clone, Copy, Debug, PartialEq, Eq)]
pub struct Fp {
    value: u64,
}

/// Field addition on residues, as a mathematical function.
pub open spec fn f_add(a: int, b: int) -> int {
    (a + b) % (P as int)
}

/// Field subtraction on residues, as a mathematical function.
pub open spec fn f_sub(a: int, b: int) -> int {
    (a - b) % (P as int)
}

/// Field multiplication on residues, as a mathematical function.
pub open spec fn f_mul(a: int, b: int) -> int {
    (a * b) % (P as int)
}

/// Field exponentiation on residues, as a mathematical function.
pub open spec fn f_pow(a: int, e: nat) -> int {
    pow(a, e) % (P as int)
}

impl Fp {
    /// The canonical residue this element stands for.
    pub closed spec fn view(&self) -> int {
        self.value as int
    }

    /// A well-formed element holds a canonical residue.
    pub closed spec fn inv(&self) -> bool {
        self.value < P
    }

    /// The additive identity.
    pub fn zero() -> (r: Fp)
        ensures
            r.inv(),
            r@ == 0,
    {
        Fp { value: 0 }
    }

    /// The multiplicative identity.
    pub fn one() -> (r: Fp)
        ensures
            r.inv(),
            r@ == 1,
    {
        Fp { value: 1 }
    }

    /// The canonical residue of an arbitrary machine integer.
    pub fn from_u64(v: u64) -> (r: Fp)
        ensures
            r.inv(),
            r@ == v as int % (P as int),
    {
        Fp { value: v % P }
    }

    /// The residue itself, as a machine integer.
    pub fn as_u64(&self) -> (r: u64)
        ensures
            r as int == self@,
    {
        self.value
    }

    /// Field addition.
    pub fn add(self, other: Fp) -> (r: Fp)
        requires
            self.inv(),
            other.inv(),
        ensures
            r.inv(),
            r@ == f_add(self@, other@),
    {
        Fp { value: (self.value + other.value) % P }
    }

    /// Field subtraction.
    pub fn sub(self, other: Fp) -> (r: Fp)
        requires
            self.inv(),
            other.inv(),
        ensures
            r.inv(),
            r@ == f_sub(self@, other@),
    {
        let r = (self.value + P - other.value) % P;
        proof {
            lemma_sub_mod_noop(self@ + P as int, other@ + P as int, P as int);
            lemma_sub_mod_noop(self@, other@, P as int);
            assert((self@ + P - other@) % (P as int) == (self@ - other@) % (P as int));
        }
        Fp { value: r }
    }

    /// Field negation.
    pub fn neg(self) -> (r: Fp)
        requires
            self.inv(),
        ensures
            r.inv(),
            r@ == f_sub(0, self@),
    {
        let r = (P - self.value) % P;
        proof {
            lemma_sub_mod_noop(P as int, self@, P as int);
            lemma_sub_mod_noop(0, self@, P as int);
            assert((P - self@) % (P as int) == (0 - self@) % (P as int));
        }
        Fp { value: r }
    }

    /// Field multiplication.
    pub fn mul(self, other: Fp) -> (r: Fp)
        requires
            self.inv(),
            other.inv(),
        ensures
            r.inv(),
            r@ == f_mul(self@, other@),
    {
        proof {
            assert(self.value * other.value <= (P - 1) * (P - 1)) by (nonlinear_arith)
                requires
                    self.value < P,
                    other.value < P,
            ;
        }
        Fp { value: (self.value * other.value) % P }
    }

    /// Field exponentiation by squaring.
    pub fn exp_u64(self, e: u64) -> (r: Fp)
        requires
            self.inv(),
        ensures
            r.inv(),
            r@ == f_pow(self@, e as nat),
    {
        let mut result = Fp::one();
        let mut base = self;
        let mut exp: u64 = e;
        proof {
            lemma_pow_mod_noop(self@, e as nat, P as int);
        }
        while exp > 0
            invariant
                result.inv(),
                base.inv(),
                f_mul(result@, f_pow(base@, exp as nat)) == f_pow(self@, e as nat),
            decreases exp,
        {
            let ghost r0 = result@;
            let ghost b0 = base@;
            let ghost e0 = exp as nat;
            if exp % 2 == 1 {
                result = result.mul(base);
            }
            base = base.mul(base);
            exp = exp / 2;
            proof {
                lemma_step_preserves(r0, b0, e0, self@, e as nat);
            }
        }
        proof {
            assert(pow(base@, 0) == 1) by {
                reveal(pow);
            }
            lemma_mod_bound(result@, P as int);
            assert(f_mul(result@, f_pow(base@, 0)) == result@ % (P as int)) by {
                lemma_mul_mod_noop_general(result@, pow(base@, 0) % (P as int), P as int);
            }
            assert(result@ % (P as int) == result@);
        }
        result
    }

    /// The multiplicative inverse, computed as `a^(P-2)`.
    ///
    /// At zero the result is zero; callers that need a true inverse must pass
    /// a nonzero element.
    pub fn inverse(self) -> (r: Fp)
        requires
            self.inv(),
        ensures
            r.inv(),
            r@ == f_pow(self@, (P - 2) as nat),
    {
        self.exp_u64(P - 2)
    }

    /// The inverse of two: the constant `(P + 1) / 2`.
    pub fn two_inv() -> (r: Fp)
        ensures
            r.inv(),
            r@ == ((P + 1) / 2) as int,
            f_mul(2, r@) == 1,
    {
        proof {
            assert(2 * 1006632961int == 2013265922);
            assert(f_mul(2, 1006632961int) == 1);
        }
        Fp { value: 1006632961 }
    }

    /// Whether this element is the additive identity.
    pub fn is_zero(&self) -> (r: bool)
        requires
            self.inv(),
        ensures
            r <==> self@ == 0,
    {
        self.value == 0
    }

    /// Whether this element is the multiplicative identity.
    pub fn is_one(&self) -> (r: bool)
        requires
            self.inv(),
        ensures
            r <==> self@ == 1,
    {
        self.value == 1
    }

    /// Whether two elements are the same residue.
    pub fn equals(&self, other: &Fp) -> (r: bool)
        requires
            self.inv(),
            other.inv(),
        ensures
            r <==> self@ == other@,
    {
        self.value == other.value
    }
}

/// The residues of a sequence of field elements.
pub open spec fn fp_views(s: Seq<Fp>) -> Seq<int> {
    Seq::new(s.len(), |i: int| s[i]@)
}

/// Every element of the sequence is a well-formed field element.
pub open spec fn fp_wf(s: Seq<Fp>) -> bool {
    forall|i: int| 0 <= i < s.len() ==> (#[trigger] s[i]).inv()
}

/// Multiplying a power of `g` by `g` steps the exponent, modulo `P`.
pub proof fn lemma_f_pow_step(g: int, e: nat)
    ensures
        f_mul(f_pow(g, e), g) == f_pow(g, e + 1),
{
    let p = P as int;
    lemma_pow1(g);
    lemma_pow_adds(g, e, 1);
    lemma_mul_mod_noop_general(pow(g, e), g, p);
}

/// Exponents of a common base add under multiplication, modulo `P`.
pub proof fn lemma_f_pow_add(g: int, a: nat, b: nat)
    ensures
        f_mul(f_pow(g, a), f_pow(g, b)) == f_pow(g, a + b),
{
    lemma_pow_adds(g, a, b);
    lemma_mul_mod_noop_general(pow(g, a), pow(g, b), P as int);
}

/// A power of a power is the power of the product of exponents, modulo `P`.
pub proof fn lemma_f_pow_mul(g: int, a: nat, b: nat)
    ensures
        f_pow(f_pow(g, a), b) == f_pow(g, a * b),
{
    lemma_pow_mod_noop(pow(g, a), b, P as int);
    vstd::arithmetic::power::lemma_pow_multiplies(g, a, b);
}

/// Products modulo `P` associate.
pub proof fn lemma_f_mul_assoc(a: int, b: int, c: int)
    ensures
        f_mul(f_mul(a, b), c) == f_mul(a, f_mul(b, c)),
{
    let p = P as int;
    lemma_mul_mod_noop_general(a * b, c, p);
    lemma_mul_mod_noop_general(a, b * c, p);
    assert((a * b) * c == a * (b * c)) by (nonlinear_arith);
}

/// A well-formed element's residue lies in `[0, P)`.
pub broadcast proof fn lemma_fp_bound(a: Fp)
    requires
        a.inv(),
    ensures
        0 <= #[trigger] a@ < P as int,
{
}

/// One square-and-multiply step keeps the running invariant of `exp_u64`:
/// multiplying in the base on an odd exponent and squaring preserves the
/// product `result * base^exp` modulo `P`.
proof fn lemma_step_preserves(r0: int, b0: int, e0: nat, a: int, e: nat)
    requires
        e0 > 0,
        f_mul(r0, f_pow(b0, e0)) == f_pow(a, e),
    ensures
        e0 % 2 == 1 ==> f_mul(f_mul(r0, b0), f_pow(f_mul(b0, b0), e0 / 2)) == f_pow(a, e),
        e0 % 2 == 0 ==> f_mul(r0, f_pow(f_mul(b0, b0), e0 / 2)) == f_pow(a, e),
{
    let p = P as int;
    let h = e0 / 2;
    assert(pow(f_mul(b0, b0), h) % p == pow(b0 * b0, h) % p) by {
        lemma_pow_mod_noop(b0 * b0, h, p);
    }
    assert(pow(b0 * b0, h) == pow(b0, h) * pow(b0, h)) by {
        lemma_pow_distributes(b0, b0, h);
    }
    assert(pow(b0, h) * pow(b0, h) == pow(b0, (h + h) as nat)) by {
        lemma_pow_adds(b0, h, h);
    }
    if e0 % 2 == 1 {
        assert(e0 == h + h + 1);
        assert(pow(b0, e0) == pow(b0, (h + h) as nat) * pow(b0, 1)) by {
            lemma_pow_adds(b0, (h + h) as nat, 1);
        }
        assert(pow(b0, 1) == b0) by {
            lemma_pow1(b0);
        }
        // result' * (b0*b0)^h == r0 * b0 * b0^(2h) == r0 * b0^e0  (mod P)
        assert(f_mul(f_mul(r0, b0), f_pow(f_mul(b0, b0), h)) == (r0 * b0 * pow(b0, (h + h) as nat))
            % p) by {
            lemma_mul_mod_noop_general(r0, b0, p);
            lemma_mul_mod_noop_general((r0 * b0) % p, pow(b0 * b0, h), p);
            lemma_mul_mod_noop_general(r0 * b0, pow(b0 * b0, h), p);
        }
        assert(r0 * b0 * pow(b0, (h + h) as nat) == r0 * pow(b0, e0)) by (nonlinear_arith)
            requires
                pow(b0, e0) == pow(b0, (h + h) as nat) * b0,
        ;
        assert((r0 * pow(b0, e0)) % p == f_mul(r0, f_pow(b0, e0))) by {
            lemma_mul_mod_noop_general(r0, pow(b0, e0), p);
        }
    } else {
        assert(e0 == h + h);
        assert(f_mul(r0, f_pow(f_mul(b0, b0), h)) == (r0 * pow(b0, e0)) % p) by {
            lemma_mul_mod_noop_general(r0, pow(b0 * b0, h), p);
            lemma_mul_mod_noop_general(r0, pow(b0, e0), p);
        }
        assert((r0 * pow(b0, e0)) % p == f_mul(r0, f_pow(b0, e0))) by {
            lemma_mul_mod_noop_general(r0, pow(b0, e0), p);
        }
    }
}

} // verus!
