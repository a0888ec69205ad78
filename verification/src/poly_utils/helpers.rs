//! Small polynomial helpers shared by the encoder's callers.

use crate::field::{f_add, f_mul, fp_views, fp_wf, Fp};
use vstd::prelude::*;

verus! {

/// A univariate polynomial with the given coefficients, lowest degree first,
/// evaluated at `x` by the Horner rule.
pub open spec fn horner_spec(c: Seq<int>, x: int) -> int
    decreases c.len(),
{
    if c.len() == 0 {
        0
    } else {
        f_add(f_mul(horner_spec(c.drop_first(), x), x), c[0])
    }
}

/// Evaluate a univariate polynomial, lowest coefficient first, at `x`.
pub fn eval_poly(poly: &[Fp], x: Fp) -> (r: Fp)
    requires
        fp_wf(poly@),
        x.inv(),
    ensures
        r.inv(),
        r@ == horner_spec(fp_views(poly@), x@),
{
    let ghost c = fp_views(poly@);
    let mut acc = Fp::zero();
    let mut j = poly.len();
    proof {
        assert(c.skip(j as int) =~= Seq::<int>::empty());
    }
    while j > 0
        invariant
            fp_wf(poly@),
            x.inv(),
            c == fp_views(poly@),
            j <= poly@.len(),
            acc.inv(),
            acc@ == horner_spec(c.skip(j as int), x@),
        decreases j,
    {
        j = j - 1;
        acc = acc.mul(x);
        acc = acc.add(poly[j]);
        proof {
            assert(c.skip(j as int).drop_first() =~= c.skip(j as int + 1));
        }
    }
    proof {
        assert(c.skip(0) =~= c);
    }
    acc
}

} // verus!
