//! The univariate polynomial a sumcheck round emits: a quadratic given by
//! its values at 0, 1 and 2.

use vstd::prelude::*;
use vstd::arithmetic::div_mod::{
    lemma_mod_multiples_vanish, lemma_mul_mod_noop_general, lemma_sub_mod_noop_right,
};

use crate::field::{
    fadd, fmul, fsub, lemma_fadd_fsub_cancel, lemma_fadd_noop, lemma_fadd_zero, lemma_fmul_assoc,
    lemma_fmul_basics, lemma_fmul_distributes_fadd, lemma_fmul_noop, lemma_freduce,
    lemma_fsub_noop, Fp, HALF, MODULUS,
};
use crate::poly_utils::{vals, MultilinearPoint};

verus! {

/// The leading coefficient of the quadratic through `(0,e0)`, `(1,e1)`,
/// `(2,e2)`: `(e2 - 2*e1 + e0) / 2` in the field.
pub open spec fn quad_c2(e0: int, e1: int, e2: int) -> int {
    fmul(HALF as int, fsub(fadd(e2, e0), fmul(2, e1)))
}

/// The linear coefficient of the same quadratic: `e1 - e0 - quad_c2`.
pub open spec fn quad_c1(e0: int, e1: int, e2: int) -> int {
    fsub(fsub(e1, e0), quad_c2(e0, e1, e2))
}

/// The quadratic through `(0,e0)`, `(1,e1)`, `(2,e2)`, evaluated at `x` by
/// Horner's rule.
pub open spec fn quad_eval(e0: int, e1: int, e2: int, x: int) -> int {
    fadd(e0, fmul(x, fadd(quad_c1(e0, e1, e2), fmul(x, quad_c2(e0, e1, e2)))))
}

/// A sumcheck round polynomial: one variable, quadratic, represented by its
/// evaluations at 0, 1 and 2.
pub struct SumcheckPolynomial {
    evaluations: Vec<Fp>,
    num_variables: usize,
}

impl View for SumcheckPolynomial {
    type V = Seq<int>;

    closed spec fn view(&self) -> Seq<int> {
        vals(self.evaluations@)
    }
}

impl SumcheckPolynomial {
    #[verifier::type_invariant]
    spec fn wf(self) -> bool {
        self.evaluations@.len() == 3 && self.num_variables == 1
    }

    /// Wraps the three evaluations of a one-variable round polynomial.
    pub fn new(evaluations: Vec<Fp>, num_variables: usize) -> (r: Self)
        requires
            evaluations@.len() == 3,
            num_variables == 1,
        ensures
            r@ == vals(evaluations@),
    {
        SumcheckPolynomial { evaluations, num_variables }
    }

    /// The sum of the polynomial's values over `{0,1}`.
    pub fn sum_over_hypercube(&self) -> (r: Fp)
        ensures
            r.val() == fadd(self@[0], self@[1]),
    {
        proof {
            use_type_invariant(self);
        }
        self.evaluations[0].add(self.evaluations[1])
    }

    /// Evaluates the quadratic at the (single) coordinate of `point`, by
    /// interpolation through its values at 0, 1 and 2.
    pub fn evaluate_at_point(&self, point: &MultilinearPoint) -> (r: Fp)
        requires
            point@.len() == 1,
        ensures
            r.val() == quad_eval(self@[0], self@[1], self@[2], point@[0]),
    {
        proof {
            use_type_invariant(self);
        }
        let e0 = self.evaluations[0];
        let e1 = self.evaluations[1];
        let e2 = self.evaluations[2];
        let two = Fp::from_u64(2);
        let half = Fp::from_u64(HALF);
        let x = point.0[0];
        let c2 = half.mul(e2.add(e0).sub(two.mul(e1)));
        let c1 = e1.sub(e0).sub(c2);
        proof {
            assert(point@[0] == point.0@[0].val());
        }
        e0.add(x.mul(c1.add(x.mul(c2))))
    }
}

/// Law: the quadratic interpolates its three stored values; `quad_eval`
/// returns `e0`, `e1` and `e2` at `x = 0`, `1` and `2`, for reduced values.
pub proof fn lemma_quad_eval_nodes(e0: int, e1: int, e2: int)
    requires
        0 <= e0 < MODULUS as int,
        0 <= e1 < MODULUS as int,
        0 <= e2 < MODULUS as int,
    ensures
        quad_eval(e0, e1, e2, 0) == e0,
        quad_eval(e0, e1, e2, 1) == e1,
        quad_eval(e0, e1, e2, 2) == e2,
{
    let m = MODULUS as int;
    let hv = HALF as int;
    let c2 = quad_c2(e0, e1, e2);
    let c1 = quad_c1(e0, e1, e2);
    let kk = e2 + e0 - 2 * e1;
    lemma_fmul_noop(hv, fsub(fadd(e2, e0), fmul(2, e1)));
    lemma_fsub_noop(fsub(e1, e0), c2);
    // x = 0: both products vanish and adding zero is the identity.
    lemma_fmul_basics(fadd(c1, fmul(0, c2)));
    lemma_fmul_basics(c2);
    lemma_fadd_zero(e0);
    // x = 1: c1 + c2 cancels back to e1 - e0.
    lemma_freduce(c2);
    lemma_fadd_noop(c1, c2);
    lemma_fmul_basics(fadd(c1, c2));
    lemma_freduce(fadd(c1, c2));
    lemma_fadd_fsub_cancel(c2, fsub(e1, e0));
    lemma_fsub_noop(e1, e0);
    lemma_freduce(fsub(e1, e0));
    assert(fadd(c1, c2) == fsub(e1, e0));
    lemma_fadd_fsub_cancel(e0, e1);
    lemma_freduce(e1);
    assert(quad_eval(e0, e1, e2, 1) == e1);
    // x = 2: write every term as a residue of an integer expression.
    // The inner difference e2 + e0 - 2*e1.
    lemma_fsub_noop(e2 + e0, fmul(2, e1));
    lemma_fsub_noop(e2 + e0, 2 * e1);
    assert(fsub(fadd(e2, e0), fmul(2, e1)) == kk % m);
    // c2 == (HALF * kk) % m.
    lemma_mul_mod_noop_general(hv, kk, m);
    assert(c2 == (hv * kk) % m);
    // 2 * c2 is congruent to kk, since 2 * HALF == m + 1.
    lemma_mul_mod_noop_general(2, hv * kk, m);
    assert(2 * (hv * kk) == m * kk + kk) by (nonlinear_arith)
        requires
            2 * hv == m + 1,
    ;
    lemma_mod_multiples_vanish(kk, kk, m);
    assert(fmul(2, c2) == kk % m);
    // 4 * c2 is congruent to 2 * kk.
    lemma_fmul_assoc(2, 2, c2);
    assert(fmul(2, fmul(2, c2)) == fmul(4, c2));
    lemma_mul_mod_noop_general(4, hv * kk, m);
    assert(4 * (hv * kk) == m * (2 * kk) + 2 * kk) by (nonlinear_arith)
        requires
            2 * hv == m + 1,
    ;
    lemma_mod_multiples_vanish(2 * kk, 2 * kk, m);
    assert(fmul(4, c2) == (2 * kk) % m);
    // 2 * c1 is congruent to 2*e1 - 2*e0 - kk.
    lemma_fsub_noop(e1 - e0, c2);
    assert(c1 == (e1 - e0 - c2) % m);
    lemma_mul_mod_noop_general(2, e1 - e0 - c2, m);
    assert(fmul(2, c1) == (2 * (e1 - e0 - c2)) % m);
    assert(2 * (e1 - e0 - c2) == 2 * e1 - 2 * e0 - 2 * c2);
    lemma_sub_mod_noop_right(2 * e1 - 2 * e0, 2 * c2, m);
    assert((2 * c2) % m == kk % m) by {
        lemma_mul_mod_noop_general(2, c2, m);
    }
    lemma_sub_mod_noop_right(2 * e1 - 2 * e0, kk, m);
    assert(fmul(2, c1) == (2 * e1 - 2 * e0 - kk) % m);
    // Assemble g(2) = e0 + 2*c1 + 4*c2.
    lemma_fmul_distributes_fadd(2, c1, fmul(2, c2));
    assert(fmul(2, fadd(c1, fmul(2, c2))) == fadd(fmul(2, c1), fmul(4, c2)));
    lemma_fadd_noop(2 * e1 - 2 * e0 - kk, fmul(4, c2));
    lemma_fadd_noop(2 * e1 - 2 * e0 - kk, 2 * kk);
    assert(fadd(fmul(2, c1), fmul(4, c2)) == (2 * e1 - 2 * e0 + kk) % m);
    assert(2 * e1 - 2 * e0 + kk == e2 - e0);
    lemma_fadd_noop(e0, e2 - e0);
    lemma_freduce(e2);
    assert(quad_eval(e0, e1, e2, 2) == e2);
}

} // verus!
