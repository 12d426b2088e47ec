//! The sumcheck prover state for a single polynomial: the evaluation table
//! of `p`, the accumulated weighted-equality table `w`, the number of
//! remaining variables and the claimed sum of `p * w` over the hypercube.

use vstd::prelude::*;
use vstd::arithmetic::power2::{
    lemma2_to64, lemma2_to64_rest, lemma_pow2_strictly_increases, lemma_pow2_unfold, pow2,
};

use vstd::arithmetic::div_mod::{
    lemma_add_mod_noop_right, lemma_mul_mod_noop, lemma_mul_mod_noop_right,
};

use crate::field::{
    fadd, fmul, fsub, lemma_cong_add, lemma_cong_mul, lemma_cong_neg, lemma_fadd4,
    lemma_fadd_assoc, lemma_fadd_noop, lemma_fadd_zero, lemma_fmul_assoc, lemma_fmul_basics,
    lemma_fmul_distributes_fsub, lemma_freduce, lemma_fsub_noop, Fp, MODULUS,
};
use crate::poly_utils::coeffs::CoefficientList;
use crate::poly_utils::{eq_weight, evals_of, pow2_u64, vals, MultilinearPoint};
use crate::sumcheck::polynomial::{quad_eval, SumcheckPolynomial};

verus! {

broadcast use crate::field::lemma_val_bound;

/// The coordinate sequences of a list of points.
pub open spec fn point_views(points: Seq<MultilinearPoint>) -> Seq<Seq<int>> {
    points.map_values(|p: MultilinearPoint| p.view())
}

/// The first `k` terms of `sum_j rands[j] * evs[j]`.
pub open spec fn weighted_sum_prefix(rands: Seq<int>, evs: Seq<int>, k: int) -> int
    decreases k,
{
    if k <= 0 {
        0
    } else {
        fadd(weighted_sum_prefix(rands, evs, k - 1), fmul(rands[k - 1], evs[k - 1]))
    }
}

/// `sum_j rands[j] * evs[j]` over all terms.
pub open spec fn weighted_sum(rands: Seq<int>, evs: Seq<int>) -> int {
    weighted_sum_prefix(rands, evs, rands.len() as int)
}

/// The first `k` terms of `sum_j rands[j] * eq_{points[j]}(i)`: what the
/// first `k` equality constraints contribute to table entry `i`.
pub open spec fn eq_contrib(points: Seq<Seq<int>>, rands: Seq<int>, i: int, k: int) -> int
    decreases k,
{
    if k <= 0 {
        0
    } else {
        fadd(eq_contrib(points, rands, i, k - 1), fmul(rands[k - 1], eq_weight(points[k - 1], i)))
    }
}

/// `sum_b p[2b] * w[2b]` over `b < k`: the constant coefficient of the round
/// polynomial.
pub open spec fn sc_a0(p: Seq<int>, w: Seq<int>, k: int) -> int
    decreases k,
{
    if k <= 0 {
        0
    } else {
        fadd(sc_a0(p, w, k - 1), fmul(p[2 * (k - 1)], w[2 * (k - 1)]))
    }
}

/// `sum_b (p[2b+1] - p[2b]) * (w[2b+1] - w[2b])` over `b < k`: the quadratic
/// coefficient of the round polynomial.
pub open spec fn sc_a2(p: Seq<int>, w: Seq<int>, k: int) -> int
    decreases k,
{
    if k <= 0 {
        0
    } else {
        fadd(
            sc_a2(p, w, k - 1),
            fmul(fsub(p[2 * (k - 1) + 1], p[2 * (k - 1)]), fsub(w[2 * (k - 1) + 1], w[2 * (k - 1)])),
        )
    }
}

/// The three values at 0, 1, 2 of the round polynomial for tables `p`, `w`
/// and claimed sum `s`: with `a0`, `a2` as above and `a1 = s - 2*a0 - a2`,
/// they are `a0`, `a0 + a1 + a2` and `a0 + 2*a1 + 4*a2`.
pub open spec fn round_poly_evals(p: Seq<int>, w: Seq<int>, s: int) -> Seq<int> {
    let h = p.len() as int / 2;
    let a0 = sc_a0(p, w, h);
    let a2 = sc_a2(p, w, h);
    let a1 = fsub(fsub(fsub(s, a0), a0), a2);
    seq![a0, fadd(fadd(a0, a1), a2), fadd(fadd(a0, fmul(2, a1)), fmul(4, a2))]
}

/// `sum_b p[2b+1] * w[2b+1]` over `b < k`: the sum of the products at the
/// odd positions, i.e. over the half-cube with the first variable at one.
pub open spec fn sc_odd(p: Seq<int>, w: Seq<int>, k: int) -> int
    decreases k,
{
    if k <= 0 {
        0
    } else {
        fadd(sc_odd(p, w, k - 1), fmul(p[2 * (k - 1) + 1], w[2 * (k - 1) + 1]))
    }
}

/// The inner product `sum_i p[i] * w[i]` of the first `k` entries of the
/// two tables: the true sum of `p * w` over the hypercube.
pub open spec fn table_dot(p: Seq<int>, w: Seq<int>, k: int) -> int
    decreases k,
{
    if k <= 0 {
        0
    } else {
        fadd(table_dot(p, w, k - 1), fmul(p[k - 1], w[k - 1]))
    }
}

/// The inner product splits into its even and odd positions.
pub proof fn lemma_dot_pairs(p: Seq<int>, w: Seq<int>, k: int)
    requires
        k >= 0,
    ensures
        table_dot(p, w, 2 * k) == fadd(sc_a0(p, w, k), sc_odd(p, w, k)),
    decreases k,
{
    if k == 0 {
        crate::field::lemma_freduce(0);
    } else {
        lemma_dot_pairs(p, w, k - 1);
        let x = fadd(sc_a0(p, w, k - 1), sc_odd(p, w, k - 1));
        let t0 = fmul(p[2 * (k - 1)], w[2 * (k - 1)]);
        let t1 = fmul(p[2 * (k - 1) + 1], w[2 * (k - 1) + 1]);
        assert(table_dot(p, w, 2 * k - 1) == fadd(table_dot(p, w, 2 * k - 2), t0));
        assert(table_dot(p, w, 2 * k) == fadd(table_dot(p, w, 2 * k - 1), t1));
        assert(table_dot(p, w, 2 * k) == fadd(fadd(x, t0), t1));
        lemma_fadd_assoc(x, t0, t1);
        lemma_fadd4(sc_a0(p, w, k - 1), sc_odd(p, w, k - 1), t0, t1);
    }
}

/// Law: on a truthful claim the round polynomial is honest. If the claimed
/// sum is the true inner product of the two tables, the emitted values at 0
/// and 1 are the true sums of `p * w` over the half-cubes with the first
/// variable at zero and at one.
pub proof fn lemma_round_poly_honest(p: Seq<int>, w: Seq<int>, h: int)
    requires
        p.len() == w.len(),
        p.len() == 2 * h,
        h >= 0,
    ensures
        round_poly_evals(p, w, table_dot(p, w, p.len() as int))[0] == sc_a0(p, w, h),
        round_poly_evals(p, w, table_dot(p, w, p.len() as int))[1] == sc_odd(p, w, h),
{
    let m = MODULUS as int;
    let s = table_dot(p, w, p.len() as int);
    let a0 = sc_a0(p, w, h);
    let odd = sc_odd(p, w, h);
    let a2 = sc_a2(p, w, h);
    let a1 = fsub(fsub(fsub(s, a0), a0), a2);
    lemma_dot_pairs(p, w, h);
    assert(s == fadd(a0, odd));
    // Flatten the three subtractions and the two additions into residues.
    lemma_fsub_noop(s - a0, a0);
    lemma_fsub_noop(s - a0 - a0, a2);
    assert(a1 == (s - a0 - a0 - a2) % m);
    lemma_fadd_noop(a0 + a2, s - a0 - a0 - a2);
    assert(fadd(fadd(a0, a1), a2) == (a0 + a1 + a2) % m) by {
        lemma_fadd_noop(a0 + a1, a2);
    }
    assert((a0 + a1 + a2) % m == (s - a0) % m);
    // The claim itself is a reduced sum of the two halves.
    lemma_fsub_noop(a0 + odd, a0);
    assert((s - a0) % m == ((a0 + odd) % m - a0) % m) by {
        lemma_fsub_noop(s, a0);
    }
    assert(((a0 + odd) % m - a0) % m == odd % m) by {
        lemma_fsub_noop(a0 + odd, a0);
    }
    assert(odd % m == odd) by {
        if h > 0 {
            lemma_fadd_noop(sc_odd(p, w, h - 1), fmul(p[2 * (h - 1) + 1], w[2 * (h - 1) + 1]));
        }
        lemma_freduce(odd);
    }
}

/// `sum_b (p[2b] + 2*(p[2b+1] - p[2b])) * (w[2b] + 2*(w[2b+1] - w[2b]))`
/// over `b < k`: the value at 2 of the true product polynomial of the round.
pub open spec fn sc_at2(p: Seq<int>, w: Seq<int>, k: int) -> int
    decreases k,
{
    if k <= 0 {
        0
    } else {
        fadd(
            sc_at2(p, w, k - 1),
            fmul(
                fadd(p[2 * (k - 1)], fmul(2, fsub(p[2 * (k - 1) + 1], p[2 * (k - 1)]))),
                fadd(w[2 * (k - 1)], fmul(2, fsub(w[2 * (k - 1) + 1], w[2 * (k - 1)]))),
            ),
        )
    }
}

/// One pair's value at 2, as the residue of an integer product.
proof fn lemma_pair_at2(p0: int, p1: int, w0: int, w1: int)
    ensures
        fmul(fadd(p0, fmul(2, fsub(p1, p0))), fadd(w0, fmul(2, fsub(w1, w0)))) == ((2 * p1 - p0)
            * (2 * w1 - w0)) % (MODULUS as int),
{
    let m = MODULUS as int;
    lemma_mul_mod_noop_right(2, p1 - p0, m);
    lemma_add_mod_noop_right(p0, 2 * (p1 - p0), m);
    assert(fadd(p0, fmul(2, fsub(p1, p0))) == (2 * p1 - p0) % m);
    lemma_mul_mod_noop_right(2, w1 - w0, m);
    lemma_add_mod_noop_right(w0, 2 * (w1 - w0), m);
    assert(fadd(w0, fmul(2, fsub(w1, w0))) == (2 * w1 - w0) % m);
    lemma_mul_mod_noop(2 * p1 - p0, 2 * w1 - w0, m);
}

/// The value-at-2 sum as a combination of the three basic sums.
#[verifier::rlimit(100)]
#[verifier::spinoff_prover]
proof fn lemma_sc_at2_combo(p: Seq<int>, w: Seq<int>, k: int)
    requires
        k >= 0,
    ensures
        sc_at2(p, w, k) == (2 * sc_odd(p, w, k) - sc_a0(p, w, k) + 2 * sc_a2(p, w, k)) % (
        MODULUS as int),
    decreases k,
{
    let m = MODULUS as int;
    if k == 0 {
        lemma_freduce(0);
    } else {
        lemma_sc_at2_combo(p, w, k - 1);
        let p0 = p[2 * (k - 1)];
        let p1 = p[2 * (k - 1) + 1];
        let w0 = w[2 * (k - 1)];
        let w1 = w[2 * (k - 1) + 1];
        let odd_prev = sc_odd(p, w, k - 1);
        let a0_prev = sc_a0(p, w, k - 1);
        let a2_prev = sc_a2(p, w, k - 1);
        let dk = (p1 - p0) * (w1 - w0);
        let ek = (2 * p1 - p0) * (2 * w1 - w0);
        let combo_prev = 2 * odd_prev - a0_prev + 2 * a2_prev;
        // Left side: fold in the new pair as an integer residue.
        lemma_pair_at2(p0, p1, w0, w1);
        lemma_add_mod_noop_right(sc_at2(p, w, k - 1), ek, m);
        lemma_cong_add(sc_at2(p, w, k - 1), combo_prev, ek);
        assert(sc_at2(p, w, k) == (combo_prev + ek) % m);
        // Right side: flatten the three updated sums.
        let odd_k = sc_odd(p, w, k);
        let a0_k = sc_a0(p, w, k);
        let a2_k = sc_a2(p, w, k);
        assert(odd_k == (odd_prev + p1 * w1) % m) by {
            lemma_mul_mod_noop(p1, w1, m);
            lemma_add_mod_noop_right(odd_prev, p1 * w1, m);
            lemma_freduce(p1 * w1 % m);
            lemma_add_mod_noop_right(odd_prev, p1 * w1 % m, m);
        }
        assert(a0_k == (a0_prev + p0 * w0) % m) by {
            lemma_mul_mod_noop(p0, w0, m);
            lemma_add_mod_noop_right(a0_prev, p0 * w0, m);
        }
        assert(a2_k == (a2_prev + dk) % m) by {
            lemma_mul_mod_noop(p1 - p0, w1 - w0, m);
            lemma_add_mod_noop_right(a2_prev, dk, m);
        }
        // Replace each summand of the target by its integer form.
        assert((2 * odd_k) % m == (2 * (odd_prev + p1 * w1)) % m) by {
            lemma_cong_mul(2, odd_prev + p1 * w1);
        }
        lemma_cong_add(2 * odd_k, 2 * (odd_prev + p1 * w1), -a0_k + 2 * a2_k);
        assert((-a0_k) % m == (-(a0_prev + p0 * w0)) % m) by {
            lemma_cong_neg(a0_prev + p0 * w0);
        }
        lemma_cong_add(-a0_k, -(a0_prev + p0 * w0), 2 * (odd_prev + p1 * w1) + 2 * a2_k);
        assert((2 * a2_k) % m == (2 * (a2_prev + dk)) % m) by {
            lemma_cong_mul(2, a2_prev + dk);
        }
        lemma_cong_add(
            2 * a2_k,
            2 * (a2_prev + dk),
            2 * (odd_prev + p1 * w1) - (a0_prev + p0 * w0),
        );
        assert((2 * odd_k - a0_k + 2 * a2_k) % m == (2 * (odd_prev + p1 * w1) - (a0_prev + p0
            * w0) + 2 * (a2_prev + dk)) % m);
        // The two integer forms agree.
        assert(2 * (odd_prev + p1 * w1) - (a0_prev + p0 * w0) + 2 * (a2_prev + dk) == combo_prev
            + ek) by (nonlinear_arith)
            requires
                dk == (p1 - p0) * (w1 - w0),
                ek == (2 * p1 - p0) * (2 * w1 - w0),
                combo_prev == 2 * odd_prev - a0_prev + 2 * a2_prev,
        ;
    }
}

/// The emitted value at 2, flattened to the residue of an integer form.
#[verifier::rlimit(100)]
#[verifier::spinoff_prover]
proof fn lemma_g2_residue(s: int, a0: int, a2: int)
    ensures
        fadd(fadd(a0, fmul(2, fsub(fsub(fsub(s, a0), a0), a2))), fmul(4, a2)) == (2 * s - 3 * a0
            + 2 * a2) % (MODULUS as int),
{
    let m = MODULUS as int;
    let a1 = fsub(fsub(fsub(s, a0), a0), a2);
    lemma_fsub_noop(s - a0, a0);
    lemma_fsub_noop(s - a0 - a0, a2);
    assert(a1 == (s - a0 - a0 - a2) % m);
    lemma_cong_mul(2, s - a0 - a0 - a2);
    assert(fmul(2, a1) == (2 * (s - a0 - a0 - a2)) % m);
    lemma_add_mod_noop_right(a0, 2 * (s - a0 - a0 - a2), m);
    assert(fadd(a0, fmul(2, a1)) == (a0 + 2 * (s - a0 - a0 - a2)) % m);
    lemma_fadd_noop(a0 + 2 * (s - a0 - a0 - a2), 4 * a2);
    assert(a0 + 2 * (s - a0 - a0 - a2) + 4 * a2 == 2 * s - 3 * a0 + 2 * a2);
}

/// Substituting a truthful claim into the flattened value at 2.
proof fn lemma_g2_truthful(a0: int, odd: int, a2: int)
    ensures
        (2 * ((a0 + odd) % (MODULUS as int)) - 3 * a0 + 2 * a2) % (MODULUS as int) == (2 * odd
            - a0 + 2 * a2) % (MODULUS as int),
{
    let m = MODULUS as int;
    lemma_cong_mul(2, a0 + odd);
    lemma_cong_add(2 * ((a0 + odd) % m), 2 * (a0 + odd), -(3 * a0) + 2 * a2);
    assert(2 * (a0 + odd) - 3 * a0 + 2 * a2 == 2 * odd - a0 + 2 * a2);
}

/// Law: on a truthful claim the round polynomial is also honest at 2: the
/// emitted third value is the sum over the half-cube of the product of the
/// two tables' linear interpolations evaluated at 2.
pub proof fn lemma_round_poly_honest_at2(p: Seq<int>, w: Seq<int>, h: int)
    requires
        p.len() == w.len(),
        p.len() == 2 * h,
        h >= 0,
    ensures
        round_poly_evals(p, w, table_dot(p, w, p.len() as int))[2] == sc_at2(p, w, h),
{
    let m = MODULUS as int;
    let s = table_dot(p, w, p.len() as int);
    let a0 = sc_a0(p, w, h);
    let odd = sc_odd(p, w, h);
    let a2 = sc_a2(p, w, h);
    let a1 = fsub(fsub(fsub(s, a0), a0), a2);
    assert(round_poly_evals(p, w, s)[2] == fadd(fadd(a0, fmul(2, a1)), fmul(4, a2)));
    lemma_dot_pairs(p, w, h);
    lemma_g2_residue(s, a0, a2);
    lemma_g2_truthful(a0, odd, a2);
    lemma_sc_at2_combo(p, w, h);
}

/// The sumcheck prover state for the claim
/// `sum_x p(x) * w(x) = claimed_sum` over the remaining hypercube.
pub struct SumcheckSingle {
    evaluation_of_p: Vec<Fp>,
    evaluation_of_equality: Vec<Fp>,
    num_variables: usize,
    sum: Fp,
}

impl SumcheckSingle {
    /// The evaluation table of `p` on the remaining hypercube.
    pub closed spec fn evals_p(self) -> Seq<int> {
        vals(self.evaluation_of_p@)
    }

    /// The accumulated weighted-equality table `w`.
    pub closed spec fn evals_w(self) -> Seq<int> {
        vals(self.evaluation_of_equality@)
    }

    /// The current claimed sum.
    pub closed spec fn claimed_sum(self) -> int {
        self.sum.val()
    }

    /// The number of remaining variables.
    pub closed spec fn num_vars(self) -> nat {
        self.num_variables as nat
    }

    /// Both tables cover the remaining hypercube.
    pub open spec fn wf(self) -> bool {
        self.evals_p().len() == pow2(self.num_vars()) && self.evals_w().len() == pow2(
            self.num_vars(),
        ) && self.num_vars() < 64
    }

    /// Adds `scalar * eq_{eval}(i)` to `out[i]` for every hypercube index
    /// `i`; the table length must be `2^|eval|`.
    pub fn eval_eq(eval: &Vec<Fp>, out: &mut Vec<Fp>, scalar: Fp)
        requires
            old(out)@.len() == pow2(eval@.len()),
        ensures
            final(out)@.len() == old(out)@.len(),
            forall|i: int|
                0 <= i < final(out)@.len() ==> #[trigger] final(out)@[i].val() == fadd(
                    old(out)@[i].val(),
                    fmul(scalar.val(), eq_weight(vals(eval@), i)),
                ),
    {
        let olen = out.len();
        proof {
            // The table fits in memory, so there are fewer than 64 variables.
            lemma2_to64();
            lemma2_to64_rest();
            if eval@.len() >= 64 {
                if eval@.len() > 64 {
                    lemma_pow2_strictly_increases(64, eval@.len());
                }
                assert(olen as nat >= pow2(64));
            }
        }
        eval_eq_inner(eval, 0, out, 0, scalar);
        proof {
            assert(vals(eval@).subrange(0, eval@.len() as int) =~= vals(eval@));
        }
    }

    /// Builds the prover state for polynomial `coeffs` and the weighted
    /// equality constraints `(points[j], combination_randomness[j])` with
    /// claimed values `evaluations[j]`: the `p`-table holds the hypercube
    /// evaluations of `coeffs`, the weight table holds
    /// `sum_j rands[j] * eq_{z_j}`, and the claimed sum is
    /// `sum_j rands[j] * evaluations[j]`.
    pub fn new(
        coeffs: CoefficientList,
        points: &Vec<MultilinearPoint>,
        combination_randomness: &Vec<Fp>,
        evaluations: &Vec<Fp>,
    ) -> (r: Self)
        requires
            points@.len() == combination_randomness@.len(),
            points@.len() == evaluations@.len(),
            forall|j: int|
                0 <= j < points@.len() ==> (#[trigger] points@[j])@.len() == coeffs.num_vars(),
        ensures
            r.wf(),
            r.num_vars() == coeffs.num_vars(),
            r.evals_p() == evals_of(coeffs@),
            forall|i: int|
                0 <= i < r.evals_w().len() ==> #[trigger] r.evals_w()[i] == eq_contrib(
                    point_views(points@),
                    vals(combination_randomness@),
                    i,
                    points@.len() as int,
                ),
            r.claimed_sum() == weighted_sum(vals(combination_randomness@), vals(evaluations@)),
    {
        let num_variables = coeffs.num_variables();
        let evaluation_of_p = coeffs.to_evaluations_vec();
        let len = evaluation_of_p.len();
        let mut zeros: Vec<Fp> = Vec::new();
        let mut i: usize = 0;
        while i < len
            invariant
                i <= len,
                zeros@.len() == i,
                forall|t: int| 0 <= t < i ==> #[trigger] zeros@[t].val() == 0,
            decreases len - i,
        {
            zeros.push(Fp::zero());
            i = i + 1;
        }
        let mut prover = SumcheckSingle {
            evaluation_of_p,
            evaluation_of_equality: zeros,
            num_variables,
            sum: Fp::zero(),
        };
        proof {
            assert(prover.wf());
        }
        prover.add_new_equality(points, combination_randomness, evaluations);
        proof {
            let pviews = point_views(points@);
            let rands = vals(combination_randomness@);
            let k = points@.len() as int;
            assert forall|t: int| 0 <= t < prover.evals_w().len() implies #[trigger] prover
                .evals_w()[t] == eq_contrib(pviews, rands, t, k) by {
                if k > 0 {
                    lemma_fadd_noop(
                        eq_contrib(pviews, rands, t, k - 1),
                        fmul(rands[k - 1], eq_weight(pviews[k - 1], t)),
                    );
                }
                lemma_fadd_zero(eq_contrib(pviews, rands, t, k));
            }
            let ws = weighted_sum(rands, vals(evaluations@));
            if k > 0 {
                lemma_fadd_noop(
                    weighted_sum_prefix(rands, vals(evaluations@), k - 1),
                    fmul(rands[k - 1], vals(evaluations@)[k - 1]),
                );
            }
            lemma_fadd_zero(ws);
        }
        prover
    }

    /// Adds the equality constraints `(points[j], combination_randomness[j])`
    /// to the weight table, and `combination_randomness[j] * evaluations[j]`
    /// to the claimed sum; the `p`-table and the variable count are
    /// unchanged.
    pub fn add_new_equality(
        &mut self,
        points: &Vec<MultilinearPoint>,
        combination_randomness: &Vec<Fp>,
        evaluations: &Vec<Fp>,
    )
        requires
            old(self).wf(),
            combination_randomness@.len() == points@.len(),
            combination_randomness@.len() == evaluations@.len(),
            forall|j: int|
                0 <= j < points@.len() ==> (#[trigger] points@[j])@.len() == old(self).num_vars(),
        ensures
            final(self).wf(),
            final(self).num_vars() == old(self).num_vars(),
            final(self).evals_p() == old(self).evals_p(),
            forall|i: int|
                0 <= i < final(self).evals_w().len() ==> #[trigger] final(self).evals_w()[i]
                    == fadd(
                    old(self).evals_w()[i],
                    eq_contrib(
                        point_views(points@),
                        vals(combination_randomness@),
                        i,
                        points@.len() as int,
                    ),
                ),
            final(self).claimed_sum() == fadd(
                old(self).claimed_sum(),
                weighted_sum(vals(combination_randomness@), vals(evaluations@)),
            ),
    {
        let n_points = points.len();
        let ghost pviews = point_views(points@);
        let ghost rands = vals(combination_randomness@);
        let ghost w0 = old(self).evals_w();
        let mut j: usize = 0;
        while j < n_points
            invariant
                j <= n_points,
                n_points == points@.len(),
                combination_randomness@.len() == points@.len(),
                self.evaluation_of_p == old(self).evaluation_of_p,
                self.num_variables == old(self).num_variables,
                self.sum == old(self).sum,
                old(self).wf(),
                pviews == point_views(points@),
                rands == vals(combination_randomness@),
                w0 == old(self).evals_w(),
                self.evals_w().len() == w0.len(),
                forall|jj: int|
                    0 <= jj < points@.len() ==> (#[trigger] points@[jj])@.len() == old(
                        self,
                    ).num_vars(),
                forall|t: int|
                    0 <= t < w0.len() ==> #[trigger] self.evals_w()[t] == fadd(
                        w0[t],
                        eq_contrib(pviews, rands, t, j as int),
                    ),
            decreases n_points - j,
        {
            let ghost before = self.evals_w();
            Self::eval_eq(
                &points[j].0,
                &mut self.evaluation_of_equality,
                combination_randomness[j],
            );
            proof {
                assert(pviews[j as int] == vals(points@[j as int].0@));
                assert forall|t: int| 0 <= t < w0.len() implies #[trigger] self.evals_w()[t]
                    == fadd(w0[t], eq_contrib(pviews, rands, t, j as int + 1)) by {
                    assert(self.evals_w()[t] == fadd(
                        before[t],
                        fmul(rands[j as int], eq_weight(pviews[j as int], t)),
                    ));
                    lemma_fadd_assoc(
                        w0[t],
                        eq_contrib(pviews, rands, t, j as int),
                        fmul(rands[j as int], eq_weight(pviews[j as int], t)),
                    );
                }
            }
            j = j + 1;
        }
        let ghost s0 = old(self).claimed_sum();
        let ghost evs = vals(evaluations@);
        let ghost eq_table = self.evaluation_of_equality;
        proof {
            lemma_fadd_zero(s0);
        }
        let mut t: usize = 0;
        while t < n_points
            invariant
                t <= n_points,
                n_points == points@.len(),
                combination_randomness@.len() == points@.len(),
                combination_randomness@.len() == evaluations@.len(),
                rands == vals(combination_randomness@),
                evs == vals(evaluations@),
                self.evaluation_of_p == old(self).evaluation_of_p,
                self.evaluation_of_equality == eq_table,
                self.evaluation_of_equality@.len() == old(self).evals_w().len(),
                self.num_variables == old(self).num_variables,
                old(self).wf(),
                forall|i: int|
                    0 <= i < old(self).evals_w().len() ==> #[trigger] vals(eq_table@)[i] == fadd(
                        old(self).evals_w()[i],
                        eq_contrib(pviews, rands, i, points@.len() as int),
                    ),
                self.sum.val() == fadd(s0, weighted_sum_prefix(rands, evs, t as int)),
            decreases n_points - t,
        {
            proof {
                lemma_fadd_assoc(
                    s0,
                    weighted_sum_prefix(rands, evs, t as int),
                    fmul(rands[t as int], evs[t as int]),
                );
            }
            self.sum = self.sum.add(combination_randomness[t].mul(evaluations[t]));
            t = t + 1;
        }
    }

    /// Computes the round polynomial `g(X) = sum_b p(X, b) * w(X, b)` for
    /// the first remaining variable, as its values at 0, 1 and 2. By
    /// construction `g(0) + g(1)` equals the claimed sum.
    pub fn compute_sumcheck_polynomial(&self) -> (r: SumcheckPolynomial)
        requires
            self.wf(),
            self.num_vars() >= 1,
        ensures
            r@ == round_poly_evals(self.evals_p(), self.evals_w(), self.claimed_sum()),
            fadd(r@[0], r@[1]) == self.claimed_sum(),
    {
        proof {
            lemma_pow2_unfold(self.num_vars());
        }
        let plen = self.evaluation_of_p.len();
        let prefix_len = plen / 2;
        let mut coeff_0 = Fp::zero();
        let mut coeff_2 = Fp::zero();
        let mut b: usize = 0;
        while b < prefix_len
            invariant
                b <= prefix_len,
                self.wf(),
                plen == self.evals_p().len(),
                prefix_len == plen / 2,
                2 * prefix_len == plen,
                self.evals_w().len() == self.evals_p().len(),
                coeff_0.val() == sc_a0(self.evals_p(), self.evals_w(), b as int),
                coeff_2.val() == sc_a2(self.evals_p(), self.evals_w(), b as int),
            decreases prefix_len - b,
        {
            proof {
                assert(self.evals_p()[2 * (b as int)] == self.evaluation_of_p@[2 * (b as int)].val());
                assert(self.evals_p()[2 * (b as int) + 1] == self.evaluation_of_p@[2 * (b as int)
                    + 1].val());
                assert(self.evals_w()[2 * (b as int)] == self.evaluation_of_equality@[2 * (
                b as int)].val());
                assert(self.evals_w()[2 * (b as int) + 1] == self.evaluation_of_equality@[2 * (
                b as int) + 1].val());
            }
            let p0 = self.evaluation_of_p[2 * b];
            let p1 = self.evaluation_of_p[2 * b + 1];
            let w0 = self.evaluation_of_equality[2 * b];
            let w1 = self.evaluation_of_equality[2 * b + 1];
            coeff_0 = coeff_0.add(p0.mul(w0));
            coeff_2 = coeff_2.add(p1.sub(p0).mul(w1.sub(w0)));
            b = b + 1;
        }
        let two = Fp::from_u64(2);
        let coeff_1 = self.sum.sub(coeff_0).sub(coeff_0).sub(coeff_2);
        let eval_0 = coeff_0;
        let eval_1 = coeff_0.add(coeff_1).add(coeff_2);
        let eval_2 = coeff_0.add(two.mul(coeff_1)).add(two.mul(two).mul(coeff_2));
        let mut evaluations: Vec<Fp> = Vec::new();
        evaluations.push(eval_0);
        evaluations.push(eval_1);
        evaluations.push(eval_2);
        let r = SumcheckPolynomial::new(evaluations, 1);
        proof {
            let m = MODULUS as int;
            let s = self.claimed_sum();
            let a0 = sc_a0(self.evals_p(), self.evals_w(), prefix_len as int);
            let a2 = sc_a2(self.evals_p(), self.evals_w(), prefix_len as int);
            let a1 = fsub(fsub(fsub(s, a0), a0), a2);
            assert(r@ =~= round_poly_evals(self.evals_p(), self.evals_w(), s));
            lemma_fsub_noop(s - a0, a0);
            lemma_fsub_noop(s - a0 - a0, a2);
            assert(a1 == (s - a0 - a0 - a2) % m);
            lemma_fadd_noop(a0 + a1, a2);
            assert(fadd(fadd(a0, a1), a2) == (a0 + a1 + a2) % m);
            lemma_fadd_noop(a0 + a2, s - a0 - a0 - a2);
            assert((a0 + a1 + a2) % m == (s - a0) % m);
            lemma_fadd_noop(a0, s - a0);
            lemma_freduce(s);
            assert(fadd(a0, fadd(fadd(a0, a1), a2)) == s);
        }
        r
    }

    /// Receives the folding randomness for the first remaining variable:
    /// interpolates both tables at it, scales the weight table and the new
    /// claimed sum `g(r)` by `combination_randomness`, and drops one
    /// variable.
    pub fn compress(
        &mut self,
        combination_randomness: Fp,
        folding_randomness: &MultilinearPoint,
        sumcheck_poly: &SumcheckPolynomial,
    )
        requires
            old(self).wf(),
            old(self).num_vars() >= 1,
            folding_randomness@.len() == 1,
        ensures
            final(self).wf(),
            final(self).num_vars() == old(self).num_vars() - 1,
            forall|b: int|
                0 <= b < final(self).evals_p().len() ==> #[trigger] final(self).evals_p()[b]
                    == fadd(
                    fmul(fsub(1, folding_randomness@[0]), old(self).evals_p()[2 * b]),
                    fmul(folding_randomness@[0], old(self).evals_p()[2 * b + 1]),
                ),
            forall|b: int|
                0 <= b < final(self).evals_w().len() ==> #[trigger] final(self).evals_w()[b]
                    == fmul(
                    combination_randomness.val(),
                    fadd(
                        fmul(fsub(1, folding_randomness@[0]), old(self).evals_w()[2 * b]),
                        fmul(folding_randomness@[0], old(self).evals_w()[2 * b + 1]),
                    ),
                ),
            final(self).claimed_sum() == fmul(
                combination_randomness.val(),
                quad_eval(
                    sumcheck_poly@[0],
                    sumcheck_poly@[1],
                    sumcheck_poly@[2],
                    folding_randomness@[0],
                ),
            ),
    {
        proof {
            lemma_pow2_unfold(old(self).num_vars());
        }
        let randomness = folding_randomness.0[0];
        let randomness_bar = Fp::one().sub(randomness);
        let plen = self.evaluation_of_p.len();
        let prefix_len = plen / 2;
        let mut evaluations_of_p: Vec<Fp> = Vec::new();
        let mut evaluations_of_eq: Vec<Fp> = Vec::new();
        let mut b: usize = 0;
        let ghost rv = folding_randomness@[0];
        proof {
            assert(rv == folding_randomness.0@[0].val());
        }
        while b < prefix_len
            invariant
                b <= prefix_len,
                old(self).wf(),
                self == old(self),
                plen == self.evals_p().len(),
                prefix_len == plen / 2,
                2 * prefix_len == plen,
                self.evals_w().len() == self.evals_p().len(),
                randomness.val() == rv,
                randomness_bar.val() == fsub(1, rv),
                evaluations_of_p@.len() == b,
                evaluations_of_eq@.len() == b,
                forall|t: int|
                    0 <= t < b ==> #[trigger] evaluations_of_p@[t].val() == fadd(
                        fmul(fsub(1, rv), self.evals_p()[2 * t]),
                        fmul(rv, self.evals_p()[2 * t + 1]),
                    ),
                forall|t: int|
                    0 <= t < b ==> #[trigger] evaluations_of_eq@[t].val() == fmul(
                        combination_randomness.val(),
                        fadd(
                            fmul(fsub(1, rv), self.evals_w()[2 * t]),
                            fmul(rv, self.evals_w()[2 * t + 1]),
                        ),
                    ),
            decreases prefix_len - b,
        {
            proof {
                assert(self.evals_p()[2 * (b as int)] == self.evaluation_of_p@[2 * (b as int)].val());
                assert(self.evals_p()[2 * (b as int) + 1] == self.evaluation_of_p@[2 * (b as int)
                    + 1].val());
                assert(self.evals_w()[2 * (b as int)] == self.evaluation_of_equality@[2 * (
                b as int)].val());
                assert(self.evals_w()[2 * (b as int) + 1] == self.evaluation_of_equality@[2 * (
                b as int) + 1].val());
            }
            let eval_of_p_0 = self.evaluation_of_p[2 * b];
            let eval_of_p_1 = self.evaluation_of_p[2 * b + 1];
            let eval_of_p = eval_of_p_0.mul(randomness_bar).add(eval_of_p_1.mul(randomness));
            let eval_of_eq_0 = self.evaluation_of_equality[2 * b];
            let eval_of_eq_1 = self.evaluation_of_equality[2 * b + 1];
            let eval_of_eq = eval_of_eq_0.mul(randomness_bar).add(eval_of_eq_1.mul(randomness));
            evaluations_of_p.push(eval_of_p);
            evaluations_of_eq.push(combination_randomness.mul(eval_of_eq));
            proof {
                assert(evaluations_of_p@[b as int].val() == fadd(
                    fmul(fsub(1, rv), self.evals_p()[2 * (b as int)]),
                    fmul(rv, self.evals_p()[2 * (b as int) + 1]),
                ));
                assert(evaluations_of_eq@[b as int].val() == fmul(
                    combination_randomness.val(),
                    fadd(
                        fmul(fsub(1, rv), self.evals_w()[2 * (b as int)]),
                        fmul(rv, self.evals_w()[2 * (b as int) + 1]),
                    ),
                ));
            }
            b = b + 1;
        }
        let new_sum = combination_randomness.mul(sumcheck_poly.evaluate_at_point(
            folding_randomness,
        ));
        self.num_variables = self.num_variables - 1;
        self.evaluation_of_p = evaluations_of_p;
        self.evaluation_of_equality = evaluations_of_eq;
        self.sum = new_sum;
    }
}

/// The recursion behind `eval_eq`: adds `scalar * eq_{eval[zi..]}(i)` to the
/// region of `out` of length `2^(|eval| - zi)` starting at `offset`, and
/// leaves the rest of the table unchanged.
fn eval_eq_inner(eval: &Vec<Fp>, zi: usize, out: &mut Vec<Fp>, offset: usize, scalar: Fp)
    requires
        zi <= eval@.len(),
        eval@.len() - zi < 64,
        offset + pow2((eval@.len() - zi) as nat) <= old(out)@.len(),
    ensures
        final(out)@.len() == old(out)@.len(),
        forall|t: int|
            0 <= t < final(out)@.len() && !(offset <= t < offset + pow2((eval@.len() - zi) as nat))
                ==> final(out)@[t] == old(out)@[t],
        forall|t: int|
            offset <= t < offset + pow2((eval@.len() - zi) as nat) ==> #[trigger] final(out)@[t].val()
                == fadd(
                old(out)@[t].val(),
                fmul(
                    scalar.val(),
                    eq_weight(vals(eval@).subrange(zi as int, eval@.len() as int), t - offset),
                ),
            ),
    decreases eval@.len() - zi,
{
    let ghost zrest = vals(eval@).subrange(zi as int, eval@.len() as int);
    if zi == eval.len() {
        proof {
            lemma2_to64();
            assert(zrest.len() == 0);
        }
        let updated = out[offset].add(scalar);
        out[offset] = updated;
        proof {
            lemma_fmul_basics(scalar.val());
            lemma_freduce(scalar.val());
            assert(eq_weight(zrest, 0) == 1);
        }
    } else {
        let x = eval[zi];
        let rest = eval.len() - zi - 1;
        proof {
            lemma_pow2_unfold((eval@.len() - zi) as nat);
        }
        let olen = out.len();
        let half_u = pow2_u64(rest as u64);
        proof {
            assert(half_u as nat <= olen as nat);
        }
        let half = half_u as usize;
        proof {
            assert(half == pow2(rest as nat));
            assert(offset + 2 * half <= olen);
        }
        let s1 = scalar.mul(x);
        let s0 = scalar.sub(s1);
        let ghost ztail = vals(eval@).subrange(zi as int + 1, eval@.len() as int);
        proof {
            assert(ztail =~= zrest.subrange(1, zrest.len() as int));
            assert(zrest[0] == eval@[zi as int].val());

        }
        eval_eq_inner(eval, zi + 1, out, offset, s0);
        let ghost after_low = out@;
        eval_eq_inner(eval, zi + 1, out, offset + half, s1);
        proof {
            let sv = scalar.val();
            let xv = x.val();
            // s0 == scalar * (1 - x) and s1 == scalar * x in the field
            assert(s0.val() == fmul(sv, fsub(1, xv))) by {
                lemma_fmul_distributes_fsub(sv, 1, xv);
                lemma_fmul_basics(sv);
                lemma_freduce(sv);
                lemma_fsub_noop(sv, fmul(sv, xv));
            }
            assert forall|t: int|
                offset <= t < offset + pow2((eval@.len() - zi) as nat) implies #[trigger] out@[t].val()
                == fadd(
                old(out)@[t].val(),
                fmul(sv, eq_weight(zrest, t - offset)),
            ) by {
                if t < offset + half {
                    assert(out@[t] == after_low[t]);
                    assert(after_low[t].val() == fadd(
                        old(out)@[t].val(),
                        fmul(s0.val(), eq_weight(ztail, t - offset)),
                    ));
                    assert(eq_weight(zrest, t - offset) == fmul(
                        fsub(1, xv),
                        eq_weight(ztail, t - offset),
                    ));
                    lemma_fmul_assoc(sv, fsub(1, xv), eq_weight(ztail, t - offset));
                } else {
                    assert(after_low[t] == old(out)@[t]);
                    assert(out@[t].val() == fadd(
                        old(out)@[t].val(),
                        fmul(s1.val(), eq_weight(ztail, t - offset - half)),
                    ));
                    assert(eq_weight(zrest, t - offset) == fmul(
                        xv,
                        eq_weight(ztail, t - offset - half),
                    ));
                    lemma_fmul_assoc(sv, xv, eq_weight(ztail, t - offset - half));
                }
            }
        }
    }
}

/// Contributions are reduced field values.
pub proof fn lemma_eq_contrib_bound(points: Seq<Seq<int>>, rands: Seq<int>, i: int, k: int)
    ensures
        0 <= eq_contrib(points, rands, i, k) < MODULUS as int,
{
    if k > 0 {
        lemma_fadd_noop(
            eq_contrib(points, rands, i, k - 1),
            fmul(rands[k - 1], eq_weight(points[k - 1], i)),
        );
    }
}

/// The first `k` contributions read only the first `k` constraints.
pub proof fn lemma_eq_contrib_agree(
    points1: Seq<Seq<int>>,
    rands1: Seq<int>,
    points2: Seq<Seq<int>>,
    rands2: Seq<int>,
    i: int,
    k: int,
)
    requires
        forall|t: int| 0 <= t < k ==> #[trigger] points1[t] == points2[t] && rands1[t] == rands2[t],
    ensures
        eq_contrib(points1, rands1, i, k) == eq_contrib(points2, rands2, i, k),
    decreases k,
{
    if k > 0 {
        lemma_eq_contrib_agree(points1, rands1, points2, rands2, i, k - 1);
    }
}

/// Law: the equality table accumulates additively. Extending the table built
/// from the constraints `(points1, rands1)` with the constraints
/// `(points2, rands2)` gives, at every index, the contribution of the
/// concatenated constraint lists: repeated extension leaves
/// `w[i] = sum_j rands[j] * eq_{points[j]}(i)` over all constraints added so
/// far.
pub proof fn lemma_eq_contrib_concat(
    points1: Seq<Seq<int>>,
    rands1: Seq<int>,
    points2: Seq<Seq<int>>,
    rands2: Seq<int>,
    i: int,
)
    requires
        points1.len() == rands1.len(),
        points2.len() == rands2.len(),
    ensures
        eq_contrib(
            points1 + points2,
            rands1 + rands2,
            i,
            points1.len() as int + points2.len() as int,
        ) == fadd(
            eq_contrib(points1, rands1, i, points1.len() as int),
            eq_contrib(points2, rands2, i, points2.len() as int),
        ),
    decreases points2.len(),
{
    let n1 = points1.len() as int;
    let n2 = points2.len() as int;
    if n2 == 0 {
        assert(points1 + points2 =~= points1);
        assert(rands1 + rands2 =~= rands1);
        lemma_eq_contrib_bound(points1, rands1, i, n1);
        lemma_fadd_zero(eq_contrib(points1, rands1, i, n1));
    } else {
        let ps = points2.subrange(0, n2 - 1);
        let rs = rands2.subrange(0, n2 - 1);
        lemma_eq_contrib_concat(points1, rands1, ps, rs, i);
        assert forall|t: int| 0 <= t < n1 + n2 - 1 implies #[trigger] (points1 + ps)[t] == (points1
            + points2)[t] && (rands1 + rs)[t] == (rands1 + rands2)[t] by {}
        lemma_eq_contrib_agree(
            points1 + points2,
            rands1 + rands2,
            points1 + ps,
            rands1 + rs,
            i,
            n1 + n2 - 1,
        );
        lemma_eq_contrib_agree(points2, rands2, ps, rs, i, n2 - 1);
        assert((points1 + points2)[n1 + n2 - 1] == points2[n2 - 1]);
        assert((rands1 + rands2)[n1 + n2 - 1] == rands2[n2 - 1]);
        lemma_fadd_assoc(
            eq_contrib(points1, rands1, i, n1),
            eq_contrib(ps, rs, i, n2 - 1),
            fmul(rands2[n2 - 1], eq_weight(points2[n2 - 1], i)),
        );
    }
}

} // verus!
