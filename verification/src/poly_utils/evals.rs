//! Evaluations of a multilinear polynomial over the Boolean hypercube, and
//! evaluation of its multilinear extension at arbitrary points.

use vstd::prelude::*;
use vstd::arithmetic::power2::{lemma_pow2_strictly_increases, lemma_pow2_unfold, pow2};

use crate::field::Fp;
use crate::poly_utils::coeffs::CoefficientList;
use crate::poly_utils::{
    coeffs_of, eq_weight, log2_exact, mle_eval, mle_sum, pow2_u64, seq_fsub, vals,
    MultilinearPoint,
};

verus! {

/// The `2^n` values of a multilinear polynomial over `{0,1}^n`, indexed by
/// the crate's hypercube index convention.
pub struct EvaluationsList {
    evals: Vec<Fp>,
    num_variables: usize,
}

impl View for EvaluationsList {
    type V = Seq<int>;

    closed spec fn view(&self) -> Seq<int> {
        vals(self.evals@)
    }
}

impl EvaluationsList {
    #[verifier::type_invariant]
    spec fn wf(self) -> bool {
        self.evals@.len() == pow2(self.num_variables as nat) && self.num_variables < 64
    }

    /// The number of variables, as a mathematical number.
    pub closed spec fn num_vars(self) -> nat {
        self.num_variables as nat
    }

    /// Wraps a table of hypercube evaluations; the length must be a power of
    /// two, and the number of variables is its base-two logarithm.
    pub fn new(evals: Vec<Fp>) -> (r: Self)
        requires
            exists|k: nat| evals@.len() == pow2(k),
        ensures
            r@ == vals(evals@),
            r@.len() == pow2(r.num_vars()),
    {
        let num_variables = log2_exact(evals.len());
        EvaluationsList { evals, num_variables }
    }

    /// Evaluates the multilinear extension of the table at `point`.
    pub fn evaluate(&self, point: &MultilinearPoint) -> (r: Fp)
        requires
            point@.len() == self.num_vars(),
        ensures
            r.val() == mle_eval(self@, point@),
    {
        proof {
            use_type_invariant(self);
        }
        let len = self.evals.len();
        let mut acc = Fp::zero();
        let mut i: usize = 0;
        while i < len
            invariant
                i <= len,
                len == self.evals@.len(),
                len == pow2(self.num_variables as nat),
                self.num_variables < 64,
                point@.len() == self.num_variables,
                acc.val() == mle_sum(self@, point@, i as int),
            decreases len - i,
        {
            let w = eq_weight_exec(&point.0, 0, i as u64);
            proof {
                assert(vals(point.0@).subrange(0, point.0@.len() as int) =~= point@);
                assert(self@[i as int] == self.evals@[i as int].val());
            }
            acc = acc.add(w.mul(self.evals[i]));
            i = i + 1;
        }
        acc
    }

    /// The underlying table.
    pub fn evals(&self) -> (r: &[Fp])
        ensures
            vals(r@) == self@,
    {
        self.evals.as_slice()
    }

    /// The value at hypercube index `index`.
    pub fn index(&self, index: usize) -> (r: Fp)
        requires
            index < self@.len(),
        ensures
            r.val() == self@[index as int],
    {
        self.evals[index]
    }

    /// The number of table entries, `2^n`.
    pub fn num_evals(&self) -> (r: usize)
        ensures
            r == self@.len(),
    {
        self.evals.len()
    }

    /// Converts back to the coefficient vector whose hypercube evaluations
    /// this table is, via the inverse butterfly transform.
    pub fn to_coefficients(self) -> (r: CoefficientList)
        ensures
            r@ == coeffs_of(self@),
            r.num_vars() == self.num_vars(),
    {
        proof {
            use_type_invariant(&self);
            lemma_coeffs_of_len(self@);
        }
        let ghost n = self.num_vars();
        let EvaluationsList { evals, num_variables } = self;
        let c = coeffs_rec(evals);
        let r = CoefficientList::new(c);
        proof {
            if r.num_vars() != n {
                if r.num_vars() < n {
                    lemma_pow2_strictly_increases(r.num_vars(), n);
                } else {
                    lemma_pow2_strictly_increases(n, r.num_vars());
                }
            }
        }
        r
    }

    /// The number of variables `n`.
    pub fn num_variables(&self) -> (r: usize)
        ensures
            r == self.num_vars(),
            self@.len() == pow2(r as nat),
            r < 64,
    {
        proof {
            use_type_invariant(self);
        }
        self.num_variables
    }
}

/// The equality weight of the point `z[zi..]` at hypercube index `i`,
/// following the recursion of `eq_weight`.
pub(crate) fn eq_weight_exec(z: &Vec<Fp>, zi: usize, i: u64) -> (r: Fp)
    requires
        zi <= z@.len(),
        z@.len() - zi < 64,
        i < pow2((z@.len() - zi) as nat),
    ensures
        r.val() == eq_weight(vals(z@).subrange(zi as int, z@.len() as int), i as int),
    decreases z@.len() - zi,
{
    let ghost zseq = vals(z@).subrange(zi as int, z@.len() as int);
    if zi == z.len() {
        proof {
            assert(zseq.len() == 0);
        }
        Fp::one()
    } else {
        let rest: usize = z.len() - zi - 1;
        let half: u64 = pow2_u64(rest as u64);
        proof {
            assert(vals(z@).subrange(zi as int + 1, z@.len() as int) =~= zseq.subrange(
                1,
                zseq.len() as int,
            ));
            assert(zseq[0] == z@[zi as int].val());
            if rest + 1 < 64 && i >= half {
                vstd::arithmetic::power2::lemma_pow2_unfold((rest + 1) as nat);
            }
        }
        if i < half {
            let sub = eq_weight_exec(z, zi + 1, i);
            Fp::one().sub(z[zi]).mul(sub)
        } else {
            let sub = eq_weight_exec(z, zi + 1, i - half);
            z[zi].mul(sub)
        }
    }
}

/// The inverse butterfly recursion: recover the two half coefficient
/// vectors, then subtract.
fn coeffs_rec(e: Vec<Fp>) -> (r: Vec<Fp>)
    requires
        exists|k: nat| e@.len() == pow2(k),
    ensures
        vals(r@) == coeffs_of(vals(e@)),
    decreases e@.len(),
{
    if e.len() <= 1 {
        e
    } else {
        let ghost k = choose|k: nat| e@.len() == pow2(k);
        proof {
            if k == 0 {
                vstd::arithmetic::power2::lemma2_to64();
            }
            lemma_pow2_unfold(k);
        }
        let elen = e.len();
        let half = elen / 2;
        let mut lo: Vec<Fp> = Vec::new();
        let mut hi: Vec<Fp> = Vec::new();
        let mut i: usize = 0;
        while i < half
            invariant
                i <= half,
                elen == e@.len(),
                half == elen / 2,
                elen == 2 * half,
                lo@.len() == i,
                hi@.len() == i,
                forall|t: int| 0 <= t < i ==> #[trigger] lo@[t] == e@[t],
                forall|t: int| 0 <= t < i ==> #[trigger] hi@[t] == e@[t + half],
            decreases half - i,
        {
            lo.push(e[i]);
            hi.push(e[half + i]);
            i = i + 1;
        }
        let ghost ev = vals(e@);
        let ghost hf = half as int;
        proof {
            assert(half == pow2((k - 1) as nat));
            assert(vals(lo@) =~= ev.subrange(0, hf));
            assert(vals(hi@) =~= ev.subrange(hf, ev.len() as int));
            lemma_coeffs_of_len(vals(lo@));
            lemma_coeffs_of_len(vals(hi@));
        }
        let l = coeffs_rec(lo);
        let h = coeffs_rec(hi);
        let mut out = l;
        let ghost lv = vals(out@);
        let hlen = h.len();
        let mut j: usize = 0;
        while j < hlen
            invariant
                j <= hlen,
                hlen == h@.len(),
                hlen == lv.len(),
                out@.len() == hlen + j,
                vals(out@.subrange(0, hlen as int)) == lv,
                vals(h@) == coeffs_of(ev.subrange(hf, ev.len() as int)),
                lv == coeffs_of(ev.subrange(0, hf)),
                forall|t: int|
                    0 <= t < j ==> #[trigger] out@[hlen + t].val() == crate::field::fsub(
                        vals(h@)[t],
                        lv[t],
                    ),
            decreases hlen - j,
        {
            proof {
                assert(out@[j as int] == out@.subrange(0, hlen as int)[j as int]);
                assert(out@[j as int].val() == lv[j as int]);
                assert(h@[j as int].val() == vals(h@)[j as int]);
            }
            let d = h[j].sub(out[j]);
            let ghost before = out@;
            out.push(d);
            proof {
                assert(out@.subrange(0, hlen as int) =~= before.subrange(0, hlen as int));
            }
            j = j + 1;
        }
        proof {
            let target = coeffs_of(ev.subrange(0, hf)) + seq_fsub(
                coeffs_of(ev.subrange(hf, ev.len() as int)),
                coeffs_of(ev.subrange(0, hf)),
            );
            assert(target.len() == out@.len());
            assert forall|t: int| 0 <= t < out@.len() implies #[trigger] vals(out@)[t]
                == target[t] by {
                if t < hlen {
                    assert(vals(out@.subrange(0, hlen as int))[t] == out@[t].val());
                    assert(vals(out@.subrange(0, hlen as int))[t] == lv[t]);
                } else {
                    assert(out@[hlen + (t - hlen)].val() == crate::field::fsub(
                        vals(h@)[t - hlen],
                        lv[t - hlen],
                    ));
                }
            }
            assert(vals(out@) =~= target);
        }
        out
    }
}

/// The inverse butterfly preserves the length of a power-of-two table.
pub proof fn lemma_coeffs_of_len(e: Seq<int>)
    requires
        exists|k: nat| e.len() == pow2(k),
    ensures
        coeffs_of(e).len() == e.len(),
    decreases e.len(),
{
    if e.len() > 1 {
        let k = choose|k: nat| e.len() == pow2(k);
        if k == 0 {
            vstd::arithmetic::power2::lemma2_to64();
        }
        lemma_pow2_unfold(k);
        let half = e.len() as int / 2;
        assert(e.subrange(0, half).len() == pow2((k - 1) as nat));
        assert(e.subrange(half, e.len() as int).len() == pow2((k - 1) as nat));
        lemma_coeffs_of_len(e.subrange(0, half));
        lemma_coeffs_of_len(e.subrange(half, e.len() as int));
    }
}

} // verus!
