//! Coefficients of a multilinear polynomial in the monomial basis, with
//! evaluation, folding (partial evaluation), and conversion to the table of
//! hypercube evaluations.

use vstd::prelude::*;
use vstd::arithmetic::power2::{lemma_pow2_strictly_increases, lemma_pow2_unfold, pow2};

use crate::field::{
    fadd, fmul, fsub, lemma_fadd_fsub_cancel, lemma_fadd_noop, lemma_freduce, Fp, MODULUS,
};
use crate::poly_utils::{
    bin_point, coeffs_of, eq_weight, eval_coeffs, evals_of, fold_coeffs, fold_first, in_field,
    lin_comb, log2_exact, mle_eval, mle_sum, seq_fadd, seq_fsub, vals, MultilinearPoint,
};
use crate::field::{
    lemma_fadd4, lemma_fadd_assoc, lemma_fadd_zero, lemma_fmul_assoc, lemma_fmul_basics,
    lemma_fmul_distributes_fadd, lemma_fmul_distributes_fsub, lemma_fmul_noop,
    lemma_fsub_fadd_chain,
};
use crate::poly_utils::evals::EvaluationsList;

verus! {

/// The `2^n` coefficients of a multilinear polynomial in the monomial basis;
/// the monomial of coefficient `i` contains variable `j` exactly when bit
/// `n-1-j` of `i` is one.
pub struct CoefficientList {
    coeffs: Vec<Fp>,
    num_variables: usize,
}

impl View for CoefficientList {
    type V = Seq<int>;

    closed spec fn view(&self) -> Seq<int> {
        vals(self.coeffs@)
    }
}

impl CoefficientList {
    #[verifier::type_invariant]
    spec fn wf(self) -> bool {
        self.coeffs@.len() == pow2(self.num_variables as nat) && self.num_variables < 64
    }

    /// The number of variables, as a mathematical number.
    pub closed spec fn num_vars(self) -> nat {
        self.num_variables as nat
    }

    /// Wraps a coefficient vector; the length must be a power of two, and
    /// the number of variables is its base-two logarithm.
    pub fn new(coeffs: Vec<Fp>) -> (r: Self)
        requires
            exists|k: nat| coeffs@.len() == pow2(k),
        ensures
            r@ == vals(coeffs@),
            r@.len() == pow2(r.num_vars()),
    {
        let num_variables = log2_exact(coeffs.len());
        CoefficientList { coeffs, num_variables }
    }

    /// The number of variables `n`.
    pub fn num_variables(&self) -> (r: usize)
        ensures
            r == self.num_vars(),
            self@.len() == pow2(r as nat),
            r < 64,
    {
        proof {
            use_type_invariant(self);
        }
        self.num_variables
    }

    /// The number of coefficients, `2^n`.
    pub fn num_coeffs(&self) -> (r: usize)
        ensures
            r == self@.len(),
    {
        self.coeffs.len()
    }

    /// Evaluates the polynomial at `point` by successive partial evaluation
    /// along each variable.
    pub fn evaluate(&self, point: &MultilinearPoint) -> (r: Fp)
        requires
            point@.len() == self.num_vars(),
        ensures
            r.val() == eval_coeffs(self@, point@),
    {
        proof {
            use_type_invariant(self);
        }
        let cur = self.fold_inner(point);
        proof {
            lemma_eval_as_fold(self@, point@);
            vstd::arithmetic::power2::lemma2_to64();
        }
        cur[0]
    }

    /// Partial evaluation of the first `|r|` variables at `folding_randomness`:
    /// the polynomial `p(r_1, ..., r_k, X_{k+1}, ..., X_n)`.
    pub fn fold(&self, folding_randomness: &MultilinearPoint) -> (r: Self)
        requires
            folding_randomness@.len() <= self.num_vars(),
        ensures
            r@ == fold_coeffs(self@, folding_randomness@),
            r.num_vars() == self.num_vars() - folding_randomness@.len(),
            r@.len() == pow2(r.num_vars()),
    {
        proof {
            use_type_invariant(self);
        }
        let cur = self.fold_inner(folding_randomness);
        let num_variables = self.num_variables - folding_randomness.0.len();
        CoefficientList { coeffs: cur, num_variables }
    }

    /// The folding loop shared by `evaluate` and `fold`.
    fn fold_inner(&self, point: &MultilinearPoint) -> (r: Vec<Fp>)
        requires
            point@.len() <= self.num_vars(),
            self.wf(),
        ensures
            vals(r@) == fold_coeffs(self@, point@),
            r@.len() == pow2((self.num_vars() - point@.len()) as nat),
    {
        let k = point.0.len();
        let mut cur = copy_fps(&self.coeffs);
        let mut j: usize = 0;
        while j < k
            invariant
                j <= k,
                k == point@.len(),
                k <= self.num_vars(),
                self.wf(),
                vals(cur@) == fold_coeffs(self@, point@.subrange(0, j as int)),
                cur@.len() == pow2((self.num_vars() - j) as nat),
            decreases k - j,
        {
            proof {
                lemma_pow2_unfold((self.num_vars() - j) as nat);
                lemma_fold_coeffs_snoc(self@, point@.subrange(0, j as int), point@[j as int]);
                assert(point@.subrange(0, j as int).push(point@[j as int]) =~= point@.subrange(
                    0,
                    j as int + 1,
                ));
                assert(point@[j as int] == point.0@[j as int].val());
            }
            let ghost prev_len = cur@.len();
            cur = fold_once(&cur, point.0[j]);
            j = j + 1;
            proof {
                assert(cur@.len() == vals(cur@).len());
                assert(vals(cur@).len() == prev_len / 2);
                assert(prev_len == 2 * pow2((self.num_vars() - j) as nat));
                assert(cur@.len() == pow2((self.num_vars() - j) as nat));
            }
        }
        proof {
            assert(point@.subrange(0, k as int) =~= point@);
        }
        cur
    }

    /// Converts to the table of evaluations over the Boolean hypercube via
    /// the in-order butterfly transform.
    pub fn to_evaluations(self) -> (r: EvaluationsList)
        ensures
            r@ == evals_of(self@),
            r.num_vars() == self.num_vars(),
    {
        let ghost n = self.num_vars();
        let e = self.to_evaluations_vec();
        let r = EvaluationsList::new(e);
        proof {
            if r.num_vars() != n {
                if r.num_vars() < n {
                    lemma_pow2_strictly_increases(r.num_vars(), n);
                } else {
                    lemma_pow2_strictly_increases(n, r.num_vars());
                }
            }
        }
        r
    }

    /// The hypercube evaluations as a raw table.
    pub(crate) fn to_evaluations_vec(self) -> (r: Vec<Fp>)
        ensures
            vals(r@) == evals_of(self@),
            r@.len() == pow2(self.num_vars()),
            exists|k: nat| r@.len() == pow2(k),
    {
        proof {
            use_type_invariant(&self);
            lemma_evals_of_len(self@);
        }
        let CoefficientList { coeffs, num_variables } = self;
        evals_rec(coeffs)
    }
}

/// Copies a vector of field elements.
pub(crate) fn copy_fps(v: &Vec<Fp>) -> (r: Vec<Fp>)
    ensures
        r@ == v@,
{
    let mut r: Vec<Fp> = Vec::new();
    let mut i: usize = 0;
    while i < v.len()
        invariant
            i <= v@.len(),
            r@ == v@.subrange(0, i as int),
        decreases v@.len() - i,
    {
        r.push(v[i]);
        proof {
            assert(v@.subrange(0, i as int).push(v@[i as int]) =~= v@.subrange(0, i as int + 1));
        }
        i = i + 1;
    }
    proof {
        assert(v@.subrange(0, v@.len() as int) =~= v@);
    }
    r
}

/// One step of partial evaluation: `out[i] = c[i] + x * c[i + half]`.
fn fold_once(c: &Vec<Fp>, x: Fp) -> (r: Vec<Fp>)
    requires
        c@.len() % 2 == 0,
    ensures
        vals(r@) == fold_first(vals(c@), x.val()),
{
    let clen = c.len();
    let half = clen / 2;
    let mut out: Vec<Fp> = Vec::new();
    let mut i: usize = 0;
    while i < half
        invariant
            i <= half,
            clen == c@.len(),
            half == clen / 2,
            clen == 2 * half,
            out@.len() == i,
            forall|t: int|
                0 <= t < i ==> #[trigger] out@[t].val() == fadd(
                    c@[t].val(),
                    fmul(x.val(), c@[t + half].val()),
                ),
        decreases half - i,
    {
        out.push(c[i].add(x.mul(c[half + i])));
        i = i + 1;
    }
    proof {
        assert(vals(out@) =~= fold_first(vals(c@), x.val()));
    }
    out
}

/// The butterfly recursion: evaluations of the low-half polynomial, then of
/// the sum of the two halves.
fn evals_rec(c: Vec<Fp>) -> (r: Vec<Fp>)
    requires
        exists|k: nat| c@.len() == pow2(k),
    ensures
        vals(r@) == evals_of(vals(c@)),
    decreases c@.len(),
{
    if c.len() <= 1 {
        c
    } else {
        let ghost k = choose|k: nat| c@.len() == pow2(k);
        proof {
            if k == 0 {
                vstd::arithmetic::power2::lemma2_to64();
            }
            lemma_pow2_unfold(k);
        }
        let clen = c.len();
        let half = clen / 2;
        let mut lo: Vec<Fp> = Vec::new();
        let mut su: Vec<Fp> = Vec::new();
        let mut i: usize = 0;
        while i < half
            invariant
                i <= half,
                clen == c@.len(),
                half == clen / 2,
                clen == 2 * half,
                lo@.len() == i,
                su@.len() == i,
                forall|t: int| 0 <= t < i ==> #[trigger] lo@[t] == c@[t],
                forall|t: int|
                    0 <= t < i ==> #[trigger] su@[t].val() == fadd(
                        c@[t].val(),
                        c@[t + half].val(),
                    ),
            decreases half - i,
        {
            lo.push(c[i]);
            su.push(c[i].add(c[half + i]));
            i = i + 1;
        }
        let ghost cv = vals(c@);
        let ghost hf = half as int;
        proof {
            assert(half == pow2((k - 1) as nat));
            assert(vals(lo@) =~= cv.subrange(0, hf));
            assert(vals(su@) =~= seq_fadd(cv.subrange(0, hf), cv.subrange(hf, cv.len() as int)));
        }
        let left = evals_rec(lo);
        let mut right = evals_rec(su);
        let mut out = left;
        out.append(&mut right);
        proof {
            assert(vals(out@) =~= evals_of(cv.subrange(0, hf)) + evals_of(
                seq_fadd(cv.subrange(0, hf), cv.subrange(hf, cv.len() as int)),
            ));
        }
        out
    }
}

/// Evaluation is the single entry left after folding every variable.
pub proof fn lemma_eval_as_fold(c: Seq<int>, z: Seq<int>)
    ensures
        fold_coeffs(c, z).len() > 0 ==> eval_coeffs(c, z) == fold_coeffs(c, z)[0],
        fold_coeffs(c, z).len() == 0 ==> eval_coeffs(c, z) == 0,
    decreases z.len(),
{
    if z.len() > 0 {
        lemma_eval_as_fold(fold_first(c, z[0]), z.subrange(1, z.len() as int));
    }
}

/// Folding one more coordinate at the end folds the already-folded vector.
pub proof fn lemma_fold_coeffs_snoc(c: Seq<int>, r: Seq<int>, x: int)
    ensures
        fold_coeffs(c, r.push(x)) == fold_first(fold_coeffs(c, r), x),
    decreases r.len(),
{
    if r.len() == 0 {
        assert(r.push(x).subrange(1, r.push(x).len() as int) =~= Seq::<int>::empty());
        assert(fold_coeffs(c, r.push(x)) == fold_coeffs(fold_first(c, x), Seq::<int>::empty()));
    } else {
        lemma_fold_coeffs_snoc(fold_first(c, r[0]), r.subrange(1, r.len() as int), x);
        assert(r.push(x).subrange(1, r.push(x).len() as int) =~= r.subrange(
            1,
            r.len() as int,
        ).push(x));
    }
}

/// The butterfly preserves the length of a power-of-two table.
pub proof fn lemma_evals_of_len(c: Seq<int>)
    requires
        exists|k: nat| c.len() == pow2(k),
    ensures
        evals_of(c).len() == c.len(),
    decreases c.len(),
{
    if c.len() > 1 {
        let k = choose|k: nat| c.len() == pow2(k);
        if k == 0 {
            vstd::arithmetic::power2::lemma2_to64();
        }
        lemma_pow2_unfold(k);
        let half = c.len() as int / 2;
        let lo = c.subrange(0, half);
        let hi = c.subrange(half, c.len() as int);
        assert(lo.len() == pow2((k - 1) as nat));
        assert(seq_fadd(lo, hi).len() == pow2((k - 1) as nat));
        lemma_evals_of_len(lo);
        lemma_evals_of_len(seq_fadd(lo, hi));
    }
}

/// Law: converting a coefficient list to its hypercube evaluations and back
/// is the identity, for reduced coefficients and power-of-two length.
pub proof fn lemma_evaluation_round_trip(c: Seq<int>)
    requires
        in_field(c),
        exists|k: nat| c.len() == pow2(k),
    ensures
        coeffs_of(evals_of(c)) == c,
    decreases c.len(),
{
    if c.len() > 1 {
        let k = choose|k: nat| c.len() == pow2(k);
        if k == 0 {
            vstd::arithmetic::power2::lemma2_to64();
        }
        lemma_pow2_unfold(k);
        let half = c.len() as int / 2;
        let lo = c.subrange(0, half);
        let hi = c.subrange(half, c.len() as int);
        let su = seq_fadd(lo, hi);
        assert(lo.len() == pow2((k - 1) as nat));
        assert(su.len() == pow2((k - 1) as nat));
        assert(in_field(su)) by {
            assert forall|i: int| 0 <= i < su.len() implies 0 <= #[trigger] su[i]
                < MODULUS as int by {
                lemma_fadd_noop(lo[i], hi[i]);
            }
        }
        lemma_evals_of_len(lo);
        lemma_evals_of_len(su);
        lemma_evaluation_round_trip(lo);
        lemma_evaluation_round_trip(su);
        let e = evals_of(c);
        assert(e == evals_of(lo) + evals_of(su));
        assert(e.subrange(0, half) =~= evals_of(lo));
        assert(e.subrange(half, e.len() as int) =~= evals_of(su));
        assert(seq_fsub(coeffs_of(evals_of(su)), coeffs_of(evals_of(lo))) =~= hi) by {
            assert forall|i: int| 0 <= i < half implies #[trigger] fsub(su[i], lo[i])
                == hi[i] by {
                lemma_fadd_fsub_cancel(lo[i], hi[i]);
                lemma_freduce(hi[i]);
            }
        }
        assert(coeffs_of(e) =~= c);
    }
}

/// Law: the butterfly table holds the polynomial's values on the Boolean
/// hypercube: entry `i` of `evals_of(c)` is the evaluation of `c` at the
/// `{0,1}`-point with index `i`.
pub proof fn lemma_evals_of_are_evaluations(c: Seq<int>, n: nat, i: int)
    requires
        in_field(c),
        c.len() == pow2(n),
        0 <= i < c.len(),
    ensures
        evals_of(c)[i] == eval_coeffs(c, bin_point(n, i)),
    decreases n,
{
    if n == 0 {
        assert(c.len() == 1) by {
            vstd::arithmetic::power2::lemma2_to64();
        }
    } else {
        lemma_pow2_unfold(n);
        let half = pow2((n - 1) as nat) as int;
        let lo = c.subrange(0, half);
        let hi = c.subrange(half, c.len() as int);
        let su = seq_fadd(lo, hi);
        assert(in_field(su)) by {
            assert forall|t: int| 0 <= t < su.len() implies 0 <= #[trigger] su[t]
                < MODULUS as int by {
                lemma_fadd_noop(lo[t], hi[t]);
            }
        }
        assert(lo.len() == pow2((n - 1) as nat));
        assert(su.len() == pow2((n - 1) as nat));
        lemma_evals_of_len(lo);
        lemma_evals_of_len(su);
        let bp = bin_point(n, i);
        if i < half {
            assert(fold_first(c, 0) =~= lo) by {
                assert forall|t: int| 0 <= t < half implies #[trigger] fold_first(c, 0)[t]
                    == lo[t] by {
                    lemma_fmul_basics(c[t + half]);
                    lemma_fadd_zero(c[t]);
                }
            }
            assert(bp[0] == 0);
            assert(bp.subrange(1, bp.len() as int) =~= bin_point((n - 1) as nat, i));
            lemma_evals_of_are_evaluations(lo, (n - 1) as nat, i);
            assert(evals_of(c)[i] == evals_of(lo)[i]);
        } else {
            assert(fold_first(c, 1) =~= su) by {
                assert forall|t: int| 0 <= t < half implies #[trigger] fold_first(c, 1)[t]
                    == su[t] by {
                    lemma_fmul_basics(c[t + half]);
                    lemma_fadd_noop(c[t], c[t + half]);
                    crate::field::lemma_freduce(c[t + half]);
                }
            }
            assert(bp[0] == 1);
            assert(bp.subrange(1, bp.len() as int) =~= bin_point((n - 1) as nat, i - half));
            lemma_evals_of_are_evaluations(su, (n - 1) as nat, i - half);
            assert(evals_of(c)[i] == evals_of(su)[i - half]);
        }
    }
}

/// Law: folding commutes with evaluation; evaluating the fold of `p` at `r`
/// on the point `x` equals evaluating `p` on `r` followed by `x`.
pub proof fn lemma_fold_then_evaluate(c: Seq<int>, r: Seq<int>, x: Seq<int>)
    ensures
        eval_coeffs(fold_coeffs(c, r), x) == eval_coeffs(c, r + x),
    decreases r.len(),
{
    if r.len() == 0 {
        assert(r + x =~= x);
    } else {
        lemma_fold_then_evaluate(fold_first(c, r[0]), r.subrange(1, r.len() as int), x);
        assert((r + x).subrange(1, (r + x).len() as int) =~= r.subrange(1, r.len() as int) + x);
        assert((r + x)[0] == r[0]);
    }
}

/// Partial sums over the low half of a split table factor out `1 - z[0]`.
proof fn lemma_mle_split_low(e: Seq<int>, z: Seq<int>, h: int, k: int)
    requires
        z.len() >= 1,
        h == pow2((z.len() - 1) as nat),
        e.len() == 2 * h,
        0 <= k <= h,
    ensures
        mle_sum(e, z, k) == fmul(
            fsub(1, z[0]),
            mle_sum(e.subrange(0, h), z.subrange(1, z.len() as int), k),
        ),
    decreases k,
{
    let zt = z.subrange(1, z.len() as int);
    let s = fsub(1, z[0]);
    if k == 0 {
        lemma_fmul_basics(s);
    } else {
        lemma_mle_split_low(e, z, h, k - 1);
        assert(eq_weight(z, k - 1) == fmul(s, eq_weight(zt, k - 1)));
        assert(e[k - 1] == e.subrange(0, h)[k - 1]);
        let sa = mle_sum(e.subrange(0, h), zt, k - 1);
        let w = eq_weight(zt, k - 1);
        let a = e.subrange(0, h)[k - 1];
        lemma_fmul_distributes_fadd(s, sa, fmul(w, a));
        lemma_fmul_assoc(s, w, a);
    }
}

/// Partial sums over the high half of a split table factor out `z[0]`.
proof fn lemma_mle_split_high(e: Seq<int>, z: Seq<int>, h: int, k: int)
    requires
        z.len() >= 1,
        h == pow2((z.len() - 1) as nat),
        e.len() == 2 * h,
        0 <= k <= h,
    ensures
        mle_sum(e, z, h + k) == fadd(
            fmul(
                fsub(1, z[0]),
                mle_eval(e.subrange(0, h), z.subrange(1, z.len() as int)),
            ),
            fmul(z[0], mle_sum(e.subrange(h, e.len() as int), z.subrange(1, z.len() as int), k)),
        ),
    decreases k,
{
    let zt = z.subrange(1, z.len() as int);
    let s = fsub(1, z[0]);
    let a_half = e.subrange(0, h);
    let b_half = e.subrange(h, e.len() as int);
    if k == 0 {
        lemma_mle_split_low(e, z, h, h);
        lemma_fmul_basics(z[0]);
        lemma_fmul_noop(s, mle_eval(a_half, zt));
        lemma_fadd_zero(fmul(s, mle_eval(a_half, zt)));
    } else {
        lemma_mle_split_high(e, z, h, k - 1);
        assert(eq_weight(z, h + k - 1) == fmul(z[0], eq_weight(zt, h + k - 1 - h)));
        assert(e[h + k - 1] == b_half[k - 1]);
        let sa = fmul(s, mle_eval(a_half, zt));
        let sb = mle_sum(b_half, zt, k - 1);
        let w = eq_weight(zt, k - 1);
        let b = b_half[k - 1];
        lemma_fadd_assoc(sa, fmul(z[0], sb), fmul(fmul(z[0], w), b));
        lemma_fmul_distributes_fadd(z[0], sb, fmul(w, b));
        lemma_fmul_assoc(z[0], w, b);
    }
}

/// Coefficient evaluation is linear in the coefficient vector.
proof fn lemma_eval_coeffs_linear(a: Seq<int>, b: Seq<int>, alpha: int, beta: int, z: Seq<int>)
    requires
        a.len() == b.len(),
        a.len() == pow2(z.len()),
    ensures
        eval_coeffs(lin_comb(a, b, alpha, beta), z) == fadd(
            fmul(alpha, eval_coeffs(a, z)),
            fmul(beta, eval_coeffs(b, z)),
        ),
    decreases z.len(),
{
    if z.len() == 0 {
        vstd::arithmetic::power2::lemma2_to64();
    } else {
        lemma_pow2_unfold(z.len());
        let h = a.len() as int / 2;
        let x = z[0];
        let zt = z.subrange(1, z.len() as int);
        let cc = lin_comb(a, b, alpha, beta);
        assert(fold_first(cc, x) =~= lin_comb(fold_first(a, x), fold_first(b, x), alpha, beta))
            by {
            assert forall|j: int| 0 <= j < h implies #[trigger] fold_first(cc, x)[j] == lin_comb(
                fold_first(a, x),
                fold_first(b, x),
                alpha,
                beta,
            )[j] by {
                let aj = a[j];
                let ah = a[j + h];
                let bj = b[j];
                let bh = b[j + h];
                lemma_fmul_distributes_fadd(x, fmul(alpha, ah), fmul(beta, bh));
                lemma_fmul_assoc(x, alpha, ah);
                lemma_fmul_assoc(alpha, x, ah);
                lemma_fmul_assoc(x, beta, bh);
                lemma_fmul_assoc(beta, x, bh);
                lemma_fmul_distributes_fadd(alpha, aj, fmul(x, ah));
                lemma_fmul_distributes_fadd(beta, bj, fmul(x, bh));
                lemma_fadd4(
                    fmul(alpha, aj),
                    fmul(beta, bj),
                    fmul(alpha, fmul(x, ah)),
                    fmul(beta, fmul(x, bh)),
                );
            }
        }
        lemma_eval_coeffs_linear(fold_first(a, x), fold_first(b, x), alpha, beta, zt);
    }
}

/// Law: the multilinear extension of the butterfly table is the polynomial
/// itself: for every point `z`, evaluating the table of hypercube
/// evaluations of `c` equals evaluating `c` directly.
pub proof fn lemma_mle_of_evals(c: Seq<int>, z: Seq<int>)
    requires
        in_field(c),
        c.len() == pow2(z.len()),
    ensures
        mle_eval(evals_of(c), z) == eval_coeffs(c, z),
    decreases z.len(),
{
    if z.len() == 0 {
        vstd::arithmetic::power2::lemma2_to64();
        lemma_fmul_basics(c[0]);
        lemma_freduce(c[0]);
        lemma_fadd_zero(c[0]);
        assert(c.len() == 1);
        assert(evals_of(c) == c);
        assert(eq_weight(z, 0) == 1);
        assert(mle_sum(c, z, 0) == 0);
        assert(mle_sum(c, z, 1) == fadd(0, fmul(1, c[0])));
        assert(eval_coeffs(c, z) == c[0]);
    } else {
        lemma_pow2_unfold(z.len());
        let h = pow2((z.len() - 1) as nat) as int;
        let x = z[0];
        let s = fsub(1, x);
        let lo = c.subrange(0, h);
        let hi = c.subrange(h, c.len() as int);
        let su = seq_fadd(lo, hi);
        assert(in_field(su)) by {
            assert forall|t: int| 0 <= t < su.len() implies 0 <= #[trigger] su[t]
                < MODULUS as int by {
                lemma_fadd_noop(lo[t], hi[t]);
            }
        }
        assert(lo.len() == pow2((z.len() - 1) as nat));
        assert(su.len() == pow2((z.len() - 1) as nat));
        lemma_evals_of_len(lo);
        lemma_evals_of_len(su);
        let e = evals_of(c);
        assert(e.subrange(0, h) =~= evals_of(lo));
        assert(e.subrange(h, e.len() as int) =~= evals_of(su));
        let zt = z.subrange(1, z.len() as int);
        lemma_mle_split_high(e, z, h, h);
        lemma_mle_of_evals(lo, zt);
        lemma_mle_of_evals(su, zt);
        assert(fold_first(c, x) =~= lin_comb(lo, su, s, x)) by {
            assert forall|j: int| 0 <= j < h implies #[trigger] fold_first(c, x)[j] == lin_comb(
                lo,
                su,
                s,
                x,
            )[j] by {
                let a = c[j];
                let b = c[j + h];
                let t = fmul(x, a);
                let u = fmul(x, b);
                lemma_fmul_distributes_fsub(a, 1, x);
                lemma_fmul_basics(a);
                lemma_freduce(a);
                assert(fmul(s, a) == fsub(a, t));
                lemma_fmul_distributes_fadd(x, a, b);
                lemma_fsub_fadd_chain(a, t, u);
            }
        }
        lemma_eval_coeffs_linear(lo, su, s, x, zt);
        assert(mle_eval(e, z) == mle_sum(e, z, h + h));
        assert(mle_sum(e.subrange(h, e.len() as int), zt, h) == mle_eval(
            e.subrange(h, e.len() as int),
            zt,
        ));
    }
}

} // verus!
