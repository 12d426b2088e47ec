//! Shared polynomial machinery: points in the field's affine space, the
//! mathematical model of multilinear polynomials in coefficient and
//! evaluation form, and the equality (Lagrange) weights over the Boolean
//! hypercube.
//!
//! Index convention: a hypercube index `i` in `[0, 2^n)` stands for the point
//! whose coordinate `j` is bit `n-1-j` of `i`, so the first coordinate is the
//! most significant bit.

pub mod coeffs;
pub mod evals;

use vstd::prelude::*;
use vstd::arithmetic::power2::{
    lemma2_to64, lemma2_to64_rest, lemma_pow2_pos, lemma_pow2_strictly_increases,
    lemma_pow2_unfold, pow2,
};

use crate::field::{
    fadd, fmul, fsub, lemma_fadd_zero, lemma_fmul_basics, lemma_freduce, Fp, MODULUS,
};

verus! {

/// The field representatives of a sequence of field elements.
pub open spec fn vals(s: Seq<Fp>) -> Seq<int> {
    s.map_values(|x: Fp| x.val())
}

/// All entries are reduced field representatives.
pub open spec fn in_field(s: Seq<int>) -> bool {
    forall|i: int| 0 <= i < s.len() ==> 0 <= #[trigger] s[i] < crate::field::MODULUS as int
}

/// The equality weight `eq_z(x)` of point `z` at the hypercube point with
/// index `i`: the product over coordinates of `z_j` where the corresponding
/// bit of `i` is one and `1 - z_j` where it is zero.
pub open spec fn eq_weight(z: Seq<int>, i: int) -> int
    decreases z.len(),
{
    if z.len() == 0 {
        1
    } else {
        let half = pow2((z.len() - 1) as nat) as int;
        if i < half {
            fmul(fsub(1, z[0]), eq_weight(z.subrange(1, z.len() as int), i))
        } else {
            fmul(z[0], eq_weight(z.subrange(1, z.len() as int), i - half))
        }
    }
}

/// One step of partial evaluation: plug `x` in for the first variable of the
/// coefficient vector `c`, halving its length.
pub open spec fn fold_first(c: Seq<int>, x: int) -> Seq<int> {
    Seq::new((c.len() / 2) as nat, |i: int| fadd(c[i], fmul(x, c[i + c.len() / 2])))
}

/// Evaluation of the multilinear polynomial with coefficient vector `c` at
/// the point `z`, by successive partial evaluation along each variable.
pub open spec fn eval_coeffs(c: Seq<int>, z: Seq<int>) -> int
    decreases z.len(),
{
    if z.len() == 0 {
        if c.len() == 0 {
            0
        } else {
            c[0]
        }
    } else {
        eval_coeffs(fold_first(c, z[0]), z.subrange(1, z.len() as int))
    }
}

/// Partial evaluation of the first `|r|` variables at `r`.
pub open spec fn fold_coeffs(c: Seq<int>, r: Seq<int>) -> Seq<int>
    decreases r.len(),
{
    if r.len() == 0 {
        c
    } else {
        fold_coeffs(fold_first(c, r[0]), r.subrange(1, r.len() as int))
    }
}

/// Pointwise field addition of two sequences (length of the first).
pub open spec fn seq_fadd(a: Seq<int>, b: Seq<int>) -> Seq<int> {
    Seq::new(a.len(), |i: int| fadd(a[i], b[i]))
}

/// Pointwise field subtraction of two sequences (length of the first).
pub open spec fn seq_fsub(a: Seq<int>, b: Seq<int>) -> Seq<int> {
    Seq::new(a.len(), |i: int| fsub(a[i], b[i]))
}

/// The evaluations over the Boolean hypercube of the polynomial with
/// coefficient vector `c`: the butterfly transform. The low half holds the
/// evaluations with the first variable at zero, the high half those with the
/// first variable at one.
pub open spec fn evals_of(c: Seq<int>) -> Seq<int>
    decreases c.len(),
{
    if c.len() <= 1 {
        c
    } else {
        let half = c.len() as int / 2;
        let lo = c.subrange(0, half);
        let hi = c.subrange(half, c.len() as int);
        evals_of(lo) + evals_of(seq_fadd(lo, hi))
    }
}

/// The inverse butterfly: the coefficient vector of the polynomial whose
/// hypercube evaluations are `e`.
pub open spec fn coeffs_of(e: Seq<int>) -> Seq<int>
    decreases e.len(),
{
    if e.len() <= 1 {
        e
    } else {
        let half = e.len() as int / 2;
        let l = coeffs_of(e.subrange(0, half));
        let h = coeffs_of(e.subrange(half, e.len() as int));
        l + seq_fsub(h, l)
    }
}

/// Partial sum of the first `k` terms of `sum_i eq_z(i) * e[i]`.
pub open spec fn mle_sum(e: Seq<int>, z: Seq<int>, k: int) -> int
    decreases k,
{
    if k <= 0 {
        0
    } else {
        fadd(mle_sum(e, z, k - 1), fmul(eq_weight(z, k - 1), e[k - 1]))
    }
}

/// The multilinear extension of the evaluation table `e`, evaluated at `z`:
/// `sum_i eq_z(i) * e[i]` over the whole hypercube.
pub open spec fn mle_eval(e: Seq<int>, z: Seq<int>) -> int {
    mle_sum(e, z, e.len() as int)
}

/// The `{0,1}`-point with hypercube index `i` among `n` variables: the first
/// coordinate is one exactly when `i` falls in the upper half of `[0, 2^n)`,
/// and so on down.
pub open spec fn bin_point(n: nat, i: int) -> Seq<int>
    decreases n,
{
    if n == 0 {
        Seq::empty()
    } else {
        let half = pow2((n - 1) as nat) as int;
        if i >= half {
            seq![1int] + bin_point((n - 1) as nat, i - half)
        } else {
            seq![0int] + bin_point((n - 1) as nat, i)
        }
    }
}

/// The pointwise linear combination `alpha * a + beta * b` of two tables.
pub open spec fn lin_comb(a: Seq<int>, b: Seq<int>, alpha: int, beta: int) -> Seq<int> {
    Seq::new(a.len(), |i: int| fadd(fmul(alpha, a[i]), fmul(beta, b[i])))
}

/// A point of the Boolean hypercube has `n` coordinates.
pub proof fn lemma_bin_point_len(n: nat, i: int)
    ensures
        bin_point(n, i).len() == n,
    decreases n,
{
    if n > 0 {
        let half = pow2((n - 1) as nat) as int;
        if i >= half {
            lemma_bin_point_len((n - 1) as nat, i - half);
        } else {
            lemma_bin_point_len((n - 1) as nat, i);
        }
    }
}

/// Law: the equality weight of a Boolean point is an indicator; it is one at
/// the point's own index and zero at every other hypercube index.
pub proof fn lemma_eq_weight_indicator(n: nat, i: int, j: int)
    requires
        0 <= i < pow2(n),
        0 <= j < pow2(n),
    ensures
        eq_weight(bin_point(n, i), j) == if i == j {
            1int
        } else {
            0int
        },
    decreases n,
{
    lemma_bin_point_len(n, i);
    if n == 0 {
        lemma2_to64();
    } else {
        lemma_pow2_unfold(n);
        let half = pow2((n - 1) as nat) as int;
        let bp = bin_point(n, i);
        let itail: int = if i >= half {
            i - half
        } else {
            i
        };
        let jtail: int = if j >= half {
            j - half
        } else {
            j
        };
        assert(bp.subrange(1, bp.len() as int) =~= bin_point((n - 1) as nat, itail));
        lemma_eq_weight_indicator((n - 1) as nat, itail, jtail);
        let rec = eq_weight(bin_point((n - 1) as nat, itail), jtail);
        lemma_freduce(rec);
        if j < half {
            if i < half {
                lemma_freduce(1);
                lemma_fmul_basics(rec);
                assert(eq_weight(bp, j) == rec);
            } else {
                lemma_freduce(0);
                lemma_fmul_basics(rec);
                assert(eq_weight(bp, j) == 0);
            }
        } else {
            if i >= half {
                lemma_fmul_basics(rec);
                assert(eq_weight(bp, j) == rec);
            } else {
                lemma_fmul_basics(rec);
                assert(eq_weight(bp, j) == 0);
            }
        }
    }
}

/// The partial sums of the extension at a Boolean point: zero until the
/// point's own index is passed, then the table entry there.
proof fn lemma_mle_sum_indicator(e: Seq<int>, n: nat, i: int, k: int)
    requires
        in_field(e),
        e.len() == pow2(n),
        0 <= i < e.len(),
        0 <= k <= e.len(),
    ensures
        mle_sum(e, bin_point(n, i), k) == if k > i {
            e[i]
        } else {
            0int
        },
    decreases k,
{
    if k > 0 {
        lemma_mle_sum_indicator(e, n, i, k - 1);
        lemma_eq_weight_indicator(n, i, k - 1);
        let prev = mle_sum(e, bin_point(n, i), k - 1);
        if k - 1 == i {
            lemma_fmul_basics(e[i]);
            lemma_freduce(e[i]);
            lemma_fadd_zero(e[i]);
        } else {
            lemma_fmul_basics(e[k - 1]);
            if k - 1 > i {
                lemma_fadd_zero(e[i]);
            } else {
                lemma_fadd_zero(0);
                lemma_freduce(0);
            }
        }
    }
}

/// Law: the multilinear extension of a table agrees with the table on the
/// Boolean hypercube: at the point with index `i` it returns `e[i]`.
pub proof fn lemma_mle_extends_table(e: Seq<int>, n: nat, i: int)
    requires
        in_field(e),
        e.len() == pow2(n),
        0 <= i < e.len(),
    ensures
        mle_eval(e, bin_point(n, i)) == e[i],
{
    lemma_mle_sum_indicator(e, n, i, e.len() as int);
}

/// An ordered sequence of field elements, a point in the field's affine
/// `n`-space. Zero-variable points are legal.
#[derive(Debug, Clone)]
pub struct MultilinearPoint(pub Vec<Fp>);

impl View for MultilinearPoint {
    type V = Seq<int>;

    open spec fn view(&self) -> Seq<int> {
        vals(self.0@)
    }
}

impl MultilinearPoint {
    /// The number of coordinates.
    pub fn n_variables(&self) -> (n: usize)
        ensures
            n == self@.len(),
    {
        self.0.len()
    }

    /// The point in `{0,1}^n` with hypercube index `point`; the first
    /// coordinate is the most significant bit.
    pub fn from_binary_hypercube_point(point: u64, num_variables: usize) -> (r: Self)
        requires
            num_variables < 64,
            point < pow2(num_variables as nat),
        ensures
            r@ == bin_point(num_variables as nat, point as int),
            r@.len() == num_variables,
    {
        proof {
            lemma_bin_point_len(num_variables as nat, point as int);
        }
        let mut coords: Vec<Fp> = Vec::new();
        let mut rem: u64 = point;
        let mut j: usize = 0;
        while j < num_variables
            invariant
                j <= num_variables,
                num_variables < 64,
                coords@.len() == j,
                rem < pow2((num_variables - j) as nat),
                bin_point(num_variables as nat, point as int) == vals(coords@) + bin_point(
                    (num_variables - j) as nat,
                    rem as int,
                ),
            decreases num_variables - j,
        {
            proof {
                lemma_pow2_unfold((num_variables - j) as nat);
            }
            let half: u64 = pow2_u64((num_variables - j - 1) as u64);
            let ghost prev = coords@;
            let ghost prev_rem = rem as int;
            if rem >= half {
                coords.push(Fp::one());
                rem = rem - half;
            } else {
                coords.push(Fp::zero());
            }
            j = j + 1;
            proof {
                assert(vals(coords@) =~= vals(prev) + seq![coords@[j - 1].val()]);
                assert(bin_point((num_variables - j + 1) as nat, prev_rem) == seq![
                    coords@[j - 1].val(),
                ] + bin_point((num_variables - j) as nat, rem as int));
                assert(vals(coords@) + bin_point((num_variables - j) as nat, rem as int)
                    =~= (vals(prev) + bin_point((num_variables - j + 1) as nat, prev_rem)));
            }
        }
        proof {
            assert(bin_point(0, rem as int) =~= Seq::<int>::empty());
            assert(vals(coords@) + bin_point(0, rem as int) =~= vals(coords@));
        }
        MultilinearPoint(coords)
    }
}

/// `2^e` as a machine integer, for exponents below the word size.
pub fn pow2_u64(e: u64) -> (r: u64)
    requires
        e < 64,
    ensures
        r == pow2(e as nat),
        r >= 1,
{
    proof {
        lemma2_to64();
        lemma2_to64_rest();
        lemma_pow2_pos(e as nat);
    }
    let mut r: u64 = 1;
    let mut k: u64 = 0;
    while k < e
        invariant
            k <= e,
            e < 64,
            r == pow2(k as nat),
            pow2(63nat) == 0x8000000000000000,
        decreases e - k,
    {
        proof {
            lemma_pow2_unfold((k + 1) as nat);
            if k + 1 < 63 {
                lemma_pow2_strictly_increases((k + 1) as nat, 63nat);
            }
        }
        r = r * 2;
        k = k + 1;
    }
    r
}

/// The number of variables of a table whose length is a power of two.
pub fn log2_exact(len: usize) -> (n: usize)
    requires
        exists|k: nat| len == pow2(k),
    ensures
        len == pow2(n as nat),
        n < 64,
{
    proof {
        lemma2_to64();
        lemma2_to64_rest();
        let k0 = choose|k: nat| len == pow2(k);
        lemma_pow2_pos(k0);
    }
    let mut m: usize = len;
    let mut n: usize = 0;
    while m > 1
        invariant
            m >= 1,
            exists|k: nat| m == pow2(k),
            len == m as nat * pow2(n as nat),
            n < 64,
            pow2(64nat) == 0x10000000000000000,
        decreases m,
    {
        proof {
            let k = choose|k: nat| m == pow2(k);
            if k == 0 {
                lemma2_to64();
            }
            lemma_pow2_unfold(k);
            lemma_pow2_pos((k - 1) as nat);
            assert(m / 2 == pow2((k - 1) as nat));
            lemma_pow2_unfold((n + 1) as nat);
            assert((m / 2) as nat * pow2((n + 1) as nat) == len) by (nonlinear_arith)
                requires
                    len == m as nat * pow2(n as nat),
                    m == 2 * (m / 2) as nat,
                    pow2((n + 1) as nat) == 2 * pow2(n as nat),
            ;
            assert(n + 1 < 64) by {
                if n + 1 >= 64 {
                    assert(pow2((n + 1) as nat) >= pow2(64nat)) by {
                        if n + 1 > 64 {
                            lemma_pow2_strictly_increases(64nat, (n + 1) as nat);
                        }
                    }
                    assert(len as nat >= (m / 2) as nat * pow2(64nat)) by (nonlinear_arith)
                        requires
                            (m / 2) as nat * pow2((n + 1) as nat) == len,
                            pow2((n + 1) as nat) >= pow2(64nat),
                    ;
                    assert(len as nat >= pow2(64nat)) by (nonlinear_arith)
                        requires
                            len as nat >= (m / 2) as nat * pow2(64nat),
                            (m / 2) as nat >= 1,
                    ;
                }
            }
        }
        m = m / 2;
        n = n + 1;
    }
    proof {
        assert(m == 1);
        assert(len == pow2(n as nat)) by (nonlinear_arith)
            requires
                len == m as nat * pow2(n as nat),
                m == 1,
        ;
    }
    n
}

} // verus!
