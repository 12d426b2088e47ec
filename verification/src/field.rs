//! The prime field the protocol works over: integers modulo the 64-bit prime
//! `2^64 - 2^32 + 1`, with verified addition, subtraction and multiplication.

use vstd::prelude::*;
use vstd::arithmetic::div_mod::{
    lemma_add_mod_noop, lemma_add_mod_noop_right, lemma_mod_bound, lemma_mod_twice,
    lemma_mul_mod_noop_general, lemma_mul_mod_noop_right, lemma_small_mod, lemma_sub_mod_noop,
    lemma_sub_mod_noop_right,
};
use vstd::arithmetic::mul::{
    lemma_mul_is_associative, lemma_mul_is_distributive_add, lemma_mul_is_distributive_sub,
};

verus! {

/// The field modulus: the 64-bit prime `2^64 - 2^32 + 1`.
pub const MODULUS: u64 = 0xFFFF_FFFF_0000_0001;

/// The inverse of two modulo `MODULUS`, i.e. `(MODULUS + 1) / 2`.
pub const HALF: u64 = 0x7FFF_FFFF_8000_0001;

/// Field addition on representatives: `(a + b) mod MODULUS`.
pub open spec fn fadd(a: int, b: int) -> int {
    (a + b) % (MODULUS as int)
}

/// Field subtraction on representatives: `(a - b) mod MODULUS`.
pub open spec fn fsub(a: int, b: int) -> int {
    (a - b) % (MODULUS as int)
}

/// Field multiplication on representatives: `(a * b) mod MODULUS`.
pub open spec fn fmul(a: int, b: int) -> int {
    (a * b) % (MODULUS as int)
}

/// An element of the prime field, kept as its canonical representative
/// in `[0, MODULUS)`.
#[derive(Clone, Copy, PartialEq, Eq, Structural, Debug, Hash)]
pub struct Fp {
    v: u64,
}

impl Fp {
    /// Canonical representatives are reduced.
    #[verifier::type_invariant]
    spec fn reduced(self) -> bool {
        self.v < MODULUS
    }

    /// The canonical representative of this element, as a mathematical integer.
    pub closed spec fn val(self) -> int {
        (self.v as int) % (MODULUS as int)
    }

    /// The element with representative `x mod MODULUS`.
    pub fn from_u64(x: u64) -> (r: Self)
        ensures
            r.val() == (x as int) % (MODULUS as int),
    {
        if x >= MODULUS {
            proof {
                lemma_sub_mod_noop(x as int, MODULUS as int, MODULUS as int);
                lemma_small_mod((x - MODULUS) as nat, MODULUS as nat);
                lemma_mod_twice(x as int - MODULUS as int, MODULUS as int);
                assert((MODULUS as int) % (MODULUS as int) == 0) by {
                    lemma_small_mod(0nat, MODULUS as nat);
                    lemma_add_mod_noop_right(0, MODULUS as int, MODULUS as int);
                }
            }
            Fp { v: x - MODULUS }
        } else {
            proof {
                lemma_small_mod(x as nat, MODULUS as nat);
            }
            Fp { v: x }
        }
    }

    /// The additive identity.
    pub fn zero() -> (r: Self)
        ensures
            r.val() == 0,
    {
        proof {
            lemma_small_mod(0nat, MODULUS as nat);
        }
        Fp { v: 0 }
    }

    /// The multiplicative identity.
    pub fn one() -> (r: Self)
        ensures
            r.val() == 1,
    {
        proof {
            lemma_small_mod(1nat, MODULUS as nat);
        }
        Fp { v: 1 }
    }

    /// Field addition.
    pub fn add(self, rhs: Fp) -> (r: Fp)
        ensures
            r.val() == fadd(self.val(), rhs.val()),
    {
        proof {
            use_type_invariant(self);
            use_type_invariant(rhs);
            lemma_small_mod(self.v as nat, MODULUS as nat);
            lemma_small_mod(rhs.v as nat, MODULUS as nat);
        }
        let s: u128 = self.v as u128 + rhs.v as u128;
        if s >= MODULUS as u128 {
            proof {
                lemma_sub_mod_noop(s as int, MODULUS as int, MODULUS as int);
                lemma_small_mod((s - MODULUS as u128) as nat, MODULUS as nat);
                lemma_mod_twice(s as int - MODULUS as int, MODULUS as int);
                assert((MODULUS as int) % (MODULUS as int) == 0) by {
                    lemma_small_mod(0nat, MODULUS as nat);
                    lemma_add_mod_noop_right(0, MODULUS as int, MODULUS as int);
                }
            }
            Fp { v: (s - MODULUS as u128) as u64 }
        } else {
            proof {
                lemma_small_mod(s as nat, MODULUS as nat);
                lemma_mod_twice(s as int, MODULUS as int);
            }
            Fp { v: s as u64 }
        }
    }

    /// Field subtraction.
    pub fn sub(self, rhs: Fp) -> (r: Fp)
        ensures
            r.val() == fsub(self.val(), rhs.val()),
    {
        proof {
            use_type_invariant(self);
            use_type_invariant(rhs);
            lemma_small_mod(self.v as nat, MODULUS as nat);
            lemma_small_mod(rhs.v as nat, MODULUS as nat);
        }
        if self.v >= rhs.v {
            proof {
                lemma_small_mod((self.v - rhs.v) as nat, MODULUS as nat);
                lemma_mod_twice(self.v as int - rhs.v as int, MODULUS as int);
            }
            Fp { v: self.v - rhs.v }
        } else {
            proof {
                lemma_add_mod_noop_right(
                    self.v as int - rhs.v as int,
                    MODULUS as int,
                    MODULUS as int,
                );
                assert((MODULUS as int) % (MODULUS as int) == 0) by {
                    lemma_small_mod(0nat, MODULUS as nat);
                    lemma_add_mod_noop_right(0, MODULUS as int, MODULUS as int);
                }
                lemma_small_mod((self.v + (MODULUS - rhs.v)) as nat, MODULUS as nat);
                lemma_mod_twice(self.v as int + (MODULUS as int - rhs.v as int), MODULUS as int);
            }
            Fp { v: self.v + (MODULUS - rhs.v) }
        }
    }

    /// Field multiplication.
    pub fn mul(self, rhs: Fp) -> (r: Fp)
        ensures
            r.val() == fmul(self.val(), rhs.val()),
    {
        proof {
            use_type_invariant(self);
            use_type_invariant(rhs);
            lemma_small_mod(self.v as nat, MODULUS as nat);
            lemma_small_mod(rhs.v as nat, MODULUS as nat);
            assert((self.v as u128) * (rhs.v as u128) < u128::MAX) by (nonlinear_arith)
                requires
                    self.v < 0x1_0000_0000_0000_0000u128,
                    rhs.v < 0x1_0000_0000_0000_0000u128,
            ;
        }
        let p: u128 = (self.v as u128) * (rhs.v as u128);
        proof {
            lemma_mod_bound(p as int, MODULUS as int);
        }
        let m: u128 = p % (MODULUS as u128);
        proof {
            lemma_mod_twice(p as int, MODULUS as int);
        }
        Fp { v: m as u64 }
    }
}

/// Every element's representative lies in `[0, MODULUS)`.
pub broadcast proof fn lemma_val_bound(x: Fp)
    ensures
        0 <= #[trigger] x.val() < MODULUS as int,
{
    lemma_mod_bound(x.v as int, MODULUS as int);
}

/// Field values are fixed points of reduction.
pub proof fn lemma_freduce(a: int)
    requires
        0 <= a < MODULUS as int,
    ensures
        a % (MODULUS as int) == a,
{
    lemma_small_mod(a as nat, MODULUS as nat);
}

/// Reducing an argument of `fadd` does not change the result.
pub proof fn lemma_fadd_noop(a: int, b: int)
    ensures
        fadd(a % (MODULUS as int), b) == fadd(a, b),
        fadd(a, b % (MODULUS as int)) == fadd(a, b),
        0 <= fadd(a, b) < MODULUS as int,
{
    let m = MODULUS as int;
    lemma_add_mod_noop_right(b, a, m);
    lemma_add_mod_noop_right(a, b, m);
    lemma_mod_bound(a + b, m);
}

/// Reducing an argument of `fsub` does not change the result.
pub proof fn lemma_fsub_noop(a: int, b: int)
    ensures
        fsub(a % (MODULUS as int), b) == fsub(a, b),
        fsub(a, b % (MODULUS as int)) == fsub(a, b),
        0 <= fsub(a, b) < MODULUS as int,
{
    let m = MODULUS as int;
    lemma_sub_mod_noop(a, b, m);
    lemma_sub_mod_noop_right(a, b, m);
    lemma_add_mod_noop_right(-b, a, m);
    lemma_mod_bound(a - b, m);
}

/// Reducing an argument of `fmul` does not change the result.
pub proof fn lemma_fmul_noop(a: int, b: int)
    ensures
        fmul(a % (MODULUS as int), b) == fmul(a, b),
        fmul(a, b % (MODULUS as int)) == fmul(a, b),
        0 <= fmul(a, b) < MODULUS as int,
{
    let m = MODULUS as int;
    lemma_mul_mod_noop_general(a, b, m);
    lemma_mod_bound(a * b, m);
}

/// Associativity of field addition.
pub proof fn lemma_fadd_assoc(a: int, b: int, c: int)
    ensures
        fadd(fadd(a, b), c) == fadd(a, fadd(b, c)),
{
    let m = MODULUS as int;
    lemma_add_mod_noop_right(c, a + b, m);
    lemma_add_mod_noop_right(a, b + c, m);
}

/// Adding zero leaves a reduced value unchanged.
pub proof fn lemma_fadd_zero(a: int)
    requires
        0 <= a < MODULUS as int,
    ensures
        fadd(a, 0) == a,
        fadd(0, a) == a,
{
    lemma_small_mod(a as nat, MODULUS as nat);
}

/// Multiplying by zero and by one.
pub proof fn lemma_fmul_basics(a: int)
    ensures
        fmul(a, 0) == 0,
        fmul(0, a) == 0,
        fmul(a, 1) == a % (MODULUS as int),
        fmul(1, a) == a % (MODULUS as int),
{
    lemma_small_mod(0nat, MODULUS as nat);
}

/// Associativity of field multiplication.
pub proof fn lemma_fmul_assoc(a: int, b: int, c: int)
    ensures
        fmul(fmul(a, b), c) == fmul(a, fmul(b, c)),
{
    let m = MODULUS as int;
    lemma_mul_mod_noop_general(a * b, c, m);
    lemma_mul_mod_noop_general(a, b * c, m);
    lemma_mul_is_associative(a, b, c);
}

/// Field multiplication distributes over field addition.
pub proof fn lemma_fmul_distributes_fadd(a: int, b: int, c: int)
    ensures
        fmul(a, fadd(b, c)) == fadd(fmul(a, b), fmul(a, c)),
{
    let m = MODULUS as int;
    lemma_mul_mod_noop_general(a, b + c, m);
    lemma_mul_is_distributive_add(a, b, c);
    lemma_add_mod_noop(a * b, a * c, m);
}

/// Field multiplication distributes over field subtraction.
pub proof fn lemma_fmul_distributes_fsub(a: int, b: int, c: int)
    ensures
        fmul(a, fsub(b, c)) == fsub(fmul(a, b), fmul(a, c)),
{
    let m = MODULUS as int;
    lemma_mul_mod_noop_general(a, b - c, m);
    lemma_mul_is_distributive_sub(a, b, c);
    lemma_sub_mod_noop(a * b, a * c, m);
}

/// Replacing a summand by one congruent to it keeps the residue.
pub proof fn lemma_cong_add(x1: int, x2: int, r: int)
    requires
        x1 % (MODULUS as int) == x2 % (MODULUS as int),
    ensures
        (x1 + r) % (MODULUS as int) == (x2 + r) % (MODULUS as int),
{
    let m = MODULUS as int;
    lemma_add_mod_noop(x1, r, m);
    lemma_add_mod_noop(x2, r, m);
}

/// A reduced factor may be replaced by the value it reduces.
pub proof fn lemma_cong_mul(c: int, x: int)
    ensures
        (c * (x % (MODULUS as int))) % (MODULUS as int) == (c * x) % (MODULUS as int),
{
    lemma_mul_mod_noop_right(c, x, MODULUS as int);
}

/// A negated reduced value is congruent to the negated value.
pub proof fn lemma_cong_neg(x: int)
    ensures
        (-(x % (MODULUS as int))) % (MODULUS as int) == (-x) % (MODULUS as int),
{
    lemma_sub_mod_noop_right(0, x, MODULUS as int);
}

/// Four summands may be regrouped freely.
pub proof fn lemma_fadd4(a: int, b: int, c: int, d: int)
    ensures
        fadd(fadd(a, b), fadd(c, d)) == fadd(fadd(a, c), fadd(b, d)),
{
    let m = MODULUS as int;
    lemma_add_mod_noop(a + b, c + d, m);
    lemma_add_mod_noop(a + c, b + d, m);
}

/// A subtracted value cancels against the same value added next to it.
pub proof fn lemma_fsub_fadd_chain(a: int, t: int, u: int)
    ensures
        fadd(fsub(a, t), fadd(t, u)) == fadd(a, u),
{
    let m = MODULUS as int;
    lemma_add_mod_noop(a - t, t + u, m);
}

/// Addition and subtraction of the same value cancel.
pub proof fn lemma_fadd_fsub_cancel(a: int, b: int)
    ensures
        fadd(a, fsub(b, a)) == b % (MODULUS as int),
        fsub(fadd(a, b), a) == b % (MODULUS as int),
{
    let m = MODULUS as int;
    lemma_add_mod_noop_right(a, b - a, m);
    lemma_sub_mod_noop(a + b, a, m);
    lemma_mod_twice(b, m);
}

} // verus!
