//! Arithmetic in the prime field of order `P = 2^8 + 1`.
//!
//! `P` is a Fermat prime, so the multiplicative group is cyclic of order
//! `2^8` and every power-of-two domain up to `2^8` has a generator. All
//! element values fit comfortably in a `u64`, and a product of two reduced
//! values fits in a `u64` as well, so no widening is ever needed.

use vstd::prelude::*;
use vstd::arithmetic::div_mod::*;
use vstd::arithmetic::mul::*;
use vstd::arithmetic::power::*;
use vstd::arithmetic::power2::*;

verus! {

/// The field modulus, a Fermat prime.
pub const P: u64 = 257;

/// A generator of the full multiplicative group of the field (order `2^8`).
pub const GENERATOR: u64 = 3;

/// `log2` of the order of the multiplicative group: the largest `k` such
/// that a multiplicative subgroup of size `2^k` exists.
pub const TWO_ADICITY: u64 = 8;

/// Number of bytes in the canonical encoding of one field element.
pub const ELEMENT_BYTES: usize = 8;

/// Field addition on reduced representatives.
pub open spec fn fadd(a: int, b: int) -> int {
    (a + b) % (P as int)
}

/// Field subtraction on reduced representatives.
pub open spec fn fsub(a: int, b: int) -> int {
    (a - b) % (P as int)
}

/// Field multiplication on reduced representatives.
pub open spec fn fmul(a: int, b: int) -> int {
    (a * b) % (P as int)
}

/// Field exponentiation on reduced representatives.
pub open spec fn fpow(a: int, e: nat) -> int {
    pow(a, e) % (P as int)
}

/// The multiplicative inverse of `a`, as the unique reduced value whose
/// product with `a` is one. Meaningful only for `a` with `a % P != 0`;
/// see `lemma_inverse_exists` and `lemma_inverse_unique`.
pub open spec fn finv(a: int) -> int {
    choose|y: int| 0 <= y < P && fmul(a, y) == 1
}

/// Field division: multiplication by the inverse of the denominator.
pub open spec fn fdiv(a: int, b: int) -> int {
    fmul(a, finv(b))
}

/// An element of the field: a reduced representative below `P`.
#[derive(Clone, Copy, PartialEq, Eq, Structural, Debug, Hash)]
pub struct Felt {
    pub v: u64,
}

impl Felt {
    /// A value represents a field element when it is reduced.
    pub open spec fn wf(self) -> bool {
        self.v < P
    }

    /// The element as a mathematical integer.
    pub open spec fn val(self) -> int {
        self.v as int
    }

    /// The additive identity.
    pub fn zero() -> (r: Felt)
        ensures
            r.wf(),
            r.val() == 0,
    {
        Felt { v: 0 }
    }

    /// The multiplicative identity.
    pub fn one() -> (r: Felt)
        ensures
            r.wf(),
            r.val() == 1,
    {
        Felt { v: 1 }
    }

    /// Builds an element from an already-reduced value.
    pub fn new(v: u64) -> (r: Felt)
        requires
            v < P,
        ensures
            r.wf(),
            r.val() == v,
    {
        Felt { v }
    }

    /// Field addition.
    pub fn add(self, other: Felt) -> (r: Felt)
        requires
            self.wf(),
            other.wf(),
        ensures
            r.wf(),
            r.val() == fadd(self.val(), other.val()),
    {
        let s = self.v + other.v;
        if s >= P {
            proof {
                lemma_mod_sub_multiples_vanish(s as int, P as int);
                lemma_small_mod((s - P) as nat, P as nat);
            }
            Felt { v: s - P }
        } else {
            proof {
                lemma_small_mod(s as nat, P as nat);
            }
            Felt { v: s }
        }
    }

    /// Field subtraction.
    pub fn sub(self, other: Felt) -> (r: Felt)
        requires
            self.wf(),
            other.wf(),
        ensures
            r.wf(),
            r.val() == fsub(self.val(), other.val()),
    {
        if self.v >= other.v {
            proof {
                lemma_small_mod((self.v - other.v) as nat, P as nat);
            }
            Felt { v: self.v - other.v }
        } else {
            proof {
                lemma_mod_add_multiples_vanish(self.v - other.v, P as int);
                lemma_small_mod((self.v + P - other.v) as nat, P as nat);
            }
            Felt { v: self.v + P - other.v }
        }
    }

    /// Field negation.
    pub fn neg(self) -> (r: Felt)
        requires
            self.wf(),
        ensures
            r.wf(),
            r.val() == fsub(0, self.val()),
    {
        Felt::zero().sub(self)
    }

    /// Field multiplication.
    pub fn mul(self, other: Felt) -> (r: Felt)
        requires
            self.wf(),
            other.wf(),
        ensures
            r.wf(),
            r.val() == fmul(self.val(), other.val()),
    {
        proof {
            lemma_mul_upper_bound(self.v as int, (P - 1) as int, other.v as int, (P - 1) as int);
            lemma_mul_nonnegative(self.v as int, other.v as int);
            lemma_mod_bound((self.v * other.v) as int, P as int);
        }
        let p = self.v * other.v;
        Felt { v: p % P }
    }

    /// The conjugate of the element: the identity involution, since this
    /// field is used without an extension.
    pub fn conjugate(self) -> (r: Felt)
        ensures
            r == self,
    {
        self
    }
}

// ALGEBRAIC LEMMAS
// ================================================================================================

/// Multiplication is commutative.
pub proof fn lemma_fmul_comm(a: int, b: int)
    ensures
        fmul(a, b) == fmul(b, a),
{
    lemma_mul_is_commutative(a, b);
}

/// Multiplication is associative.
pub proof fn lemma_fmul_assoc(a: int, b: int, c: int)
    ensures
        fmul(fmul(a, b), c) == fmul(a, fmul(b, c)),
{
    lemma_mul_mod_noop_left(a * b, c, P as int);
    lemma_mul_mod_noop_right(a, b * c, P as int);
    lemma_mul_is_associative(a, b, c);
}

/// Multiplication distributes over addition.
pub proof fn lemma_fmul_distrib(a: int, b: int, c: int)
    ensures
        fmul(a, fadd(b, c)) == fadd(fmul(a, b), fmul(a, c)),
{
    lemma_mul_mod_noop_right(a, b + c, P as int);
    lemma_mul_is_distributive_add(a, b, c);
    lemma_add_mod_noop(a * b, a * c, P as int);
}

/// One is the multiplicative identity on reduced values.
pub proof fn lemma_fmul_one(a: int)
    requires
        0 <= a < P as int,
    ensures
        fmul(1, a) == a,
        fmul(a, 1) == a,
{
    lemma_mul_basics(a);
    lemma_small_mod(a as nat, P as nat);
}

/// Addition is associative.
pub proof fn lemma_fadd_assoc(a: int, b: int, c: int)
    ensures
        fadd(fadd(a, b), c) == fadd(a, fadd(b, c)),
{
    lemma_add_mod_noop(a + b, c, P as int);
    lemma_add_mod_noop_right(a, b + c, P as int);
}

/// Adding a nonzero reduced value changes a reduced value.
pub proof fn lemma_fadd_cancel(s: int, d: int)
    requires
        0 <= s < P as int,
        0 < d < P as int,
    ensures
        fadd(s, d) != s,
{
    if s + d < P {
        lemma_small_mod((s + d) as nat, P as nat);
    } else {
        lemma_mod_sub_multiples_vanish(s + d, P as int);
        lemma_small_mod((s + d - P) as nat, P as nat);
    }
}

/// On reduced values, subtraction is zero exactly on equal values.
pub proof fn lemma_fsub_zero(a: int, b: int)
    requires
        0 <= a < P as int,
        0 <= b < P as int,
    ensures
        (fsub(a, b) == 0) <==> (a == b),
{
    if a >= b {
        lemma_small_mod((a - b) as nat, P as nat);
    } else {
        lemma_mod_add_multiples_vanish(a - b, P as int);
        lemma_small_mod((a - b + P) as nat, P as nat);
    }
}

/// Raising to the zeroth power gives one.
pub proof fn lemma_fpow_zero(a: int)
    ensures
        fpow(a, 0) == 1,
{
    lemma_pow0(a);
    lemma_small_mod(1, P as nat);
}

/// Unfolding one step of exponentiation.
pub proof fn lemma_fpow_succ(a: int, e: nat)
    ensures
        fpow(a, e + 1) == fmul(a, fpow(a, e)),
{
    lemma_pow_adds(a, 1, e);
    lemma_pow1(a);
    lemma_mul_mod_noop_right(a, pow(a, e), P as int);
}

/// Exponents add under multiplication of powers.
pub proof fn lemma_fpow_add(a: int, e1: nat, e2: nat)
    ensures
        fpow(a, e1 + e2) == fmul(fpow(a, e1), fpow(a, e2)),
{
    lemma_pow_adds(a, e1, e2);
    lemma_mul_mod_noop_general(pow(a, e1), pow(a, e2), P as int);
}

/// A power with a doubled exponent is a power of the square.
pub proof fn lemma_fpow_square(a: int, e: nat)
    ensures
        fpow(a, 2 * e) == fpow(fmul(a, a), e),
{
    lemma_pow_multiplies(a, 2, e);
    lemma_pow_adds(a, 1, 1);
    lemma_pow1(a);
    lemma_pow_mod_noop(a * a, e, P as int);
}

/// Every result of `fadd`, `fsub`, `fmul`, `fpow` is a reduced value.
pub proof fn lemma_field_bounds(a: int, b: int, e: nat)
    ensures
        0 <= fadd(a, b) < P as int,
        0 <= fsub(a, b) < P as int,
        0 <= fmul(a, b) < P as int,
        0 <= fpow(a, e) < P as int,
{
    lemma_mod_bound(a + b, P as int);
    lemma_mod_bound(a - b, P as int);
    lemma_mod_bound(a * b, P as int);
    lemma_mod_bound(pow(a, e), P as int);
}

// PRIMALITY OF THE MODULUS
// ================================================================================================

/// True when `n` is divisible by some `d'` with `d <= d'` and `d' * d' <= n`.
pub open spec fn has_factor_from(n: nat, d: nat) -> bool
    decreases n - d,
    via has_factor_from_decreases
{
    if d < 1 || d * d > n {
        false
    } else if n % d == 0 {
        true
    } else {
        has_factor_from(n, d + 1)
    }
}

#[via_fn]
proof fn has_factor_from_decreases(n: nat, d: nat) {
    if d >= 1 && d * d <= n && n % d != 0 {
        // `d == 1` would divide `n`, so here `d >= 2` and `d + 1 <= n`.
        assert(n % 1nat == 0);
        assert(d + 1 <= n) by (nonlinear_arith)
            requires
                2 <= d,
                d * d <= n,
        ;
    }
}

/// A number at least two with no smaller divisor but one.
pub open spec fn is_prime(n: nat) -> bool {
    n >= 2 && forall|d: int| 2 <= d < n ==> #[trigger] ((n as int) % d) != 0
}

/// Trial division is complete: when no divisor is found starting from `d0`,
/// no `d >= d0` with `d * d <= n` divides `n`.
proof fn lemma_trial_division(n: nat, d0: nat, d: nat)
    requires
        !has_factor_from(n, d0),
        1 <= d0 <= d,
        d * d <= n,
    ensures
        n % d != 0,
    decreases d - d0,
{
    assert(d0 * d0 <= n) by (nonlinear_arith)
        requires
            1 <= d0 <= d,
            d * d <= n,
    ;
    if d == d0 {
        assert(n % d != 0);
    } else {
        lemma_trial_division(n, d0 + 1, d);
    }
}

/// A divisor `d` of `n` with `2 <= d < n` has a cofactor `n / d`, and one of
/// the two is at most the square root of `n`.
proof fn lemma_cofactor(n: nat, d: nat) -> (e: nat)
    requires
        2 <= d < n,
        n % d == 0,
    ensures
        2 <= e < n,
        n % e == 0,
        d * d <= n || e * e <= n,
    decreases n,
{
    lemma_fundamental_div_mod(n as int, d as int);
    let e = n / d;
    assert(n == d * e);
    assert(e >= 2) by (nonlinear_arith)
        requires
            n == d * e,
            2 <= d < n,
    ;
    assert(e < n) by (nonlinear_arith)
        requires
            n == d * e,
            2 <= d,
            n >= 2,
            e >= 2,
    ;
    assert((n as int) % (e as int) == 0) by {
        lemma_mod_multiples_basic(d as int, e as int);
        lemma_mul_is_commutative(d as int, e as int);
    }
    assert(d * d <= n || e * e <= n) by (nonlinear_arith)
        requires
            n == d * e,
            d >= 2,
            e >= 2,
    ;
    e
}

/// Trial division up to the square root of the modulus (`17^2 > P`).
#[verifier::spinoff_prover]
#[verifier::rlimit(100)]
proof fn lemma_p_trial_division()
    ensures
        !has_factor_from(257, 2),
{
    reveal_with_fuel(has_factor_from, 20);
}

/// The modulus is prime: `2^8 + 1` is a Fermat prime.
pub proof fn lemma_p_prime()
    ensures
        is_prime(P as nat),
{
    lemma_p_trial_division();
    assert forall|d: int| 2 <= d < P implies #[trigger] (((P as nat) as int) % d) != 0 by {
        if ((P as nat) as int) % d == 0 {
            let dn = d as nat;
            let e = lemma_cofactor(P as nat, dn);
            if dn * dn <= P as nat {
                lemma_trial_division(P as nat, 2, dn);
            } else {
                lemma_trial_division(P as nat, 2, e);
            }
        }
    }
}

// EXISTENCE AND UNIQUENESS OF INVERSES
// ================================================================================================

/// The extended Euclidean recursion, carried out in ghost code. From a pair
/// `(r0, r1)` with Bezout data modulo `P` it produces a common divisor of
/// the original pair together with its Bezout coefficient.
proof fn lemma_egcd(r0: int, r1: int, s0: int, s1: int, x: int) -> (res: (int, int))
    requires
        0 < r0 <= P as int,
        0 <= r1 < r0,
        0 <= s0 < P as int,
        0 <= s1 < P as int,
        0 < x < P as int,
        fmul(s0, x) == r0 % (P as int),
        fmul(s1, x) == r1 % (P as int),
        forall|d: int|
            1 <= d && #[trigger] (r0 % d) == 0 && #[trigger] (r1 % d) == 0 ==> (P as int) % d == 0
                && x % d == 0,
    ensures
        0 < res.0 <= r0,
        (P as int) % res.0 == 0,
        x % res.0 == 0,
        0 <= res.1 < P as int,
        fmul(res.1, x) == res.0 % (P as int),
    decreases r1,
{
    if r1 == 0 {
        lemma_mod_self_0(r0);
        assert(0int % r0 == 0) by {
            lemma_small_mod(0, r0 as nat);
        }
        (r0, s0)
    } else {
        let q = r0 / r1;
        let r2 = r0 % r1;
        lemma_fundamental_div_mod(r0, r1);
        lemma_mod_bound(r0, r1);
        let qm = q % (P as int);
        lemma_mod_bound(q, P as int);
        let s2 = (s0 - fmul(qm, s1)) % (P as int);
        lemma_mod_bound(s0 - fmul(qm, s1), P as int);
        lemma_mod_bound(qm * s1, P as int);
        // fmul(s2, x) == r2: unwind the congruences step by step.
        assert(fmul(s2, x) == r2 % (P as int)) by {
            let p = P as int;
            lemma_mul_mod_noop_left(s0 - fmul(qm, s1), x, p);
            assert((s0 - fmul(qm, s1)) * x == s0 * x - fmul(qm, s1) * x) by {
                lemma_mul_is_distributive_sub_other_way(x, s0, fmul(qm, s1));
            }
            lemma_sub_mod_noop(s0 * x, fmul(qm, s1) * x, p);
            // (fmul(qm, s1) * x) % p == (q * r1) % p
            assert((fmul(qm, s1) * x) % p == (q * r1) % p) by {
                lemma_mul_mod_noop_left(qm * s1, x, p);
                lemma_mul_is_associative(qm, s1, x);
                lemma_mul_mod_noop_right(qm, s1 * x, p);
                assert((s1 * x) % p == r1 % p);
                lemma_small_mod(r1 as nat, P as nat);
                lemma_mul_mod_noop_right(qm, r1, p);
                lemma_mul_mod_noop_left(q, r1, p);
            }
            lemma_sub_mod_noop(r0, q * r1, p);
            assert(r0 - q * r1 == r2) by {
                lemma_mul_is_commutative(q, r1);
            }
            assert((s0 * x) % p == r0 % p);
            assert(fmul(s2, x) == (r0 % p - (q * r1) % p) % p);
            assert((r0 % p - (q * r1) % p) % p == (r0 - q * r1) % p) by {
                lemma_sub_mod_noop(r0, q * r1, p);
            }
        }
        lemma_small_mod(r2 as nat, P as nat);
        // common divisors of (r1, r2) are common divisors of (r0, r1)
        assert forall|d: int|
            1 <= d && #[trigger] (r1 % d) == 0 && #[trigger] (r2 % d) == 0 implies (P as int) % d
            == 0 && x % d == 0 by {
            assert(r0 % d == 0) by {
                lemma_mul_mod_noop_right(q, r1, d);
                assert((q * r1) % d == 0) by {
                    lemma_mul_mod_noop_right(q, r1, d);
                    lemma_mul_basics(q);
                    lemma_small_mod(0, d as nat);
                }
                lemma_add_mod_noop(q * r1, r2, d);
                lemma_mul_is_commutative(q, r1);
                lemma_small_mod(0, d as nat);
            }
        }
        let res = lemma_egcd(r1, r2, s1, s2, x);
        res
    }
}

/// Every nonzero reduced value has a multiplicative inverse.
pub proof fn lemma_inverse_exists(x: int)
    requires
        0 < x < P as int,
    ensures
        exists|y: int| 0 <= y < P as int && #[trigger] fmul(x, y) == 1,
{
    let p = P as int;
    lemma_p_prime();
    lemma_mod_self_0(p);
    assert(fmul(0, x) == p % p) by {
        lemma_mul_basics(x);
        lemma_small_mod(0, P as nat);
    }
    assert(fmul(1, x) == x % p) by {
        lemma_mul_basics(x);
    }
    let (g, s) = lemma_egcd(p, x, 0, 1, x);
    lemma_small_mod(x as nat, P as nat);
    // g divides both p and x; x is nonzero and below p, so g is neither p nor
    // any proper divisor of p above 1.
    assert(g == 1) by {
        if g == p {
            assert(x % p == x);
        } else if g >= 2 {
            assert(is_prime(P as nat));
            assert(p % g != 0);
        }
    }
    lemma_small_mod(1, P as nat);
    assert(fmul(s, x) == 1);
    lemma_fmul_comm(s, x);
    assert(fmul(x, s) == 1);
}

/// Inverses are unique among reduced values.
pub proof fn lemma_inverse_unique(a: int, y1: int, y2: int)
    requires
        0 <= y1 < P as int,
        0 <= y2 < P as int,
        fmul(a, y1) == 1,
        fmul(a, y2) == 1,
    ensures
        y1 == y2,
{
    lemma_fmul_assoc(y1, a, y2);
    lemma_fmul_comm(y1, a);
    lemma_fmul_one(y1);
    lemma_fmul_one(y2);
    lemma_fmul_comm(y1, 1);
    assert(fmul(fmul(y1, a), y2) == fmul(fmul(a, y1), y2));
    assert(fmul(y1, fmul(a, y2)) == fmul(y1, 1));
}

/// When `fmul(a, y) == 1` for a reduced `y`, the `finv` function picks `y`.
pub proof fn lemma_finv_is(a: int, y: int)
    requires
        0 <= y < P as int,
        fmul(a, y) == 1,
    ensures
        finv(a) == y,
        fmul(a, finv(a)) == 1,
{
    assert(exists|w: int| 0 <= w < P as int && #[trigger] fmul(a, w) == 1) by {
        assert(0 <= y < P as int && fmul(a, y) == 1);
    }
    let w = choose|w: int| 0 <= w < P as int && #[trigger] fmul(a, w) == 1;
    lemma_inverse_unique(a, w, y);
}

/// For a nonzero reduced value, `finv` denotes a true inverse.
pub proof fn lemma_finv_correct(a: int)
    requires
        0 < a < P as int,
    ensures
        0 <= finv(a) < P as int,
        fmul(a, finv(a)) == 1,
{
    lemma_inverse_exists(a);
}

/// A product of nonzero elements is nonzero: the field has no zero divisors.
pub proof fn lemma_fmul_nonzero(a: int, b: int)
    requires
        0 < a < P as int,
        0 < b < P as int,
    ensures
        0 < fmul(a, b) < P as int,
{
    lemma_field_bounds(a, b, 0);
    if fmul(a, b) == 0 {
        lemma_inverse_exists(a);
        let ia = choose|y: int| 0 <= y < P as int && #[trigger] fmul(a, y) == 1;
        lemma_fmul_assoc(ia, a, b);
        lemma_fmul_comm(ia, a);
        lemma_fmul_one(b);
        assert(fmul(ia, fmul(a, b)) == fmul(fmul(a, ia), b));
        assert(fmul(ia, 0) == 0) by {
            lemma_mul_basics(ia);
            lemma_small_mod(0, P as nat);
        }
    }
}

/// A power of a nonzero element is nonzero.
pub proof fn lemma_fpow_nonzero(a: int, e: nat)
    requires
        0 < a < P as int,
    ensures
        0 < fpow(a, e) < P as int,
    decreases e,
{
    if e == 0 {
        lemma_fpow_zero(a);
    } else {
        lemma_fpow_nonzero(a, (e - 1) as nat);
        lemma_fpow_succ(a, (e - 1) as nat);
        lemma_fmul_nonzero(a, fpow(a, (e - 1) as nat));
    }
}

// EXPONENTIATION, INVERSION, ROOTS OF UNITY
// ================================================================================================

impl Felt {
    /// Exponentiation by squaring.
    pub fn exp(self, e: u64) -> (r: Felt)
        requires
            self.wf(),
        ensures
            r.wf(),
            r.val() == fpow(self.val(), e as nat),
    {
        let mut base = self;
        let mut acc = Felt::one();
        let mut k = e;
        proof {
            lemma_fpow_zero(base.val());
            lemma_fmul_one(fpow(base.val(), k as nat));
            lemma_field_bounds(base.val(), base.val(), k as nat);
        }
        while k > 0
            invariant
                base.wf(),
                acc.wf(),
                fmul(acc.val(), fpow(base.val(), k as nat)) == fpow(self.val(), e as nat),
            decreases k,
        {
            let ghost b = base.val();
            let ghost a0 = acc.val();
            let ghost m = (k / 2) as nat;
            if k % 2 == 1 {
                acc = acc.mul(base);
                proof {
                    // fpow(b, k) == fmul(b, fpow(fmul(b, b), m)) with k == 2m + 1
                    lemma_fpow_square(b, m);
                    lemma_fpow_succ(b, 2 * m);
                    lemma_fmul_assoc(a0, b, fpow(fmul(b, b), m));
                }
            } else {
                proof {
                    lemma_fpow_square(b, m);
                }
            }
            base = base.mul(base);
            k = k / 2;
        }
        proof {
            lemma_fpow_zero(base.val());
            lemma_fmul_one(acc.val());
            lemma_fmul_comm(acc.val(), 1);
        }
        acc
    }

    /// The multiplicative inverse of a nonzero element, found by a bounded
    /// search whose success is guaranteed by `lemma_inverse_exists`.
    pub fn inv(self) -> (r: Felt)
        requires
            self.wf(),
            self.val() != 0,
        ensures
            r.wf(),
            fmul(self.val(), r.val()) == 1,
            r.val() == finv(self.val()),
    {
        proof {
            lemma_inverse_exists(self.val());
        }
        let ghost w = choose|y: int| 0 <= y < P as int && #[trigger] fmul(self.val(), y) == 1;
        let mut y: u64 = 0;
        while y < P - 1
            invariant
                self.wf(),
                self.val() != 0,
                y < P,
                0 <= w < P as int,
                fmul(self.val(), w) == 1,
                forall|y2: int| 0 <= y2 < y ==> fmul(self.val(), y2) != 1,
            decreases P - y,
        {
            let c = self.mul(Felt { v: y });
            if c.v == 1 {
                proof {
                    lemma_finv_is(self.val(), y as int);
                }
                return Felt { v: y };
            }
            y = y + 1;
        }
        // The search space is exhausted apart from `P - 1`; the witness
        // guaranteed by `lemma_inverse_exists` must be that last value.
        proof {
            assert(w == P - 1);
            lemma_finv_is(self.val(), w);
        }
        Felt { v: P - 1 }
    }

    /// Field division by a nonzero denominator.
    pub fn div(self, other: Felt) -> (r: Felt)
        requires
            self.wf(),
            other.wf(),
            other.val() != 0,
        ensures
            r.wf(),
            r.val() == fdiv(self.val(), other.val()),
    {
        self.mul(other.inv())
    }
}

/// Returns a generator of the multiplicative subgroup of size
/// `2^log2_size`: the fixed generator raised to `2^(TWO_ADICITY - log2_size)`.
pub fn get_root_of_unity(log2_size: u64) -> (r: Felt)
    requires
        log2_size <= TWO_ADICITY,
    ensures
        r.wf(),
        r.val() == fpow(GENERATOR as int, pow2((TWO_ADICITY - log2_size) as nat)),
{
    let mut e: u64 = 1;
    let mut i: u64 = log2_size;
    proof {
        vstd::arithmetic::power2::lemma_pow2_pos(0);
        assert(pow2(0) == 1) by {
            vstd::arithmetic::power2::lemma2_to64();
        }
    }
    while i < TWO_ADICITY
        invariant
            log2_size <= i <= TWO_ADICITY,
            e == pow2((i - log2_size) as nat),
            e <= 256,
        decreases TWO_ADICITY - i,
    {
        proof {
            vstd::arithmetic::power2::lemma_pow2_unfold((i + 1 - log2_size) as nat);
            vstd::arithmetic::power2::lemma_pow2_strictly_increases(
                (i - log2_size) as nat,
                (TWO_ADICITY - log2_size) as nat,
            );
            vstd::arithmetic::power2::lemma2_to64();
        }
        e = e * 2;
        i = i + 1;
    }
    Felt { v: GENERATOR }.exp(e)
}

// BATCH INVERSION
// ================================================================================================

/// The product of a sequence of reduced values, in the field.
pub open spec fn fprod(s: Seq<int>) -> int
    decreases s.len(),
{
    if s.len() == 0 {
        1
    } else {
        fmul(fprod(s.drop_last()), s.last())
    }
}

/// A product of nonzero reduced values is nonzero.
pub proof fn lemma_fprod_nonzero(s: Seq<int>)
    requires
        forall|i: int| 0 <= i < s.len() ==> 0 < #[trigger] s[i] < P as int,
    ensures
        0 < fprod(s) < P as int,
    decreases s.len(),
{
    if s.len() == 0 {
        lemma_small_mod(1, P as nat);
    } else {
        lemma_fprod_nonzero(s.drop_last());
        lemma_fmul_nonzero(fprod(s.drop_last()), s.last());
    }
}

/// Inverts every element of a vector with a single field inversion, by the
/// running-product trick.
pub fn batch_inversion(values: &Vec<Felt>) -> (r: Vec<Felt>)
    requires
        forall|i: int| 0 <= i < values@.len() ==> (#[trigger] values@[i]).wf(),
    ensures
        r@.len() == values@.len(),
        forall|i: int| 0 <= i < r@.len() ==> (#[trigger] r@[i]).wf(),
        (forall|i: int| 0 <= i < values@.len() ==> (#[trigger] values@[i]).val() != 0)
            ==> forall|i: int|
            0 <= i < r@.len() ==> (#[trigger] r@[i]).val() == finv(values@[i].val()),
{
    let ghost vals = values@.map(|i: int, f: Felt| f.val());
    let n = values.len();

    // Detect a zero entry up front; inversion is then unconstrained.
    let mut has_zero = false;
    let mut j: usize = 0;
    while j < n
        invariant
            n == values@.len(),
            j <= n,
            forall|i: int| 0 <= i < values@.len() ==> (#[trigger] values@[i]).wf(),
            !has_zero ==> forall|i: int| 0 <= i < j ==> (#[trigger] values@[i]).val() != 0,
            has_zero ==> exists|i: int| 0 <= i < values@.len() && (#[trigger] values@[i]).val()
                == 0,
        decreases n - j,
    {
        if values[j].v == 0 {
            has_zero = true;
        }
        j = j + 1;
    }
    if has_zero {
        let mut r: Vec<Felt> = Vec::new();
        let mut j: usize = 0;
        while j < n
            invariant
                j == r@.len(),
                j <= n,
                forall|i: int| 0 <= i < r@.len() ==> (#[trigger] r@[i]).wf(),
            decreases n - j,
        {
            r.push(Felt { v: 0 });
            j = j + 1;
        }
        return r;
    }

    // Forward pass: prefix products.
    let mut acc: Vec<Felt> = Vec::new();
    let mut run = Felt::one();
    proof {
        lemma_small_mod(1, P as nat);
        assert(vals.take(0) =~= Seq::<int>::empty());
    }
    let mut j: usize = 0;
    while j < n
        invariant
            n == values@.len(),
            j <= n,
            j == acc@.len(),
            vals == values@.map(|i: int, f: Felt| f.val()),
            forall|i: int| 0 <= i < values@.len() ==> (#[trigger] values@[i]).wf(),
            forall|i: int| 0 <= i < values@.len() ==> (#[trigger] values@[i]).val() != 0,
            run.wf(),
            run.val() == fprod(vals.take(j as int)),
            forall|i: int| 0 <= i < j ==> (#[trigger] acc@[i]).wf() && acc@[i].val() == fprod(
                vals.take(i),
            ),
        decreases n - j,
    {
        acc.push(run);
        proof {
            assert(vals.take(j + 1).drop_last() =~= vals.take(j as int));
            assert(vals.take(j + 1).last() == vals[j as int]);
        }
        run = run.mul(values[j]);
        j = j + 1;
    }

    // `run` is now the product of all entries, which is nonzero.
    proof {
        assert(vals.take(n as int) =~= vals);
        lemma_fprod_nonzero(vals);
    }
    let mut back = run.inv();
    proof {
        lemma_fmul_comm(fprod(vals), back.val());
    }

    // Backward pass: peel one factor at a time.
    let mut r: Vec<Felt> = Vec::new();
    let mut j = n;
    while j > 0
        invariant
            n == values@.len(),
            j <= n,
            r@.len() == n - j,
            vals == values@.map(|i: int, f: Felt| f.val()),
            forall|i: int| 0 <= i < values@.len() ==> (#[trigger] values@[i]).wf(),
            forall|i: int| 0 <= i < values@.len() ==> (#[trigger] values@[i]).val() != 0,
            forall|i: int| 0 <= i < n - j ==> (#[trigger] r@[i]).wf() && r@[i].val() == finv(
                vals[n - 1 - i],
            ),
            n - j == acc@.len() - j,
            forall|i: int| 0 <= i < acc@.len() ==> (#[trigger] acc@[i]).wf() && acc@[i].val()
                == fprod(vals.take(i)),
            acc@.len() == n,
            back.wf(),
            fmul(back.val(), fprod(vals.take(j as int))) == 1,
        decreases j,
    {
        let ghost pj = fprod(vals.take(j as int));
        let ghost pj1 = fprod(vals.take(j - 1));
        let out = acc[j - 1].mul(back);
        proof {
            assert(vals.take(j as int).drop_last() =~= vals.take(j - 1));
            assert(vals.take(j as int).last() == vals[j - 1]);
            // out * v[j-1] = (p_{j-1} * back) * v[j-1] = back * (p_{j-1} * v[j-1]) = 1
            lemma_fmul_comm(pj1, back.val());
            lemma_fmul_assoc(back.val(), pj1, vals[j - 1]);
            lemma_fmul_comm(fmul(pj1, back.val()), vals[j - 1]);
            lemma_fmul_comm(vals[j - 1], fmul(back.val(), pj1));
            lemma_fmul_assoc(vals[j - 1], back.val(), pj1);
            lemma_fmul_comm(vals[j - 1], back.val());
            lemma_fmul_assoc(back.val(), vals[j - 1], pj1);
            lemma_fmul_comm(vals[j - 1], pj1);
            assert(fmul(out.val(), vals[j - 1]) == 1) by {
                assert(fmul(out.val(), vals[j - 1]) == fmul(fmul(pj1, back.val()), vals[j - 1]));
                assert(fmul(fmul(pj1, back.val()), vals[j - 1]) == fmul(
                    pj1,
                    fmul(back.val(), vals[j - 1]),
                )) by {
                    lemma_fmul_assoc(pj1, back.val(), vals[j - 1]);
                }
                assert(fmul(back.val(), vals[j - 1]) == fmul(vals[j - 1], back.val()));
                assert(fmul(pj1, fmul(vals[j - 1], back.val())) == fmul(
                    fmul(pj1, vals[j - 1]),
                    back.val(),
                )) by {
                    lemma_fmul_assoc(pj1, vals[j - 1], back.val());
                }
                assert(fmul(pj1, vals[j - 1]) == pj);
                assert(fmul(pj, back.val()) == 1) by {
                    lemma_fmul_comm(pj, back.val());
                }
            }
            lemma_fmul_comm(vals[j - 1], out.val());
            lemma_finv_is(vals[j - 1], out.val());
        }
        r.push(out);
        // Fold v[j-1] into the running inverse: back' = back * v[j-1].
        let nb = back.mul(values[j - 1]);
        proof {
            // nb * p_{j-1} == back * (v[j-1] * p_{j-1}) == back * p_j == 1
            lemma_fmul_assoc(back.val(), vals[j - 1], pj1);
            lemma_fmul_comm(vals[j - 1], pj1);
            lemma_fmul_assoc(back.val(), pj1, vals[j - 1]);
            assert(fmul(nb.val(), pj1) == fmul(back.val(), fmul(vals[j - 1], pj1)));
            assert(fmul(vals[j - 1], pj1) == pj) by {
                lemma_fmul_comm(vals[j - 1], pj1);
            }
        }
        back = nb;
        j = j - 1;
    }

    // The backward pass produced the inverses in reverse order.
    let mut out: Vec<Felt> = Vec::new();
    let mut j: usize = 0;
    while j < n
        invariant
            n == r@.len(),
            vals == values@.map(|i: int, f: Felt| f.val()),
            n == values@.len(),
            j <= n,
            j == out@.len(),
            forall|i: int| 0 <= i < r@.len() ==> (#[trigger] r@[i]).wf() && r@[i].val() == finv(
                vals[n - 1 - i],
            ),
            forall|i: int| 0 <= i < j ==> (#[trigger] out@[i]).wf() && out@[i].val() == finv(
                vals[i],
            ),
        decreases n - j,
    {
        out.push(r[n - 1 - j]);
        j = j + 1;
    }
    out
}

} // verus!
