//! Polynomials in coefficient form and interpolation over multiplicative
//! cosets.
//!
//! Interpolation is specified exactly: the coefficient at index `j` equals
//! the inverse discrete Fourier transform formula
//! `offset^(-j) / n * sum_i evals[i] * g^(-i*j)`, evaluated in the field.
//! The executable code computes the formula directly with running powers.

use vstd::prelude::*;
use vstd::arithmetic::power2::*;
use crate::field::{Felt, fadd, fmul, fpow, finv, P, GENERATOR, TWO_ADICITY};
use crate::field::{lemma_fpow_zero, lemma_fpow_succ, lemma_fpow_add, lemma_fmul_one, lemma_field_bounds};
use crate::codec::{felt_vals, all_wf};

verus! {

// POWERS OF TWO
// ================================================================================================

/// A positive number that is a repeated double of one.
pub open spec fn is_power_of_two(n: int) -> bool
    decreases n,
{
    if n <= 0 {
        false
    } else if n == 1 {
        true
    } else {
        n % 2 == 0 && is_power_of_two(n / 2)
    }
}

/// The base-two logarithm of a positive number, rounded down.
pub open spec fn log2_nat(n: nat) -> nat
    decreases n,
{
    if n <= 1 {
        0
    } else {
        1 + log2_nat(n / 2)
    }
}

/// On powers of two, `pow2` inverts `log2_nat`.
pub proof fn lemma_pow2_log2(n: nat)
    requires
        is_power_of_two(n as int),
    ensures
        pow2(log2_nat(n)) == n,
    decreases n,
{
    if n == 1 {
        lemma2_to64();
    } else {
        lemma_pow2_log2(n / 2);
        lemma_pow2_unfold((1 + log2_nat(n / 2)) as nat);
    }
}

/// The generator of the multiplicative subgroup of size `2^log2n`.
pub open spec fn domain_generator(log2n: nat) -> int {
    fpow(GENERATOR as int, pow2((TWO_ADICITY - log2n) as nat))
}

/// Computes the base-two logarithm of a positive number, rounded down.
pub fn log2(n: usize) -> (r: u64)
    requires
        n >= 1,
    ensures
        r == log2_nat(n as nat),
        is_power_of_two(n as int) ==> pow2(r as nat) == n,
        r < 64,
{
    let mut m = n;
    let mut r: u64 = 0;
    proof {
        lemma2_to64();
        vstd::arithmetic::mul::lemma_mul_basics(m as int);
    }
    while m > 1
        invariant
            m >= 1,
            log2_nat(n as nat) == r + log2_nat(m as nat),
            pow2(r as nat) * m <= n,
            is_power_of_two(n as int) ==> is_power_of_two(m as int) && pow2(r as nat) * m == n,
            r < 64,
        decreases m,
    {
        proof {
            lemma_pow2_unfold((r + 1) as nat);
            assert(pow2((r + 1) as nat) * (m as nat / 2) <= pow2(r as nat) * m) by (nonlinear_arith)
                requires
                    pow2((r + 1) as nat) == 2 * pow2(r as nat),
                    m as nat >= 1,
            ;
            if is_power_of_two(n as int) {
                assert(pow2((r + 1) as nat) * (m as nat / 2) == pow2(r as nat) * m)
                    by (nonlinear_arith)
                    requires
                        pow2((r + 1) as nat) == 2 * pow2(r as nat),
                        m as nat % 2 == 0,
                ;
            }
            // the exponent stays far below the word size
            if r + 1 >= 64 {
                lemma2_to64_rest();
                assert(pow2(64) == 0x10000000000000000);
                if (r + 1) as nat > 64 {
                    lemma_pow2_strictly_increases(64, (r + 1) as nat);
                }
                assert(pow2((r + 1) as nat) >= 0x10000000000000000);
                assert(pow2((r + 1) as nat) * (m as nat / 2) >= pow2((r + 1) as nat) * 1)
                    by (nonlinear_arith)
                    requires
                        m as nat / 2 >= 1,
                ;
            }
        }
        m = m / 2;
        r = r + 1;
    }
    proof {
        vstd::arithmetic::mul::lemma_mul_basics(pow2(r as nat) as int);
    }
    r
}

/// `r` is the smallest power of two at or above `n`.
pub open spec fn is_next_pow2(r: int, n: int) -> bool {
    &&& is_power_of_two(r)
    &&& r >= n
    &&& (r > 1 ==> r / 2 < n)
}

/// Computes the smallest power of two at or above `n`.
pub fn next_power_of_two(n: usize) -> (r: usize)
    requires
        n <= 0x1000_0000,
    ensures
        is_next_pow2(r as int, n as int),
{
    let mut r: usize = 1;
    while r < n
        invariant
            n <= 0x1000_0000,
            is_power_of_two(r as int),
            r <= 0x2000_0000,
            r > 1 ==> r / 2 < n,
        decreases 0x2000_0000 - r,
    {
        r = r * 2;
    }
    r
}

/// Of two powers of two, the smaller is at most half the larger.
pub proof fn lemma_pow2_half(a: int, b: int)
    requires
        is_power_of_two(a),
        is_power_of_two(b),
        a < b,
    ensures
        a <= b / 2,
    decreases a,
{
    if a == 1 {
    } else {
        lemma_pow2_half(a / 2, b / 2);
    }
}

/// The smallest power of two at or above `n` is unique.
pub proof fn lemma_next_pow2_unique(r1: int, r2: int, n: int)
    requires
        is_next_pow2(r1, n),
        is_next_pow2(r2, n),
    ensures
        r1 == r2,
{
    if r1 < r2 {
        lemma_pow2_half(r1, r2);
    } else if r2 < r1 {
        lemma_pow2_half(r2, r1);
    }
}

// POLYNOMIAL DEGREE
// ================================================================================================

/// The degree of a polynomial given by its coefficients: the index of the
/// last nonzero coefficient, or zero when there is none.
pub open spec fn poly_degree(s: Seq<int>) -> nat
    decreases s.len(),
{
    if s.len() == 0 {
        0
    } else if s.last() != 0 {
        (s.len() - 1) as nat
    } else {
        poly_degree(s.drop_last())
    }
}

/// Returns the degree of the polynomial with the given coefficients.
pub fn degree_of(poly: &Vec<Felt>) -> (r: usize)
    ensures
        r as nat == poly_degree(felt_vals(poly@)),
        r <= poly@.len(),
{
    let ghost vals = felt_vals(poly@);
    let mut i = poly.len();
    proof {
        assert(vals.take(poly@.len() as int) =~= vals);
    }
    while i > 0
        invariant
            i <= poly@.len(),
            vals == felt_vals(poly@),
            poly_degree(vals) == poly_degree(vals.take(i as int)),
        decreases i,
    {
        if poly[i - 1].v != 0 {
            proof {
                assert(vals.take(i as int).last() == vals[i - 1]);
            }
            return i - 1;
        }
        proof {
            assert(vals.take(i as int).drop_last() =~= vals.take(i - 1));
        }
        i = i - 1;
    }
    proof {
        assert(vals.take(0) =~= Seq::<int>::empty());
    }
    0
}

// INTERPOLATION
// ================================================================================================

/// The partial inverse-transform sum `sum_{i < k} e[i] * w^(i*j)`.
pub open spec fn dft_sum(e: Seq<int>, w: int, j: nat, k: nat) -> int
    decreases k,
{
    if k == 0 {
        0
    } else {
        fadd(dft_sum(e, w, j, (k - 1) as nat), fmul(e[k - 1], fpow(w, ((k - 1) * j) as nat)))
    }
}

/// The coefficient at index `j` of the polynomial that interpolates `e`
/// over the coset `offset * <g>`: the inverse DFT divided by the offset
/// power.
pub open spec fn idft_coeff(e: Seq<int>, g: int, offset: int, j: nat) -> int {
    fmul(fmul(dft_sum(e, finv(g), j, e.len()), finv(e.len() as int)), fpow(finv(offset), j))
}

/// Interpolates evaluations over the coset `offset * <g>` into coefficient
/// form, where `g` generates the multiplicative subgroup whose size is the
/// number of evaluations.
pub fn interpolate_poly_with_offset(evals: &Vec<Felt>, g: Felt, offset: Felt) -> (r: Vec<Felt>)
    requires
        all_wf(evals@),
        g.wf(),
        offset.wf(),
        g.val() != 0,
        offset.val() != 0,
        1 <= evals@.len() < P,
    ensures
        r@.len() == evals@.len(),
        all_wf(r@),
        forall|j: int| 0 <= j < r@.len() ==> (#[trigger] r@[j]).val() == idft_coeff(
            felt_vals(evals@),
            g.val(),
            offset.val(),
            j as nat,
        ),
{
    let ghost vals = felt_vals(evals@);
    let n = evals.len();
    let ginv = g.inv();
    let offinv = offset.inv();
    let ninv = Felt { v: n as u64 }.inv();
    let mut out: Vec<Felt> = Vec::new();
    let mut offp = Felt::one();
    proof {
        lemma_fpow_zero(offinv.val());
    }
    let mut j: usize = 0;
    while j < n
        invariant
            n == evals@.len(),
            1 <= n < P,
            vals == felt_vals(evals@),
            all_wf(evals@),
            j <= n,
            j == out@.len(),
            ginv.wf(),
            offinv.wf(),
            ninv.wf(),
            offp.wf(),
            ginv.val() == finv(g.val()),
            offinv.val() == finv(offset.val()),
            ninv.val() == finv(n as int),
            offp.val() == fpow(finv(offset.val()), j as nat),
            all_wf(out@),
            forall|j2: int| 0 <= j2 < j ==> (#[trigger] out@[j2]).val() == idft_coeff(
                vals,
                g.val(),
                offset.val(),
                j2 as nat,
            ),
        decreases n - j,
    {
        let wj = ginv.exp(j as u64);
        let mut acc = Felt::zero();
        let mut x = Felt::one();
        proof {
            lemma_fpow_zero(ginv.val());
            assert(0 * (j as int) == 0);
        }
        let mut i: usize = 0;
        while i < n
            invariant
                n == evals@.len(),
                vals == felt_vals(evals@),
                all_wf(evals@),
                i <= n,
                acc.wf(),
                x.wf(),
                ginv.wf(),
                wj.wf(),
                ginv.val() == finv(g.val()),
                wj.val() == fpow(ginv.val(), j as nat),
                acc.val() == dft_sum(vals, ginv.val(), j as nat, i as nat),
                x.val() == fpow(ginv.val(), (i * j) as nat),
            decreases n - i,
        {
            acc = acc.add(evals[i].mul(x));
            proof {
                lemma_fpow_add(ginv.val(), (i * j) as nat, j as nat);
                assert((i + 1) * (j as int) == i * j + j) by {
                    vstd::arithmetic::mul::lemma_mul_is_distributive_add_other_way(
                        j as int,
                        i as int,
                        1,
                    );
                }
            }
            x = x.mul(wj);
            i = i + 1;
        }
        out.push(acc.mul(ninv).mul(offp));
        proof {
            lemma_fpow_succ(offinv.val(), j as nat);
            crate::field::lemma_fmul_comm(offinv.val(), fpow(offinv.val(), j as nat));
        }
        offp = offp.mul(offinv);
        j = j + 1;
    }
    out
}

/// Interpolates evaluations over the plain subgroup domain (offset one).
pub fn interpolate_poly(evals: &Vec<Felt>, g: Felt) -> (r: Vec<Felt>)
    requires
        all_wf(evals@),
        g.wf(),
        g.val() != 0,
        1 <= evals@.len() < P,
    ensures
        r@.len() == evals@.len(),
        all_wf(r@),
        forall|j: int| 0 <= j < r@.len() ==> (#[trigger] r@[j]).val() == idft_coeff(
            felt_vals(evals@),
            g.val(),
            1,
            j as nat,
        ),
{
    interpolate_poly_with_offset(evals, g, Felt::one())
}

} // verus!
