//! The constraint evaluation table: per-divisor evaluation columns over the
//! constraint evaluation domain, quotient accumulation, and interpolation
//! into the composition polynomial.

use vstd::prelude::*;
use vstd::pervasive::VecAdditionalExecFns;
use crate::field::{Felt, fadd, fsub, fmul, fpow, finv, P, GENERATOR, TWO_ADICITY};
use crate::field::{
    batch_inversion, get_root_of_unity, lemma_field_bounds, lemma_fpow_zero, lemma_fpow_succ,
    lemma_fpow_add, lemma_fmul_one, lemma_fmul_comm,
};
use crate::codec::{felt_vals, all_wf};
use crate::divisor::ConstraintDivisor;
use crate::field::fdiv;
use crate::polynom::{
    is_power_of_two, log2_nat, log2, domain_generator, interpolate_poly_with_offset,
    interpolate_poly, idft_coeff, poly_degree, is_next_pow2,
};

verus! {

/// The largest constraint evaluation domain the field supports: the full
/// two-adic subgroup.
pub const MAX_DOMAIN_SIZE: usize = 256;

/// The denominator value `offset^a * (g^a)^i - b` at step `i` of the
/// reduced divisor domain, where `g` generates the subgroup of the given
/// size.
pub open spec fn inv_eval_denom(offset: int, a: nat, b: int, domain_size: nat, i: nat) -> int {
    let g = domain_generator(log2_nat(domain_size));
    fsub(fmul(fpow(offset, a), fpow(fpow(g, a), i)), b)
}

/// All denominator values of a divisor over a domain are nonzero: the
/// numerator `(x^a - b)` vanishes nowhere on the coset.
pub open spec fn divisor_invertible(offset: int, a: nat, b: int, domain_size: nat) -> bool {
    forall|i: nat|
        i < domain_size / a ==> #[trigger] inv_eval_denom(offset, a, b, domain_size, i) != 0
}

/// Computes the inverse evaluations of the divisor's numerator `(x^a - b)`
/// over the domain of the given size and offset. Because `(offset * g^i)^a`
/// cycles with period `domain_size / a`, only that many distinct values
/// exist; callers index the result modulo its length.
pub fn get_inv_evaluation(divisor: &ConstraintDivisor, domain_size: usize, domain_offset: Felt) -> (r:
    Vec<Felt>)
    requires
        divisor.wf(),
        domain_offset.wf(),
        is_power_of_two(domain_size as int),
        domain_size <= MAX_DOMAIN_SIZE,
        divisor.exp_spec() <= domain_size,
        domain_size as int % divisor.exp_spec() as int == 0,
    ensures
        r@.len() == domain_size as int / divisor.exp_spec() as int,
        all_wf(r@),
        divisor_invertible(
            domain_offset.val(),
            divisor.exp_spec(),
            divisor.const_spec(),
            domain_size as nat,
        ) ==> forall|i: int|
            0 <= i < r@.len() ==> (#[trigger] r@[i]).val() == finv(
                inv_eval_denom(
                    domain_offset.val(),
                    divisor.exp_spec(),
                    divisor.const_spec(),
                    domain_size as nat,
                    i as nat,
                ),
            ) && fmul(
                inv_eval_denom(
                    domain_offset.val(),
                    divisor.exp_spec(),
                    divisor.const_spec(),
                    domain_size as nat,
                    i as nat,
                ),
                r@[i].val(),
            ) == 1,
{
    let a = divisor.numerator()[0].0;
    let b = divisor.numerator()[0].1;
    let n = domain_size / a;
    let log2n = log2(domain_size);
    proof {
        crate::polynom::lemma_pow2_log2(domain_size as nat);
        if log2n > TWO_ADICITY {
            vstd::arithmetic::power2::lemma_pow2_strictly_increases(
                TWO_ADICITY as nat,
                log2n as nat,
            );
            vstd::arithmetic::power2::lemma2_to64();
        }
    }
    let g = get_root_of_unity(log2n).exp(a as u64);
    let mut x = domain_offset.exp(a as u64);
    let ghost ga = fpow(domain_generator(log2_nat(domain_size as nat)), a as nat);
    let ghost x0 = fpow(domain_offset.val(), a as nat);
    let mut evaluations: Vec<Felt> = Vec::new();
    proof {
        lemma_fpow_zero(ga);
        lemma_fmul_one(x0);
        crate::field::lemma_fmul_comm(x0, 1);
        lemma_field_bounds(domain_offset.val(), 0, a as nat);
    }
    let mut i: usize = 0;
    while i < n
        invariant
            i <= n,
            i == evaluations@.len(),
            a >= 1,
            b.wf(),
            x.wf(),
            g.wf(),
            domain_offset.wf(),
            ga == fpow(domain_generator(log2_nat(domain_size as nat)), a as nat),
            x0 == fpow(domain_offset.val(), a as nat),
            g.val() == ga,
            x.val() == fmul(x0, fpow(ga, i as nat)),
            all_wf(evaluations@),
            forall|k: int| 0 <= k < i ==> (#[trigger] evaluations@[k]).val() == inv_eval_denom(
                domain_offset.val(),
                a as nat,
                b.val(),
                domain_size as nat,
                k as nat,
            ),
        decreases n - i,
    {
        evaluations.push(x.sub(b));
        proof {
            assert(evaluations@[i as int].val() == fsub(fmul(x0, fpow(ga, i as nat)), b.val()));
            assert(evaluations@[i as int].val() == inv_eval_denom(
                domain_offset.val(),
                a as nat,
                b.val(),
                domain_size as nat,
                i as nat,
            ));
            lemma_fpow_succ(ga, i as nat);
            crate::field::lemma_fmul_assoc(x0, fpow(ga, i as nat), ga);
            crate::field::lemma_fmul_comm(ga, fpow(ga, i as nat));
        }
        x = x.mul(g);
        i = i + 1;
    }
    let r = batch_inversion(&evaluations);
    proof {
        if divisor_invertible(
            domain_offset.val(),
            a as nat,
            b.val(),
            domain_size as nat,
        ) {
            assert forall|k: int|
                0 <= k < evaluations@.len() implies (#[trigger] evaluations@[k]).val() != 0 by {
                assert(inv_eval_denom(
                    domain_offset.val(),
                    a as nat,
                    b.val(),
                    domain_size as nat,
                    k as nat,
                ) != 0);
            }
            assert forall|k: int| 0 <= k < r@.len() implies fmul(
                inv_eval_denom(
                    domain_offset.val(),
                    a as nat,
                    b.val(),
                    domain_size as nat,
                    k as nat,
                ),
                (#[trigger] r@[k]).val(),
            ) == 1 by {
                let denom = inv_eval_denom(
                    domain_offset.val(),
                    a as nat,
                    b.val(),
                    domain_size as nat,
                    k as nat,
                );
                assert(evaluations@[k].val() == denom);
                assert(denom != 0);
                crate::field::lemma_finv_correct(denom);
            }
        }
    }
    r
}

// COLUMN ACCUMULATION
// ================================================================================================

/// The quotient added to the composition vector at row `i` when a column
/// with the given value is divided by the divisor `(x^a - b) / (x - c)`
/// over a domain of the given size: the column value times the inverse
/// numerator, times `(x_i - c)` for a transition divisor.
pub open spec fn acc_quotient(
    colv: int,
    offset: int,
    a: nat,
    b: int,
    excl: Option<int>,
    domain_size: nat,
    i: nat,
) -> int {
    let zlen = domain_size / a;
    let z = finv(inv_eval_denom(offset, a, b, domain_size, i % zlen));
    match excl {
        Option::None => fmul(colv, z),
        Option::Some(c) => {
            let g = domain_generator(log2_nat(domain_size));
            let xi = fmul(offset, fpow(g, i));
            fmul(colv, fmul(z, fsub(xi, c)))
        },
    }
}

/// The exclusion point of a divisor as an option.
pub open spec fn excl_of(divisor: ConstraintDivisor) -> Option<int> {
    if divisor.has_exclusion() {
        Option::Some(divisor.exclusion_spec())
    } else {
        Option::None
    }
}

/// Divides a column by its divisor and adds the quotients into `result`
/// component-wise.
pub fn acc_column(column: &Vec<Felt>, divisor: &ConstraintDivisor, domain_offset: Felt, result: &mut Vec<
    Felt>)
    requires
        divisor.wf(),
        domain_offset.wf(),
        all_wf(column@),
        all_wf(old(result)@),
        column@.len() == old(result)@.len(),
        is_power_of_two(column@.len() as int),
        column@.len() <= MAX_DOMAIN_SIZE,
        divisor.exp_spec() <= column@.len(),
        column@.len() as int % divisor.exp_spec() as int == 0,
    ensures
        final(result)@.len() == old(result)@.len(),
        all_wf(final(result)@),
        divisor_invertible(
            domain_offset.val(),
            divisor.exp_spec(),
            divisor.const_spec(),
            column@.len() as nat,
        ) ==> forall|i: int|
            0 <= i < final(result)@.len() ==> (#[trigger] final(result)@[i]).val() == fadd(
                old(result)@[i].val(),
                acc_quotient(
                    column@[i].val(),
                    domain_offset.val(),
                    divisor.exp_spec(),
                    divisor.const_spec(),
                    excl_of(*divisor),
                    column@.len() as nat,
                    i as nat,
                ),
            ),
{
    let domain_size = column.len();
    let ghost a = divisor.exp_spec();
    let ghost b = divisor.const_spec();
    let ghost invertible = divisor_invertible(
        domain_offset.val(),
        a,
        b,
        domain_size as nat,
    );
    let z = get_inv_evaluation(divisor, domain_size, domain_offset);
    let zlen = z.len();
    proof {
        // the reduced domain is nonempty: a >= 1 divides the domain size
        vstd::arithmetic::div_mod::lemma_fundamental_div_mod(
            domain_size as int,
            divisor.exp_spec() as int,
        );
        if domain_size as int / divisor.exp_spec() as int <= 0 {
            vstd::arithmetic::mul::lemma_mul_inequality(
                domain_size as int / divisor.exp_spec() as int,
                0,
                divisor.exp_spec() as int,
            );
            vstd::arithmetic::mul::lemma_mul_is_commutative(
                domain_size as int / divisor.exp_spec() as int,
                divisor.exp_spec() as int,
            );
            vstd::arithmetic::mul::lemma_mul_basics(divisor.exp_spec() as int);
        }
    }
    if divisor.exclude().len() == 0 {
        let mut i: usize = 0;
        while i < domain_size
            invariant
                i <= domain_size,
                domain_size == column@.len(),
                result@.len() == domain_size,
                zlen == z@.len(),
                zlen >= 1,
                all_wf(column@),
                all_wf(z@),
                all_wf(result@),
                !divisor.has_exclusion(),
                divisor.wf(),
                a == divisor.exp_spec(),
                b == divisor.const_spec(),
                domain_offset.wf(),
                zlen == domain_size as int / a as int,
                invertible == divisor_invertible(
                    domain_offset.val(),
                    a,
                    b,
                    domain_size as nat,
                ),
                invertible ==> forall|k: int|
                    0 <= k < zlen ==> (#[trigger] z@[k]).val() == finv(
                        inv_eval_denom(domain_offset.val(), a, b, domain_size as nat, k as nat),
                    ),
                forall|k: int| i <= k < domain_size ==> (#[trigger] result@[k]) == old(result)@[k],
                invertible ==> forall|k: int|
                    0 <= k < i ==> (#[trigger] result@[k]).val() == fadd(
                        old(result)@[k].val(),
                        acc_quotient(
                            column@[k].val(),
                            domain_offset.val(),
                            a,
                            b,
                            Option::None,
                            domain_size as nat,
                            k as nat,
                        ),
                    ),
            decreases domain_size - i,
    {
            let zi = z[i % zlen];
            let v = result[i].add(column[i].mul(zi));
            result.set(i, v);
            i = i + 1;
        }
    } else {
        let log2n = log2(domain_size);
        proof {
            crate::polynom::lemma_pow2_log2(domain_size as nat);
            if log2n > TWO_ADICITY {
                vstd::arithmetic::power2::lemma_pow2_strictly_increases(
                    TWO_ADICITY as nat,
                    log2n as nat,
                );
                vstd::arithmetic::power2::lemma2_to64();
            }
        }
        let g = get_root_of_unity(log2n);
        let c = divisor.exclude()[0];
        let mut x = domain_offset;
        let ghost gv = domain_generator(log2_nat(domain_size as nat));
        proof {
            lemma_fpow_zero(gv);
            lemma_fmul_one(domain_offset.val());
            crate::field::lemma_fmul_comm(domain_offset.val(), 1);
        }
        let mut i: usize = 0;
        while i < domain_size
            invariant
                i <= domain_size,
                domain_size == column@.len(),
                result@.len() == domain_size,
                zlen == z@.len(),
                zlen >= 1,
                all_wf(column@),
                all_wf(z@),
                all_wf(result@),
                divisor.has_exclusion(),
                divisor.wf(),
                a == divisor.exp_spec(),
                b == divisor.const_spec(),
                c == divisor.excluded@[0],
                c.wf(),
                g.wf(),
                x.wf(),
                g.val() == gv,
                gv == domain_generator(log2_nat(domain_size as nat)),
                x.val() == fmul(domain_offset.val(), fpow(gv, i as nat)),
                domain_offset.wf(),
                zlen == domain_size as int / a as int,
                invertible == divisor_invertible(
                    domain_offset.val(),
                    a,
                    b,
                    domain_size as nat,
                ),
                invertible ==> forall|k: int|
                    0 <= k < zlen ==> (#[trigger] z@[k]).val() == finv(
                        inv_eval_denom(domain_offset.val(), a, b, domain_size as nat, k as nat),
                    ),
                forall|k: int| i <= k < domain_size ==> (#[trigger] result@[k]) == old(result)@[k],
                invertible ==> forall|k: int|
                    0 <= k < i ==> (#[trigger] result@[k]).val() == fadd(
                        old(result)@[k].val(),
                        acc_quotient(
                            column@[k].val(),
                            domain_offset.val(),
                            a,
                            b,
                            Option::Some(c.val()),
                            domain_size as nat,
                            k as nat,
                        ),
                    ),
            decreases domain_size - i,
        {
            let e = x.sub(c);
            let zi = z[i % zlen];
            let v = result[i].add(column[i].mul(zi.mul(e)));
            result.set(i, v);
            proof {
                lemma_fpow_succ(gv, i as nat);
                crate::field::lemma_fmul_assoc(domain_offset.val(), fpow(gv, i as nat), gv);
                crate::field::lemma_fmul_comm(gv, fpow(gv, i as nat));
            }
            x = x.mul(g);
            i = i + 1;
        }
    }
}

// STARK DOMAIN
// ================================================================================================

/// The domain parameters of one proof instance: the trace length, the
/// constraint evaluation domain, the low-degree extension domain, and the
/// coset offset.
pub struct StarkDomain {
    pub trace_length: usize,
    pub ce_domain_size: usize,
    pub lde_domain_size: usize,
    pub domain_offset: Felt,
}

impl StarkDomain {
    /// Domain sizes are powers of two the field's two-adic subgroup can
    /// hold, and the offset is a nonzero element.
    pub open spec fn wf(self) -> bool {
        &&& is_power_of_two(self.trace_length as int)
        &&& is_power_of_two(self.ce_domain_size as int)
        &&& is_power_of_two(self.lde_domain_size as int)
        &&& self.trace_length < self.ce_domain_size
        &&& self.ce_domain_size <= MAX_DOMAIN_SIZE
        &&& self.lde_domain_size <= MAX_DOMAIN_SIZE
        &&& self.domain_offset.wf()
        &&& self.domain_offset.val() != 0
    }

    /// The size of the constraint evaluation domain.
    pub fn ce_domain_size(&self) -> (r: usize)
        ensures
            r == self.ce_domain_size,
    {
        self.ce_domain_size
    }

    /// The offset of the evaluation coset.
    pub fn offset(&self) -> (r: Felt)
        ensures
            r == self.domain_offset,
    {
        self.domain_offset
    }

    /// The length of the execution trace.
    pub fn trace_length(&self) -> (r: usize)
        ensures
            r == self.trace_length,
    {
        self.trace_length
    }
}

// CONSTRAINT EVALUATION TABLE
// ================================================================================================

/// The smallest number of rows a table fragment may hold.
pub const MIN_FRAGMENT_SIZE: usize = 4;

/// Returns a mutable reference to one element of a vector.
fn vec_index_mut<T>(v: &mut Vec<T>, i: usize) -> (element: &mut T)
    requires
        i < old(v).len(),
    ensures
        *element == old(v)@[i as int],
        final(v)@ == old(v)@.update(i as int, *final(element)),
{
    &mut v[i]
}

/// The values of every column of a table.
pub open spec fn col_vals(cols: Seq<Vec<Felt>>) -> Seq<Seq<int>> {
    cols.map(|j: int, c: Vec<Felt>| felt_vals(c@))
}

/// Every divisor's numerator is invertible over the whole domain.
pub open spec fn all_divisors_invertible(
    divs: Seq<ConstraintDivisor>,
    offset: int,
    domain_size: nat,
) -> bool {
    forall|j: int|
        0 <= j < divs.len() ==> divisor_invertible(
            offset,
            (#[trigger] divs[j]).exp_spec(),
            divs[j].const_spec(),
            domain_size,
        )
}

/// The sum of the first `k` columns' quotients at row `i`.
pub open spec fn combined_sum(
    cols: Seq<Seq<int>>,
    divs: Seq<ConstraintDivisor>,
    offset: int,
    domain_size: nat,
    i: nat,
    k: nat,
) -> int
    decreases k,
{
    if k == 0 {
        0
    } else {
        fadd(
            combined_sum(cols, divs, offset, domain_size, i, (k - 1) as nat),
            acc_quotient(
                cols[k - 1][i as int],
                offset,
                divs[k - 1].exp_spec(),
                divs[k - 1].const_spec(),
                excl_of(divs[k - 1]),
                domain_size,
                i,
            ),
        )
    }
}

/// The row-wise combined quotient evaluations of a whole table.
pub open spec fn composition_evals(
    cols: Seq<Seq<int>>,
    divs: Seq<ConstraintDivisor>,
    offset: int,
    domain_size: nat,
) -> Seq<int> {
    Seq::new(domain_size, |i: int| combined_sum(cols, divs, offset, domain_size, i as nat, divs.len() as nat))
}

/// The composition polynomial: the interpolation of the summed quotient
/// columns, in coefficient form.
pub struct ConstraintPoly {
    pub coefficients: Vec<Felt>,
    pub trace_length: usize,
}

impl ConstraintPoly {
    /// Wraps coefficients produced by table interpolation.
    pub fn new(coefficients: Vec<Felt>, trace_length: usize) -> (r: ConstraintPoly)
        ensures
            r.coefficients@ == coefficients@,
            r.trace_length == trace_length,
    {
        ConstraintPoly { coefficients, trace_length }
    }

    /// The number of coefficients.
    pub fn len(&self) -> (r: usize)
        ensures
            r == self.coefficients@.len(),
    {
        self.coefficients.len()
    }
}

/// Per-divisor evaluation columns over the constraint evaluation domain,
/// together with the raw transition-constraint columns kept for degree
/// validation.
pub struct ConstraintEvaluationTable {
    pub evaluations: Vec<Vec<Felt>>,
    pub divisors: Vec<ConstraintDivisor>,
    pub domain_offset: Felt,
    pub trace_length: usize,
    pub t_evaluations: Vec<Vec<Felt>>,
    pub t_expected_degrees: Vec<usize>,
}

impl ConstraintEvaluationTable {
    /// The number of rows, as a spec value.
    pub open spec fn num_rows_spec(self) -> nat {
        self.evaluations@[0]@.len()
    }

    /// Table well-formedness: one column per divisor, equal power-of-two
    /// column lengths the field can hold, well-formed entries throughout.
    pub open spec fn wf(self) -> bool {
        &&& self.evaluations@.len() == self.divisors@.len()
        &&& self.evaluations@.len() >= 1
        &&& is_power_of_two(self.num_rows_spec() as int)
        &&& self.num_rows_spec() <= MAX_DOMAIN_SIZE
        &&& forall|j: int|
            0 <= j < self.evaluations@.len() ==> (#[trigger] self.evaluations@[j])@.len()
                == self.num_rows_spec()
        &&& forall|j: int|
            0 <= j < self.evaluations@.len() ==> all_wf((#[trigger] self.evaluations@[j])@)
        &&& forall|j: int| 0 <= j < self.divisors@.len() ==> (#[trigger] self.divisors@[j]).wf()
        &&& forall|j: int|
            0 <= j < self.divisors@.len() ==> (#[trigger] self.divisors@[j]).exp_spec()
                <= self.num_rows_spec() && self.num_rows_spec() as int % (
            self.divisors@[j]).exp_spec() as int == 0
        &&& self.domain_offset.wf()
        &&& self.domain_offset.val() != 0
        &&& forall|j: int|
            0 <= j < self.t_evaluations@.len() ==> (#[trigger] self.t_evaluations@[j])@.len()
                == self.num_rows_spec() && all_wf(self.t_evaluations@[j]@)
        &&& self.t_evaluations@.len() == self.t_expected_degrees@.len()
    }

    /// Allocates a table with one zeroed column of `ce_domain_size` rows
    /// per divisor, plus one zeroed raw column per expected transition
    /// degree.
    pub fn new(
        domain: &StarkDomain,
        divisors: Vec<ConstraintDivisor>,
        transition_constraint_degrees: Vec<usize>,
    ) -> (r: ConstraintEvaluationTable)
        requires
            domain.wf(),
            divisors@.len() >= 1,
            forall|j: int| 0 <= j < divisors@.len() ==> (#[trigger] divisors@[j]).wf(),
            forall|j: int|
                0 <= j < divisors@.len() ==> (#[trigger] divisors@[j]).exp_spec()
                    <= domain.ce_domain_size && domain.ce_domain_size as int % (
                divisors@[j]).exp_spec() as int == 0,
        ensures
            r.wf(),
            r.num_rows_spec() == domain.ce_domain_size,
            r.evaluations@.len() == divisors@.len(),
            r.divisors@ == divisors@,
            r.domain_offset == domain.domain_offset,
            r.trace_length == domain.trace_length,
            r.t_expected_degrees@ == transition_constraint_degrees@,
            r.t_evaluations@.len() == transition_constraint_degrees@.len(),
            forall|j: int, i: int|
                0 <= j < r.evaluations@.len() && 0 <= i < domain.ce_domain_size ==> (
                #[trigger] r.evaluations@[j]@[i]).val() == 0,
    {
        let num_rows = domain.ce_domain_size();
        let num_columns = divisors.len();
        let evaluations = zeroed_columns(num_columns, num_rows);
        let t_evaluations = zeroed_columns(transition_constraint_degrees.len(), num_rows);
        ConstraintEvaluationTable {
            evaluations,
            divisors,
            domain_offset: domain.offset(),
            trace_length: domain.trace_length(),
            t_evaluations,
            t_expected_degrees: transition_constraint_degrees,
        }
    }

    /// The number of rows: the size of the constraint evaluation domain.
    pub fn num_rows(&self) -> (r: usize)
        requires
            self.wf(),
        ensures
            r == self.num_rows_spec(),
    {
        self.evaluations[0].len()
    }

    /// The number of columns: one per divisor.
    pub fn num_columns(&self) -> (r: usize)
        ensures
            r == self.evaluations@.len(),
    {
        self.evaluations.len()
    }

    /// Writes one value into every column at the given row.
    pub fn update_row(&mut self, row_idx: usize, row_data: &Vec<Felt>)
        requires
            old(self).wf(),
            row_idx < old(self).num_rows_spec(),
            row_data@.len() == old(self).evaluations@.len(),
            all_wf(row_data@),
        ensures
            final(self).wf(),
            final(self).evaluations@.len() == old(self).evaluations@.len(),
            final(self).num_rows_spec() == old(self).num_rows_spec(),
            forall|j: int|
                0 <= j < old(self).evaluations@.len() ==> (#[trigger] final(self).evaluations@[j])@
                    == old(self).evaluations@[j]@.update(row_idx as int, row_data@[j]),
            final(self).divisors@ == old(self).divisors@,
            final(self).domain_offset == old(self).domain_offset,
            final(self).trace_length == old(self).trace_length,
            final(self).t_evaluations@ == old(self).t_evaluations@,
            final(self).t_expected_degrees@ == old(self).t_expected_degrees@,
    {
        let n = row_data.len();
        let mut j: usize = 0;
        while j < n
            invariant
                j <= n,
                n == row_data@.len(),
                n == self.evaluations@.len(),
                n == old(self).evaluations@.len(),
                row_idx < old(self).num_rows_spec(),
                all_wf(row_data@),
                old(self).wf(),
                forall|c: int| j <= c < n ==> (#[trigger] self.evaluations@[c]) == old(
                    self,
                ).evaluations@[c],
                forall|c: int|
                    0 <= c < j ==> (#[trigger] self.evaluations@[c])@ == old(
                        self,
                    ).evaluations@[c]@.update(row_idx as int, row_data@[c]),
                self.divisors@ == old(self).divisors@,
                self.domain_offset == old(self).domain_offset,
                self.trace_length == old(self).trace_length,
                self.t_evaluations@ == old(self).t_evaluations@,
                self.t_expected_degrees@ == old(self).t_expected_degrees@,
            decreases n - j,
        {
            proof {
                assert(self.evaluations@[j as int] == old(self).evaluations@[j as int]);
                assert(old(self).evaluations@[j as int]@.len() == old(self).num_rows_spec());
            }
            let column = vec_index_mut(&mut self.evaluations, j);
            column.set(row_idx, row_data[j]);
            j = j + 1;
        }
        proof {
            assert(final(self).num_rows_spec() == old(self).num_rows_spec());
        }
    }

    /// Writes one value into every raw transition column at the given row.
    pub fn update_transition_evaluations(&mut self, row_idx: usize, row_data: &Vec<Felt>)
        requires
            old(self).wf(),
            row_idx < old(self).num_rows_spec(),
            row_data@.len() == old(self).t_evaluations@.len(),
            all_wf(row_data@),
        ensures
            final(self).wf(),
            forall|j: int|
                0 <= j < old(self).t_evaluations@.len() ==> (#[trigger] final(self).t_evaluations@[j])@ == old(self).t_evaluations@[j]@.update(
                    row_idx as int,
                    row_data@[j],
                ),
            final(self).evaluations@ == old(self).evaluations@,
            final(self).divisors@ == old(self).divisors@,
            final(self).domain_offset == old(self).domain_offset,
            final(self).trace_length == old(self).trace_length,
            final(self).t_expected_degrees@ == old(self).t_expected_degrees@,
    {
        let n = row_data.len();
        let mut j: usize = 0;
        while j < n
            invariant
                j <= n,
                n == row_data@.len(),
                n == self.t_evaluations@.len(),
                n == old(self).t_evaluations@.len(),
                row_idx < old(self).num_rows_spec(),
                all_wf(row_data@),
                old(self).wf(),
                forall|c: int| j <= c < n ==> (#[trigger] self.t_evaluations@[c]) == old(
                    self,
                ).t_evaluations@[c],
                forall|c: int|
                    0 <= c < j ==> (#[trigger] self.t_evaluations@[c])@ == old(
                        self,
                    ).t_evaluations@[c]@.update(row_idx as int, row_data@[c]),
                self.evaluations@ == old(self).evaluations@,
                self.divisors@ == old(self).divisors@,
                self.domain_offset == old(self).domain_offset,
                self.trace_length == old(self).trace_length,
                self.t_expected_degrees@ == old(self).t_expected_degrees@,
            decreases n - j,
        {
            proof {
                assert(self.t_evaluations@[j as int] == old(self).t_evaluations@[j as int]);
                assert(old(self).t_evaluations@[j as int]@.len() == old(self).num_rows_spec());
            }
            let column = vec_index_mut(&mut self.t_evaluations, j);
            column.set(row_idx, row_data[j]);
            j = j + 1;
        }
    }

    /// Interpolates the sum of all divided columns into a single polynomial
    /// in coefficient form over the offset coset.
    pub fn into_poly(self) -> (r: Result<ConstraintPoly, crate::errors::ProverError>)
        requires
            self.wf(),
        ensures
            r is Ok,
            r->Ok_0.coefficients@.len() == self.num_rows_spec(),
            r->Ok_0.trace_length == self.trace_length,
            all_wf(r->Ok_0.coefficients@),
            all_divisors_invertible(
                self.divisors@,
                self.domain_offset.val(),
                self.num_rows_spec(),
            ) ==> forall|j: int|
                0 <= j < self.num_rows_spec() ==> (#[trigger] r->Ok_0.coefficients@[j]).val()
                    == idft_coeff(
                    composition_evals(
                        col_vals(self.evaluations@),
                        self.divisors@,
                        self.domain_offset.val(),
                        self.num_rows_spec(),
                    ),
                    domain_generator(log2_nat(self.num_rows_spec())),
                    self.domain_offset.val(),
                    j as nat,
                ),
    {
        let n = self.evaluations[0].len();
        let ncols = self.evaluations.len();
        let ghost cols = col_vals(self.evaluations@);
        let ghost divs = self.divisors@;
        let ghost offv = self.domain_offset.val();
        let ghost invertible = all_divisors_invertible(divs, offv, n as nat);
        let mut combined = zeroed_column(n);
        let mut j: usize = 0;
        while j < ncols
            invariant
                j <= ncols,
                ncols == self.evaluations@.len(),
                self.wf(),
                n == self.num_rows_spec(),
                cols == col_vals(self.evaluations@),
                divs == self.divisors@,
                offv == self.domain_offset.val(),
                invertible == all_divisors_invertible(divs, offv, n as nat),
                combined@.len() == n,
                all_wf(combined@),
                invertible ==> forall|i: int|
                    0 <= i < n ==> (#[trigger] combined@[i]).val() == combined_sum(
                        cols,
                        divs,
                        offv,
                        n as nat,
                        i as nat,
                        j as nat,
                    ),
            decreases ncols - j,
        {
            acc_column(&self.evaluations[j], &self.divisors[j], self.domain_offset, &mut combined);
            j = j + 1;
        }
        let log2n = log2(n);
        proof {
            crate::polynom::lemma_pow2_log2(n as nat);
            if log2n > TWO_ADICITY {
                vstd::arithmetic::power2::lemma_pow2_strictly_increases(
                    TWO_ADICITY as nat,
                    log2n as nat,
                );
                vstd::arithmetic::power2::lemma2_to64();
            }
            crate::field::lemma_fpow_nonzero(
                GENERATOR as int,
                vstd::arithmetic::power2::pow2((TWO_ADICITY - log2n) as nat),
            );
        }
        let g = get_root_of_unity(log2n);
        let poly = interpolate_poly_with_offset(&combined, g, self.domain_offset);
        proof {
            if invertible {
                assert(felt_vals(combined@) =~= composition_evals(cols, divs, offv, n as nat));
            }
        }
        Ok(ConstraintPoly::new(poly, self.trace_length))
    }
}

// ACCUMULATOR LINEARITY
// ================================================================================================

/// The quotient a column contributes is linear in the column: dividing the
/// combination `alpha * c1 + beta * c2` by a divisor gives the same value
/// as the weighted sum of the two columns' quotients, at every row and for
/// either divisor kind.
pub proof fn lemma_acc_quotient_linear(
    alpha: int,
    beta: int,
    c1: int,
    c2: int,
    offset: int,
    a: nat,
    b: int,
    excl: Option<int>,
    domain_size: nat,
    i: nat,
)
    ensures
        acc_quotient(
            fadd(fmul(alpha, c1), fmul(beta, c2)),
            offset,
            a,
            b,
            excl,
            domain_size,
            i,
        ) == fadd(
            fmul(alpha, acc_quotient(c1, offset, a, b, excl, domain_size, i)),
            fmul(beta, acc_quotient(c2, offset, a, b, excl, domain_size, i)),
        ),
{
    let zlen = domain_size / a;
    let z = finv(inv_eval_denom(offset, a, b, domain_size, i % zlen));
    let w = match excl {
        Option::None => z,
        Option::Some(c) => {
            let g = domain_generator(log2_nat(domain_size));
            fmul(z, fsub(fmul(offset, fpow(g, i)), c))
        },
    };
    assert(acc_quotient(c1, offset, a, b, excl, domain_size, i) == fmul(c1, w));
    assert(acc_quotient(c2, offset, a, b, excl, domain_size, i) == fmul(c2, w));
    assert(acc_quotient(
        fadd(fmul(alpha, c1), fmul(beta, c2)),
        offset,
        a,
        b,
        excl,
        domain_size,
        i,
    ) == fmul(fadd(fmul(alpha, c1), fmul(beta, c2)), w));
    crate::field::lemma_fmul_comm(fadd(fmul(alpha, c1), fmul(beta, c2)), w);
    crate::field::lemma_fmul_distrib(w, fmul(alpha, c1), fmul(beta, c2));
    crate::field::lemma_fmul_comm(w, fmul(alpha, c1));
    crate::field::lemma_fmul_comm(w, fmul(beta, c2));
    crate::field::lemma_fmul_assoc(alpha, c1, w);
    crate::field::lemma_fmul_assoc(beta, c2, w);
}

// DEGREE VALIDATION
// ================================================================================================

/// The interpolation of a sequence of evaluations over the coset of its
/// size with the given offset.
pub open spec fn interpolated(evals: Seq<int>, domain_size: nat, offset: int) -> Seq<int> {
    Seq::new(
        domain_size,
        |j: int| idft_coeff(evals, domain_generator(log2_nat(domain_size)), offset, j as nat),
    )
}

/// The divisor's value vanishes nowhere on the offset coset: at every
/// domain point, the denominator factor is nonzero and so is the whole
/// divisor value.
pub open spec fn divisor_nonvanishing(
    divisor: ConstraintDivisor,
    offset: int,
    domain_size: nat,
) -> bool {
    forall|i: nat|
        i < domain_size ==> (divisor.has_exclusion() ==> fsub(
            fmul(offset, fpow(domain_generator(log2_nat(domain_size)), i)),
            divisor.exclusion_spec(),
        ) != 0) && #[trigger] divisor.eval_spec(
            fmul(offset, fpow(domain_generator(log2_nat(domain_size)), i)),
        ) != 0
}

/// The evaluations of a column divided pointwise by its divisor over the
/// offset coset.
pub open spec fn quotient_evals(
    col: Seq<int>,
    divisor: ConstraintDivisor,
    offset: int,
    domain_size: nat,
) -> Seq<int> {
    Seq::new(
        domain_size,
        |i: int|
            {
                let g = domain_generator(log2_nat(domain_size));
                let xi = fmul(offset, fpow(g, i as nat));
                fdiv(col[i], divisor.eval_spec(xi))
            },
    )
}

/// Divides a column by its divisor's value at every domain point,
/// interpolates the quotient over the offset coset, and checks that the
/// resulting polynomial has the expected degree. Succeeds exactly when the
/// degrees agree.
pub fn validate_column_degree(
    column: &Vec<Felt>,
    divisor: &ConstraintDivisor,
    domain_offset: Felt,
    expected_degree: usize,
) -> (r: Result<(), crate::errors::ProverError>)
    requires
        divisor.wf(),
        domain_offset.wf(),
        domain_offset.val() != 0,
        all_wf(column@),
        is_power_of_two(column@.len() as int),
        1 <= column@.len() <= MAX_DOMAIN_SIZE,
        divisor_nonvanishing(*divisor, domain_offset.val(), column@.len() as nat),
    ensures
        r is Ok <==> expected_degree == poly_degree(
            interpolated(
                quotient_evals(
                    felt_vals(column@),
                    *divisor,
                    domain_offset.val(),
                    column@.len() as nat,
                ),
                column@.len() as nat,
                domain_offset.val(),
            ),
        ),
        r matches Err(crate::errors::ProverError::MismatchedConstraintPolynomialDegree(
            e,
            actual,
        )) ==> e == expected_degree && actual == poly_degree(
            interpolated(
                quotient_evals(
                    felt_vals(column@),
                    *divisor,
                    domain_offset.val(),
                    column@.len() as nat,
                ),
                column@.len() as nat,
                domain_offset.val(),
            ),
        ) && e != actual,
{
    let n = column.len();
    let log2n = log2(n);
    proof {
        crate::polynom::lemma_pow2_log2(n as nat);
        if log2n > TWO_ADICITY {
            vstd::arithmetic::power2::lemma_pow2_strictly_increases(
                TWO_ADICITY as nat,
                log2n as nat,
            );
            vstd::arithmetic::power2::lemma2_to64();
        }
        crate::field::lemma_fpow_nonzero(
            GENERATOR as int,
            vstd::arithmetic::power2::pow2((TWO_ADICITY - log2n) as nat),
        );
    }
    let g = get_root_of_unity(log2n);
    let ghost gv = domain_generator(log2_nat(n as nat));
    let ghost quots = quotient_evals(
        felt_vals(column@),
        *divisor,
        domain_offset.val(),
        n as nat,
    );
    let mut x = domain_offset;
    proof {
        lemma_fpow_zero(gv);
        lemma_fmul_one(domain_offset.val());
        crate::field::lemma_fmul_comm(domain_offset.val(), 1);
    }
    let mut evaluations: Vec<Felt> = Vec::new();
    let mut i: usize = 0;
    while i < n
        invariant
            i <= n,
            i == evaluations@.len(),
            n == column@.len(),
            1 <= n <= MAX_DOMAIN_SIZE,
            divisor.wf(),
            divisor.exp_spec() <= usize::MAX,
            domain_offset.wf(),
            g.wf(),
            x.wf(),
            gv == domain_generator(log2_nat(n as nat)),
            g.val() == gv,
            x.val() == fmul(domain_offset.val(), fpow(gv, i as nat)),
            all_wf(column@),
            quots == quotient_evals(
                felt_vals(column@),
                *divisor,
                domain_offset.val(),
                n as nat,
            ),
            divisor_nonvanishing(*divisor, domain_offset.val(), n as nat),
            all_wf(evaluations@),
            forall|i2: int| 0 <= i2 < i ==> (#[trigger] evaluations@[i2]).val() == quots[i2],
        decreases n - i,
    {
        proof {
            assert(divisor.eval_spec(fmul(domain_offset.val(), fpow(gv, i as nat))) != 0);
            if divisor.has_exclusion() {
                crate::field::lemma_fsub_zero(x.val(), divisor.exclusion_spec());
            }
        }
        let div_value = divisor.evaluate_at(x);
        proof {
            assert(divisor.eval_spec(x.val()) != 0);
        }
        evaluations.push(column[i].div(div_value));
        proof {
            lemma_fpow_succ(gv, i as nat);
            crate::field::lemma_fmul_assoc(domain_offset.val(), fpow(gv, i as nat), gv);
            crate::field::lemma_fmul_comm(gv, fpow(gv, i as nat));
        }
        x = x.mul(g);
        i = i + 1;
    }
    let poly = interpolate_poly_with_offset(&evaluations, g, domain_offset);
    proof {
        assert(felt_vals(evaluations@) =~= quots);
    }
    let actual = crate::polynom::degree_of(&poly);
    proof {
        assert(felt_vals(poly@) =~= interpolated(quots, n as nat, domain_offset.val()));
    }
    if expected_degree != actual {
        return Err(
            crate::errors::ProverError::MismatchedConstraintPolynomialDegree(
                expected_degree,
                actual,
            ),
        );
    }
    Ok(())
}

impl ConstraintEvaluationTable {
    /// The interpolated degree of raw transition column `j`.
    pub open spec fn t_actual_degree(self, j: int) -> nat {
        poly_degree(interpolated(felt_vals(self.t_evaluations@[j]@), self.num_rows_spec(), 1))
    }

    /// Every raw transition column's interpolated degree matches its
    /// expected degree.
    pub open spec fn t_degrees_match(self) -> bool {
        forall|j: int|
            0 <= j < self.t_evaluations@.len() ==> #[trigger] self.t_actual_degree(j)
                == self.t_expected_degrees@[j]
    }

    /// The largest interpolated degree among the first `k` raw transition
    /// columns.
    pub open spec fn t_max_degree(self, k: nat) -> nat
        decreases k,
    {
        if k == 0 {
            0
        } else {
            let prev = self.t_max_degree((k - 1) as nat);
            let d = self.t_actual_degree(k - 1);
            if d > prev {
                d
            } else {
                prev
            }
        }
    }

    /// Interpolates every saved transition constraint column and checks
    /// that its actual degree matches the expected degree, and that the
    /// evaluation domain is exactly as large as the largest degree and the
    /// trace length require. Accepts exactly when both hold.
    pub fn validate_transition_degrees(&self) -> (r: bool)
        requires
            self.wf(),
            self.trace_length < MAX_DOMAIN_SIZE,
        ensures
            r == (self.t_degrees_match() && is_next_pow2(
                self.num_rows_spec() as int,
                if self.t_max_degree(self.t_evaluations@.len() as nat) > self.trace_length + 1 {
                    self.t_max_degree(self.t_evaluations@.len() as nat) as int
                } else {
                    self.trace_length + 1
                },
            )),
    {
        let n = self.num_rows();
        let log2n = log2(n);
        proof {
            crate::polynom::lemma_pow2_log2(n as nat);
            if log2n > TWO_ADICITY {
                vstd::arithmetic::power2::lemma_pow2_strictly_increases(
                    TWO_ADICITY as nat,
                    log2n as nat,
                );
                vstd::arithmetic::power2::lemma2_to64();
            }
            crate::field::lemma_fpow_nonzero(
                GENERATOR as int,
                vstd::arithmetic::power2::pow2((TWO_ADICITY - log2n) as nat),
            );
        }
        let g = get_root_of_unity(log2n);
        let num_t_columns = self.t_evaluations.len();
        let mut max_degree: usize = 0;
        let mut degrees_match = true;
        let mut j: usize = 0;
        while j < num_t_columns
            invariant
                j <= num_t_columns,
                num_t_columns == self.t_evaluations@.len(),
                self.wf(),
                n == self.num_rows_spec(),
                1 <= n <= MAX_DOMAIN_SIZE,
                g.wf(),
                g.val() == domain_generator(log2_nat(n as nat)),
                g.val() != 0,
                max_degree == self.t_max_degree(j as nat),
                max_degree <= n,
                degrees_match == (forall|j2: int|
                    0 <= j2 < j ==> #[trigger] self.t_actual_degree(j2)
                        == self.t_expected_degrees@[j2]),
            decreases num_t_columns - j,
        {
            let poly = interpolate_poly(&self.t_evaluations[j], g);
            proof {
                assert(felt_vals(poly@) =~= interpolated(
                    felt_vals(self.t_evaluations@[j as int]@),
                    n as nat,
                    1,
                ));
            }
            let degree = crate::polynom::degree_of(&poly);
            proof {
                assert(degree == self.t_actual_degree(j as int));
            }
            if degree != self.t_expected_degrees[j] {
                degrees_match = false;
            }
            if degree > max_degree {
                max_degree = degree;
            }
            j = j + 1;
        }
        if !degrees_match {
            return false;
        }
        let target = if max_degree > self.trace_length + 1 {
            max_degree
        } else {
            self.trace_length + 1
        };
        let expected_domain_size = crate::polynom::next_power_of_two(target);
        proof {
            if expected_domain_size == n {
            } else {
                if is_next_pow2(self.num_rows_spec() as int, target as int) {
                    crate::polynom::lemma_next_pow2_unique(
                        expected_domain_size as int,
                        self.num_rows_spec() as int,
                        target as int,
                    );
                }
            }
        }
        expected_domain_size == n
    }
}

// TABLE FRAGMENTS
// ================================================================================================

/// An owned view of a contiguous band of table rows, one slice per column.
/// Fragments are taken out of a table, filled row by row, and merged back;
/// distinct fragments cover disjoint row ranges.
pub struct TableFragment {
    pub offset: usize,
    pub data: Vec<Vec<Felt>>,
}

impl TableFragment {
    /// A fragment holds equally long, well-formed column slices.
    pub open spec fn wf(self) -> bool {
        &&& self.data@.len() >= 1
        &&& forall|c: int|
            0 <= c < self.data@.len() ==> (#[trigger] self.data@[c])@.len() == self.data@[0]@.len()
        &&& forall|c: int| 0 <= c < self.data@.len() ==> all_wf((#[trigger] self.data@[c])@)
    }

    /// The row at which the fragment starts.
    pub fn offset(&self) -> (r: usize)
        ensures
            r == self.offset,
    {
        self.offset
    }

    /// The number of rows in the fragment.
    pub fn num_rows(&self) -> (r: usize)
        requires
            self.wf(),
        ensures
            r == self.data@[0]@.len(),
    {
        self.data[0].len()
    }

    /// The number of columns in the fragment.
    pub fn num_columns(&self) -> (r: usize)
        ensures
            r == self.data@.len(),
    {
        self.data.len()
    }

    /// Writes one value into every column at the given fragment-local row.
    pub fn update_row(&mut self, row_idx: usize, row_data: &Vec<Felt>)
        requires
            old(self).wf(),
            row_idx < old(self).data@[0]@.len(),
            row_data@.len() == old(self).data@.len(),
            all_wf(row_data@),
        ensures
            final(self).wf(),
            final(self).offset == old(self).offset,
            final(self).data@.len() == old(self).data@.len(),
            forall|c: int|
                0 <= c < old(self).data@.len() ==> (#[trigger] final(self).data@[c])@ == old(
                    self,
                ).data@[c]@.update(row_idx as int, row_data@[c]),
    {
        let n = row_data.len();
        let mut j: usize = 0;
        while j < n
            invariant
                j <= n,
                n == row_data@.len(),
                n == self.data@.len(),
                n == old(self).data@.len(),
                row_idx < old(self).data@[0]@.len(),
                all_wf(row_data@),
                old(self).wf(),
                self.offset == old(self).offset,
                forall|c: int| j <= c < n ==> (#[trigger] self.data@[c]) == old(self).data@[c],
                forall|c: int|
                    0 <= c < j ==> (#[trigger] self.data@[c])@ == old(self).data@[c]@.update(
                        row_idx as int,
                        row_data@[c],
                    ),
            decreases n - j,
        {
            proof {
                assert(self.data@[j as int] == old(self).data@[j as int]);
                assert(old(self).data@[j as int]@.len() == old(self).data@[0]@.len());
            }
            let column = vec_index_mut(&mut self.data, j);
            column.set(row_idx, row_data[j]);
            j = j + 1;
        }
    }
}

/// The concatenation of the first `f` fragments' column `c`.
pub open spec fn frag_col_prefix(frags: Seq<TableFragment>, c: int, f: nat) -> Seq<Felt>
    decreases f,
{
    if f == 0 {
        Seq::empty()
    } else {
        frag_col_prefix(frags, c, (f - 1) as nat) + frags[f - 1].data@[c]@
    }
}

impl ConstraintEvaluationTable {
    /// Splits the table into `num_fragments` bands of equal row count, each
    /// holding a copy of its rows of every column. Writing the fragments
    /// and merging them back is equivalent to writing the table directly.
    pub fn fragments(&self, num_fragments: usize) -> (r: Vec<TableFragment>)
        requires
            self.wf(),
            num_fragments >= 1,
            self.num_rows_spec() as int % num_fragments as int == 0,
            self.num_rows_spec() as int / num_fragments as int >= MIN_FRAGMENT_SIZE,
        ensures
            r@.len() == num_fragments,
            forall|f: int| 0 <= f < num_fragments ==> (#[trigger] r@[f]).wf(),
            forall|f: int|
                0 <= f < num_fragments ==> (#[trigger] r@[f]).offset == f * (
                self.num_rows_spec() as int / num_fragments as int),
            forall|f: int|
                0 <= f < num_fragments ==> (#[trigger] r@[f]).data@.len()
                    == self.evaluations@.len(),
            forall|f: int, c: int|
                0 <= f < num_fragments && 0 <= c < self.evaluations@.len()
                    ==> (#[trigger] r@[f].data@[c])@ == self.evaluations@[c]@.subrange(
                    f * (self.num_rows_spec() as int / num_fragments as int),
                    (f + 1) * (self.num_rows_spec() as int / num_fragments as int),
                ),
        {
        let num_rows = self.num_rows();
        let fragment_size = num_rows / num_fragments;
        let ncols = self.evaluations.len();
        let ghost fs = fragment_size as int;
        proof {
            vstd::arithmetic::div_mod::lemma_fundamental_div_mod(
                num_rows as int,
                num_fragments as int,
            );
        }
        let mut r: Vec<TableFragment> = Vec::new();
        let mut f: usize = 0;
        while f < num_fragments
            invariant
                f <= num_fragments,
                f == r@.len(),
                self.wf(),
                ncols == self.evaluations@.len(),
                fs == fragment_size as int,
                num_rows == self.num_rows_spec(),
                num_rows as int == num_fragments as int * fs,
                fs >= MIN_FRAGMENT_SIZE,
                forall|f2: int| 0 <= f2 < f ==> (#[trigger] r@[f2]).wf(),
                forall|f2: int| 0 <= f2 < f ==> (#[trigger] r@[f2]).offset == f2 * fs,
                forall|f2: int| 0 <= f2 < f ==> (#[trigger] r@[f2]).data@.len() == ncols,
                forall|f2: int, c: int|
                    0 <= f2 < f && 0 <= c < ncols ==> (#[trigger] r@[f2].data@[c])@
                        == self.evaluations@[c]@.subrange(f2 * fs, (f2 + 1) * fs),
            decreases num_fragments - f,
        {
            proof {
                assert((f + 1) * fs <= num_fragments as int * fs) by {
                    vstd::arithmetic::mul::lemma_mul_inequality(
                        f + 1,
                        num_fragments as int,
                        fs,
                    );
                    vstd::arithmetic::mul::lemma_mul_is_commutative(f + 1, fs);
                    vstd::arithmetic::mul::lemma_mul_is_commutative(num_fragments as int, fs);
                }
                assert(f * fs >= 0) by {
                    vstd::arithmetic::mul::lemma_mul_nonnegative(f as int, fs);
                }
                assert((f + 1) * fs == f * fs + fs) by {
                    vstd::arithmetic::mul::lemma_mul_is_distributive_add_other_way(fs, f as int, 1);
                }
                assert(f * fs <= (f + 1) * fs);
            }
            let offset = f * fragment_size;
            let mut data: Vec<Vec<Felt>> = Vec::new();
            let mut c: usize = 0;
            while c < ncols
                invariant
                    c <= ncols,
                    c == data@.len(),
                    self.wf(),
                    ncols == self.evaluations@.len(),
                    num_rows == self.num_rows_spec(),
                    fs == fragment_size as int,
                    fs >= 1,
                    offset == f * fs,
                    offset + fragment_size <= num_rows,
                    forall|c2: int|
                        0 <= c2 < c ==> (#[trigger] data@[c2])@ == self.evaluations@[c2]@.subrange(f * fs, (f + 1) * fs),
                    forall|c2: int| 0 <= c2 < c ==> ((#[trigger] data@[c2])@.len() == fs),
                    forall|c2: int| 0 <= c2 < c ==> all_wf((#[trigger] data@[c2])@),
                decreases ncols - c,
            {
                let mut slice: Vec<Felt> = Vec::new();
                let mut i: usize = 0;
                while i < fragment_size
                    invariant
                        i <= fragment_size,
                        i == slice@.len(),
                        c < ncols,
                        self.wf(),
                        ncols == self.evaluations@.len(),
                        num_rows == self.num_rows_spec(),
                        fs == fragment_size as int,
                        offset == f * fs,
                        offset + fragment_size <= num_rows,
                        forall|k: int| 0 <= k < i ==> (#[trigger] slice@[k]) == self.evaluations@[c as int]@[offset + k],
                        all_wf(slice@),
                    decreases fragment_size - i,
                {
                    slice.push(self.evaluations[c][offset + i]);
                    i = i + 1;
                }
                proof {
                    assert((f + 1) * fs == f * fs + fs) by {
                        vstd::arithmetic::mul::lemma_mul_is_distributive_add_other_way(
                            fs,
                            f as int,
                            1,
                        );
                    }
                    assert(slice@ =~= self.evaluations@[c as int]@.subrange(
                        f * fs,
                        (f + 1) * fs,
                    ));
                }
                data.push(slice);
                c = c + 1;
            }
            r.push(TableFragment { offset, data });
            f = f + 1;
        }
        r
    }

    /// Writes fragments produced by `fragments` back into the table. Every
    /// row of every fragment replaces the table row at the fragment's
    /// offset plus the local index.
    pub fn merge_fragments(&mut self, fragments: &Vec<TableFragment>)
        requires
            old(self).wf(),
            fragments@.len() >= 1,
            old(self).num_rows_spec() as int % fragments@.len() as int == 0,
            forall|f: int| 0 <= f < fragments@.len() ==> (#[trigger] fragments@[f]).wf(),
            forall|f: int|
                0 <= f < fragments@.len() ==> (#[trigger] fragments@[f]).data@.len() == old(
                    self,
                ).evaluations@.len(),
            forall|f: int, c: int|
                0 <= f < fragments@.len() && 0 <= c < old(self).evaluations@.len() ==> (
                #[trigger] fragments@[f].data@[c])@.len() == old(self).num_rows_spec() as int
                    / fragments@.len() as int,
        ensures
            final(self).wf(),
            final(self).num_rows_spec() == old(self).num_rows_spec(),
            final(self).evaluations@.len() == old(self).evaluations@.len(),
            forall|c: int|
                0 <= c < old(self).evaluations@.len() ==> (#[trigger] final(self).evaluations@[c])@
                    == frag_col_prefix(fragments@, c, fragments@.len() as nat),
            final(self).divisors@ == old(self).divisors@,
            final(self).domain_offset == old(self).domain_offset,
            final(self).trace_length == old(self).trace_length,
            final(self).t_evaluations@ == old(self).t_evaluations@,
            final(self).t_expected_degrees@ == old(self).t_expected_degrees@,
    {
        let nf = fragments.len();
        let ncols = self.evaluations.len();
        let ghost fs = old(self).num_rows_spec() as int / nf as int;
        proof {
            vstd::arithmetic::div_mod::lemma_fundamental_div_mod(
                old(self).num_rows_spec() as int,
                nf as int,
            );
            lemma_frag_col_prefix_len(fragments@, nf as nat, fs);
        }
        let mut c: usize = 0;
        while c < ncols
            invariant
                c <= ncols,
                ncols == self.evaluations@.len(),
                ncols == old(self).evaluations@.len(),
                nf == fragments@.len(),
                old(self).wf(),
                fs == old(self).num_rows_spec() as int / nf as int,
                old(self).num_rows_spec() as int == nf as int * fs,
                forall|f: int| 0 <= f < nf ==> (#[trigger] fragments@[f]).wf(),
                forall|f: int| 0 <= f < nf ==> (#[trigger] fragments@[f]).data@.len() == ncols,
                forall|f: int, c2: int|
                    0 <= f < nf && 0 <= c2 < ncols ==> (#[trigger] fragments@[f].data@[c2])@.len()
                        == fs,
                forall|c2: int| c <= c2 < ncols ==> (#[trigger] self.evaluations@[c2]) == old(
                    self,
                ).evaluations@[c2],
                forall|c2: int|
                    0 <= c2 < c ==> (#[trigger] self.evaluations@[c2])@ == frag_col_prefix(
                        fragments@,
                        c2,
                        nf as nat,
                    ),
                self.divisors@ == old(self).divisors@,
                self.domain_offset == old(self).domain_offset,
                self.trace_length == old(self).trace_length,
                self.t_evaluations@ == old(self).t_evaluations@,
                self.t_expected_degrees@ == old(self).t_expected_degrees@,
            decreases ncols - c,
        {
            let mut newcol: Vec<Felt> = Vec::new();
            let mut f: usize = 0;
            proof {
                assert(newcol@ =~= frag_col_prefix(fragments@, c as int, 0));
            }
            while f < nf
                invariant
                    f <= nf,
                    c < ncols,
                    nf == fragments@.len(),
                    forall|f2: int| 0 <= f2 < nf ==> (#[trigger] fragments@[f2]).wf(),
                    forall|f2: int| 0 <= f2 < nf ==> (#[trigger] fragments@[f2]).data@.len()
                        == ncols,
                    newcol@ == frag_col_prefix(fragments@, c as int, f as nat),
                    all_wf(newcol@),
                decreases nf - f,
            {
                let frag_rows = fragments[f].data[c].len();
                let mut i: usize = 0;
                while i < frag_rows
                    invariant
                        i <= frag_rows,
                        f < nf,
                        c < ncols,
                        nf == fragments@.len(),
                        forall|f2: int| 0 <= f2 < nf ==> (#[trigger] fragments@[f2]).wf(),
                        forall|f2: int| 0 <= f2 < nf ==> (#[trigger] fragments@[f2]).data@.len()
                            == ncols,
                        frag_rows == fragments@[f as int].data@[c as int]@.len(),
                        newcol@ == frag_col_prefix(fragments@, c as int, f as nat)
                            + fragments@[f as int].data@[c as int]@.take(i as int),
                        all_wf(newcol@),
                    decreases frag_rows - i,
                {
                    newcol.push(fragments[f].data[c][i]);
                    proof {
                        assert(fragments@[f as int].data@[c as int]@.take(i + 1)
                            =~= fragments@[f as int].data@[c as int]@.take(i as int).push(
                            fragments@[f as int].data@[c as int]@[i as int],
                        ));
                    }
                    i = i + 1;
                }
                proof {
                    assert(fragments@[f as int].data@[c as int]@.take(frag_rows as int)
                        =~= fragments@[f as int].data@[c as int]@);
                }
                f = f + 1;
            }
            proof {
                assert(self.evaluations@[c as int] == old(self).evaluations@[c as int]);
                lemma_frag_col_prefix_len(fragments@, nf as nat, fs);
                assert(newcol@.len() == nf as int * fs);
            }
            let column = vec_index_mut(&mut self.evaluations, c);
            *column = newcol;
            c = c + 1;
        }
        proof {
            lemma_frag_col_prefix_len(fragments@, nf as nat, fs);
            assert forall|c2: int| 0 <= c2 < ncols implies (#[trigger] self.evaluations@[c2])@.len()
                == old(self).num_rows_spec() by {
                assert(self.evaluations@[c2]@ == frag_col_prefix(fragments@, c2, nf as nat));
            }
            assert forall|c2: int| 0 <= c2 < ncols implies all_wf(
                (#[trigger] self.evaluations@[c2])@,
            ) by {
                lemma_frag_col_prefix_wf(fragments@, c2, nf as nat);
            }
            assert(final(self).num_rows_spec() == old(self).num_rows_spec());
        }
    }
}

/// Every element of a concatenation of well-formed fragment columns is
/// well formed.
pub proof fn lemma_frag_col_prefix_wf(frags: Seq<TableFragment>, c: int, f: nat)
    requires
        f <= frags.len(),
        forall|f2: int| 0 <= f2 < frags.len() ==> (#[trigger] frags[f2]).wf(),
        forall|f2: int| 0 <= f2 < frags.len() ==> c < (#[trigger] frags[f2]).data@.len(),
        0 <= c,
    ensures
        all_wf(frag_col_prefix(frags, c, f)),
    decreases f,
{
    if f > 0 {
        lemma_frag_col_prefix_wf(frags, c, (f - 1) as nat);
        assert(all_wf(frags[f - 1].data@[c]@));
        let whole = frag_col_prefix(frags, c, f);
        let left = frag_col_prefix(frags, c, (f - 1) as nat);
        let right = frags[f - 1].data@[c]@;
        assert forall|i: int| 0 <= i < whole.len() implies (#[trigger] whole[i]).wf() by {
            if i < left.len() {
                assert(whole[i] == left[i]);
            } else {
                assert(whole[i] == right[i - left.len()]);
            }
        }
    }
}

/// The concatenated fragment columns have one fragment's rows per fragment.
pub proof fn lemma_frag_col_prefix_len(frags: Seq<TableFragment>, f: nat, fs: int)
    requires
        f <= frags.len(),
        forall|f2: int, c2: int|
            0 <= f2 < frags.len() && 0 <= c2 < (#[trigger] frags[f2]).data@.len() ==> (
            #[trigger] frags[f2].data@[c2])@.len() == fs,
        fs >= 0,
    ensures
        forall|c: int|
            0 <= c ==> (forall|f2: int| 0 <= f2 < frags.len() ==> c < (
            #[trigger] frags[f2]).data@.len()) ==> frag_col_prefix(frags, c, f).len() == f * fs,
    decreases f,
{
    if f == 0 {
        assert forall|c: int| 0 <= c implies frag_col_prefix(frags, c, 0).len() == 0 by {}
    } else {
        lemma_frag_col_prefix_len(frags, (f - 1) as nat, fs);
        assert forall|c: int|
            0 <= c && (forall|f2: int| 0 <= f2 < frags.len() ==> c < (
            #[trigger] frags[f2]).data@.len()) implies frag_col_prefix(frags, c, f).len() == f
            * fs by {
            assert(frag_col_prefix(frags, c, (f - 1) as nat).len() == (f - 1) * fs);
            assert(frags[f - 1].data@[c]@.len() == fs);
            assert(f * fs == (f - 1) * fs + fs) by {
                vstd::arithmetic::mul::lemma_mul_is_distributive_sub_other_way(fs, f as int, 1);
            }
        }
    }
}

/// Allocates `count` zeroed columns of `len` rows each.
fn zeroed_columns(count: usize, len: usize) -> (r: Vec<Vec<Felt>>)
    ensures
        r@.len() == count,
        forall|j: int| 0 <= j < count ==> (#[trigger] r@[j])@.len() == len,
        forall|j: int| 0 <= j < count ==> all_wf((#[trigger] r@[j])@),
        forall|j: int, i: int|
            0 <= j < count && 0 <= i < len ==> (#[trigger] r@[j]@[i]).val() == 0,
{
    let mut r: Vec<Vec<Felt>> = Vec::new();
    let mut j: usize = 0;
    while j < count
        invariant
            j <= count,
            j == r@.len(),
            forall|c: int| 0 <= c < j ==> (#[trigger] r@[c])@.len() == len,
            forall|c: int| 0 <= c < j ==> all_wf((#[trigger] r@[c])@),
            forall|c: int, i: int| 0 <= c < j && 0 <= i < len ==> (#[trigger] r@[c]@[i]).val() == 0,
        decreases count - j,
    {
        r.push(zeroed_column(len));
        j = j + 1;
    }
    r
}

/// Allocates one zeroed column of `len` rows.
fn zeroed_column(len: usize) -> (r: Vec<Felt>)
    ensures
        r@.len() == len,
        all_wf(r@),
        forall|i: int| 0 <= i < len ==> (#[trigger] r@[i]).val() == 0,
{
    let mut r: Vec<Felt> = Vec::new();
    let mut i: usize = 0;
    while i < len
        invariant
            i <= len,
            i == r@.len(),
            all_wf(r@),
            forall|k: int| 0 <= k < i ==> (#[trigger] r@[k]).val() == 0,
        decreases len - i,
    {
        r.push(Felt::zero());
        i = i + 1;
    }
    r
}

} // verus!
