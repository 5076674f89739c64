//! Constraint divisors: rational expressions of the shape
//! `(x^a - b) / (x - c)` by which combined constraint columns are divided.
//!
//! The numerator is a single monic term `(x^a - b)` with `a >= 1`; the
//! denominator is either empty (boundary constraints) or one exclusion
//! point (transition constraints). Any other shape is outside the type's
//! well-formedness predicate and rejected by every consumer's contract.

use vstd::prelude::*;
use crate::field::{Felt, fsub, fmul, fpow, fdiv, P};

verus! {

/// The divisor of one combined constraint column.
pub struct ConstraintDivisor {
    pub numerator: Vec<(usize, Felt)>,
    pub excluded: Vec<Felt>,
}

impl ConstraintDivisor {
    /// A divisor is well formed when its numerator is one monic term
    /// `(x^a - b)` with `a >= 1` and it has at most one exclusion point.
    pub open spec fn wf(self) -> bool {
        &&& self.numerator@.len() == 1
        &&& self.numerator@[0].0 >= 1
        &&& self.numerator@[0].1.wf()
        &&& self.excluded@.len() <= 1
        &&& (forall|i: int| 0 <= i < self.excluded@.len() ==> (#[trigger] self.excluded@[i]).wf())
    }

    /// The numerator degree `a` of `(x^a - b)`.
    pub open spec fn exp_spec(self) -> nat {
        self.numerator@[0].0 as nat
    }

    /// The numerator constant `b` of `(x^a - b)`.
    pub open spec fn const_spec(self) -> int {
        self.numerator@[0].1.val()
    }

    /// Whether the divisor has an exclusion point.
    pub open spec fn has_exclusion(self) -> bool {
        self.excluded@.len() == 1
    }

    /// The exclusion point, when there is one.
    pub open spec fn exclusion_spec(self) -> int {
        self.excluded@[0].val()
    }

    /// Builds a divisor from its numerator term and exclusion points.
    pub fn new(numerator: Vec<(usize, Felt)>, excluded: Vec<Felt>) -> (r: ConstraintDivisor)
        requires
            numerator@.len() == 1,
            numerator@[0].0 >= 1,
            numerator@[0].1.wf(),
            excluded@.len() <= 1,
            forall|i: int| 0 <= i < excluded@.len() ==> (#[trigger] excluded@[i]).wf(),
        ensures
            r.wf(),
            r.exp_spec() == numerator@[0].0,
            r.const_spec() == numerator@[0].1.val(),
            r.has_exclusion() == (excluded@.len() == 1),
            r.has_exclusion() ==> r.exclusion_spec() == excluded@[0].val(),
    {
        ConstraintDivisor { numerator, excluded }
    }

    /// The numerator terms.
    pub fn numerator(&self) -> (r: &Vec<(usize, Felt)>)
        ensures
            r@ == self.numerator@,
    {
        &self.numerator
    }

    /// The exclusion points.
    pub fn exclude(&self) -> (r: &Vec<Felt>)
        ensures
            r@ == self.excluded@,
    {
        &self.excluded
    }

    /// The value of the divisor at `x`: the numerator value divided by the
    /// denominator value.
    pub fn evaluate_at(&self, x: Felt) -> (r: Felt)
        requires
            self.wf(),
            x.wf(),
            self.exp_spec() <= u64::MAX,
            self.has_exclusion() ==> x.val() != self.exclusion_spec(),
        ensures
            r.wf(),
            r.val() == self.eval_spec(x.val()),
    {
        let num = x.exp(self.numerator[0].0 as u64).sub(self.numerator[0].1);
        if self.excluded.len() == 0 {
            num
        } else {
            let denom = x.sub(self.excluded[0]);
            proof {
                crate::field::lemma_field_bounds(x.val(), self.exclusion_spec(), 0);
                if denom.val() == 0 {
                    crate::field::lemma_fsub_zero(x.val(), self.exclusion_spec());
                }
            }
            num.div(denom)
        }
    }

    /// The value of the divisor at `x`, as a field formula.
    pub open spec fn eval_spec(self, x: int) -> int {
        let num = fsub(fpow(x, self.exp_spec()), self.const_spec());
        if !self.has_exclusion() {
            num
        } else {
            fdiv(num, fsub(x, self.exclusion_spec()))
        }
    }
}

} // verus!
