//! The verification procedure: the out-of-domain consistency check and the
//! DEEP composition of trace and constraint quotients at the queried
//! points.
//!
//! The transcript, the AIR's constraint evaluation and the Merkle
//! authentication of queried values stand outside this crate: the channel
//! type here holds what they produced, and the caller runs the final FRI
//! low-degree test on the returned evaluations.

use vstd::prelude::*;
use crate::field::{
    Felt, fadd, fsub, fmul, fpow, fdiv, P, lemma_fadd_assoc, lemma_fadd_cancel, lemma_fmul_distrib,
    lemma_fmul_nonzero, lemma_fpow_nonzero, lemma_fpow_succ, lemma_fpow_zero, lemma_fmul_one,
    lemma_fmul_comm, lemma_field_bounds,
};
use crate::codec::{felt_vals, all_wf};
use crate::errors::VerifierError;

verus! {

/// The trace values at the out-of-domain point `z` and at `z` times the
/// trace domain generator.
pub struct EvaluationFrame {
    pub current: Vec<Felt>,
    pub next: Vec<Felt>,
}

impl EvaluationFrame {
    /// Both rows hold one reduced value per trace register.
    pub open spec fn wf(self) -> bool {
        &&& self.current@.len() == self.next@.len()
        &&& all_wf(self.current@)
        &&& all_wf(self.next@)
    }
}

/// The pseudo-random coefficients of the DEEP composition: one triple per
/// trace register, one coefficient per constraint column, and the degree
/// adjustment pair.
pub struct CompositionCoefficients {
    pub trace: Vec<(Felt, Felt, Felt)>,
    pub constraints: Vec<Felt>,
    pub degree: (Felt, Felt),
}

impl CompositionCoefficients {
    /// All coefficients are reduced values.
    pub open spec fn wf(self) -> bool {
        &&& forall|i: int|
            0 <= i < self.trace@.len() ==> (#[trigger] self.trace@[i]).0.wf()
                && self.trace@[i].1.wf() && self.trace@[i].2.wf()
        &&& all_wf(self.constraints@)
        &&& self.degree.0.wf()
        &&& self.degree.1.wf()
    }
}

/// The domain and degree parameters of the instance under verification, as
/// the AIR reports them.
pub struct AirInfo {
    pub trace_length: usize,
    pub trace_domain_generator: Felt,
    pub lde_domain_size: usize,
    pub lde_domain_generator: Felt,
    pub domain_offset: Felt,
    pub field_extension: bool,
    pub trace_poly_degree: usize,
    pub folding_factor: usize,
    pub max_remainder_size: usize,
}

impl AirInfo {
    /// The field values are reduced and the coset offset is invertible.
    pub open spec fn wf(self) -> bool {
        &&& self.trace_domain_generator.wf()
        &&& self.lde_domain_generator.wf()
        &&& self.domain_offset.wf()
        &&& self.domain_offset.val() != 0
    }
}

/// What the transcript-driven channel produced: the out-of-domain point
/// and frame, the prover's composition column evaluations at that point,
/// the drawn query positions, the Merkle-authenticated trace states and
/// constraint evaluations at those positions, and the drawn composition
/// coefficients.
pub struct VerifierChannel {
    pub deep_point: Felt,
    pub ood_frame: EvaluationFrame,
    pub ood_constraint_evaluations: Vec<Felt>,
    pub query_positions: Vec<usize>,
    pub trace_states: Vec<Vec<Felt>>,
    pub constraint_evaluations: Vec<Vec<Felt>>,
    pub coefficients: CompositionCoefficients,
    pub num_fri_partitions: usize,
}

impl VerifierChannel {
    /// The channel's values are reduced and its shapes agree: one trace
    /// state and one constraint row per query position, one register value
    /// per coefficient triple, one constraint value per coefficient.
    pub open spec fn wf(self) -> bool {
        &&& self.deep_point.wf()
        &&& self.ood_frame.wf()
        &&& all_wf(self.ood_constraint_evaluations@)
        &&& self.trace_states@.len() == self.query_positions@.len()
        &&& self.constraint_evaluations@.len() == self.query_positions@.len()
        &&& forall|k: int|
            0 <= k < self.trace_states@.len() ==> (#[trigger] self.trace_states@[k])@.len()
                == self.ood_frame.current@.len() && all_wf(self.trace_states@[k]@)
        &&& forall|k: int|
            0 <= k < self.constraint_evaluations@.len() ==> (
            #[trigger] self.constraint_evaluations@[k])@.len()
                == self.coefficients.constraints@.len() && all_wf(self.constraint_evaluations@[k]@)
        &&& self.coefficients.wf()
        &&& self.coefficients.trace@.len() == self.ood_frame.current@.len()
        &&& self.ood_constraint_evaluations@.len() == self.coefficients.constraints@.len()
    }
}

/// Everything the final low-degree test needs: the DEEP composition
/// evaluations at the queried positions, the positions themselves, and the
/// FRI context parameters.
pub struct FriVerificationInput {
    pub evaluations: Vec<Felt>,
    pub query_positions: Vec<usize>,
    pub lde_domain_size: usize,
    pub trace_poly_degree: usize,
    pub num_fri_partitions: usize,
    pub folding_factor: usize,
    pub max_remainder_size: usize,
}

// OUT-OF-DOMAIN CONSISTENCY
// ================================================================================================

/// The reduction of the composition column evaluations at `z`:
/// `sum_i z^i * v_i`.
pub open spec fn ood_sum(z: int, vals: Seq<int>) -> int
    decreases vals.len(),
{
    if vals.len() == 0 {
        0
    } else {
        fadd(ood_sum(z, vals.drop_last()), fmul(fpow(z, (vals.len() - 1) as nat), vals.last()))
    }
}

/// Reduces the prover-sent composition column evaluations at `z` to a
/// single value by `sum_i z^i * v_i`.
pub fn reduce_ood_evaluations(z: Felt, values: &Vec<Felt>) -> (r: Felt)
    requires
        z.wf(),
        all_wf(values@),
    ensures
        r.wf(),
        r.val() == ood_sum(z.val(), felt_vals(values@)),
{
    let ghost vals = felt_vals(values@);
    let mut result = Felt::zero();
    let mut zp = Felt::one();
    proof {
        lemma_fpow_zero(z.val());
        assert(vals.take(0) =~= Seq::<int>::empty());
    }
    let mut i: usize = 0;
    while i < values.len()
        invariant
            i <= values@.len(),
            vals == felt_vals(values@),
            all_wf(values@),
            z.wf(),
            result.wf(),
            zp.wf(),
            zp.val() == fpow(z.val(), i as nat),
            result.val() == ood_sum(z.val(), vals.take(i as int)),
        decreases values@.len() - i,
    {
        result = result.add(zp.mul(values[i]));
        proof {
            assert(vals.take(i + 1).drop_last() =~= vals.take(i as int));
            assert(vals.take(i + 1).last() == vals[i as int]);
            assert(fmul(zp.val(), vals[i as int]) == fmul(fpow(z.val(), i as nat), vals[i as int]));
            lemma_fmul_comm(zp.val(), vals[i as int]);
            lemma_fmul_comm(fpow(z.val(), i as nat), vals[i as int]);
            lemma_fpow_succ(z.val(), i as nat);
            lemma_fmul_comm(z.val(), fpow(z.val(), i as nat));
        }
        zp = zp.mul(z);
        i = i + 1;
    }
    proof {
        assert(vals.take(vals.len() as int) =~= vals);
    }
    result
}

/// Changing one composition column evaluation by a nonzero amount changes
/// the reduced value, whenever `z` is nonzero: the out-of-domain check
/// rejects every single-column perturbation.
pub proof fn lemma_ood_perturbation(z: int, vals: Seq<int>, j: int, eps: int)
    requires
        0 < z < P as int,
        forall|i: int| 0 <= i < vals.len() ==> 0 <= #[trigger] vals[i] < P as int,
        0 <= j < vals.len(),
        0 < eps < P as int,
    ensures
        ood_sum(z, vals.update(j, fadd(vals[j], eps))) != ood_sum(z, vals),
{
    lemma_ood_sum_update(z, vals, j, eps);
    lemma_ood_sum_bounds(z, vals);
    lemma_fpow_nonzero(z, j as nat);
    lemma_fmul_nonzero(fpow(z, j as nat), eps);
    lemma_fadd_cancel(ood_sum(z, vals), fmul(fpow(z, j as nat), eps));
}

/// Changing entry `j` by `eps` shifts the reduced value by `z^j * eps`.
proof fn lemma_ood_sum_update(z: int, vals: Seq<int>, j: int, eps: int)
    requires
        0 <= j < vals.len(),
    ensures
        ood_sum(z, vals.update(j, fadd(vals[j], eps))) == fadd(
            ood_sum(z, vals),
            fmul(fpow(z, j as nat), eps),
        ),
    decreases vals.len(),
{
    let upd = vals.update(j, fadd(vals[j], eps));
    if j == vals.len() - 1 {
        assert(upd.drop_last() =~= vals.drop_last());
        assert(upd.last() == fadd(vals.last(), eps));
        lemma_fmul_distrib(fpow(z, j as nat), vals.last(), eps);
        // the new last term splits into the old term plus the shift
        assert(fmul(fpow(z, j as nat), fadd(vals.last(), eps)) == fadd(
            fmul(fpow(z, j as nat), vals.last()),
            fmul(fpow(z, j as nat), eps),
        ));
        lemma_fadd_assoc(
            ood_sum(z, vals.drop_last()),
            fmul(fpow(z, j as nat), vals.last()),
            fmul(fpow(z, j as nat), eps),
        );
        // fadd of a value with a non-reduced first summand still matches,
        // since ood_sum recurses the same way on both sides
        assert(ood_sum(z, upd) == fadd(
            ood_sum(z, vals.drop_last()),
            fmul(fpow(z, j as nat), upd.last()),
        ));
    } else {
        assert(upd.drop_last() =~= vals.drop_last().update(j, fadd(vals[j], eps)));
        assert(upd.last() == vals.last());
        assert(vals.drop_last()[j] == vals[j]);
        lemma_ood_sum_update(z, vals.drop_last(), j, eps);
        lemma_fadd_assoc(
            ood_sum(z, vals.drop_last()),
            fmul(fpow(z, j as nat), eps),
            fmul(fpow(z, (vals.len() - 1) as nat), vals.last()),
        );
        lemma_fadd_assoc(
            ood_sum(z, vals.drop_last()),
            fmul(fpow(z, (vals.len() - 1) as nat), vals.last()),
            fmul(fpow(z, j as nat), eps),
        );
        // reorder the two added terms
        assert(fadd(
            fmul(fpow(z, j as nat), eps),
            fmul(fpow(z, (vals.len() - 1) as nat), vals.last()),
        ) == fadd(
            fmul(fpow(z, (vals.len() - 1) as nat), vals.last()),
            fmul(fpow(z, j as nat), eps),
        ));
    }
}

/// The reduced value is itself reduced.
proof fn lemma_ood_sum_bounds(z: int, vals: Seq<int>)
    ensures
        0 <= ood_sum(z, vals) < P as int,
    decreases vals.len(),
{
    if vals.len() == 0 {
        vstd::arithmetic::div_mod::lemma_small_mod(0, P as nat);
    } else {
        lemma_field_bounds(
            ood_sum(z, vals.drop_last()),
            fmul(fpow(z, (vals.len() - 1) as nat), vals.last()),
            0,
        );
    }
}

// DEEP COMPOSITION
// ================================================================================================

/// The trace composition at one queried point, summed over the first `k`
/// registers: for register `i` with value `v`, the quotients
/// `(v - T_i(z)) / (x - z)` and `(v - T_i(z g)) / (x - z g)` weighted by
/// the register's coefficients; under a field extension also the conjugate
/// quotient, which in this field coincides with the first.
pub open spec fn register_sum(
    regs: Seq<int>,
    cur: Seq<int>,
    nxt: Seq<int>,
    cc: Seq<(Felt, Felt, Felt)>,
    x: int,
    z: int,
    zg: int,
    extension: bool,
    k: nat,
) -> int
    decreases k,
{
    if k == 0 {
        0
    } else {
        let i = (k - 1) as int;
        let t1 = fdiv(fsub(regs[i], cur[i]), fsub(x, z));
        let t2 = fdiv(fsub(regs[i], nxt[i]), fsub(x, zg));
        let with_t2 = fadd(
            fadd(
                register_sum(regs, cur, nxt, cc, x, z, zg, extension, (k - 1) as nat),
                fmul(t1, cc[i].0.val()),
            ),
            fmul(t2, cc[i].1.val()),
        );
        if extension {
            let t3 = fdiv(fsub(regs[i], cur[i]), fsub(x, z));
            fadd(with_t2, fmul(t3, cc[i].2.val()))
        } else {
            with_t2
        }
    }
}

/// The constraint composition at one queried point, summed over the first
/// `k` columns: `(C_j(x) - v_j) / (x - z)` weighted by the column's
/// coefficient.
pub open spec fn constraint_sum(
    evals: Seq<int>,
    ood: Seq<int>,
    cc: Seq<Felt>,
    x: int,
    z: int,
    k: nat,
) -> int
    decreases k,
{
    if k == 0 {
        0
    } else {
        let j = (k - 1) as int;
        let t = fdiv(fsub(evals[j], ood[j]), fsub(x, z));
        fadd(constraint_sum(evals, ood, cc, x, z, (k - 1) as nat), fmul(t, cc[j].val()))
    }
}

/// The LDE domain coordinate of query position `p`.
pub open spec fn x_coord(g: int, offset: int, p: nat) -> int {
    fmul(fpow(g, p), offset)
}

/// When a field extension is used, returns the conjugates of the trace
/// state and of `z`; otherwise returns none. Conjugation in this field is
/// the identity.
pub fn get_conjugate_values(extension: bool, trace_state: &Vec<Felt>, z: Felt) -> (r: Option<
    (Felt, Vec<Felt>),
>)
    ensures
        r is Some <==> extension,
        r matches Some((zc, tc)) ==> zc == z && tc@ == trace_state@,
{
    if extension {
        let mut conjugates: Vec<Felt> = Vec::new();
        let mut i: usize = 0;
        while i < trace_state.len()
            invariant
                i <= trace_state@.len(),
                conjugates@ == trace_state@.take(i as int),
            decreases trace_state@.len() - i,
        {
            conjugates.push(trace_state[i].conjugate());
            proof {
                assert(conjugates@ =~= trace_state@.take(i + 1));
            }
            i = i + 1;
        }
        proof {
            assert(trace_state@.take(trace_state@.len() as int) =~= trace_state@);
        }
        Some((z.conjugate(), conjugates))
    } else {
        None
    }
}

/// Composes the trace quotients at every queried point: for each register,
/// the differences from the out-of-domain frame divided by `(x - z)` and
/// `(x - z g)`, weighted by the register's composition coefficients.
pub fn compose_registers(
    trace_states: &Vec<Vec<Felt>>,
    x_coordinates: &Vec<Felt>,
    ood_frame: &EvaluationFrame,
    z: Felt,
    trace_domain_generator: Felt,
    cc: &CompositionCoefficients,
    extension: bool,
) -> (r: Vec<Felt>)
    requires
        z.wf(),
        trace_domain_generator.wf(),
        ood_frame.wf(),
        cc.wf(),
        all_wf(x_coordinates@),
        trace_states@.len() == x_coordinates@.len(),
        cc.trace@.len() == ood_frame.current@.len(),
        forall|k: int|
            0 <= k < trace_states@.len() ==> (#[trigger] trace_states@[k])@.len()
                == ood_frame.current@.len() && all_wf(trace_states@[k]@),
        forall|k: int|
            0 <= k < x_coordinates@.len() ==> fsub((#[trigger] x_coordinates@[k]).val(), z.val())
                != 0 && fsub(
                x_coordinates@[k].val(),
                fmul(z.val(), trace_domain_generator.val()),
            ) != 0,
    ensures
        r@.len() == trace_states@.len(),
        all_wf(r@),
        forall|k: int|
            0 <= k < r@.len() ==> (#[trigger] r@[k]).val() == register_sum(
                felt_vals(trace_states@[k]@),
                felt_vals(ood_frame.current@),
                felt_vals(ood_frame.next@),
                cc.trace@,
                x_coordinates@[k].val(),
                z.val(),
                fmul(z.val(), trace_domain_generator.val()),
                extension,
                ood_frame.current@.len() as nat,
            ),
{
    let next_z = z.mul(trace_domain_generator);
    let conjugate_values = get_conjugate_values(extension, &ood_frame.current, z);
    let num_registers = ood_frame.current.len();
    let mut result: Vec<Felt> = Vec::new();
    let mut k: usize = 0;
    while k < trace_states.len()
        invariant
            k <= trace_states@.len(),
            k == result@.len(),
            z.wf(),
            next_z.wf(),
            trace_domain_generator.wf(),
            next_z.val() == fmul(z.val(), trace_domain_generator.val()),
            num_registers == ood_frame.current@.len(),
            ood_frame.wf(),
            cc.wf(),
            all_wf(x_coordinates@),
            trace_states@.len() == x_coordinates@.len(),
            cc.trace@.len() == ood_frame.current@.len(),
            forall|k2: int|
                0 <= k2 < trace_states@.len() ==> (#[trigger] trace_states@[k2])@.len()
                    == ood_frame.current@.len() && all_wf(trace_states@[k2]@),
            forall|k2: int|
                0 <= k2 < x_coordinates@.len() ==> fsub(
                    (#[trigger] x_coordinates@[k2]).val(),
                    z.val(),
                ) != 0 && fsub(
                    x_coordinates@[k2].val(),
                    fmul(z.val(), trace_domain_generator.val()),
                ) != 0,
            all_wf(result@),
            forall|k2: int|
                0 <= k2 < k ==> (#[trigger] result@[k2]).val() == register_sum(
                    felt_vals(trace_states@[k2]@),
                    felt_vals(ood_frame.current@),
                    felt_vals(ood_frame.next@),
                    cc.trace@,
                    x_coordinates@[k2].val(),
                    z.val(),
                    fmul(z.val(), trace_domain_generator.val()),
                    extension,
                    ood_frame.current@.len() as nat,
                ),
        decreases trace_states@.len() - k,
    {
        let x = x_coordinates[k];
        let registers = &trace_states[k];
        let mut composition = Felt::zero();
        let denom1 = x.sub(z);
        let denom2 = x.sub(next_z);
        proof {
            lemma_field_bounds(x.val(), z.val(), 0);
        }
        let inv1 = denom1.inv();
        let inv2 = denom2.inv();
        let mut i: usize = 0;
        while i < num_registers
            invariant
                i <= num_registers,
                k < trace_states@.len(),
                num_registers == ood_frame.current@.len(),
                ood_frame.wf(),
                cc.wf(),
                z.wf(),
                next_z.wf(),
                x.wf(),
                registers@ == trace_states@[k as int]@,
                composition.wf(),
                inv1.wf(),
                inv2.wf(),
                cc.trace@.len() == num_registers,
                trace_states@[k as int]@.len() == num_registers,
                all_wf(trace_states@[k as int]@),
                inv1.val() == crate::field::finv(fsub(x.val(), z.val())),
                inv2.val() == crate::field::finv(fsub(x.val(), next_z.val())),
                composition.val() == register_sum(
                    felt_vals(trace_states@[k as int]@),
                    felt_vals(ood_frame.current@),
                    felt_vals(ood_frame.next@),
                    cc.trace@,
                    x.val(),
                    z.val(),
                    next_z.val(),
                    extension,
                    i as nat,
                ),
            decreases num_registers - i,
        {
            let value = registers[i];
            let t1 = value.sub(ood_frame.current[i]).mul(inv1);
            composition = composition.add(t1.mul(cc.trace[i].0));
            let t2 = value.sub(ood_frame.next[i]).mul(inv2);
            composition = composition.add(t2.mul(cc.trace[i].1));
            if extension {
                let t3 = value.sub(ood_frame.current[i].conjugate()).mul(inv1);
                composition = composition.add(t3.mul(cc.trace[i].2));
            }
            i = i + 1;
        }
        result.push(composition);
        k = k + 1;
    }
    result
}

/// Composes the constraint quotients at every queried point: for each
/// constraint column, the difference from the out-of-domain value divided
/// by `(x - z)`, weighted by the column's composition coefficient.
pub fn compose_constraints(
    constraint_evaluations: &Vec<Vec<Felt>>,
    x_coordinates: &Vec<Felt>,
    z: Felt,
    ood_constraint_evaluations: &Vec<Felt>,
    cc: &CompositionCoefficients,
) -> (r: Vec<Felt>)
    requires
        z.wf(),
        all_wf(x_coordinates@),
        all_wf(ood_constraint_evaluations@),
        cc.wf(),
        constraint_evaluations@.len() == x_coordinates@.len(),
        ood_constraint_evaluations@.len() == cc.constraints@.len(),
        forall|k: int|
            0 <= k < constraint_evaluations@.len() ==> (#[trigger] constraint_evaluations@[k])@.len() == cc.constraints@.len() && all_wf(
                constraint_evaluations@[k]@,
            ),
        forall|k: int|
            0 <= k < x_coordinates@.len() ==> fsub((#[trigger] x_coordinates@[k]).val(), z.val())
                != 0,
    ensures
        r@.len() == constraint_evaluations@.len(),
        all_wf(r@),
        forall|k: int|
            0 <= k < r@.len() ==> (#[trigger] r@[k]).val() == constraint_sum(
                felt_vals(constraint_evaluations@[k]@),
                felt_vals(ood_constraint_evaluations@),
                cc.constraints@,
                x_coordinates@[k].val(),
                z.val(),
                cc.constraints@.len() as nat,
            ),
{
    let num_columns = cc.constraints.len();
    let mut result: Vec<Felt> = Vec::new();
    let mut k: usize = 0;
    while k < constraint_evaluations.len()
        invariant
            k <= constraint_evaluations@.len(),
            k == result@.len(),
            z.wf(),
            cc.wf(),
            all_wf(x_coordinates@),
            all_wf(ood_constraint_evaluations@),
            num_columns == cc.constraints@.len(),
            constraint_evaluations@.len() == x_coordinates@.len(),
            ood_constraint_evaluations@.len() == cc.constraints@.len(),
            forall|k2: int|
                0 <= k2 < constraint_evaluations@.len() ==> (#[trigger] constraint_evaluations@[k2])@.len() == cc.constraints@.len() && all_wf(
                    constraint_evaluations@[k2]@,
                ),
            forall|k2: int|
                0 <= k2 < x_coordinates@.len() ==> fsub(
                    (#[trigger] x_coordinates@[k2]).val(),
                    z.val(),
                ) != 0,
            all_wf(result@),
            forall|k2: int|
                0 <= k2 < k ==> (#[trigger] result@[k2]).val() == constraint_sum(
                    felt_vals(constraint_evaluations@[k2]@),
                    felt_vals(ood_constraint_evaluations@),
                    cc.constraints@,
                    x_coordinates@[k2].val(),
                    z.val(),
                    cc.constraints@.len() as nat,
                ),
        decreases constraint_evaluations@.len() - k,
    {
        let x = x_coordinates[k];
        let mut composition = Felt::zero();
        let denom = x.sub(z);
        let inv = denom.inv();
        let mut j: usize = 0;
        while j < num_columns
            invariant
                j <= num_columns,
                k < constraint_evaluations@.len(),
                z.wf(),
                x.wf(),
                cc.wf(),
                composition.wf(),
                inv.wf(),
                num_columns == cc.constraints@.len(),
                all_wf(ood_constraint_evaluations@),
                ood_constraint_evaluations@.len() == num_columns,
                constraint_evaluations@[k as int]@.len() == num_columns,
                all_wf(constraint_evaluations@[k as int]@),
                inv.val() == crate::field::finv(fsub(x.val(), z.val())),
                composition.val() == constraint_sum(
                    felt_vals(constraint_evaluations@[k as int]@),
                    felt_vals(ood_constraint_evaluations@),
                    cc.constraints@,
                    x.val(),
                    z.val(),
                    j as nat,
                ),
            decreases num_columns - j,
        {
            let t = constraint_evaluations[k][j].sub(ood_constraint_evaluations[j]).mul(inv);
            composition = composition.add(t.mul(cc.constraints[j]));
            j = j + 1;
        }
        result.push(composition);
        k = k + 1;
    }
    result
}

// VERIFICATION DRIVER
// ================================================================================================

/// Runs the verification steps up to the low-degree test: checks that the
/// AIR's constraint evaluation at the out-of-domain frame agrees with the
/// prover's composition column evaluations, computes the queried LDE
/// coordinates, forms the DEEP composition, and adjusts its degree.
/// Returns the inputs of the FRI low-degree test, which the caller runs.
pub fn perform_verification(
    air: &AirInfo,
    ood_constraint_evaluation: Felt,
    channel: &VerifierChannel,
) -> (r: Result<FriVerificationInput, VerifierError>)
    requires
        air.wf(),
        channel.wf(),
        ood_constraint_evaluation.wf(),
        forall|k: int|
            0 <= k < channel.query_positions@.len() ==> fsub(
                x_coord(
                    air.lde_domain_generator.val(),
                    air.domain_offset.val(),
                    (#[trigger] channel.query_positions@[k]) as nat,
                ),
                channel.deep_point.val(),
            ) != 0 && fsub(
                x_coord(
                    air.lde_domain_generator.val(),
                    air.domain_offset.val(),
                    channel.query_positions@[k] as nat,
                ),
                fmul(channel.deep_point.val(), air.trace_domain_generator.val()),
            ) != 0,
    ensures
        r is Err <==> ood_constraint_evaluation.val() != ood_sum(
            channel.deep_point.val(),
            felt_vals(channel.ood_constraint_evaluations@),
        ),
        r matches Err(e) ==> e is InconsistentOodConstraintEvaluations,
        r matches Ok(out) ==> {
            &&& out.query_positions@ == channel.query_positions@
            &&& out.lde_domain_size == air.lde_domain_size
            &&& out.trace_poly_degree == air.trace_poly_degree
            &&& out.num_fri_partitions == channel.num_fri_partitions
            &&& out.folding_factor == air.folding_factor
            &&& out.max_remainder_size == air.max_remainder_size
            &&& out.evaluations@.len() == channel.query_positions@.len()
            &&& all_wf(out.evaluations@)
            &&& forall|k: int|
                0 <= k < out.evaluations@.len() ==> (#[trigger] out.evaluations@[k]).val()
                    == deep_evaluation(air, channel, k)
        },
{
    let z = channel.deep_point;

    // 1 ----- check consistency of constraint evaluations at the
    // out-of-domain point: the AIR's evaluation over the frame must agree
    // with the reduction of the prover-sent composition column values
    let ood_evaluation_2 = reduce_ood_evaluations(z, &channel.ood_constraint_evaluations);
    if ood_constraint_evaluation.v != ood_evaluation_2.v {
        return Err(VerifierError::InconsistentOodConstraintEvaluations);
    }

    // 2 ----- compute the LDE domain coordinates of the query positions
    let ghost gv = air.lde_domain_generator.val();
    let ghost offv = air.domain_offset.val();
    let mut x_coordinates: Vec<Felt> = Vec::new();
    let mut k: usize = 0;
    while k < channel.query_positions.len()
        invariant
            k <= channel.query_positions@.len(),
            k == x_coordinates@.len(),
            air.wf(),
            gv == air.lde_domain_generator.val(),
            offv == air.domain_offset.val(),
            all_wf(x_coordinates@),
            forall|k2: int|
                0 <= k2 < k ==> (#[trigger] x_coordinates@[k2]).val() == x_coord(
                    gv,
                    offv,
                    channel.query_positions@[k2] as nat,
                ),
        decreases channel.query_positions@.len() - k,
    {
        let p = channel.query_positions[k];
        x_coordinates.push(air.lde_domain_generator.exp(p as u64).mul(air.domain_offset));
        k = k + 1;
    }

    // 3 ----- form the DEEP composition of trace and constraint quotients
    let t_composition = compose_registers(
        &channel.trace_states,
        &x_coordinates,
        &channel.ood_frame,
        z,
        air.trace_domain_generator,
        &channel.coefficients,
        air.field_extension,
    );
    let c_composition = compose_constraints(
        &channel.constraint_evaluations,
        &x_coordinates,
        z,
        &channel.ood_constraint_evaluations,
        &channel.coefficients,
    );

    // add the two together, and raise the degree to match the composition
    // degree
    let d0 = channel.coefficients.degree.0;
    let d1 = channel.coefficients.degree.1;
    let mut evaluations: Vec<Felt> = Vec::new();
    let mut k: usize = 0;
    while k < t_composition.len()
        invariant
            k <= t_composition@.len(),
            k == evaluations@.len(),
            t_composition@.len() == channel.query_positions@.len(),
            c_composition@.len() == channel.query_positions@.len(),
            x_coordinates@.len() == channel.query_positions@.len(),
            all_wf(t_composition@),
            all_wf(c_composition@),
            all_wf(x_coordinates@),
            d0.wf(),
            d1.wf(),
            all_wf(evaluations@),
            forall|k2: int|
                0 <= k2 < k ==> (#[trigger] evaluations@[k2]).val() == fmul(
                    fadd(t_composition@[k2].val(), c_composition@[k2].val()),
                    fadd(d0.val(), fmul(x_coordinates@[k2].val(), d1.val())),
                ),
        decreases t_composition@.len() - k,
    {
        let combined = t_composition[k].add(c_composition[k]);
        let adjusted = combined.mul(d0.add(x_coordinates[k].mul(d1)));
        evaluations.push(adjusted);
        k = k + 1;
    }

    // 4 ----- hand the evaluations to the FRI low-degree test
    let mut query_positions: Vec<usize> = Vec::new();
    let mut k: usize = 0;
    while k < channel.query_positions.len()
        invariant
            k <= channel.query_positions@.len(),
            query_positions@ == channel.query_positions@.take(k as int),
        decreases channel.query_positions@.len() - k,
    {
        query_positions.push(channel.query_positions[k]);
        proof {
            assert(query_positions@ =~= channel.query_positions@.take(k + 1));
        }
        k = k + 1;
    }
    proof {
        assert(channel.query_positions@.take(channel.query_positions@.len() as int)
            =~= channel.query_positions@);
    }
    Ok(
        FriVerificationInput {
            evaluations,
            query_positions,
            lde_domain_size: air.lde_domain_size,
            trace_poly_degree: air.trace_poly_degree,
            num_fri_partitions: channel.num_fri_partitions,
            folding_factor: air.folding_factor,
            max_remainder_size: air.max_remainder_size,
        },
    )
}

/// The DEEP composition evaluation at queried point `k`: the sum of the
/// trace and constraint compositions, degree-adjusted by `d0 + x * d1`.
pub open spec fn deep_evaluation(air: &AirInfo, channel: &VerifierChannel, k: int) -> int {
    let x = x_coord(
        air.lde_domain_generator.val(),
        air.domain_offset.val(),
        channel.query_positions@[k] as nat,
    );
    let z = channel.deep_point.val();
    let t = register_sum(
        felt_vals(channel.trace_states@[k]@),
        felt_vals(channel.ood_frame.current@),
        felt_vals(channel.ood_frame.next@),
        channel.coefficients.trace@,
        x,
        z,
        fmul(z, air.trace_domain_generator.val()),
        air.field_extension,
        channel.ood_frame.current@.len() as nat,
    );
    let c = constraint_sum(
        felt_vals(channel.constraint_evaluations@[k]@),
        felt_vals(channel.ood_constraint_evaluations@),
        channel.coefficients.constraints@,
        x,
        z,
        channel.coefficients.constraints@.len() as nat,
    );
    fmul(
        fadd(t, c),
        fadd(
            channel.coefficients.degree.0.val(),
            fmul(x, channel.coefficients.degree.1.val()),
        ),
    )
}

} // verus!
