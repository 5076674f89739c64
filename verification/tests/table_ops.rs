use stark_core::divisor::ConstraintDivisor;
use stark_core::field::{get_root_of_unity, Felt};
use stark_core::polynom::{degree_of, interpolate_poly, next_power_of_two};
use stark_core::table::{acc_column, get_inv_evaluation, ConstraintEvaluationTable, StarkDomain};

fn f(v: u64) -> Felt {
    Felt::new(v)
}

fn boundary_divisor(a: usize, b: u64) -> ConstraintDivisor {
    ConstraintDivisor::new(vec![(a, f(b))], vec![])
}

fn transition_divisor(a: usize, b: u64, excluded: u64) -> ConstraintDivisor {
    ConstraintDivisor::new(vec![(a, f(b))], vec![f(excluded)])
}

fn sample_domain() -> StarkDomain {
    StarkDomain { trace_length: 8, ce_domain_size: 16, lde_domain_size: 32, domain_offset: f(3) }
}

#[test]
fn divisor_inverse_evaluations() {
    // domain 16, numerator (x^4 - 3), offset 7: four distinct values, each
    // the inverse of offset^4 * g'^i - 3
    let divisor = boundary_divisor(4, 3);
    let inv = get_inv_evaluation(&divisor, 16, f(7));
    assert_eq!(inv.len(), 4);
    let g = get_root_of_unity(4).exp(4);
    let mut x = f(7).exp(4);
    for z in inv.iter() {
        let denom = x.sub(f(3));
        assert_eq!(z.mul(denom).v, 1);
        x = x.mul(g);
    }
}

#[test]
fn accumulator_is_linear_per_divisor_kind() {
    let n = 16usize;
    let alpha = f(21);
    let beta = f(83);
    let col1: Vec<Felt> = (0..n).map(|i| f((3 * i + 5) as u64 % 257)).collect();
    let col2: Vec<Felt> = (0..n).map(|i| f((11 * i + 2) as u64 % 257)).collect();
    let combined: Vec<Felt> = col1
        .iter()
        .zip(col2.iter())
        .map(|(a, b)| alpha.mul(*a).add(beta.mul(*b)))
        .collect();
    for divisor in [boundary_divisor(4, 3), transition_divisor(8, 1, 100)] {
        let mut r1 = vec![f(0); n];
        let mut r2 = vec![f(0); n];
        let mut r3 = vec![f(0); n];
        acc_column(&col1, &divisor, f(7), &mut r1);
        acc_column(&col2, &divisor, f(7), &mut r2);
        acc_column(&combined, &divisor, f(7), &mut r3);
        for i in 0..n {
            assert_eq!(r3[i].v, alpha.mul(r1[i]).add(beta.mul(r2[i])).v);
        }
    }
}

#[test]
fn table_rows_update_and_into_poly_covers_the_domain() {
    let domain = sample_domain();
    let divisors = vec![boundary_divisor(8, 1), boundary_divisor(4, 3)];
    let mut table = ConstraintEvaluationTable::new(&domain, divisors, vec![]);
    assert_eq!(table.num_rows(), 16);
    assert_eq!(table.num_columns(), 2);
    for row in 0..16usize {
        table.update_row(row, &vec![f((row as u64) % 257), f((2 * row as u64) % 257)]);
    }
    let poly = table.into_poly().expect("interpolation succeeds");
    assert_eq!(poly.len(), 16);
    assert_eq!(poly.trace_length, 8);
}

#[test]
fn fragments_cover_every_row() {
    let domain = sample_domain();
    let divisors = vec![boundary_divisor(8, 1)];
    let mut table = ConstraintEvaluationTable::new(&domain, divisors, vec![]);
    let mut fragments = table.fragments(4);
    assert_eq!(fragments.len(), 4);
    for frag in fragments.iter_mut() {
        assert_eq!(frag.num_rows(), 4);
        assert_eq!(frag.num_columns(), 1);
        for local in 0..4usize {
            let value = f(((frag.offset() + local) as u64) % 257);
            frag.update_row(local, &vec![value]);
        }
    }
    assert_eq!(fragments[2].offset(), 8);
    table.merge_fragments(&fragments);
    let poly = table.into_poly().expect("interpolation succeeds");
    assert_eq!(poly.len(), 16);
}

#[test]
fn zero_constraint_column_gives_the_zero_polynomial() {
    // a trivial computation whose trace is the constant 1 over length 8:
    // every transition evaluation is zero, and dividing zero by the
    // boundary divisor (x^8 - 1) leaves the zero polynomial
    let domain = sample_domain();
    let divisors = vec![boundary_divisor(8, 1)];
    let mut table = ConstraintEvaluationTable::new(&domain, divisors, vec![]);
    for row in 0..16usize {
        table.update_row(row, &vec![f(0)]);
    }
    let poly = table.into_poly().expect("interpolation succeeds");
    assert_eq!(poly.len(), 16);
    assert!(poly.coefficients.iter().all(|c| c.v == 0));
}

#[test]
fn transition_degree_validation_accepts_matching_degrees() {
    // the raw transition column holds evaluations of f(x) = x over the
    // subgroup of size 16: actual degree 1, domain 16 == next_pow2(8 + 1)
    let domain = sample_domain();
    let divisors = vec![boundary_divisor(8, 1)];
    let g = get_root_of_unity(4);
    let mut table = ConstraintEvaluationTable::new(&domain, divisors, vec![1]);
    let mut x = f(1);
    for row in 0..16usize {
        table.update_transition_evaluations(row, &vec![x]);
        table.update_row(row, &vec![f(0)]);
        x = x.mul(g);
    }
    assert!(table.validate_transition_degrees());
}

#[test]
fn transition_degree_validation_rejects_wrong_degrees() {
    let domain = sample_domain();
    let divisors = vec![boundary_divisor(8, 1)];
    let g = get_root_of_unity(4);
    let mut table = ConstraintEvaluationTable::new(&domain, divisors, vec![2]);
    let mut x = f(1);
    for row in 0..16usize {
        table.update_transition_evaluations(row, &vec![x]);
        table.update_row(row, &vec![f(0)]);
        x = x.mul(g);
    }
    // actual degree is 1, expected 2
    assert!(!table.validate_transition_degrees());
}

#[test]
fn interpolation_recovers_known_coefficients() {
    // evaluations of 5 + 2x over the subgroup of size 8
    let g = get_root_of_unity(3);
    let mut evals = Vec::new();
    let mut x = f(1);
    for _ in 0..8 {
        evals.push(f(5).add(f(2).mul(x)));
        x = x.mul(g);
    }
    let poly = interpolate_poly(&evals, g);
    assert_eq!(poly[0].v, 5);
    assert_eq!(poly[1].v, 2);
    assert!(poly[2..].iter().all(|c| c.v == 0));
    assert_eq!(degree_of(&poly), 1);
}

#[test]
fn next_power_of_two_rounds_up() {
    assert_eq!(next_power_of_two(1), 1);
    assert_eq!(next_power_of_two(9), 16);
    assert_eq!(next_power_of_two(16), 16);
}
