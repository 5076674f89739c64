use stark_core::errors::VerifierError;
use stark_core::field::{get_root_of_unity, Felt};
use stark_core::verify::{
    perform_verification, reduce_ood_evaluations, AirInfo, CompositionCoefficients,
    EvaluationFrame, VerifierChannel,
};

fn f(v: u64) -> Felt {
    Felt::new(v)
}

fn sample_air() -> AirInfo {
    AirInfo {
        trace_length: 8,
        trace_domain_generator: get_root_of_unity(3),
        lde_domain_size: 32,
        lde_domain_generator: get_root_of_unity(5),
        domain_offset: f(3),
        field_extension: false,
        trace_poly_degree: 7,
        folding_factor: 4,
        max_remainder_size: 8,
    }
}

fn sample_channel(ood_values: Vec<Felt>) -> VerifierChannel {
    VerifierChannel {
        deep_point: f(5),
        ood_frame: EvaluationFrame { current: vec![f(40)], next: vec![f(41)] },
        ood_constraint_evaluations: ood_values,
        query_positions: vec![1, 6],
        trace_states: vec![vec![f(17)], vec![f(23)]],
        constraint_evaluations: vec![vec![f(9), f(13)], vec![f(2), f(7)]],
        coefficients: CompositionCoefficients {
            trace: vec![(f(101), f(102), f(103))],
            constraints: vec![f(104), f(105)],
            degree: (f(106), f(107)),
        },
        num_fri_partitions: 1,
    }
}

#[test]
fn ood_reduction_is_the_weighted_sum() {
    // sum of z^i * v_i at z = 5 over [10, 20]: 10 + 100 == 110
    let total = reduce_ood_evaluations(f(5), &vec![f(10), f(20)]);
    assert_eq!(total.v, 110);
}

#[test]
fn honest_ood_evaluations_verify() {
    let channel = sample_channel(vec![f(10), f(20)]);
    let result = perform_verification(&sample_air(), f(110), &channel);
    let out = result.expect("consistent evaluations pass the check");
    assert_eq!(out.evaluations.len(), 2);
    assert_eq!(out.query_positions, vec![1, 6]);
    assert_eq!(out.lde_domain_size, 32);
    assert_eq!(out.trace_poly_degree, 7);
    assert_eq!(out.num_fri_partitions, 1);
    assert_eq!(out.folding_factor, 4);
}

#[test]
fn perturbed_ood_evaluation_is_rejected() {
    // the first column value is perturbed by +1, while the claimed
    // evaluation still matches the unperturbed columns
    let channel = sample_channel(vec![f(11), f(20)]);
    let result = perform_verification(&sample_air(), f(110), &channel);
    assert!(matches!(result, Err(VerifierError::InconsistentOodConstraintEvaluations)));
}

#[test]
fn deep_composition_interpolates_to_a_low_degree_polynomial() {
    // an honest trace polynomial T(x) = 4 + 9x of degree 1 < trace length;
    // composing (T(x) - T(z)) / (x - z) and the shifted quotient at every
    // point of the LDE coset and adjusting by (d0 + x d1) yields a
    // polynomial of degree at most 2 -- far below the domain size
    let lde_size = 32usize;
    let g_lde = get_root_of_unity(5);
    let g_trace = get_root_of_unity(3);
    let offset = f(3);
    let t = |x: Felt| f(4).add(f(9).mul(x));
    let z = f(5);
    let frame = EvaluationFrame { current: vec![t(z)], next: vec![t(z.mul(g_trace))] };

    let mut trace_states = Vec::new();
    let mut positions = Vec::new();
    for p in 0..lde_size {
        let x = g_lde.exp(p as u64).mul(offset);
        trace_states.push(vec![t(x)]);
        positions.push(p);
    }
    let channel = VerifierChannel {
        deep_point: z,
        ood_frame: frame,
        ood_constraint_evaluations: vec![],
        query_positions: positions,
        trace_states,
        constraint_evaluations: vec![vec![]; lde_size],
        coefficients: CompositionCoefficients {
            trace: vec![(f(101), f(102), f(103))],
            constraints: vec![],
            degree: (f(106), f(107)),
        },
        num_fri_partitions: 1,
    };
    let out = perform_verification(&sample_air(), f(0), &channel).expect("check passes");

    // interpolate the DEEP evaluations over the offset coset
    let poly = stark_core::polynom::interpolate_poly_with_offset(&out.evaluations, g_lde, offset);
    assert!(stark_core::polynom::degree_of(&poly) <= 2);
}
