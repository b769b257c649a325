use stark::field::{Field, FieldElement};
use stark::polynomial::multivariate::MPolynomial;
use stark::stark::prover::{query_positions, sort_indices};
use stark::stark::{bit_length, Stark, StarkProofItem, StarkProofStream};

fn constant_trace_air() -> (Stark, Vec<MPolynomial>) {
    let field = Field::main();
    let stark = Stark::new(field, 4, 1, 2, 1, 4, 2);
    let mut variables = MPolynomial::variables(3, &field);
    let current = variables.remove(1);
    let next = variables.remove(1);
    let transition_constraint = next - current;
    (stark, vec![transition_constraint])
}

fn constant_trace(value: u64, cycles: usize) -> Vec<Vec<FieldElement>> {
    let field = Field::main();
    (0..cycles).map(|_| vec![field.from_u64(value)]).collect()
}

fn constant_boundary(value: u64, cycles: usize) -> Vec<(usize, usize, FieldElement)> {
    let field = Field::main();
    (0..cycles).map(|cycle| (cycle, 0, field.from_u64(value))).collect()
}

#[test]
fn constructor_derives_expected_parameters() {
    let (stark, _) = constant_trace_air();
    assert_eq!(stark.num_randomizers(), 4);
    assert_eq!(stark.security_level(), 2);
}

#[test]
fn stark_prove_and_verify_round_trip() {
    let (stark, transition_constraints) = constant_trace_air();
    let trace = constant_trace(7, 4);
    let boundary = constant_boundary(7, 4);

    let proof = stark.prove(&trace, &transition_constraints, &boundary).expect("the trace meets its constraints");
    assert!(stark.verify(&proof, &transition_constraints, &boundary));
}

#[test]
fn tampered_root_fails_verification() {
    let (stark, transition_constraints) = constant_trace_air();
    let trace = constant_trace(7, 4);
    let boundary = constant_boundary(7, 4);

    let proof = stark.prove(&trace, &transition_constraints, &boundary).expect("the trace meets its constraints");
    let mut objects = StarkProofStream::deserialize(&proof).into_objects();
    match &mut objects[0] {
        StarkProofItem::BoundaryQuotientRoot(root) => root[0] ^= 1,
        _ => panic!("expected boundary quotient root"),
    }

    let tampered = StarkProofStream::from_objects(objects).serialize();
    assert!(!stark.verify(&tampered, &transition_constraints, &boundary));
}

#[test]
fn omicron_generates_the_trace_domain() {
    let (stark, _) = constant_trace_air();
    let field = Field::main();
    let omicron = *stark.omicron();
    assert_eq!(omicron, field.primitive_nth_root(32));
    assert_eq!(omicron.pow(32), field.one());
    assert_ne!(omicron.pow(16), field.one());
}

#[test]
fn proof_has_the_expected_layout() {
    let (stark, transition_constraints) = constant_trace_air();
    let trace = constant_trace(7, 4);
    let boundary = constant_boundary(7, 4);
    let proof = stark.prove(&trace, &transition_constraints, &boundary).unwrap();
    let objects = StarkProofStream::deserialize(&proof).into_objects();
    assert!(matches!(objects[0], StarkProofItem::BoundaryQuotientRoot(_)));
    assert!(matches!(objects[1], StarkProofItem::RandomizerRoot(_)));
    assert!(matches!(objects[2], StarkProofItem::FriProof(_)));
    // one register: 4 openings per query at duplicated positions, 2 for the randomizer
    let openings = objects.len() - 3;
    assert_eq!(openings % 2, 0);
    assert_eq!((openings / 2) % 6, 0);
}

#[test]
fn trace_breaking_a_constraint_is_not_proved() {
    let (stark, transition_constraints) = constant_trace_air();
    let field = Field::main();
    let mut trace = constant_trace(7, 4);
    trace[2] = vec![field.from_u64(8)];
    let boundary = vec![(0, 0, field.from_u64(7))];
    assert!(stark.prove(&trace, &transition_constraints, &boundary).is_none());
}

#[test]
fn proof_is_rejected_for_other_constraints() {
    let (stark, transition_constraints) = constant_trace_air();
    let field = Field::main();
    let trace = constant_trace(7, 4);
    let boundary = constant_boundary(7, 4);
    let proof = stark.prove(&trace, &transition_constraints, &boundary).unwrap();
    let mut variables = MPolynomial::variables(3, &field);
    let current = variables.remove(1);
    let next = variables.remove(1);
    let other = vec![next - current - MPolynomial::constant(field.one())];
    assert!(!stark.verify(&proof, &other, &boundary));
}

#[test]
fn garbage_is_rejected() {
    let (stark, transition_constraints) = constant_trace_air();
    let boundary = constant_boundary(7, 4);
    assert!(!stark.verify(&[1, 2, 3], &transition_constraints, &boundary));
    assert!(!stark.verify(&StarkProofStream::new().serialize(), &transition_constraints, &boundary));
}

#[test]
fn degree_bounds_of_the_constant_air() {
    let (stark, transition_constraints) = constant_trace_air();
    // trace polynomials have degree 4 + 4 - 1 = 7; the zerofier has degree 3
    assert_eq!(stark.transition_degree_bounds(&transition_constraints), vec![7]);
    assert_eq!(stark.transition_quotient_degree_bounds(&transition_constraints), vec![4]);
    assert_eq!(stark.max_degree(&transition_constraints), 7);
    assert_eq!(stark.transition_zerofier().degree(), 3);
    let boundary = constant_boundary(7, 4);
    assert_eq!(stark.boundary_quotient_degree_bounds(8, &boundary), vec![3]);
    assert_eq!(stark.boundary_zerofiers(&boundary)[0].degree(), 4);
}

#[test]
fn boundary_interpolant_takes_the_boundary_values() {
    let (stark, _) = constant_trace_air();
    let field = Field::main();
    let boundary = vec![(0, 0, field.from_u64(3)), (2, 0, field.from_u64(9))];
    let interpolant = &stark.boundary_interpolants(&boundary)[0];
    let omicron = *stark.omicron();
    assert_eq!(interpolant.evaluate(&field.one()), field.from_u64(3));
    assert_eq!(interpolant.evaluate(&omicron.pow(2)), field.from_u64(9));
    let zerofier = &stark.boundary_zerofiers(&boundary)[0];
    assert!(zerofier.evaluate(&omicron.pow(2)).is_zero());
}

#[test]
fn sample_weights_are_deterministic_and_distinct() {
    let (stark, _) = constant_trace_air();
    let w = stark.sample_weights(3, b"randomness");
    assert_eq!(w.len(), 3);
    assert_eq!(w, stark.sample_weights(3, b"randomness"));
    assert_ne!(w[0], w[1]);
    assert_ne!(w, stark.sample_weights(3, b"other"));
}

#[test]
fn bit_lengths() {
    assert_eq!(bit_length(0), 0);
    assert_eq!(bit_length(1), 1);
    assert_eq!(bit_length(16), 5);
    assert_eq!(bit_length(usize::MAX), usize::BITS);
}

#[test]
fn positions_are_sorted_and_paired() {
    let sorted = sort_indices(&vec![5, 1, 4, 1]);
    assert_eq!(sorted, vec![1, 1, 4, 5]);
    let (queried, dup) = query_positions(&vec![3, 1], 16, 4);
    assert_eq!(queried, vec![1, 3, 9, 11]);
    assert_eq!(dup, vec![1, 3, 9, 11, 5, 7, 13, 15]);
    let (_, wrapped) = query_positions(&vec![7], 16, 4);
    assert_eq!(wrapped, vec![7, 15, 11, 3]);
}

#[test]
fn proving_with_given_randomness_is_deterministic() {
    let (stark, transition_constraints) = constant_trace_air();
    let field = Field::main();
    let trace = constant_trace(7, 4);
    let boundary = constant_boundary(7, 4);
    let rows: Vec<Vec<FieldElement>> = (0..4u64).map(|i| vec![field.from_u64(11 * i + 5)]).collect();
    let degree = stark.max_degree(&transition_constraints);
    let coefficients: Vec<FieldElement> = (0..=degree as u64).map(|i| field.from_u64(3 * i + 2)).collect();

    let mut first = StarkProofStream::new();
    let a = stark
        .prove_with_randomness(&trace, &transition_constraints, &boundary, &rows, coefficients.clone(), &mut first)
        .expect("the trace meets its constraints");
    let mut second = StarkProofStream::new();
    let b = stark
        .prove_with_randomness(&trace, &transition_constraints, &boundary, &rows, coefficients, &mut second)
        .expect("the trace meets its constraints");
    assert_eq!(a, b);
    assert!(stark.verify(&a, &transition_constraints, &boundary));
}

#[test]
fn proving_a_broken_trace_with_given_randomness_fails() {
    let (stark, transition_constraints) = constant_trace_air();
    let field = Field::main();
    let mut trace = constant_trace(7, 4);
    trace[1] = vec![field.from_u64(9)];
    let boundary = vec![(0, 0, field.from_u64(7))];
    let rows: Vec<Vec<FieldElement>> = (0..4u64).map(|i| vec![field.from_u64(i + 1)]).collect();
    let degree = stark.max_degree(&transition_constraints);
    let coefficients: Vec<FieldElement> = (0..=degree as u64).map(|i| field.from_u64(i)).collect();
    let mut stream = StarkProofStream::new();
    let r = stark.prove_with_randomness(&trace, &transition_constraints, &boundary, &rows, coefficients, &mut stream);
    assert!(r.is_none());
}
