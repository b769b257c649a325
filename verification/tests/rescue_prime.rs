use stark::field::{Field, FieldElement};
use stark::rescue_prime::{signature_proof_stream, RescuePrime, RPSSS};
use stark::stark::Stark;

fn rescue() -> RescuePrime {
    let field = Field::main();
    let mds = vec![vec![field.from_u64(2), field.from_u64(1)], vec![field.from_u64(1), field.from_u64(1)]];
    let minus_one = -field.one();
    let mds_inv = vec![vec![field.one(), minus_one], vec![minus_one, field.from_u64(2)]];
    let round_constants: Vec<FieldElement> = (0..108u64).map(|i| field.from_u64(3 * i + 1)).collect();
    RescuePrime::new(mds, mds_inv, round_constants)
}

#[test]
fn trace_ends_at_hash_output() {
    let field = Field::main();
    let rescue = rescue();
    let input = field.from_u64(42);
    let output = rescue.hash(&input);
    let trace = rescue.trace(&input);

    assert_eq!(trace.len(), rescue.rounds() + 1);
    assert_eq!(trace.last().expect("trace should be non-empty")[0], output);
}

#[test]
fn transition_constraints_match_state_width() {
    let rescue = rescue();
    let constraints = rescue.transition_constraints(&Field::main().primitive_nth_root(64));
    assert_eq!(constraints.len(), rescue.state_width());
}

#[test]
fn trace_rows_satisfy_the_transition_constraints() {
    let field = Field::main();
    let rescue = rescue();
    let omicron = field.primitive_nth_root(64);
    let constraints = rescue.transition_constraints(&omicron);
    let trace = rescue.trace(&field.from_u64(7));
    for round in 0..rescue.rounds() {
        let point = vec![omicron.pow(round as u64), trace[round][0], trace[round][1], trace[round + 1][0], trace[round + 1][1]];
        for constraint in &constraints {
            assert!(constraint.evaluate(&point).is_zero(), "round {round}");
        }
    }
}

#[test]
fn first_round_by_hand() {
    let field = Field::main();
    let rescue = rescue();
    let trace = rescue.trace(&field.from_u64(5));
    // S-box: (125, 0); MDS: (250, 125); constants 1, 4: (251, 129)
    let a = [field.from_u64(251), field.from_u64(129)];
    // inverse S-box, then MDS and constants 7, 10
    let b = [a[0].pow_u128(stark::rescue_prime::ALPHA_INV), a[1].pow_u128(stark::rescue_prime::ALPHA_INV)];
    assert_eq!(b[0].pow(3), a[0]);
    let expected0 = field.from_u64(2) * b[0] + b[1] + field.from_u64(7);
    let expected1 = b[0] + b[1] + field.from_u64(10);
    assert_eq!(trace[1], vec![expected0, expected1]);
}

#[test]
fn boundary_constraints_pin_capacity_and_output() {
    let field = Field::main();
    let rescue = rescue();
    let out = field.from_u64(99);
    assert_eq!(rescue.boundary_constraints(&out), vec![(0, 1, field.zero()), (27, 0, out)]);
}

#[test]
fn signature_round_trip_and_document_binding() {
    let field = Field::main();
    let rescue = rescue();
    let stark = Stark::new(field, 4, 1, 2, rescue.state_width(), rescue.rounds() + 1, 3);

    let secret_key = field.from_u64(7);
    let public_key = rescue.hash(&secret_key);
    let trace = rescue.trace(&secret_key);
    let transition_constraints = rescue.transition_constraints(stark.omicron());
    let boundary_constraints = rescue.boundary_constraints(&public_key);

    let mut signing_stream = signature_proof_stream(b"hello world");
    let signature = stark
        .prove_with_stream(&trace, &transition_constraints, &boundary_constraints, &mut signing_stream)
        .expect("the trace meets its constraints");

    let verification_stream = signature_proof_stream(b"hello world");
    assert!(stark.verify_with_stream(&signature, &transition_constraints, &boundary_constraints, &verification_stream));

    let wrong_document_stream = signature_proof_stream(b"wrong document");
    assert!(!stark.verify_with_stream(&signature, &transition_constraints, &boundary_constraints, &wrong_document_stream));
}

#[test]
fn rpsss_keygen_produces_a_matching_key_pair() {
    let scheme = RPSSS::new(rescue());
    let (sk, pk) = scheme.keygen().expect("randomness is available");
    assert_eq!(scheme.rescue_prime().hash(&sk), pk);
}
