use stark::field::Field;
use stark::fri::{Fri, FriProofStream};
use stark::polynomial::Polynomial;

fn sample_polynomial(values: &[u64]) -> Polynomial {
    let field = Field::main();
    Polynomial::new(values.iter().map(|&value| field.from_u64(value)).collect())
}

#[test]
fn num_rounds_and_eval_domain_match_configuration() {
    let field = Field::main();
    let fri = Fri::new(field.one(), field.primitive_nth_root(16), 16, 2, 1);

    assert_eq!(fri.num_rounds(), 2);
    assert_eq!(fri.eval_domain().len(), 16);
}

#[test]
fn sample_indices_are_unique_modulo_reduced_size() {
    let field = Field::main();
    let fri = Fri::new(field.one(), field.primitive_nth_root(16), 16, 2, 2);

    let indices = fri.sample_indices(b"seed", 8, 4, 2);
    assert_eq!(indices.len(), 2);
    assert_ne!(indices[0] % 4, indices[1] % 4);
}

#[test]
fn fri_prove_and_verify_round_trip() {
    let field = Field::main();
    let fri = Fri::new(field.one(), field.primitive_nth_root(16), 16, 2, 1);
    let domain = fri.eval_domain();
    let polynomial = sample_polynomial(&[3, 1, 4, 1]);
    let codeword = polynomial.evaluate_domain(&domain);

    let mut prover_stream = FriProofStream::new();
    let sampled_indices = fri.prove(&codeword, &mut prover_stream);
    assert_eq!(sampled_indices.len(), 1);

    let serialized = prover_stream.serialize();
    let mut verifier_stream = FriProofStream::deserialize(&serialized);
    let mut polynomial_values = Vec::new();

    assert!(fri.verify(&mut verifier_stream, &mut polynomial_values));
    assert_eq!(polynomial_values.len(), 2);
}

#[test]
fn eval_domain_is_the_offset_coset() {
    let field = Field::main();
    let omega = field.primitive_nth_root(8);
    let offset = field.generator();
    let fri = Fri::new(offset, omega, 8, 2, 1);
    let domain = fri.eval_domain();
    for (i, point) in domain.iter().enumerate() {
        assert_eq!(*point, offset * omega.pow(i as u64));
    }
    assert_eq!(fri.domain_length(), 8);
}

#[test]
fn sample_index_reads_the_last_word() {
    assert_eq!(Fri::sample_index(&[0, 0, 0, 0, 0, 0, 0, 0, 0, 0, 0, 0, 0, 0, 0, 13], 10), 3);
    assert_eq!(Fri::sample_index(&[1, 2], 1000), 258);
}

#[test]
fn verify_rejects_a_high_degree_codeword() {
    let field = Field::main();
    let fri = Fri::new(field.one(), field.primitive_nth_root(16), 16, 2, 1);
    let domain = fri.eval_domain();
    let polynomial = sample_polynomial(&[3, 1, 4, 1, 5, 9, 2, 6, 5, 3, 5, 8, 9, 7, 9, 3]);
    let codeword = polynomial.evaluate_domain(&domain);
    let mut prover_stream = FriProofStream::new();
    let _ = fri.prove(&codeword, &mut prover_stream);
    let mut verifier_stream = FriProofStream::deserialize(&prover_stream.serialize());
    let mut polynomial_values = Vec::new();
    assert!(!fri.verify(&mut verifier_stream, &mut polynomial_values));
}

#[test]
fn verify_rejects_a_truncated_transcript() {
    let field = Field::main();
    let fri = Fri::new(field.one(), field.primitive_nth_root(16), 16, 2, 1);
    let domain = fri.eval_domain();
    let codeword = sample_polynomial(&[3, 1, 4, 1]).evaluate_domain(&domain);
    let mut prover_stream = FriProofStream::new();
    let _ = fri.prove(&codeword, &mut prover_stream);
    let mut objects = FriProofStream::deserialize(&prover_stream.serialize()).into_objects();
    objects.pop();
    let mut verifier_stream = FriProofStream::from_objects(objects);
    let mut polynomial_values = Vec::new();
    assert!(!fri.verify(&mut verifier_stream, &mut polynomial_values));
}

#[test]
fn one_test_samples_one_index() {
    let field = Field::main();
    let fri = Fri::new(field.one(), field.primitive_nth_root(32), 32, 4, 1);
    let domain = fri.eval_domain();
    let codeword = sample_polynomial(&[2, 7, 1, 8]).evaluate_domain(&domain);
    let mut prover_stream = FriProofStream::new();
    let indices = fri.prove(&codeword, &mut prover_stream);
    assert!(fri.num_rounds() > 1);
    assert_eq!(indices.len(), 1);
    assert!(indices[0] < 16);
}
