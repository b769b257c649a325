use stark::field::Field;
use stark::polynomial::multivariate::MPolynomial;
use stark::polynomial::Polynomial;

fn poly(values: &[u64]) -> Polynomial {
    let field = Field::main();
    Polynomial::new(values.iter().map(|&value| field.from_u64(value)).collect())
}

#[test]
fn addition_combines_like_terms() {
    let field = Field::main();
    let left = MPolynomial::new(vec![(vec![1, 0], field.from_u64(2))]);
    let right = MPolynomial::new(vec![(vec![1], field.from_u64(3))]);

    assert_eq!(left + right, MPolynomial::new(vec![(vec![1], field.from_u64(5))]));
}

#[test]
fn multiplication_adds_exponents() {
    let field = Field::main();
    let left = MPolynomial::new(vec![(vec![1, 0], field.from_u64(2))]);
    let right = MPolynomial::new(vec![(vec![0, 1], field.from_u64(3))]);

    assert_eq!(left * right, MPolynomial::new(vec![(vec![1, 1], field.from_u64(6))]));
}

#[test]
fn exponentiation_uses_repeated_squaring() {
    let field = Field::main();
    let x = MPolynomial::variables(1, &field).remove(0);
    let cubic = x.pow(3);

    assert_eq!(cubic, MPolynomial::new(vec![(vec![3], field.one())]));
}

#[test]
fn lift_embeds_univariate_polynomial() {
    let field = Field::main();
    let lifted = MPolynomial::lift(&poly(&[5, 0, 2]), 1);

    assert_eq!(
        lifted,
        MPolynomial::new(vec![(Vec::new(), field.from_u64(5)), (vec![0, 2], field.from_u64(2))])
    );
}

#[test]
fn evaluates_at_field_point() {
    let field = Field::main();
    let polynomial = MPolynomial::new(vec![(vec![2], field.from_u64(3)), (Vec::new(), field.from_u64(1))]);

    assert_eq!(polynomial.evaluate(&[field.from_u64(2)]), field.from_u64(13));
}

#[test]
fn evaluates_symbolically() {
    let field = Field::main();
    let x = Polynomial::new(vec![field.zero(), field.one()]);
    let polynomial = MPolynomial::new(vec![(vec![2], field.from_u64(3)), (Vec::new(), field.from_u64(1))]);

    assert_eq!(polynomial.evaluate_symbolic(&[x]), poly(&[1, 0, 3]));
}

#[test]
fn zero_polynomial_is_empty() {
    let field = Field::main();
    assert!(MPolynomial::zero().is_zero());
    assert!(MPolynomial::constant(field.from_u64(0)).is_zero());
    assert!(!MPolynomial::constant(field.from_u64(1)).is_zero());
}

#[test]
fn subtraction_cancels() {
    let field = Field::main();
    let mut variables = MPolynomial::variables(2, &field);
    let y = variables.remove(1);
    let x = variables.remove(0);
    let difference = x.clone() + y.clone() - y;
    assert_eq!(difference, x);
    assert!((x.clone() - x).is_zero());
}

#[test]
fn evaluation_respects_products() {
    let field = Field::main();
    let mut variables = MPolynomial::variables(2, &field);
    let y = variables.remove(1);
    let x = variables.remove(0);
    let product = (x.clone() + y.clone()) * (x - y);
    let point = [field.from_u64(7), field.from_u64(3)];
    assert_eq!(product.evaluate(&point), field.from_u64(40));
}

#[test]
fn xor_raises_to_a_power() {
    let field = Field::main();
    let x = MPolynomial::variables(1, &field).remove(0);
    assert_eq!(x.clone() ^ 4, x.pow(4));
}
