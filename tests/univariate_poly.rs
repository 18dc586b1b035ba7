use sumcheck::bn254::Fq;
use sumcheck::error::SumcheckError;
use sumcheck::field::Field;
use sumcheck::univariate::{
    add_polynomials, lagrange_interpolate, multiply_polynomials, scalar_mul, DenseUnivariatePoly,
};

fn fq(n: u64) -> Fq {
    Fq::from_u64(n)
}

fn test_setup() -> DenseUnivariatePoly<Fq> {
    let set_of_points = vec![fq(7), fq(5), fq(2), fq(1)];
    DenseUnivariatePoly::new(set_of_points.clone())
}

#[test]
fn test_degree() {
    let polynomial = test_setup();
    assert_eq!(polynomial.degree(), 3);
}

#[test]
fn test_evaluation() {
    let polynomial = test_setup();
    let evaluation_value = fq(3);

    assert_eq!(polynomial.evaluate(evaluation_value), fq(67));
}

#[test]
fn test_add_polynomials() {
    let p1 = vec![fq(5), fq(2), fq(5)];
    let p2 = vec![fq(2), fq(1), fq(8), fq(10)];

    assert_eq!(add_polynomials(p1, p2), vec![fq(7), fq(3), fq(13), fq(10)]);
}

#[test]
fn test_multiply_polynomials() {
    let p1 = vec![fq(5), fq(0), fq(2)];
    let p2 = vec![fq(6), fq(2)];

    assert_eq!(multiply_polynomials(p1, p2), vec![fq(30), fq(10), fq(12), fq(4)]);
}

#[test]
fn test_lagrange_interpolate() {
    let x_values = vec![fq(1), fq(2), fq(3)];
    let y_values = vec![fq(6), fq(11), fq(18)];

    assert_eq!(
        DenseUnivariatePoly::lagrange_interpolate(&x_values, &y_values).unwrap().coefficients,
        vec![fq(3), fq(2), fq(1)]
    );
}

#[test]
fn test_lagrange_interpolation() {
    let x_vals = vec![fq(1), fq(2), fq(3)];
    let y_vals = vec![fq(6), fq(11), fq(18)];

    let poly = lagrange_interpolate(&x_vals, &y_vals).unwrap();

    assert_eq!(poly.coefficients, vec![fq(3), fq(2), fq(1)]);
}

#[test]
fn interpolant_passes_through_every_point() {
    let xs = vec![fq(1), fq(2), fq(3)];
    let ys = vec![fq(6), fq(11), fq(18)];
    let poly = lagrange_interpolate(&xs, &ys).unwrap();
    for (x, y) in xs.iter().zip(ys.iter()) {
        assert_eq!(poly.evaluate(*x), *y);
    }
    let xs = vec![fq(0), fq(5), fq(9), fq(100)];
    let ys = vec![fq(4), fq(0), fq(77), fq(1)];
    let poly = lagrange_interpolate(&xs, &ys).unwrap();
    assert_eq!(poly.coefficients.len(), 4);
    for (x, y) in xs.iter().zip(ys.iter()) {
        assert_eq!(poly.evaluate(*x), *y);
    }
}

#[test]
fn interpolating_one_point_gives_a_constant() {
    let poly = lagrange_interpolate(&[fq(4)], &[fq(9)]).unwrap();
    assert_eq!(poly.coefficients, vec![fq(9)]);
    let poly = lagrange_interpolate::<Fq>(&[], &[]).unwrap();
    assert_eq!(poly.coefficients, vec![fq(0)]);
}

#[test]
fn repeated_x_is_a_division_by_zero() {
    let r = lagrange_interpolate(&[fq(1), fq(2), fq(1)], &[fq(1), fq(2), fq(3)]);
    assert!(matches!(r, Err(SumcheckError::DivisionByZero)));
}

#[test]
fn unequal_lengths_are_invalid_input() {
    let r = lagrange_interpolate(&[fq(1), fq(2)], &[fq(1)]);
    assert!(matches!(r, Err(SumcheckError::InvalidInput)));
}

#[test]
fn scaling_multiplies_every_coefficient() {
    assert_eq!(scalar_mul(fq(3), vec![fq(0), fq(2), fq(5)]), vec![fq(0), fq(6), fq(15)]);
}

#[test]
fn product_evaluates_to_product_of_values() {
    let a = vec![fq(1), fq(4), fq(0), fq(2)];
    let b = vec![fq(3), fq(0), fq(7)];
    let prod = DenseUnivariatePoly::new(multiply_polynomials(a.clone(), b.clone()));
    let x = fq(5);
    let expected = DenseUnivariatePoly::new(a).evaluate(x).mul(&DenseUnivariatePoly::new(b).evaluate(x));
    assert_eq!(prod.evaluate(x), expected);
    assert_eq!(prod.coefficients.len(), 6);
}

#[test]
fn evaluation_of_empty_polynomial_is_zero() {
    assert_eq!(DenseUnivariatePoly::<Fq>::new(vec![]).evaluate(fq(3)), fq(0));
}
