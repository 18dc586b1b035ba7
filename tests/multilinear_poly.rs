use sumcheck::bn254::Fq;
use sumcheck::error::SumcheckError;
use sumcheck::field::Field;
use sumcheck::multilinear::MultilinearPoly;

fn fq(n: u64) -> Fq {
    Fq::from_u64(n)
}

fn poly(vals: &[u64]) -> MultilinearPoly<Fq> {
    MultilinearPoly::new(vals.iter().map(|v| fq(*v)).collect()).unwrap()
}

#[test]
fn fixing_first_variable_then_summing() {
    let p = poly(&[0, 0, 0, 3, 0, 0, 2, 5]);
    assert_eq!(p.partial_evaluate(0, &fq(0)).sum_over_hypercube(), fq(3));
    assert_eq!(p.partial_evaluate(0, &fq(1)).sum_over_hypercube(), fq(7));
    assert_eq!(p.sum_over_hypercube(), fq(10));
}

#[test]
fn partial_evaluation_leaves_the_source_alone() {
    let p = poly(&[0, 0, 0, 3, 0, 0, 2, 5]);
    let q = p.partial_evaluate(0, &fq(2));
    assert_eq!(q.number_of_variables(), 2);
    assert_eq!(q.evaluation(), &vec![fq(0), fq(0), fq(4), fq(7)]);
    assert_eq!(p.number_of_variables(), 3);
    assert_eq!(p.evaluation().len(), 8);
}

#[test]
fn fixing_the_last_variable_pairs_neighbours() {
    let p = poly(&[1, 2, 3, 4]);
    let q = p.partial_evaluate(1, &fq(2));
    assert_eq!(q.evaluation(), &vec![fq(3), fq(5)]);
    let q = p.partial_evaluate(0, &fq(2));
    assert_eq!(q.evaluation(), &vec![fq(5), fq(6)]);
}

#[test]
fn middle_variable_of_three() {
    let p = poly(&[0, 1, 2, 3, 4, 5, 6, 7]);
    let q = p.partial_evaluate(1, &fq(1));
    assert_eq!(q.evaluation(), &vec![fq(2), fq(3), fq(6), fq(7)]);
}

#[test]
fn evaluation_at_boolean_points_reads_the_table() {
    let p = poly(&[0, 0, 0, 3, 0, 0, 2, 5]);
    assert_eq!(p.evaluate(&[fq(0), fq(1), fq(1)]).unwrap(), fq(3));
    assert_eq!(p.evaluate(&[fq(1), fq(1), fq(0)]).unwrap(), fq(2));
    assert_eq!(p.evaluate(&[fq(1), fq(1), fq(1)]).unwrap(), fq(5));
}

#[test]
fn evaluation_off_the_cube() {
    // 1 + x + 2y + 3xy, tabled as f(x, y) with x the first variable
    let p = poly(&[1, 3, 2, 7]);
    assert_eq!(p.evaluate(&[fq(2), fq(3)]).unwrap(), fq(1 + 2 + 6 + 18));
}

#[test]
fn evaluation_needs_one_coordinate_per_variable() {
    let p = poly(&[1, 2, 3, 4]);
    assert_eq!(p.evaluate(&[fq(1)]), Err(SumcheckError::InvalidInput));
    assert_eq!(p.evaluate(&[fq(1), fq(2), fq(3)]), Err(SumcheckError::InvalidInput));
}

#[test]
fn construction_needs_a_power_of_two() {
    assert_eq!(MultilinearPoly::new(vec![fq(1), fq(2), fq(3)]), Err(SumcheckError::InvalidInput));
    assert_eq!(MultilinearPoly::<Fq>::new(vec![]), Err(SumcheckError::InvalidInput));
    assert_eq!(poly(&[9]).number_of_variables(), 0);
    assert_eq!(poly(&[1, 2, 3, 4, 5, 6, 7, 8]).number_of_variables(), 3);
}

#[test]
fn serialization_concatenates_entries() {
    let p = poly(&[1, 258]);
    let bytes = p.convert_to_bytes();
    assert_eq!(bytes.len(), 64);
    assert_eq!(bytes[0], 1);
    assert_eq!(&bytes[1..32], &[0u8; 31][..]);
    assert_eq!(bytes[32], 2);
    assert_eq!(bytes[33], 1);
}
