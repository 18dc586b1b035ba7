use sumcheck::bn254::Fq;
use sumcheck::error::SumcheckError;
use sumcheck::field::Field;
use sumcheck::multilinear::MultilinearPoly;
use sumcheck::sumcheck::{split_polynomial_and_sum_each, Prover, SumcheckProof, Verifier};

fn fq(n: u64) -> Fq {
    Fq::from_u64(n)
}

fn table(vals: &[u64]) -> Vec<Fq> {
    vals.iter().map(|v| fq(*v)).collect()
}

fn fresh_proof(vals: &[u64]) -> SumcheckProof<Fq> {
    let mut prover = Prover::init(&table(vals)).unwrap();
    prover.prove()
}

#[test]
fn test_prover_init() {
    let evaluated_values = vec![fq(0), fq(0), fq(3), fq(8)];
    let prover = Prover::init(&evaluated_values).unwrap();

    assert_eq!(prover.initial_claimed_sum(), fq(11));
    assert_eq!(prover.initial_polynomial().evaluation(), &evaluated_values);
}

#[test]
fn test_sumcheck_roundtrip() {
    let evaluated_values = vec![fq(0), fq(0), fq(3), fq(8)];
    let mut prover = Prover::init(&evaluated_values).unwrap();
    let proof = prover.prove();

    let mut verifier = Verifier::init();
    assert!(verifier.verify(proof), "Sumcheck proof verification failed");
}

#[test]
fn test_invalid_length() {
    let evaluated_values = vec![fq(1), fq(2), fq(3)];
    assert!(matches!(Prover::init(&evaluated_values), Err(SumcheckError::InvalidInput)));
}

#[test]
fn init_accepts_four_entries_and_rejects_three() {
    assert!(matches!(Prover::init(&table(&[1, 2, 3])), Err(SumcheckError::InvalidInput)));
    assert!(Prover::init(&table(&[1, 2, 3, 4])).is_ok());
    assert!(matches!(Prover::init(&Vec::<Fq>::new()), Err(SumcheckError::InvalidInput)));
    assert!(matches!(Prover::init(&table(&[1, 2, 3, 4, 5, 6])), Err(SumcheckError::InvalidInput)));
}

#[test]
fn roundtrip_on_several_tables() {
    let tables: [&[u64]; 5] = [
        &[42],
        &[5, 9],
        &[0, 0, 0, 3, 0, 0, 2, 5],
        &[1, 2, 3, 4, 5, 6, 7, 8, 9, 10, 11, 12, 13, 14, 15, 16],
        &[u64::MAX, 7, u64::MAX, 0],
    ];
    for vals in tables.iter() {
        let proof = fresh_proof(vals);
        let mut verifier = Verifier::init();
        assert!(verifier.verify(proof));
    }
}

#[test]
fn proof_has_one_round_per_variable() {
    let proof = fresh_proof(&[0, 0, 0, 3, 0, 0, 2, 5]);
    assert_eq!(proof.round_univariate_polynomials.len(), 3);
    assert_eq!(proof.initial_polynomial.number_of_variables(), 3);
    let first = proof.round_univariate_polynomials[0].evaluation();
    assert_eq!(first, &vec![fq(3), fq(7)]);
}

#[test]
fn claimed_sum_is_the_table_sum() {
    let proof = fresh_proof(&[0, 0, 0, 3, 0, 0, 2, 5]);
    assert_eq!(proof.initial_claimed_sum, fq(10));
    let proof = fresh_proof(&[1, 2, 3, 4]);
    assert_eq!(proof.initial_claimed_sum, fq(10));
}

#[test]
fn claimed_sum_wraps_modulo_the_field_order() {
    let minus_one = fq(0).sub(&fq(1));
    let mut prover = Prover::init(&vec![minus_one, fq(3)]).unwrap();
    assert_eq!(prover.initial_claimed_sum(), fq(2));
    let mut verifier = Verifier::init();
    assert!(verifier.verify(prover.prove()));
}

#[test]
fn altering_any_round_entry_is_rejected() {
    let vals: &[u64] = &[0, 0, 0, 3, 0, 0, 2, 5];
    for round in 0..3 {
        for entry in 0..2 {
            let mut proof = fresh_proof(vals);
            let old = proof.round_univariate_polynomials[round].evaluation().clone();
            let mut altered = old.clone();
            altered[entry] = altered[entry].add(&fq(1));
            proof.round_univariate_polynomials[round] = MultilinearPoly::new(altered).unwrap();
            let mut verifier = Verifier::init();
            assert!(!verifier.verify(proof), "round {} entry {}", round, entry);
        }
    }
}

#[test]
fn wrong_claimed_sum_is_rejected() {
    let mut proof = fresh_proof(&[1, 2, 3, 4]);
    proof.initial_claimed_sum = fq(11);
    let mut verifier = Verifier::init();
    assert!(!verifier.verify(proof));
}

#[test]
fn missing_round_is_rejected() {
    let mut proof = fresh_proof(&[1, 2, 3, 4]);
    proof.round_univariate_polynomials.pop();
    let mut verifier = Verifier::init();
    assert!(!verifier.verify(proof));
}

#[test]
fn round_of_wrong_shape_is_rejected() {
    let mut proof = fresh_proof(&[1, 2, 3, 4]);
    proof.round_univariate_polynomials[0] =
        MultilinearPoly::new(vec![fq(1), fq(2), fq(3), fq(4)]).unwrap();
    let mut verifier = Verifier::init();
    assert!(!verifier.verify(proof));
}

#[test]
fn proving_twice_gives_identical_proofs() {
    let vals: &[u64] = &[0, 0, 0, 3, 0, 0, 2, 5];
    let a = fresh_proof(vals);
    let b = fresh_proof(vals);
    assert_eq!(a.initial_polynomial, b.initial_polynomial);
    assert_eq!(a.initial_claimed_sum, b.initial_claimed_sum);
    assert_eq!(a.round_univariate_polynomials, b.round_univariate_polynomials);
    let bytes_a: Vec<Vec<u8>> = a.round_univariate_polynomials.iter().map(|p| p.convert_to_bytes()).collect();
    let bytes_b: Vec<Vec<u8>> = b.round_univariate_polynomials.iter().map(|p| p.convert_to_bytes()).collect();
    assert_eq!(bytes_a, bytes_b);
}

#[test]
fn split_sums_each_half() {
    let halves = split_polynomial_and_sum_each(&table(&[0, 0, 0, 3, 0, 0, 2, 5]));
    assert_eq!(halves, vec![fq(3), fq(7)]);
    let halves = split_polynomial_and_sum_each(&table(&[4, 9]));
    assert_eq!(halves, vec![fq(4), fq(9)]);
}
