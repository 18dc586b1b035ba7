use sumcheck::bn254::Fq;
use sumcheck::field::Field;
use sumcheck::sumcheck::field_element_to_bytes;
use sumcheck::transcript::{fq_vec_to_bytes, Transcript};

fn fq(n: u64) -> Fq {
    Fq::from_u64(n)
}

#[test]
fn it_hashes() {
    let mut transcript: Transcript<Fq> = Transcript::new();
    transcript.append("zero knowledge".as_bytes());
    let random_challenge = transcript.get_random_challenge();

    let mut again: Transcript<Fq> = Transcript::new();
    again.append("zero knowledge".as_bytes());
    assert_eq!(again.get_random_challenge(), random_challenge);
}

#[test]
fn challenges_depend_on_what_was_absorbed() {
    let mut a: Transcript<Fq> = Transcript::new();
    a.append(b"zero knowledge");
    let mut b: Transcript<Fq> = Transcript::new();
    b.append(b"zero knowledgf");
    assert_ne!(a.get_random_challenge(), b.get_random_challenge());
}

#[test]
fn consecutive_challenges_differ() {
    let mut t: Transcript<Fq> = Transcript::new();
    t.append(b"round");
    let first = t.get_random_challenge();
    let second = t.get_random_challenge();
    assert_ne!(first, second);
}

#[test]
fn challenge_is_not_the_raw_bytes() {
    let bytes = [7u8; 32];
    let mut t: Transcript<Fq> = Transcript::new();
    t.append(&bytes);
    assert_ne!(t.get_random_challenge(), Fq::from_le_bytes_mod_order(&bytes));
}

#[test]
fn appends_concatenate_without_framing() {
    let mut a: Transcript<Fq> = Transcript::new();
    a.append(b"ab");
    a.append(b"c");
    let mut b: Transcript<Fq> = Transcript::new();
    b.append(b"abc");
    assert_eq!(a.get_random_challenge(), b.get_random_challenge());
}

#[test]
fn field_arithmetic_wraps() {
    let minus_one = fq(0).sub(&fq(1));
    assert_eq!(minus_one.add(&fq(1)), fq(0));
    assert_eq!(minus_one.mul(&minus_one), fq(1));
    assert_eq!(fq(6).mul(&fq(7)), fq(42));
    assert_eq!(fq(3).pow(4), fq(81));
    assert_eq!(fq(0).pow(0), fq(1));
}

#[test]
fn inverse_of_zero_fails() {
    assert!(fq(0).inverse().is_none());
    let inv = fq(2).inverse().unwrap();
    assert_eq!(inv.mul(&fq(2)), fq(1));
    assert_ne!(inv, fq(2));
}

#[test]
fn encoding_is_little_endian_and_fixed_width() {
    let bytes = field_element_to_bytes(fq(0x0102));
    assert_eq!(bytes.len(), 32);
    assert_eq!(bytes[0], 0x02);
    assert_eq!(bytes[1], 0x01);
    assert!(bytes[2..].iter().all(|b| *b == 0));
    let minus_one = fq(0).sub(&fq(1));
    let top = field_element_to_bytes(minus_one);
    assert_eq!(top[31], 0x30);
    assert_eq!(top[0], 0x46);
    assert_eq!(Fq::from_le_bytes_mod_order(&top), minus_one);
}

#[test]
fn reduction_modulo_the_order() {
    let mut p_bytes = field_element_to_bytes(fq(0).sub(&fq(1)));
    p_bytes[0] += 1;
    assert_eq!(Fq::from_le_bytes_mod_order(&p_bytes), fq(0));
    assert_eq!(Fq::from_le_bytes_mod_order(&[5, 1]), fq(261));
}

#[test]
fn vector_encoding_concatenates() {
    let bytes = fq_vec_to_bytes(&[fq(1), fq(2), fq(3)]);
    assert_eq!(bytes.len(), 96);
    assert_eq!(bytes[0], 1);
    assert_eq!(bytes[32], 2);
    assert_eq!(bytes[64], 3);
}

#[test]
fn values_compare_by_field_value() {
    assert!(fq(5).eq_value(&fq(2).add(&fq(3))));
    assert!(!fq(5).eq_value(&fq(6)));
}
