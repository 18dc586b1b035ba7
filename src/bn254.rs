//! The base field of the BN254 curve, computed by arkworks.
use ark_ff::BigInteger;
use ark_ff::Field as ArkField;
use ark_ff::PrimeField;
use vstd::prelude::*;
use crate::field::{le_bytes, le_value, Field};

verus! {

/// The BN254 base field order,
/// 21888242871839275222246405745257275088696311157297823662689037894645226208583.
pub open spec fn fq_modulus() -> int {
    let base: int = 0x1_0000_0000_0000_0000;
    0x3c20_8c16_d87c_fd47 + base * (0x9781_6a91_6871_ca8d + base * (0xb850_45b6_8181_585d + base
        * 0x3064_4e72_e131_a029))
}

/// The integer denoted by four 64-bit limbs, least significant first.
pub open spec fn limbs_value(l: [u64; 4]) -> int {
    l[0] as int + 0x1_0000_0000_0000_0000 * (l[1] as int + 0x1_0000_0000_0000_0000 * (l[2] as int
        + 0x1_0000_0000_0000_0000 * l[3] as int))
}

/// An element of the BN254 base field, held as the canonical integer in `[0, p)`.
#[derive(Clone, Copy, Debug, PartialEq, Eq)]
pub struct Fq {
    limbs: [u64; 4],
}

impl Fq {
    pub closed spec fn val(&self) -> int {
        limbs_value(self.limbs)
    }

    #[verifier::type_invariant]
    spec fn canonical(&self) -> bool {
        self.val() < fq_modulus()
    }
}

/// Relies on ark_ff addition in `ark_bn254::Fq`: the sum modulo `p`.
#[verifier::external_body]
fn fq_add(a: &Fq, b: &Fq) -> (r: Fq)
    requires
        a.val() < fq_modulus(),
        b.val() < fq_modulus(),
    ensures
        r.val() == (a.val() + b.val()) % fq_modulus(),
{
    let x = ark_bn254::Fq::from_bigint(ark_ff::BigInt(a.limbs)).unwrap();
    let y = ark_bn254::Fq::from_bigint(ark_ff::BigInt(b.limbs)).unwrap();
    Fq { limbs: (x + y).into_bigint().0 }
}

/// Relies on ark_ff subtraction in `ark_bn254::Fq`: the difference modulo `p`.
#[verifier::external_body]
fn fq_sub(a: &Fq, b: &Fq) -> (r: Fq)
    requires
        a.val() < fq_modulus(),
        b.val() < fq_modulus(),
    ensures
        r.val() == (a.val() - b.val()) % fq_modulus(),
{
    let x = ark_bn254::Fq::from_bigint(ark_ff::BigInt(a.limbs)).unwrap();
    let y = ark_bn254::Fq::from_bigint(ark_ff::BigInt(b.limbs)).unwrap();
    Fq { limbs: (x - y).into_bigint().0 }
}

/// Relies on ark_ff multiplication in `ark_bn254::Fq`: the product modulo `p`.
#[verifier::external_body]
fn fq_mul(a: &Fq, b: &Fq) -> (r: Fq)
    requires
        a.val() < fq_modulus(),
        b.val() < fq_modulus(),
    ensures
        r.val() == (a.val() * b.val()) % fq_modulus(),
{
    let x = ark_bn254::Fq::from_bigint(ark_ff::BigInt(a.limbs)).unwrap();
    let y = ark_bn254::Fq::from_bigint(ark_ff::BigInt(b.limbs)).unwrap();
    Fq { limbs: (x * y).into_bigint().0 }
}

/// Relies on `ark_ff::Field::inverse`: `None` for zero, else the inverse modulo `p`.
#[verifier::external_body]
fn fq_inverse(a: &Fq) -> (r: Option<Fq>)
    requires
        a.val() < fq_modulus(),
    ensures
        r is None <==> a.val() == 0,
        r matches Some(i) ==> (a.val() * i.val()) % fq_modulus() == 1,
{
    let x = ark_bn254::Fq::from_bigint(ark_ff::BigInt(a.limbs)).unwrap();
    match x.inverse() {
        Some(i) => Some(Fq { limbs: i.into_bigint().0 }),
        None => None,
    }
}

/// Relies on `ark_ff::Field::pow`: `a` raised to `e`, modulo `p` (with `0^0 = 1`).
#[verifier::external_body]
fn fq_pow(a: &Fq, e: u64) -> (r: Fq)
    requires
        a.val() < fq_modulus(),
    ensures
        r.val() == vstd::arithmetic::power::pow(a.val(), e as nat) % fq_modulus(),
{
    let x = ark_bn254::Fq::from_bigint(ark_ff::BigInt(a.limbs)).unwrap();
    Fq { limbs: x.pow([e]).into_bigint().0 }
}

/// Relies on `ark_ff::BigInteger::to_bytes_le`: the four limbs' bytes, least significant first.
#[verifier::external_body]
fn fq_to_bytes_le(a: &Fq) -> (r: Vec<u8>)
    ensures
        r@ == le_bytes(a.val() as nat, 32),
{
    ark_ff::BigInt(a.limbs).to_bytes_le()
}

/// Relies on `ark_ff::PrimeField::from_le_bytes_mod_order`: the little-endian integer modulo `p`.
#[verifier::external_body]
fn fq_from_le_bytes_mod_order(b: &[u8]) -> (r: Fq)
    ensures
        r.val() == le_value(b@) as int % fq_modulus(),
{
    Fq { limbs: ark_bn254::Fq::from_le_bytes_mod_order(b).into_bigint().0 }
}

proof fn lemma_canonical(x: Fq)
    requires
        x.val() < fq_modulus(),
    ensures
        x.value() == x.val(),
{
    vstd::arithmetic::div_mod::lemma_small_mod(x.val() as nat, fq_modulus() as nat);
}

proof fn lemma_limbs_injective(a: [u64; 4], b: [u64; 4])
    requires
        limbs_value(a) == limbs_value(b),
    ensures
        a[0] == b[0] && a[1] == b[1] && a[2] == b[2] && a[3] == b[3],
{
    let base: int = 0x1_0000_0000_0000_0000;
    let ha = a[1] as int + base * (a[2] as int + base * a[3] as int);
    let hb = b[1] as int + base * (b[2] as int + base * b[3] as int);
    let ma = a[2] as int + base * a[3] as int;
    let mb = b[2] as int + base * b[3] as int;
    vstd::arithmetic::div_mod::lemma_fundamental_div_mod_converse(limbs_value(a), base, ha, a[0] as int);
    vstd::arithmetic::div_mod::lemma_fundamental_div_mod_converse(limbs_value(a), base, hb, b[0] as int);
    vstd::arithmetic::div_mod::lemma_fundamental_div_mod_converse(ha, base, ma, a[1] as int);
    vstd::arithmetic::div_mod::lemma_fundamental_div_mod_converse(ha, base, mb, b[1] as int);
    vstd::arithmetic::div_mod::lemma_fundamental_div_mod_converse(ma, base, a[3] as int, a[2] as int);
    vstd::arithmetic::div_mod::lemma_fundamental_div_mod_converse(ma, base, b[3] as int, b[2] as int);
}

impl Field for Fq {
    open spec fn modulus() -> int {
        fq_modulus()
    }

    /// The type invariant keeps the limbs below `p`, so this is `val` itself.
    closed spec fn value(&self) -> int {
        self.val() % fq_modulus()
    }

    open spec fn encode(v: int) -> Seq<u8> {
        le_bytes(v as nat, 32)
    }

    proof fn lemma_modulus() {
    }

    proof fn lemma_value_range(x: &Self) {
    }

    fn zero() -> (r: Self) {
        Self::from_u64(0)
    }

    fn one() -> (r: Self) {
        let r = Self::from_u64(1);
        proof {
            vstd::arithmetic::div_mod::lemma_small_mod(1, fq_modulus() as nat);
        }
        r
    }

    fn from_u64(n: u64) -> (r: Self) {
        Fq { limbs: [n, 0, 0, 0] }
    }

    fn add(&self, other: &Self) -> (r: Self) {
        proof {
            use_type_invariant(self);
            lemma_canonical(*self);
            use_type_invariant(other);
            lemma_canonical(*other);
        }
        let r = fq_add(self, other);
        proof {
            use_type_invariant(&r);
            lemma_canonical(r);
        }
        r
    }

    fn sub(&self, other: &Self) -> (r: Self) {
        proof {
            use_type_invariant(self);
            lemma_canonical(*self);
            use_type_invariant(other);
            lemma_canonical(*other);
        }
        let r = fq_sub(self, other);
        proof {
            use_type_invariant(&r);
            lemma_canonical(r);
        }
        r
    }

    fn mul(&self, other: &Self) -> (r: Self) {
        proof {
            use_type_invariant(self);
            lemma_canonical(*self);
            use_type_invariant(other);
            lemma_canonical(*other);
        }
        let r = fq_mul(self, other);
        proof {
            use_type_invariant(&r);
            lemma_canonical(r);
        }
        r
    }

    fn inverse(&self) -> (r: Option<Self>) {
        proof {
            use_type_invariant(self);
            lemma_canonical(*self);
        }
        let r = fq_inverse(self);
        if let Some(i) = &r {
            proof {
                use_type_invariant(i);
            lemma_canonical(*i);
            }
        }
        r
    }

    fn pow(&self, exp: u64) -> (r: Self) {
        proof {
            use_type_invariant(self);
            lemma_canonical(*self);
        }
        let r = fq_pow(self, exp);
        proof {
            use_type_invariant(&r);
            lemma_canonical(r);
        }
        r
    }

    fn eq_value(&self, other: &Self) -> (r: bool) {
        proof {
            use_type_invariant(self);
            lemma_canonical(*self);
            use_type_invariant(other);
            lemma_canonical(*other);
        }
        if self.limbs[0] == other.limbs[0] && self.limbs[1] == other.limbs[1] && self.limbs[2]
            == other.limbs[2] && self.limbs[3] == other.limbs[3] {
            true
        } else {
            proof {
                if self.val() == other.val() {
                    lemma_limbs_injective(self.limbs, other.limbs);
                }
            }
            false
        }
    }

    fn to_bytes(&self) -> (r: Vec<u8>) {
        proof {
            use_type_invariant(self);
            lemma_canonical(*self);
        }
        fq_to_bytes_le(self)
    }

    fn from_le_bytes_mod_order(bytes: &[u8]) -> (r: Self) {
        let r = fq_from_le_bytes_mod_order(bytes);
        proof {
            use_type_invariant(&r);
            lemma_canonical(r);
        }
        r
    }
}

} // verus!
