//! The prime-field capability that every component is generic over.
use vstd::prelude::*;

verus! {

/// The integer that a byte string denotes, least significant byte first.
pub open spec fn le_value(b: Seq<u8>) -> nat
    decreases b.len(),
{
    if b.len() == 0 {
        0
    } else {
        b[0] as nat + 256 * le_value(b.drop_first())
    }
}

/// The first `n` bytes of the little-endian encoding of `v`.
pub open spec fn le_bytes(v: nat, n: nat) -> Seq<u8>
    decreases n,
{
    if n == 0 {
        Seq::empty()
    } else {
        seq![(v % 256) as u8] + le_bytes(v / 256, (n - 1) as nat)
    }
}

/// Elements of a prime field `Z / pZ`, each standing for an integer in `[0, p)`.
pub trait Field: Sized + Copy {
    /// The field order `p`.
    spec fn modulus() -> int;

    /// The canonical representative of this element, in `[0, p)`.
    spec fn value(&self) -> int;

    /// The canonical byte encoding of the element whose value is `v`.
    spec fn encode(v: int) -> Seq<u8>;

    proof fn lemma_modulus()
        ensures
            Self::modulus() > 1,
    ;

    proof fn lemma_value_range(x: &Self)
        ensures
            0 <= x.value() < Self::modulus(),
    ;

    fn zero() -> (r: Self)
        ensures
            r.value() == 0,
    ;

    fn one() -> (r: Self)
        ensures
            r.value() == 1,
    ;

    fn from_u64(n: u64) -> (r: Self)
        ensures
            r.value() == n as int % Self::modulus(),
    ;

    fn add(&self, other: &Self) -> (r: Self)
        ensures
            r.value() == (self.value() + other.value()) % Self::modulus(),
    ;

    fn sub(&self, other: &Self) -> (r: Self)
        ensures
            r.value() == (self.value() - other.value()) % Self::modulus(),
    ;

    fn mul(&self, other: &Self) -> (r: Self)
        ensures
            r.value() == (self.value() * other.value()) % Self::modulus(),
    ;

    /// The multiplicative inverse; `None` exactly for zero.
    fn inverse(&self) -> (r: Option<Self>)
        ensures
            r is None <==> self.value() == 0,
            r matches Some(i) ==> (self.value() * i.value()) % Self::modulus() == 1,
    ;

    fn pow(&self, exp: u64) -> (r: Self)
        ensures
            r.value() == vstd::arithmetic::power::pow(self.value(), exp as nat) % Self::modulus(),
    ;

    fn eq_value(&self, other: &Self) -> (r: bool)
        ensures
            r == (self.value() == other.value()),
    ;

    /// The canonical byte encoding.
    fn to_bytes(&self) -> (r: Vec<u8>)
        ensures
            r@ == Self::encode(self.value()),
    ;

    /// The little-endian integer of `bytes`, reduced modulo `p`.
    fn from_le_bytes_mod_order(bytes: &[u8]) -> (r: Self)
        ensures
            r.value() == le_value(bytes@) as int % Self::modulus(),
    ;
}

/// The values of a sequence of field elements.
pub open spec fn values<F: Field>(s: Seq<F>) -> Seq<int> {
    s.map_values(|x: F| x.value())
}

/// Every entry is a canonical representative.
pub open spec fn in_field<F: Field>(s: Seq<int>) -> bool {
    forall|i: int| 0 <= i < s.len() ==> 0 <= #[trigger] s[i] < F::modulus()
}

pub proof fn lemma_values_push<F: Field>(s: Seq<F>, x: F)
    ensures
        values(s.push(x)) == values(s).push(x.value()),
{
    assert(values(s.push(x)) =~= values(s).push(x.value()));
}

/// The values of field elements are canonical representatives, so every
/// table of field elements meets the `in_field` premise of the protocol's
/// guarantees.
pub proof fn lemma_values_in_field<F: Field>(s: Seq<F>)
    ensures
        values(s).len() == s.len(),
        in_field::<F>(values(s)),
{
    assert forall|i: int| 0 <= i < values(s).len() implies 0 <= #[trigger] values(s)[i]
        < F::modulus() by {
        F::lemma_value_range(&s[i]);
    }
}

} // verus!
