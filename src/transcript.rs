//! A Fiat-Shamir transcript: absorbs bytes and derives field challenges from
//! their Keccak-256 digest.
use sha3::Digest;
use std::marker::PhantomData;
use vstd::prelude::*;
use crate::field::{le_value, values, Field};

verus! {

/// The Keccak-256 digest of `data`.
pub uninterp spec fn keccak256_of(data: Seq<u8>) -> Seq<u8>;

/// Relies on `sha3::Keccak256` (through `Digest::digest`): the 32-byte digest of `data`.
#[verifier::external_body]
fn keccak256(data: &[u8]) -> (r: Vec<u8>)
    ensures
        r@ == keccak256_of(data@),
        r@.len() == 32,
{
    sha3::Keccak256::digest(data).to_vec()
}

/// The challenge drawn after absorbing `absorbed` since the last draw: the
/// digest read as a little-endian integer, reduced into the field.
pub open spec fn challenge_of<F: Field>(absorbed: Seq<u8>) -> int {
    le_value(keccak256_of(absorbed)) as int % F::modulus()
}

/// The concatenated encodings of `vals`, in order.
pub open spec fn encode_all<F: Field>(vals: Seq<int>) -> Seq<u8>
    decreases vals.len(),
{
    if vals.len() == 0 {
        Seq::empty()
    } else {
        encode_all::<F>(vals.drop_last()) + F::encode(vals.last())
    }
}

/// A Fiat-Shamir transcript. Its view is the bytes absorbed since the last
/// challenge draw (after a draw, the digest that the draw produced).
pub struct Transcript<F: Field> {
    pending: Vec<u8>,
    _field: PhantomData<F>,
}

impl<F: Field> View for Transcript<F> {
    type V = Seq<u8>;

    closed spec fn view(&self) -> Seq<u8> {
        self.pending@
    }
}

impl<F: Field> Transcript<F> {
    pub fn new() -> (r: Self)
        ensures
            r@ == Seq::<u8>::empty(),
    {
        Transcript { pending: Vec::new(), _field: PhantomData }
    }

    /// Absorbs `preimage`, with no length framing.
    pub fn append(&mut self, preimage: &[u8])
        ensures
            final(self)@ == old(self)@ + preimage@,
    {
        let mut i: usize = 0;
        while i < preimage.len()
            invariant
                i <= preimage@.len(),
                self.pending@ == old(self)@ + preimage@.subrange(0, i as int),
            decreases preimage@.len() - i,
        {
            self.pending.push(preimage[i]);
            i = i + 1;
            proof {
                assert(preimage@.subrange(0, i as int) =~= preimage@.subrange(0, i - 1).push(
                    preimage@[i - 1],
                ));
            }
        }
        proof {
            assert(preimage@.subrange(0, i as int) =~= preimage@);
        }
    }

    /// Finalises the digest of what was absorbed, starts afresh from that
    /// digest, and reduces the digest into a field element.
    pub fn get_random_challenge(&mut self) -> (r: F)
        ensures
            final(self)@ == keccak256_of(old(self)@),
            r.value() == challenge_of::<F>(old(self)@),
    {
        let digest = keccak256(self.pending.as_slice());
        let r = F::from_le_bytes_mod_order(digest.as_slice());
        self.pending = digest;
        r
    }
}

/// The concatenated canonical encodings of `values`.
pub fn fq_vec_to_bytes<F: Field>(vals: &[F]) -> (r: Vec<u8>)
    ensures
        r@ == encode_all::<F>(values(vals@)),
{
    let mut out: Vec<u8> = Vec::new();
    let mut i: usize = 0;
    while i < vals.len()
        invariant
            i <= vals@.len(),
            out@ == encode_all::<F>(values(vals@.subrange(0, i as int))),
        decreases vals@.len() - i,
    {
        let bytes = vals[i].to_bytes();
        let mut j: usize = 0;
        let ghost before = out@;
        while j < bytes.len()
            invariant
                j <= bytes@.len(),
                out@ == before + bytes@.subrange(0, j as int),
            decreases bytes@.len() - j,
        {
            out.push(bytes[j]);
            j = j + 1;
            proof {
                assert(bytes@.subrange(0, j as int) =~= bytes@.subrange(0, j - 1).push(
                    bytes@[j - 1],
                ));
            }
        }
        proof {
            assert(bytes@.subrange(0, j as int) =~= bytes@);
            assert(values(vals@.subrange(0, i + 1)).drop_last() =~= values(
                vals@.subrange(0, i as int),
            ));
        }
        i = i + 1;
    }
    proof {
        assert(vals@.subrange(0, i as int) =~= vals@);
    }
    out
}

} // verus!
