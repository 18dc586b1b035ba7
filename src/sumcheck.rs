//! The sum-check prover and verifier, made non-interactive by a Fiat-Shamir
//! transcript that each side keeps for itself.
use vstd::arithmetic::power2::{is_pow2, pow2};
use vstd::prelude::*;
use crate::error::SumcheckError;
use crate::field::{values, Field};
use crate::multilinear::{fix_first, ml_eval, seq_sum, sum_range, MultilinearPoly};
use crate::transcript::{challenge_of, encode_all, keccak256_of, Transcript};

verus! {

/// The tables of a sequence of polynomials.
pub open spec fn tables<F: Field>(polys: Seq<MultilinearPoly<F>>) -> Seq<Seq<int>> {
    polys.map_values(|p: MultilinearPoly<F>| p@)
}

/// The round polynomial of table `t`, as its values at 0 and 1: the sums of
/// the first and of the second half of `t`.
pub open spec fn round_poly<F: Field>(t: Seq<int>) -> Seq<int> {
    seq![
        seq_sum(t.subrange(0, (t.len() / 2) as int)) % F::modulus(),
        seq_sum(t.subrange((t.len() / 2) as int, t.len() as int)) % F::modulus(),
    ]
}

/// What both sides absorb before the first round: the table, then the
/// claimed sum.
pub open spec fn opening_bytes<F: Field>(t: Seq<int>, claimed_sum: int) -> Seq<u8> {
    encode_all::<F>(t) + F::encode(claimed_sum)
}

/// The round polynomials that the prover sends for `rounds` more rounds on
/// table `t`, when the transcript holds `absorbed`.
pub open spec fn prover_rounds<F: Field>(t: Seq<int>, absorbed: Seq<u8>, rounds: nat) -> Seq<
    Seq<int>,
>
    decreases rounds,
{
    if rounds == 0 {
        Seq::empty()
    } else {
        let rp = round_poly::<F>(t);
        let b = absorbed + encode_all::<F>(rp);
        seq![rp] + prover_rounds::<F>(
            fix_first::<F>(t, challenge_of::<F>(b)),
            keccak256_of(b),
            (rounds - 1) as nat,
        )
    }
}

/// The round polynomials of the proof for table `t` in `n` variables.
pub open spec fn honest_rounds<F: Field>(t: Seq<int>, n: nat) -> Seq<Seq<int>> {
    prover_rounds::<F>(t, opening_bytes::<F>(t, seq_sum(t) % F::modulus()), n)
}

/// `rounds` with entry `j` of round polynomial `i` replaced by `v`.
pub open spec fn alter_round(rounds: Seq<Seq<int>>, i: int, j: int, v: int) -> Seq<Seq<int>> {
    rounds.update(i, rounds[i].update(j, v))
}

/// Whether the verifier accepts the rounds `rounds` against the running claim
/// `claim`, its transcript holding `absorbed` and the challenges so far being
/// `challenges`, for the polynomial with table `table`.
pub open spec fn rounds_accepted<F: Field>(
    table: Seq<int>,
    rounds: Seq<Seq<int>>,
    claim: int,
    absorbed: Seq<u8>,
    challenges: Seq<int>,
) -> bool
    decreases rounds.len(),
{
    if rounds.len() == 0 {
        ml_eval::<F>(table, challenges) == claim
    } else {
        let rp = rounds[0];
        let b = absorbed + encode_all::<F>(rp);
        let r = challenge_of::<F>(b);
        &&& rp.len() == 2
        &&& (ml_eval::<F>(rp, seq![0]) + ml_eval::<F>(rp, seq![1])) % F::modulus() == claim
        &&& rounds_accepted::<F>(
            table,
            rounds.drop_first(),
            ml_eval::<F>(rp, seq![r]),
            keccak256_of(b),
            challenges.push(r),
        )
    }
}

/// Whether a verifier whose transcript holds `absorbed` accepts the proof
/// made of the table `table` in `n` variables, the claimed sum
/// `claimed_sum`, and the round polynomials `rounds`.
pub open spec fn accepts<F: Field>(
    table: Seq<int>,
    n: nat,
    claimed_sum: int,
    rounds: Seq<Seq<int>>,
    absorbed: Seq<u8>,
) -> bool {
    rounds.len() == n && rounds_accepted::<F>(
        table,
        rounds,
        claimed_sum,
        absorbed + opening_bytes::<F>(table, claimed_sum),
        Seq::empty(),
    )
}

/// A non-interactive sum-check proof: the polynomial, the claimed sum of its
/// table, and one round polynomial (its values at 0 and 1) per variable.
pub struct SumcheckProof<F: Field> {
    pub initial_polynomial: MultilinearPoly<F>,
    pub initial_claimed_sum: F,
    pub round_univariate_polynomials: Vec<MultilinearPoly<F>>,
}

/// The canonical encoding of one field element.
pub fn field_element_to_bytes<F: Field>(field_element: F) -> (r: Vec<u8>)
    ensures
        r@ == F::encode(field_element.value()),
{
    field_element.to_bytes()
}

/// The round polynomial of a table: the sums of its first and second halves.
pub fn split_polynomial_and_sum_each<F: Field>(polynomial_evaluated_values: &Vec<F>) -> (r: Vec<
    F,
>)
    ensures
        values(r@) == round_poly::<F>(values(polynomial_evaluated_values@)),
{
    let mid = polynomial_evaluated_values.len() / 2;
    let left = sum_range(polynomial_evaluated_values, 0, mid);
    let right = sum_range(
        polynomial_evaluated_values,
        mid,
        polynomial_evaluated_values.len(),
    );
    let mut r: Vec<F> = Vec::new();
    r.push(left);
    r.push(right);
    proof {
        assert(values(r@) =~= round_poly::<F>(values(polynomial_evaluated_values@)));
    }
    r
}

fn duplicate_all<F: Field>(polys: &Vec<MultilinearPoly<F>>) -> (r: Vec<MultilinearPoly<F>>)
    ensures
        tables(r@) == tables(polys@),
{
    let mut out: Vec<MultilinearPoly<F>> = Vec::new();
    let mut i: usize = 0;
    while i < polys.len()
        invariant
            i <= polys@.len(),
            out@.len() == i,
            tables(out@) == tables(polys@.subrange(0, i as int)),
        decreases polys@.len() - i,
    {
        let ghost before = out@;
        let d = polys[i].duplicate();
        out.push(d);
        proof {
            let sub = polys@.subrange(0, i + 1);
            assert(sub.subrange(0, i as int) =~= polys@.subrange(0, i as int));
            assert forall|k: int| 0 <= k < i + 1 implies #[trigger] tables(out@)[k] == tables(
                sub,
            )[k] by {
                if k < i {
                    assert(tables(before)[k] == tables(polys@.subrange(0, i as int))[k]);
                    assert(out@[k] == before[k]);
                } else {
                    assert(out@[k] == d);
                    assert(sub[k] == polys@[k]);
                }
            }
            assert(tables(out@) =~= tables(sub));
        }
        i = i + 1;
    }
    proof {
        assert(polys@.subrange(0, i as int) =~= polys@);
    }
    out
}

/// The sum-check prover. `init` leaves it with the polynomial and its sum
/// absorbed into its transcript; `prove` then runs every round.
pub struct Prover<F: Field> {
    initial_polynomial: MultilinearPoly<F>,
    initial_claimed_sum: F,
    transcript: Transcript<F>,
    round_univariate_polynomials: Vec<MultilinearPoly<F>>,
}

impl<F: Field> Prover<F> {
    /// The table of the polynomial whose sum is claimed.
    pub closed spec fn table(&self) -> Seq<int> {
        self.initial_polynomial@
    }

    pub closed spec fn num_vars(&self) -> nat {
        self.initial_polynomial.num_vars()
    }

    pub closed spec fn claimed_sum(&self) -> int {
        self.initial_claimed_sum.value()
    }

    /// What the transcript holds.
    pub closed spec fn absorbed(&self) -> Seq<u8> {
        self.transcript@
    }

    /// The round polynomials sent so far.
    pub closed spec fn rounds(&self) -> Seq<Seq<int>> {
        tables(self.round_univariate_polynomials@)
    }

    /// Starts a proof for the polynomial with table
    /// `multilinear_polynomial_evaluation`: fails with `InvalidInput` exactly
    /// when its length is not a power of two; else claims the table's sum and
    /// absorbs the table and that sum.
    pub fn init(multilinear_polynomial_evaluation: &Vec<F>) -> (r: Result<Self, SumcheckError>)
        ensures
            r is Ok <==> is_pow2(multilinear_polynomial_evaluation@.len() as int),
            r is Err ==> r == Err::<Self, SumcheckError>(SumcheckError::InvalidInput),
            r matches Ok(p) ==> {
                &&& p.table() == values(multilinear_polynomial_evaluation@)
                &&& pow2(p.num_vars()) == multilinear_polynomial_evaluation@.len()
                &&& p.claimed_sum() == seq_sum(p.table()) % F::modulus()
                &&& p.absorbed() == opening_bytes::<F>(p.table(), p.claimed_sum())
                &&& p.rounds() == Seq::<Seq<int>>::empty()
            },
    {
        let mut table: Vec<F> = Vec::new();
        let mut i: usize = 0;
        while i < multilinear_polynomial_evaluation.len()
            invariant
                i <= multilinear_polynomial_evaluation@.len(),
                table@ == multilinear_polynomial_evaluation@.subrange(0, i as int),
            decreases multilinear_polynomial_evaluation@.len() - i,
        {
            table.push(multilinear_polynomial_evaluation[i]);
            i = i + 1;
            proof {
                assert(table@ =~= multilinear_polynomial_evaluation@.subrange(0, i as int));
            }
        }
        proof {
            assert(table@ =~= multilinear_polynomial_evaluation@);
        }
        let polynomial = match MultilinearPoly::new(table) {
            Ok(p) => p,
            Err(e) => {
                return Err(e);
            },
        };
        let claimed = polynomial.sum_over_hypercube();
        let mut transcript: Transcript<F> = Transcript::new();
        let table_bytes = polynomial.convert_to_bytes();
        transcript.append(table_bytes.as_slice());
        let sum_bytes = field_element_to_bytes(claimed);
        transcript.append(sum_bytes.as_slice());
        Ok(
            Prover {
                initial_polynomial: polynomial,
                initial_claimed_sum: claimed,
                transcript,
                round_univariate_polynomials: Vec::new(),
            },
        )
    }

    /// The polynomial whose sum is claimed.
    pub fn initial_polynomial(&self) -> (r: &MultilinearPoly<F>)
        ensures
            r@ == self.table(),
            r.num_vars() == self.num_vars(),
    {
        &self.initial_polynomial
    }

    /// The claimed sum.
    pub fn initial_claimed_sum(&self) -> (r: F)
        ensures
            r.value() == self.claimed_sum(),
    {
        self.initial_claimed_sum
    }

    /// Runs one round per variable: sends the halves' sums, absorbs them,
    /// draws a challenge and fixes the first remaining variable to it.
    pub fn prove(&mut self) -> (proof: SumcheckProof<F>)
        ensures
            final(self).table() == old(self).table(),
            final(self).num_vars() == old(self).num_vars(),
            final(self).claimed_sum() == old(self).claimed_sum(),
            final(self).rounds() == old(self).rounds() + prover_rounds::<F>(
                old(self).table(),
                old(self).absorbed(),
                old(self).num_vars(),
            ),
            proof.initial_polynomial@ == old(self).table(),
            proof.initial_polynomial.num_vars() == old(self).num_vars(),
            proof.initial_claimed_sum.value() == old(self).claimed_sum(),
            tables(proof.round_univariate_polynomials@) == final(self).rounds(),
    {
        let n = self.initial_polynomial.number_of_variables();
        let mut current = self.initial_polynomial.duplicate();
        let mut i: usize = 0;
        let ghost start = old(self).rounds();
        let ghost all = prover_rounds::<F>(old(self).table(), old(self).absorbed(), n as nat);
        proof {
            assert(start + all == self.rounds() + prover_rounds::<F>(
                current@,
                self.absorbed(),
                (n - i) as nat,
            ));
        }
        while i < n
            invariant
                i <= n == self.num_vars(),
                self.table() == old(self).table(),
                self.num_vars() == old(self).num_vars(),
                self.claimed_sum() == old(self).claimed_sum(),
                current.num_vars() == n - i,
                start + all == self.rounds() + prover_rounds::<F>(
                    current@,
                    self.absorbed(),
                    (n - i) as nat,
                ),
            decreases n - i,
        {
            let ghost before = self.rounds();
            let ghost absorbed = self.absorbed();
            let ghost t = current@;
            let sums = split_polynomial_and_sum_each(current.evaluation());
            let round = MultilinearPoly::linear(sums[0], sums[1]);
            proof {
                assert(round@ =~= round_poly::<F>(t));
            }
            let bytes = round.convert_to_bytes();
            self.round_univariate_polynomials.push(round);
            self.transcript.append(bytes.as_slice());
            let challenge = self.transcript.get_random_challenge();
            current = current.partial_evaluate(0, &challenge);
            proof {
                let rp = round_poly::<F>(t);
                assert(self.rounds() =~= before.push(rp));
                assert(before + prover_rounds::<F>(t, absorbed, (n - i) as nat) =~= before.push(rp)
                    + prover_rounds::<F>(current@, self.absorbed(), (n - i - 1) as nat));
            }
            i = i + 1;
        }
        proof {
            assert(self.rounds() + prover_rounds::<F>(current@, self.absorbed(), 0) =~= self.rounds());
        }
        SumcheckProof {
            initial_polynomial: self.initial_polynomial.duplicate(),
            initial_claimed_sum: self.initial_claimed_sum,
            round_univariate_polynomials: duplicate_all(&self.round_univariate_polynomials),
        }
    }
}

/// The sum-check verifier. It sees only the proof and re-derives every
/// challenge with a transcript of its own.
pub struct Verifier<F: Field> {
    transcript: Transcript<F>,
}

impl<F: Field> View for Verifier<F> {
    type V = Seq<u8>;

    /// What the verifier's transcript holds.
    closed spec fn view(&self) -> Seq<u8> {
        self.transcript@
    }
}

impl<F: Field> Verifier<F> {
    pub fn init() -> (r: Self)
        ensures
            r@ == Seq::<u8>::empty(),
    {
        Verifier { transcript: Transcript::new() }
    }

    /// Checks every round's sum against the running claim and the last claim
    /// against the polynomial's own value at the challenges.
    pub fn verify(&mut self, proof: SumcheckProof<F>) -> (r: bool)
        ensures
            r == accepts::<F>(
                proof.initial_polynomial@,
                proof.initial_polynomial.num_vars(),
                proof.initial_claimed_sum.value(),
                tables(proof.round_univariate_polynomials@),
                old(self)@,
            ),
    {
        let n = proof.initial_polynomial.number_of_variables();
        let ghost table = proof.initial_polynomial@;
        let ghost rounds = tables(proof.round_univariate_polynomials@);
        if proof.round_univariate_polynomials.len() != n {
            return false;
        }
        let mut claim = proof.initial_claimed_sum;
        let table_bytes = proof.initial_polynomial.convert_to_bytes();
        self.transcript.append(table_bytes.as_slice());
        let sum_bytes = field_element_to_bytes(claim);
        self.transcript.append(sum_bytes.as_slice());
        let zero = F::zero();
        let one = F::one();
        let mut challenges: Vec<F> = Vec::new();
        let mut i: usize = 0;
        proof {
            assert(rounds.skip(0) =~= rounds);
            assert(values(challenges@) =~= Seq::<int>::empty());
            assert(self@ =~= old(self)@ + opening_bytes::<F>(table, claim.value()));
        }
        while i < proof.round_univariate_polynomials.len()
            invariant
                n == proof.initial_polynomial.num_vars() == proof.round_univariate_polynomials@.len(),
                table == proof.initial_polynomial@,
                rounds == tables(proof.round_univariate_polynomials@),
                i <= n,
                challenges@.len() == i,
                zero.value() == 0,
                one.value() == 1,
                accepts::<F>(table, n as nat, proof.initial_claimed_sum.value(), rounds, old(self)@)
                    == rounds_accepted::<F>(
                    table,
                    rounds.skip(i as int),
                    claim.value(),
                    self@,
                    values(challenges@),
                ),
            decreases n - i,
        {
            let round = &proof.round_univariate_polynomials[i];
            let ghost rp = round@;
            proof {
                assert(rounds.skip(i as int)[0] == rp);
            }
            if round.number_of_variables() != 1 {
                proof {
                    vstd::arithmetic::power2::lemma2_to64();
                    if rp.len() == 2 {
                        vstd::arithmetic::power2::lemma_pow2_strictly_increases(1, round.num_vars());
                    }
                }
                return false;
            }
            let at_zero = vec![zero];
            let at_one = vec![one];
            proof {
                assert(values(at_zero@) =~= seq![0int]);
                assert(values(at_one@) =~= seq![1int]);
                vstd::arithmetic::power2::lemma2_to64();
            }
            let e0 = match round.evaluate(at_zero.as_slice()) {
                Ok(v) => v,
                Err(_) => {
                    return false;
                },
            };
            let e1 = match round.evaluate(at_one.as_slice()) {
                Ok(v) => v,
                Err(_) => {
                    return false;
                },
            };
            if !e0.add(&e1).eq_value(&claim) {
                return false;
            }
            let round_bytes = round.convert_to_bytes();
            self.transcript.append(round_bytes.as_slice());
            let challenge = self.transcript.get_random_challenge();
            let at_challenge = vec![challenge];
            proof {
                assert(values(at_challenge@) =~= seq![challenge.value()]);
            }
            let next = match round.evaluate(at_challenge.as_slice()) {
                Ok(v) => v,
                Err(_) => {
                    return false;
                },
            };
            let ghost before = values(challenges@);
            challenges.push(challenge);
            proof {
                assert(values(challenges@) =~= before.push(challenge.value()));
                assert(rounds.skip(i as int).drop_first() =~= rounds.skip(i + 1));
            }
            claim = next;
            i = i + 1;
        }
        match proof.initial_polynomial.evaluate(challenges.as_slice()) {
            Ok(v) => v.eq_value(&claim),
            Err(_) => false,
        }
    }
}

} // verus!
