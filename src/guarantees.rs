//! What the protocol guarantees: an honest proof is accepted, and a proof
//! with any one entry of a round polynomial altered is rejected.
use vstd::arithmetic::div_mod::{
    lemma_add_mod_noop,
    lemma_mod_equivalence,
    lemma_mod_twice,
    lemma_mul_mod_noop_right,
    lemma_small_mod,
};
use vstd::arithmetic::power2::{lemma_pow2_pos, lemma_pow2_unfold, pow2};
use vstd::prelude::*;
use crate::field::{in_field, Field};
use crate::multilinear::{fix_first, ml_eval, seq_sum};
use crate::sumcheck::{accepts, alter_round, honest_rounds, prover_rounds, round_poly, rounds_accepted};
use crate::transcript::{challenge_of, encode_all, keccak256_of};

verus! {

proof fn lemma_sum_split(s: Seq<int>, j: int)
    requires
        0 <= j <= s.len(),
    ensures
        seq_sum(s) == seq_sum(s.subrange(0, j)) + seq_sum(s.subrange(j, s.len() as int)),
    decreases s.len(),
{
    if j == s.len() {
        assert(s.subrange(0, j) =~= s);
        assert(seq_sum(s.subrange(j, s.len() as int)) == 0);
    } else {
        lemma_sum_split(s.drop_last(), j);
        assert(s.drop_last().subrange(0, j) =~= s.subrange(0, j));
        assert(s.subrange(j, s.len() as int).drop_last() =~= s.drop_last().subrange(
            j,
            s.len() - 1,
        ));
    }
}

/// Summing the table left by fixing the first variable to `r` gives, in the
/// field, `(1 - r)` times the first half's sum plus `r` times the second's,
/// over the first `j` entries of each half.
proof fn lemma_fix_first_prefix_sum<F: Field>(t: Seq<int>, r: int, j: int)
    requires
        t.len() % 2 == 0,
        0 <= j <= t.len() / 2,
        F::modulus() > 1,
    ensures
        seq_sum(fix_first::<F>(t, r).subrange(0, j)) % F::modulus() == ((1 - r) * seq_sum(
            t.subrange(0, j),
        ) + r * seq_sum(t.subrange((t.len() / 2) as int, t.len() / 2 + j))) % F::modulus(),
    decreases j,
{
    let m = F::modulus();
    let h = (t.len() / 2) as int;
    let f = fix_first::<F>(t, r);
    if j == 0 {
        assert(f.subrange(0, 0) =~= Seq::<int>::empty());
        assert(t.subrange(0, 0) =~= Seq::<int>::empty());
        assert(t.subrange(h, h) =~= Seq::<int>::empty());
    } else {
        lemma_fix_first_prefix_sum::<F>(t, r, j - 1);
        assert(f.subrange(0, j).drop_last() =~= f.subrange(0, j - 1));
        assert(t.subrange(0, j).drop_last() =~= t.subrange(0, j - 1));
        assert(t.subrange(h, h + j).drop_last() =~= t.subrange(h, h + j - 1));
        let s = seq_sum(f.subrange(0, j - 1));
        let a = seq_sum(t.subrange(0, j - 1));
        let b = seq_sum(t.subrange(h, h + j - 1));
        let x = (1 - r) * a + r * b;
        let y = (1 - r) * t[j - 1] + r * t[h + j - 1];
        assert(f[j - 1] == y % m);
        lemma_add_mod_noop(s, y % m, m);
        lemma_mod_twice(y, m);
        lemma_add_mod_noop(x, y, m);
        let (u, w) = (t[j - 1], t[h + j - 1]);
        assert(x + y == (1 - r) * (a + u) + r * (b + w)) by (nonlinear_arith)
            requires
                x == (1 - r) * a + r * b,
                y == (1 - r) * u + r * w,
        ;
    }
}

/// The value at `r` of a round polynomial given by its values at 0 and 1.
proof fn lemma_line_eval<F: Field>(rp: Seq<int>, r: int)
    requires
        rp.len() == 2,
    ensures
        ml_eval::<F>(rp, seq![r]) == ((1 - r) * rp[0] + r * rp[1]) % F::modulus(),
{
    let f = fix_first::<F>(rp, r);
    assert(seq![r][0] == r);
    assert(seq![r].drop_first() =~= Seq::<int>::empty());
    assert(ml_eval::<F>(rp, seq![r]) == ml_eval::<F>(f, Seq::<int>::empty()));
    assert(f[0] == ((1 - r) * rp[0] + r * rp[1]) % F::modulus());
}

proof fn lemma_line_ends<F: Field>(rp: Seq<int>)
    requires
        rp.len() == 2,
        in_field::<F>(rp),
    ensures
        ml_eval::<F>(rp, seq![0]) == rp[0],
        ml_eval::<F>(rp, seq![1]) == rp[1],
{
    lemma_line_eval::<F>(rp, 0);
    lemma_line_eval::<F>(rp, 1);
    lemma_small_mod(rp[0] as nat, F::modulus() as nat);
    lemma_small_mod(rp[1] as nat, F::modulus() as nat);
}

/// One honest round: its polynomial is consistent with the claim that the
/// table sums to its sum, and its value at `r` is the sum of the table left by
/// fixing the first variable to `r`.
proof fn lemma_honest_round<F: Field>(t: Seq<int>, k: nat, r: int)
    requires
        k > 0,
        t.len() == pow2(k),
        in_field::<F>(t),
    ensures
        round_poly::<F>(t).len() == 2,
        in_field::<F>(round_poly::<F>(t)),
        (ml_eval::<F>(round_poly::<F>(t), seq![0]) + ml_eval::<F>(round_poly::<F>(t), seq![1]))
            % F::modulus() == seq_sum(t) % F::modulus(),
        ml_eval::<F>(round_poly::<F>(t), seq![r]) == seq_sum(fix_first::<F>(t, r))
            % F::modulus(),
        fix_first::<F>(t, r).len() == pow2((k - 1) as nat),
        in_field::<F>(fix_first::<F>(t, r)),
{
    F::lemma_modulus();
    let m = F::modulus();
    lemma_pow2_unfold(k);
    lemma_pow2_pos((k - 1) as nat);
    let h = t.len() / 2;
    let rp = round_poly::<F>(t);
    let a = seq_sum(t.subrange(0, h as int));
    let b = seq_sum(t.subrange(h as int, t.len() as int));
    lemma_line_ends::<F>(rp);
    lemma_sum_split(t, h as int);
    lemma_add_mod_noop(a, b, m);
    lemma_line_eval::<F>(rp, r);
    lemma_mul_mod_noop_right(1 - r, a, m);
    lemma_mul_mod_noop_right(r, b, m);
    lemma_add_mod_noop((1 - r) * (a % m), r * (b % m), m);
    lemma_add_mod_noop((1 - r) * a, r * b, m);
    lemma_fix_first_prefix_sum::<F>(t, r, h as int);
    let f = fix_first::<F>(t, r);
    assert(f.subrange(0, h as int) =~= f);
    assert(t.subrange(h as int, (h + h) as int) =~= t.subrange(h as int, t.len() as int));
}

proof fn lemma_prover_rounds_len<F: Field>(t: Seq<int>, absorbed: Seq<u8>, k: nat)
    ensures
        prover_rounds::<F>(t, absorbed, k).len() == k,
    decreases k,
{
    if k > 0 {
        let rp = round_poly::<F>(t);
        let b = absorbed + encode_all::<F>(rp);
        lemma_prover_rounds_len::<F>(fix_first::<F>(t, challenge_of::<F>(b)), keccak256_of(b), (k - 1) as nat);
    }
}

/// Fixing the first variable of `t` to `r` keeps the link between the
/// original table and the challenges drawn so far.
proof fn lemma_extend_challenges<F: Field>(orig: Seq<int>, t: Seq<int>, k: nat, chs: Seq<int>, r: int)
    requires
        k > 0,
        forall|rest: Seq<int>|
            rest.len() == k ==> ml_eval::<F>(orig, chs + rest) == #[trigger] ml_eval::<F>(t, rest),
    ensures
        forall|rest: Seq<int>|
            rest.len() == k - 1 ==> ml_eval::<F>(orig, chs.push(r) + rest) == #[trigger] ml_eval::<F>(
                fix_first::<F>(t, r),
                rest,
            ),
{
    assert forall|rest: Seq<int>| rest.len() == k - 1 implies ml_eval::<F>(orig, chs.push(r) + rest)
        == #[trigger] ml_eval::<F>(fix_first::<F>(t, r), rest) by {
        let longer = seq![r] + rest;
        assert(chs + longer =~= chs.push(r) + rest);
        assert(longer.drop_first() =~= rest);
        assert(longer[0] == r);
        assert(ml_eval::<F>(orig, chs + longer) == ml_eval::<F>(t, longer));
    }
}

proof fn lemma_rounds_accepted<F: Field>(
    orig: Seq<int>,
    t: Seq<int>,
    k: nat,
    absorbed: Seq<u8>,
    chs: Seq<int>,
)
    requires
        t.len() == pow2(k),
        in_field::<F>(t),
        forall|rest: Seq<int>|
            rest.len() == k ==> ml_eval::<F>(orig, chs + rest) == #[trigger] ml_eval::<F>(t, rest),
    ensures
        rounds_accepted::<F>(
            orig,
            prover_rounds::<F>(t, absorbed, k),
            seq_sum(t) % F::modulus(),
            absorbed,
            chs,
        ),
    decreases k,
{
    F::lemma_modulus();
    if k == 0 {
        vstd::arithmetic::power2::lemma2_to64();
        assert(chs + Seq::<int>::empty() =~= chs);
        assert(ml_eval::<F>(t, Seq::<int>::empty()) == t[0]);
        assert(t.drop_last() =~= Seq::<int>::empty());
        assert(seq_sum(t) == t[0]);
        lemma_small_mod(t[0] as nat, F::modulus() as nat);
    } else {
        let rp = round_poly::<F>(t);
        let b = absorbed + encode_all::<F>(rp);
        let r = challenge_of::<F>(b);
        let next = fix_first::<F>(t, r);
        lemma_honest_round::<F>(t, k, r);
        lemma_extend_challenges::<F>(orig, t, k, chs, r);
        lemma_rounds_accepted::<F>(orig, next, (k - 1) as nat, keccak256_of(b), chs.push(r));
        let rounds = prover_rounds::<F>(t, absorbed, k);
        assert(rounds[0] == rp);
        assert(rounds.drop_first() =~= prover_rounds::<F>(next, keccak256_of(b), (k - 1) as nat));
    }
}

/// An honest proof is accepted: for every table of `2^n` field elements, the
/// round polynomials that the prover sends, with the table's sum as the
/// claim, pass a fresh verifier.
pub proof fn lemma_honest_proof_accepted<F: Field>(table: Seq<int>, n: nat)
    requires
        table.len() == pow2(n),
        in_field::<F>(table),
    ensures
        accepts::<F>(
            table,
            n,
            seq_sum(table) % F::modulus(),
            honest_rounds::<F>(table, n),
            Seq::empty(),
        ),
{
    let claimed = seq_sum(table) % F::modulus();
    let opening = crate::sumcheck::opening_bytes::<F>(table, claimed);
    assert(Seq::<u8>::empty() + opening =~= opening);
    assert forall|rest: Seq<int>| rest.len() == n implies ml_eval::<F>(
        table,
        Seq::<int>::empty() + rest,
    ) == #[trigger] ml_eval::<F>(table, rest) by {
        assert(Seq::<int>::empty() + rest =~= rest);
    }
    lemma_prover_rounds_len::<F>(table, opening, n);
    lemma_rounds_accepted::<F>(table, table, n, opening, Seq::empty());
}

proof fn lemma_shift_injective(a: int, a2: int, b: int, m: int)
    requires
        m > 0,
        0 <= a < m,
        0 <= a2 < m,
        (a + b) % m == (a2 + b) % m,
    ensures
        a == a2,
{
    lemma_mod_equivalence(a + b, a2 + b, m);
    lemma_mod_equivalence(a2 + b, a + b, m);
    assert((a + b) - (a2 + b) == a - a2);
    assert((a2 + b) - (a + b) == a2 - a);
    if a > a2 {
        lemma_small_mod((a - a2) as nat, m as nat);
    } else if a < a2 {
        lemma_small_mod((a2 - a) as nat, m as nat);
    }
}

proof fn lemma_altered_rounds_rejected<F: Field>(
    orig: Seq<int>,
    t: Seq<int>,
    k: nat,
    absorbed: Seq<u8>,
    chs: Seq<int>,
    i: int,
    j: int,
    v: int,
)
    requires
        t.len() == pow2(k),
        in_field::<F>(t),
        forall|rest: Seq<int>|
            rest.len() == k ==> ml_eval::<F>(orig, chs + rest) == #[trigger] ml_eval::<F>(t, rest),
        0 <= i < k,
        0 <= j < 2,
        0 <= v < F::modulus(),
        v != prover_rounds::<F>(t, absorbed, k)[i][j],
    ensures
        !rounds_accepted::<F>(
            orig,
            alter_round(prover_rounds::<F>(t, absorbed, k), i, j, v),
            seq_sum(t) % F::modulus(),
            absorbed,
            chs,
        ),
    decreases k,
{
    F::lemma_modulus();
    let m = F::modulus();
    let rp = round_poly::<F>(t);
    let b = absorbed + encode_all::<F>(rp);
    let r = challenge_of::<F>(b);
    let next = fix_first::<F>(t, r);
    let rounds = prover_rounds::<F>(t, absorbed, k);
    let tail = prover_rounds::<F>(next, keccak256_of(b), (k - 1) as nat);
    let altered = alter_round(rounds, i, j, v);
    lemma_honest_round::<F>(t, k, r);
    lemma_prover_rounds_len::<F>(t, absorbed, k);
    assert(rounds[0] == rp);
    assert(rounds.drop_first() =~= tail);
    if i == 0 {
        let rp2 = rp.update(j, v);
        assert(altered[0] == rp2);
        assert(in_field::<F>(rp2));
        lemma_line_ends::<F>(rp);
        lemma_line_ends::<F>(rp2);
        if j == 0 {
            if (rp2[0] + rp2[1]) % m == seq_sum(t) % m {
                lemma_shift_injective(v, rp[0], rp[1], m);
            }
        } else {
            if (rp2[0] + rp2[1]) % m == seq_sum(t) % m {
                assert(rp2[0] + rp2[1] == v + rp[0]);
                assert(rp[0] + rp[1] == rp[1] + rp[0]);
                lemma_shift_injective(v, rp[1], rp[0], m);
            }
        }
    } else {
        lemma_extend_challenges::<F>(orig, t, k, chs, r);
        assert(tail[i - 1] == rounds[i]);
        lemma_altered_rounds_rejected::<F>(
            orig,
            next,
            (k - 1) as nat,
            keccak256_of(b),
            chs.push(r),
            i - 1,
            j,
            v,
        );
        assert(altered[0] == rp);
        assert(altered.drop_first() =~= alter_round(tail, i - 1, j, v));
    }
}

/// Altering any one value of any one round polynomial of an honest proof, to
/// any other field element, makes a fresh verifier reject the proof.
pub proof fn lemma_altered_proof_rejected<F: Field>(
    table: Seq<int>,
    n: nat,
    i: int,
    j: int,
    v: int,
)
    requires
        table.len() == pow2(n),
        in_field::<F>(table),
        0 <= i < n,
        0 <= j < 2,
        0 <= v < F::modulus(),
        v != honest_rounds::<F>(table, n)[i][j],
    ensures
        !accepts::<F>(
            table,
            n,
            seq_sum(table) % F::modulus(),
            alter_round(honest_rounds::<F>(table, n), i, j, v),
            Seq::empty(),
        ),
{
    let claimed = seq_sum(table) % F::modulus();
    let opening = crate::sumcheck::opening_bytes::<F>(table, claimed);
    assert(Seq::<u8>::empty() + opening =~= opening);
    assert forall|rest: Seq<int>| rest.len() == n implies ml_eval::<F>(
        table,
        Seq::<int>::empty() + rest,
    ) == #[trigger] ml_eval::<F>(table, rest) by {
        assert(Seq::<int>::empty() + rest =~= rest);
    }
    lemma_altered_rounds_rejected::<F>(table, table, n, opening, Seq::empty(), i, j, v);
}

/// Proving is deterministic: provers started on equal tables send equal
/// round polynomials, hence byte-identical proofs.
pub proof fn lemma_proving_deterministic<F: Field>(t1: Seq<int>, t2: Seq<int>, n: nat)
    requires
        t1 == t2,
    ensures
        honest_rounds::<F>(t1, n) == honest_rounds::<F>(t2, n),
        encode_all::<F>(t1) == encode_all::<F>(t2),
{
}

} // verus!
