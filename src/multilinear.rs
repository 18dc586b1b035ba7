//! Multilinear polynomials held as their evaluation tables over the boolean
//! hypercube `{0,1}^n`. Entry `j` of a table is the value at the point whose
//! coordinates are the bits of `j`, the first variable being the most
//! significant bit.
use vstd::arithmetic::div_mod::{lemma_add_mod_noop, lemma_mul_mod_noop_left, lemma_small_mod};
use vstd::arithmetic::power2::{is_pow2, lemma_pow2_adds, lemma_pow2_pos, lemma_pow2_unfold, pow2};
use vstd::prelude::*;
use crate::error::SumcheckError;
use crate::field::{lemma_values_push, values, Field};
use crate::transcript::{encode_all, fq_vec_to_bytes};

verus! {

/// The plain integer sum of `s`.
pub open spec fn seq_sum(s: Seq<int>) -> int
    decreases s.len(),
{
    if s.len() == 0 {
        0
    } else {
        seq_sum(s.drop_last()) + s.last()
    }
}

/// The table that fixing a variable to `r` leaves, where `stride` is the
/// distance between the entries at which that variable is 0 and 1: entry `k`
/// is `(1 - r) * t[j] + r * t[j + stride]`, `j` being the `k`-th index whose
/// bit of weight `stride` is clear.
pub open spec fn fix_var<F: Field>(t: Seq<int>, stride: int, r: int) -> Seq<int> {
    Seq::new(
        (t.len() / 2) as nat,
        |k: int|
            ((1 - r) * t[(k / stride) * (2 * stride) + k % stride] + r * t[(k / stride) * (2
                * stride) + k % stride + stride]) % F::modulus(),
    )
}

/// The table that fixing the first variable to `r` leaves.
pub open spec fn fix_first<F: Field>(t: Seq<int>, r: int) -> Seq<int> {
    Seq::new(
        (t.len() / 2) as nat,
        |k: int| ((1 - r) * t[k] + r * t[k + t.len() / 2]) % F::modulus(),
    )
}

/// The value of the multilinear polynomial with table `t` at `point`, the
/// coordinates fixed one by one from the first.
pub open spec fn ml_eval<F: Field>(t: Seq<int>, point: Seq<int>) -> int
    decreases point.len(),
{
    if point.len() == 0 {
        t[0]
    } else {
        ml_eval::<F>(fix_first::<F>(t, point[0]), point.drop_first())
    }
}

/// A multilinear polynomial in `num_of_vars` variables, held as its table of
/// `2^num_of_vars` evaluations.
#[derive(Debug, PartialEq)]
pub struct MultilinearPoly<F: Field> {
    evaluation: Vec<F>,
    num_of_vars: usize,
}

impl<F: Field> View for MultilinearPoly<F> {
    type V = Seq<int>;

    closed spec fn view(&self) -> Seq<int> {
        values(self.evaluation@)
    }
}

proof fn lemma_index_bound(k: int, stride: int, blocks: int)
    requires
        0 <= k < blocks * stride,
        stride > 0,
        blocks > 0,
    ensures
        0 <= k / stride < blocks,
        0 <= k % stride < stride,
        (k / stride) * (2 * stride) + k % stride + stride < 2 * (blocks * stride),
        2 * stride <= 2 * (blocks * stride),
{
    let q = k / stride;
    let m = k % stride;
    assert(k == q * stride + m) by (nonlinear_arith)
        requires
            q == k / stride,
            m == k % stride,
            stride > 0,
    ;
    assert(0 <= m < stride) by (nonlinear_arith)
        requires
            m == k % stride,
            stride > 0,
    ;
    assert(0 <= q < blocks) by (nonlinear_arith)
        requires
            k == q * stride + m,
            0 <= m < stride,
            0 <= k < blocks * stride,
            stride > 0,
    ;
    assert(q * (2 * stride) + m + stride < 2 * (blocks * stride)) by (nonlinear_arith)
        requires
            0 <= q < blocks,
            0 <= m < stride,
            stride > 0,
    ;
    assert(2 * stride <= 2 * (blocks * stride)) by (nonlinear_arith)
        requires
            blocks > 0,
            stride > 0,
    ;
}

proof fn lemma_exponent_below_power(n: nat)
    ensures
        n < pow2(n),
    decreases n,
{
    if n == 0 {
        vstd::arithmetic::power2::lemma2_to64();
    } else {
        lemma_exponent_below_power((n - 1) as nat);
        lemma_pow2_unfold(n);
        lemma_pow2_pos((n - 1) as nat);
    }
}

/// `fix_var` at the widest stride fixes the first variable.
proof fn lemma_fix_var_first<F: Field>(t: Seq<int>, r: int)
    requires
        t.len() / 2 > 0,
    ensures
        fix_var::<F>(t, (t.len() / 2) as int, r) == fix_first::<F>(t, r),
{
    let h = (t.len() / 2) as int;
    assert forall|k: int| 0 <= k < h implies #[trigger] (k / h) == 0 && k % h == k by {
        lemma_small_mod(k as nat, h as nat);
        vstd::arithmetic::div_mod::lemma_basic_div(k, h);
    }
    assert(fix_var::<F>(t, h, r) =~= fix_first::<F>(t, r));
}

/// `(1 - r) * a + r * b`, computed in the field.
fn blend<F: Field>(one_minus_r: &F, r: &F, a: &F, b: &F) -> (e: F)
    requires
        one_minus_r.value() == (1 - r.value()) % F::modulus(),
    ensures
        e.value() == ((1 - r.value()) * a.value() + r.value() * b.value()) % F::modulus(),
{
    let x = one_minus_r.mul(a);
    let y = r.mul(b);
    let e = x.add(&y);
    proof {
        let m = F::modulus();
        F::lemma_modulus();
        lemma_mul_mod_noop_left(1 - r.value(), a.value(), m);
        lemma_add_mod_noop((1 - r.value()) * a.value(), r.value() * b.value(), m);
        vstd::arithmetic::div_mod::lemma_mod_twice((1 - r.value()) * a.value(), m);
        vstd::arithmetic::div_mod::lemma_mod_twice(r.value() * b.value(), m);
    }
    e
}

/// The sum of the entries `lo..hi` of `vals`, in the field.
pub(crate) fn sum_range<F: Field>(vals: &Vec<F>, lo: usize, hi: usize) -> (r: F)
    requires
        lo <= hi <= vals@.len(),
    ensures
        r.value() == seq_sum(values(vals@).subrange(lo as int, hi as int)) % F::modulus(),
{
    let ghost s = values(vals@);
    let mut acc = F::zero();
    let mut i = lo;
    proof {
        F::lemma_modulus();
        assert(s.subrange(lo as int, lo as int) =~= Seq::<int>::empty());
        assert(seq_sum(Seq::<int>::empty()) == 0);
        lemma_small_mod(0, F::modulus() as nat);
    }
    while i < hi
        invariant
            lo <= i <= hi <= vals@.len(),
            s == values(vals@),
            F::modulus() > 1,
            acc.value() == seq_sum(s.subrange(lo as int, i as int)) % F::modulus(),
        decreases hi - i,
    {
        let next = acc.add(&vals[i]);
        proof {
            let m = F::modulus();
            let before = s.subrange(lo as int, i as int);
            F::lemma_value_range(&vals@[i as int]);
            assert(s.subrange(lo as int, i + 1).drop_last() =~= before);
            lemma_small_mod(s[i as int] as nat, m as nat);
            lemma_add_mod_noop(seq_sum(before), s[i as int], m);
            vstd::arithmetic::div_mod::lemma_mod_twice(seq_sum(before), m);
        }
        acc = next;
        i = i + 1;
    }
    acc
}

impl<F: Field> MultilinearPoly<F> {
    #[verifier::type_invariant]
    spec fn well_formed(&self) -> bool {
        self.evaluation@.len() == pow2(self.num_of_vars as nat)
    }

    /// The number of variables.
    pub closed spec fn num_vars(&self) -> nat {
        self.num_of_vars as nat
    }

    /// Builds the polynomial with table `evaluation`; fails with
    /// `InvalidInput` exactly when its length is not a power of two.
    pub fn new(evaluation: Vec<F>) -> (r: Result<Self, SumcheckError>)
        ensures
            r is Ok <==> is_pow2(evaluation@.len() as int),
            r is Err ==> r == Err::<Self, SumcheckError>(SumcheckError::InvalidInput),
            r matches Ok(p) ==> p@ == values(evaluation@) && pow2(p.num_vars())
                == evaluation@.len(),
    {
        let len = evaluation.len();
        let mut rest = len;
        let mut n: usize = 0;
        proof {
            reveal(is_pow2);
            assert(pow2(0) == 1) by {
                vstd::arithmetic::power2::lemma2_to64();
            }
        }
        while rest > 1 && rest % 2 == 0
            invariant
                len == evaluation@.len(),
                len == rest * pow2(n as nat),
                n <= len,
                is_pow2(len as int) <==> is_pow2(rest as int),
            decreases rest,
        {
            proof {
                reveal(is_pow2);
                lemma_pow2_unfold((n + 1) as nat);
                lemma_pow2_pos(n as nat);
                lemma_exponent_below_power(n as nat);
                assert(len == (rest / 2) * pow2((n + 1) as nat)) by (nonlinear_arith)
                    requires
                        len == rest * pow2(n as nat),
                        rest % 2 == 0,
                        pow2((n + 1) as nat) == 2 * pow2(n as nat),
                ;
                assert(n + 1 <= len) by (nonlinear_arith)
                    requires
                        len == (rest / 2) * pow2((n + 1) as nat),
                        rest > 1,
                        n < pow2(n as nat),
                        pow2((n + 1) as nat) == 2 * pow2(n as nat),
                {
                }
            }
            rest = rest / 2;
            n = n + 1;
        }
        proof {
            reveal(is_pow2);
        }
        if rest == 1 {
            assert(len == pow2(n as nat)) by (nonlinear_arith)
                requires
                    len == rest * pow2(n as nat),
                    rest == 1,
            ;
            Ok(MultilinearPoly { evaluation, num_of_vars: n })
        } else {
            Err(SumcheckError::InvalidInput)
        }
    }

    /// The polynomial in one variable that takes `at_zero` at 0 and `at_one`
    /// at 1.
    pub fn linear(at_zero: F, at_one: F) -> (r: Self)
        ensures
            r@ == seq![at_zero.value(), at_one.value()],
            r.num_vars() == 1,
    {
        let mut table: Vec<F> = Vec::new();
        table.push(at_zero);
        table.push(at_one);
        proof {
            vstd::arithmetic::power2::lemma2_to64();
            lemma_values_push(Seq::empty(), at_zero);
            lemma_values_push(seq![at_zero], at_one);
            assert(table@ =~= seq![at_zero].push(at_one));
            assert(Seq::<F>::empty().push(at_zero) =~= seq![at_zero]);
            assert(values(Seq::<F>::empty()) =~= Seq::<int>::empty());
        }
        MultilinearPoly { evaluation: table, num_of_vars: 1 }
    }

    pub fn number_of_variables(&self) -> (r: usize)
        ensures
            r == self.num_vars(),
            self@.len() == pow2(self.num_vars()),
    {
        proof {
            use_type_invariant(self);
        }
        self.num_of_vars
    }

    /// The evaluation table.
    pub fn evaluation(&self) -> (r: &Vec<F>)
        ensures
            values(r@) == self@,
            r@.len() == pow2(self.num_vars()),
    {
        proof {
            use_type_invariant(self);
        }
        &self.evaluation
    }

    /// A copy with a table of its own.
    pub fn duplicate(&self) -> (r: Self)
        ensures
            r@ == self@,
            r.num_vars() == self.num_vars(),
    {
        proof {
            use_type_invariant(self);
        }
        let mut table: Vec<F> = Vec::new();
        let mut i: usize = 0;
        while i < self.evaluation.len()
            invariant
                i <= self.evaluation@.len(),
                table@ == self.evaluation@.subrange(0, i as int),
            decreases self.evaluation@.len() - i,
        {
            table.push(self.evaluation[i]);
            i = i + 1;
            proof {
                assert(table@ =~= self.evaluation@.subrange(0, i as int));
            }
        }
        proof {
            assert(table@ =~= self.evaluation@);
        }
        MultilinearPoly { evaluation: table, num_of_vars: self.num_of_vars }
    }

    /// The sum of the polynomial over the whole hypercube: the sum of its table.
    pub fn sum_over_hypercube(&self) -> (r: F)
        ensures
            r.value() == seq_sum(self@) % F::modulus(),
    {
        let r = sum_range(&self.evaluation, 0, self.evaluation.len());
        proof {
            assert(self@.subrange(0, self@.len() as int) =~= self@);
        }
        r
    }

    /// The table's entries encoded one after another, in table order.
    pub fn convert_to_bytes(&self) -> (r: Vec<u8>)
        ensures
            r@ == encode_all::<F>(self@),
    {
        fq_vec_to_bytes(self.evaluation.as_slice())
    }

    /// The value at `point`, which needs one coordinate per variable; fails
    /// with `InvalidInput` otherwise.
    pub fn evaluate(&self, point: &[F]) -> (r: Result<F, SumcheckError>)
        ensures
            r is Err <==> point@.len() != self.num_vars(),
            r is Err ==> r == Err::<F, SumcheckError>(SumcheckError::InvalidInput),
            r matches Ok(v) ==> v.value() == ml_eval::<F>(self@, values(point@)),
    {
        if point.len() != self.num_of_vars {
            return Err(SumcheckError::InvalidInput);
        }
        let ghost pts = values(point@);
        let mut cur = self.duplicate();
        let mut i: usize = 0;
        proof {
            assert(pts.skip(0) =~= pts);
        }
        while i < point.len()
            invariant
                i <= point@.len() == self.num_vars(),
                pts == values(point@),
                cur.num_vars() == self.num_vars() - i,
                ml_eval::<F>(self@, pts) == ml_eval::<F>(cur@, pts.skip(i as int)),
            decreases point@.len() - i,
        {
            let next = cur.partial_evaluate(0, &point[i]);
            proof {
                assert(pts.skip(i as int).drop_first() =~= pts.skip(i + 1));
            }
            cur = next;
            i = i + 1;
        }
        proof {
            use_type_invariant(&cur);
            vstd::arithmetic::power2::lemma2_to64();
        }
        Ok(cur.evaluation[0])
    }

    /// Fixes variable `var_index` (0 is the first) to `value`, giving a new
    /// polynomial in one variable fewer; `self` is left as it was.
    pub fn partial_evaluate(&self, var_index: usize, value: &F) -> (r: Self)
        requires
            var_index < self.num_vars(),
        ensures
            r.num_vars() == self.num_vars() - 1,
            r@ == fix_var::<F>(
                self@,
                pow2((self.num_vars() - 1 - var_index) as nat) as int,
                value.value(),
            ),
            var_index == 0 ==> r@ == fix_first::<F>(self@, value.value()),
    {
        proof {
            use_type_invariant(self);
        }
        let n = self.num_of_vars;
        let len = self.evaluation.len();
        let half = len / 2;
        let ghost t = self@;
        proof {
            lemma_pow2_unfold(n as nat);
            lemma_pow2_adds(var_index as nat, (n - 1 - var_index) as nat);
            lemma_pow2_pos(var_index as nat);
            lemma_pow2_pos((n - 1 - var_index) as nat);
            assert(half == pow2((n - 1) as nat));
        }
        let mut stride = half;
        let mut j: usize = 0;
        while j < var_index
            invariant
                j <= var_index < n,
                stride == pow2((n - 1 - j) as nat),
            decreases var_index - j,
        {
            proof {
                lemma_pow2_unfold((n - 1 - j) as nat);
            }
            stride = stride / 2;
            j = j + 1;
        }
        let ghost blocks = pow2(var_index as nat) as int;
        let one = F::one();
        let one_minus = one.sub(value);
        let mut out: Vec<F> = Vec::new();
        let mut k: usize = 0;
        while k < half
            invariant
                half == len / 2,
                len == 2 * half,
                len == self.evaluation@.len(),
                t == self@,
                t.len() == len,
                half == blocks * stride,
                stride > 0,
                blocks > 0,
                one_minus.value() == (1 - value.value()) % F::modulus(),
                k <= half,
                out@.len() == k,
                forall|q: int|
                    0 <= q < k ==> #[trigger] values(out@)[q] == fix_var::<F>(
                        t,
                        stride as int,
                        value.value(),
                    )[q],
            decreases half - k,
        {
            proof {
                lemma_index_bound(k as int, stride as int, blocks);
            }
            let hi = k / stride;
            let lo = k % stride;
            let j0 = hi * (2 * stride) + lo;
            let j1 = j0 + stride;
            let e = blend(&one_minus, value, &self.evaluation[j0], &self.evaluation[j1]);
            let ghost before = out@;
            out.push(e);
            proof {
                assert forall|q: int| 0 <= q < k + 1 implies #[trigger] values(out@)[q]
                    == fix_var::<F>(t, stride as int, value.value())[q] by {
                    if q < k {
                        assert(values(out@)[q] == values(before)[q]);
                    } else {
                        assert(values(out@)[q] == e.value());
                    }
                }
            }
            k = k + 1;
        }
        let r = MultilinearPoly { evaluation: out, num_of_vars: n - 1 };
        proof {
            assert(values(out@) =~= fix_var::<F>(t, stride as int, value.value()));
            if var_index == 0 {
                lemma_fix_var_first::<F>(t, value.value());
            }
        }
        r
    }
}

} // verus!
