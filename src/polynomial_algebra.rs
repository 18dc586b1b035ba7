//! Facts about evaluating polynomials given by their coefficients: the value
//! of a sum, a scaled polynomial, and a product.
use vstd::arithmetic::div_mod::{lemma_add_mod_noop, lemma_mul_mod_noop_left};
use vstd::arithmetic::power::{lemma_pow_adds, pow};
use vstd::prelude::*;

verus! {

/// Coefficient `k` of `cs`, zero outside its range.
pub open spec fn coeff(cs: Seq<int>, k: int) -> int {
    if 0 <= k < cs.len() {
        cs[k]
    } else {
        0
    }
}

/// The sum of `c(k) * x^k` over `0 <= k < n`.
pub open spec fn eval_terms(c: spec_fn(int) -> int, x: int, n: int) -> int
    decreases n,
{
    if n <= 0 {
        0
    } else {
        eval_terms(c, x, n - 1) + c(n - 1) * pow(x, (n - 1) as nat)
    }
}

/// The value at `x` of the polynomial with coefficients `cs`, lowest degree
/// first: the sum of `cs[i] * x^i`.
pub open spec fn poly_eval(cs: Seq<int>, x: int) -> int {
    eval_terms(|k: int| coeff(cs, k), x, cs.len() as int)
}

/// The sum of `a[i] * b[k - i]` over `0 <= i < n`: coefficient `k` of the
/// product of the first `n` terms of `a` with `b`.
pub open spec fn conv_partial(a: Seq<int>, b: Seq<int>, k: int, n: int) -> int
    decreases n,
{
    if n <= 0 {
        0
    } else {
        conv_partial(a, b, k, n - 1) + coeff(a, n - 1) * coeff(b, k - (n - 1))
    }
}

/// Coefficient `k` of the product of the polynomials `a` and `b`.
pub open spec fn conv(a: Seq<int>, b: Seq<int>, k: int) -> int {
    conv_partial(a, b, k, a.len() as int)
}

/// Terms whose coefficients vanish add nothing.
pub proof fn lemma_eval_zero_tail(c: spec_fn(int) -> int, x: int, n: int, n2: int)
    requires
        0 <= n <= n2,
        forall|k: int| n <= k < n2 ==> #[trigger] c(k) == 0,
    ensures
        eval_terms(c, x, n2) == eval_terms(c, x, n),
    decreases n2,
{
    if n2 > n {
        lemma_eval_zero_tail(c, x, n, n2 - 1);
    }
}

/// Evaluation is linear in the coefficients.
pub proof fn lemma_eval_linear(
    u: spec_fn(int) -> int,
    s: spec_fn(int) -> int,
    t: spec_fn(int) -> int,
    a: int,
    b: int,
    x: int,
    n: int,
)
    requires
        forall|k: int| 0 <= k < n ==> #[trigger] u(k) == a * s(k) + b * t(k),
    ensures
        eval_terms(u, x, n) == a * eval_terms(s, x, n) + b * eval_terms(t, x, n),
    decreases n,
{
    if n > 0 {
        lemma_eval_linear(u, s, t, a, b, x, n - 1);
        let p = pow(x, (n - 1) as nat);
        let (es, et, sk, tk) = (eval_terms(s, x, n - 1), eval_terms(t, x, n - 1), s(n - 1), t(n - 1));
        assert(a * es + b * et + (a * sk + b * tk) * p == a * (es + sk * p) + b * (et + tk * p))
            by (nonlinear_arith);
    }
}

/// Shifting the coefficients up by `d` multiplies the value by `x^d`.
pub proof fn lemma_eval_shift(u: spec_fn(int) -> int, s: spec_fn(int) -> int, d: int, x: int, n: int)
    requires
        d >= 0,
        forall|k: int| 0 <= k < n ==> #[trigger] u(k) == if k >= d {
            s(k - d)
        } else {
            0
        },
    ensures
        eval_terms(u, x, n) == pow(x, d as nat) * eval_terms(s, x, n - d),
    decreases n,
{
    if n <= 0 {
    } else if n <= d {
        lemma_eval_shift(u, s, d, x, n - 1);
    } else {
        lemma_eval_shift(u, s, d, x, n - 1);
        lemma_pow_adds(x, d as nat, (n - 1 - d) as nat);
        let (pd, e, q) = (pow(x, d as nat), eval_terms(s, x, n - 1 - d), pow(x, (n - 1 - d) as nat));
        let c = s(n - 1 - d);
        assert(pd * e + c * (pd * q) == pd * (e + c * q)) by (nonlinear_arith);
    }
}

/// Coefficients equal modulo `m` give values equal modulo `m`.
pub proof fn lemma_eval_mod(u: spec_fn(int) -> int, s: spec_fn(int) -> int, x: int, n: int, m: int)
    requires
        m > 0,
        forall|k: int| 0 <= k < n ==> #[trigger] u(k) % m == s(k) % m,
    ensures
        eval_terms(u, x, n) % m == eval_terms(s, x, n) % m,
    decreases n,
{
    if n > 0 {
        lemma_eval_mod(u, s, x, n - 1, m);
        let p = pow(x, (n - 1) as nat);
        lemma_mul_mod_noop_left(u(n - 1), p, m);
        lemma_mul_mod_noop_left(s(n - 1), p, m);
        lemma_add_mod_noop(eval_terms(u, x, n - 1), u(n - 1) * p, m);
        lemma_add_mod_noop(eval_terms(s, x, n - 1), s(n - 1) * p, m);
    }
}

proof fn lemma_eval_conv_prefix(a: Seq<int>, b: Seq<int>, x: int, i: int, n: int)
    requires
        0 <= i <= a.len(),
        n >= i + b.len() - 1,
        n >= 0,
    ensures
        eval_terms(|k: int| conv_partial(a, b, k, i), x, n) == eval_terms(
            |k: int| coeff(a, k),
            x,
            i,
        ) * poly_eval(b, x),
    decreases i,
{
    let u = |k: int| conv_partial(a, b, k, i);
    let cb = |k: int| coeff(b, k);
    if i == 0 {
        lemma_eval_linear(u, cb, cb, 0, 0, x, n);
    } else {
        let prev = |k: int| conv_partial(a, b, k, i - 1);
        let g = |k: int| coeff(b, k - (i - 1));
        let alpha = coeff(a, i - 1);
        lemma_eval_conv_prefix(a, b, x, i - 1, n);
        lemma_eval_linear(u, prev, g, 1, alpha, x, n);
        assert forall|k: int| 0 <= k < n implies #[trigger] g(k) == if k >= i - 1 {
            cb(k - (i - 1))
        } else {
            0
        } by {}
        lemma_eval_shift(g, cb, i - 1, x, n);
        lemma_eval_zero_tail(cb, x, b.len() as int, n - (i - 1));
        let (ea, bb, p) = (eval_terms(|k: int| coeff(a, k), x, i - 1), poly_eval(b, x), pow(x, (i - 1) as nat));
        assert(ea * bb + alpha * (p * bb) == (ea + alpha * p) * bb) by (nonlinear_arith);
    }
}

/// The value of a product is the product of the values.
pub proof fn lemma_eval_product(a: Seq<int>, b: Seq<int>, x: int)
    requires
        a.len() + b.len() >= 1,
    ensures
        eval_terms(|k: int| conv(a, b, k), x, a.len() + b.len() - 1) == poly_eval(a, x)
            * poly_eval(b, x),
{
    lemma_eval_conv_prefix(a, b, x, a.len() as int, a.len() + b.len() - 1);
    assert forall|k: int| #[trigger] conv(a, b, k) == conv_partial(a, b, k, a.len() as int) by {}
    lemma_eval_linear(
        |k: int| conv(a, b, k),
        |k: int| conv_partial(a, b, k, a.len() as int),
        |k: int| conv_partial(a, b, k, a.len() as int),
        1,
        0,
        x,
        a.len() + b.len() - 1,
    );
}

} // verus!
