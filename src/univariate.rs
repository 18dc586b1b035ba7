//! Dense univariate polynomials over a field: coefficient vectors, lowest
//! degree first.
use vstd::arithmetic::div_mod::{
    lemma_add_mod_noop,
    lemma_mod_equivalence,
    lemma_mod_twice,
    lemma_mul_mod_noop,
    lemma_mul_mod_noop_left,
    lemma_mul_mod_noop_right,
    lemma_small_mod,
};
use vstd::prelude::*;
use crate::error::SumcheckError;
use crate::field::{lemma_values_push, values, Field};
use crate::polynomial_algebra::{
    coeff,
    conv,
    conv_partial,
    eval_terms,
    lemma_eval_linear,
    lemma_eval_mod,
    lemma_eval_product,
    lemma_eval_zero_tail,
    poly_eval,
};

verus! {

/// A polynomial given by its coefficients: `coefficients[i]` is that of `x^i`.
#[derive(Debug)]
pub struct DenseUnivariatePoly<F: Field> {
    pub coefficients: Vec<F>,
}

impl<F: Field> View for DenseUnivariatePoly<F> {
    type V = Seq<int>;

    open spec fn view(&self) -> Seq<int> {
        values(self.coefficients@)
    }
}

/// `(a + b) mod p`, coefficient by coefficient, the shorter one read as zero
/// past its end.
pub open spec fn sum_coeffs<F: Field>(a: Seq<int>, b: Seq<int>) -> Seq<int> {
    Seq::new(
        if a.len() >= b.len() {
            a.len()
        } else {
            b.len()
        },
        |k: int| (coeff(a, k) + coeff(b, k)) % F::modulus(),
    )
}

/// Each coefficient of `a` times `s`, modulo `p`.
pub open spec fn scaled_coeffs<F: Field>(s: int, a: Seq<int>) -> Seq<int> {
    Seq::new(a.len(), |k: int| (a[k] * s) % F::modulus())
}

/// The coefficients of the product of `a` and `b`, modulo `p`.
pub open spec fn product_coeffs<F: Field>(a: Seq<int>, b: Seq<int>) -> Seq<int> {
    Seq::new((a.len() + b.len() - 1) as nat, |k: int| conv(a, b, k) % F::modulus())
}

impl<F: Field> DenseUnivariatePoly<F> {
    pub fn new(coeffs: Vec<F>) -> (r: Self)
        ensures
            r@ == values(coeffs@),
    {
        DenseUnivariatePoly { coefficients: coeffs }
    }

    /// The number of coefficients less one.
    pub fn degree(&self) -> (r: u32)
        requires
            1 <= self.coefficients@.len() <= u32::MAX as int + 1,
        ensures
            r == self.coefficients@.len() - 1,
    {
        (self.coefficients.len() - 1) as u32
    }

    /// The sum of `c_i * value^i`.
    pub fn evaluate(&self, value: F) -> (r: F)
        ensures
            r.value() == poly_eval(self@, value.value()) % F::modulus(),
    {
        let ghost cs = self@;
        let ghost x = value.value();
        let ghost c = |k: int| coeff(cs, k);
        let mut result = F::zero();
        let mut i: usize = 0;
        proof {
            F::lemma_modulus();
            lemma_small_mod(0, F::modulus() as nat);
        }
        while i < self.coefficients.len()
            invariant
                cs == self@,
                c == (|k: int| coeff(cs, k)),
                x == value.value(),
                F::modulus() > 1,
                i <= self.coefficients@.len(),
                result.value() == eval_terms(c, x, i as int) % F::modulus(),
            decreases self.coefficients@.len() - i,
        {
            let power = value.pow(i as u64);
            let term = self.coefficients[i].mul(&power);
            let next = result.add(&term);
            proof {
                let m = F::modulus();
                let p = vstd::arithmetic::power::pow(x, i as nat);
                let ci = cs[i as int];
                assert(c(i as int) == ci);
                lemma_mul_mod_noop_right(ci, p, m);
                lemma_add_mod_noop(eval_terms(c, x, i as int), ci * p, m);
                lemma_mod_twice(eval_terms(c, x, i as int), m);
                lemma_mod_twice(ci * p, m);
            }
            result = next;
            i = i + 1;
        }
        result
    }
}

/// Every coefficient of `poly` times `scalar`.
pub fn scalar_mul<F: Field>(scalar: F, poly: Vec<F>) -> (r: Vec<F>)
    ensures
        values(r@) == scaled_coeffs::<F>(scalar.value(), values(poly@)),
{
    let mut out: Vec<F> = Vec::new();
    let mut i: usize = 0;
    while i < poly.len()
        invariant
            i <= poly@.len(),
            values(out@) == scaled_coeffs::<F>(scalar.value(), values(poly@)).subrange(0, i as int),
        decreases poly@.len() - i,
    {
        let e = poly[i].mul(&scalar);
        let ghost before = out@;
        out.push(e);
        proof {
            lemma_values_push(before, e);
            let whole = scaled_coeffs::<F>(scalar.value(), values(poly@));
            assert(whole.subrange(0, i + 1) =~= whole.subrange(0, i as int).push(whole[i as int]));
        }
        i = i + 1;
    }
    proof {
        assert(values(out@) =~= scaled_coeffs::<F>(scalar.value(), values(poly@)));
    }
    out
}

/// The coefficients of the product: `left.len() + right.len() - 1` of them.
pub fn multiply_polynomials<F: Field>(left: Vec<F>, right: Vec<F>) -> (r: Vec<F>)
    requires
        1 <= left@.len() + right@.len() <= usize::MAX,
    ensures
        values(r@) == product_coeffs::<F>(values(left@), values(right@)),
{
    let ghost a = values(left@);
    let ghost b = values(right@);
    let out_len = left.len() + right.len() - 1;
    let mut product: Vec<F> = Vec::new();
    let mut k: usize = 0;
    proof {
        F::lemma_modulus();
        lemma_small_mod(0, F::modulus() as nat);
    }
    while k < out_len
        invariant
            a == values(left@),
            b == values(right@),
            out_len == a.len() + b.len() - 1,
            F::modulus() > 1,
            k <= out_len,
            values(product@) == product_coeffs::<F>(a, b).subrange(0, k as int),
        decreases out_len - k,
    {
        let mut acc = F::zero();
        let mut i: usize = 0;
        proof {
            lemma_small_mod(0, F::modulus() as nat);
        }
        while i < left.len()
            invariant
                a == values(left@),
                b == values(right@),
                F::modulus() > 1,
                k < out_len,
                i <= left@.len(),
                acc.value() == conv_partial(a, b, k as int, i as int) % F::modulus(),
            decreases left@.len() - i,
        {
            let ghost before = conv_partial(a, b, k as int, i as int);
            if i <= k && k - i < right.len() {
                let term = left[i].mul(&right[k - i]);
                let next = acc.add(&term);
                proof {
                    let m = F::modulus();
                    let t = a[i as int] * b[k - i];
                    lemma_add_mod_noop(before, t, m);
                    lemma_mod_twice(before, m);
                    lemma_mod_twice(t, m);
                }
                acc = next;
            }
            i = i + 1;
        }
        let ghost before = product@;
        product.push(acc);
        proof {
            lemma_values_push(before, acc);
            let whole = product_coeffs::<F>(a, b);
            assert(whole.subrange(0, k + 1) =~= whole.subrange(0, k as int).push(whole[k as int]));
        }
        k = k + 1;
    }
    proof {
        assert(values(product@) =~= product_coeffs::<F>(a, b));
    }
    product
}

/// The coefficients of the sum, as many as the longer operand has.
pub fn add_polynomials<F: Field>(left: Vec<F>, right: Vec<F>) -> (r: Vec<F>)
    ensures
        values(r@) == sum_coeffs::<F>(values(left@), values(right@)),
{
    let ghost a = values(left@);
    let ghost b = values(right@);
    let n = if left.len() >= right.len() {
        left.len()
    } else {
        right.len()
    };
    let zero = F::zero();
    let mut out: Vec<F> = Vec::new();
    let mut k: usize = 0;
    while k < n
        invariant
            a == values(left@),
            b == values(right@),
            n == sum_coeffs::<F>(a, b).len(),
            zero.value() == 0,
            k <= n,
            values(out@) == sum_coeffs::<F>(a, b).subrange(0, k as int),
        decreases n - k,
    {
        let x = if k < left.len() {
            left[k]
        } else {
            zero
        };
        let y = if k < right.len() {
            right[k]
        } else {
            zero
        };
        let e = x.add(&y);
        let ghost before = out@;
        out.push(e);
        proof {
            lemma_values_push(before, e);
            let whole = sum_coeffs::<F>(a, b);
            assert(whole.subrange(0, k + 1) =~= whole.subrange(0, k as int).push(whole[k as int]));
        }
        k = k + 1;
    }
    proof {
        assert(values(out@) =~= sum_coeffs::<F>(a, b));
    }
    out
}

/// The value of a sum is the sum of the values.
pub proof fn lemma_eval_sum<F: Field>(a: Seq<int>, b: Seq<int>, x: int)
    ensures
        poly_eval(sum_coeffs::<F>(a, b), x) % F::modulus() == (poly_eval(a, x) + poly_eval(b, x))
            % F::modulus(),
{
    F::lemma_modulus();
    let m = F::modulus();
    let r = sum_coeffs::<F>(a, b);
    let n = r.len() as int;
    let (ca, cb, cr) = (|k: int| coeff(a, k), |k: int| coeff(b, k), |k: int| coeff(r, k));
    let plain = |k: int| coeff(a, k) + coeff(b, k);
    assert forall|k: int| 0 <= k < n implies #[trigger] cr(k) % m == plain(k) % m by {
        lemma_mod_twice(plain(k), m);
    }
    lemma_eval_mod(cr, plain, x, n, m);
    lemma_eval_linear(plain, ca, cb, 1, 1, x, n);
    lemma_eval_zero_tail(ca, x, a.len() as int, n);
    lemma_eval_zero_tail(cb, x, b.len() as int, n);
}

/// The value of a scaled polynomial is the scaled value.
pub proof fn lemma_eval_scaled<F: Field>(s: int, a: Seq<int>, x: int)
    ensures
        poly_eval(scaled_coeffs::<F>(s, a), x) % F::modulus() == (s * poly_eval(a, x))
            % F::modulus(),
{
    F::lemma_modulus();
    let m = F::modulus();
    let r = scaled_coeffs::<F>(s, a);
    let n = a.len() as int;
    let (ca, cr) = (|k: int| coeff(a, k), |k: int| coeff(r, k));
    let plain = |k: int| s * coeff(a, k);
    assert forall|k: int| 0 <= k < n implies #[trigger] cr(k) % m == plain(k) % m by {
        lemma_mod_twice(a[k] * s, m);
        assert(a[k] * s == s * a[k]) by (nonlinear_arith);
    }
    lemma_eval_mod(cr, plain, x, n, m);
    lemma_eval_linear(plain, ca, ca, s, 0, x, n);
}

/// The value of a product is the product of the values.
pub proof fn lemma_eval_multiplied<F: Field>(a: Seq<int>, b: Seq<int>, x: int)
    requires
        a.len() + b.len() >= 1,
    ensures
        poly_eval(product_coeffs::<F>(a, b), x) % F::modulus() == (poly_eval(a, x) * poly_eval(
            b,
            x,
        )) % F::modulus(),
{
    F::lemma_modulus();
    let m = F::modulus();
    let r = product_coeffs::<F>(a, b);
    let n = a.len() + b.len() - 1;
    let cr = |k: int| coeff(r, k);
    let plain = |k: int| conv(a, b, k);
    assert forall|k: int| 0 <= k < n implies #[trigger] cr(k) % m == plain(k) % m by {
        lemma_mod_twice(plain(k), m);
    }
    lemma_eval_mod(cr, plain, x, n, m);
    lemma_eval_product(a, b, x);
}

/// The product of `t - xs[j]` over `j < n`, `j != i`.
pub open spec fn basis_product(xs: Seq<int>, i: int, t: int, n: int) -> int
    decreases n,
{
    if n <= 0 {
        1
    } else if n - 1 == i {
        basis_product(xs, i, t, n - 1)
    } else {
        basis_product(xs, i, t, n - 1) * (t - xs[n - 1])
    }
}

/// Two positions of `xs` hold the same value.
pub open spec fn has_duplicate(xs: Seq<int>) -> bool {
    exists|i: int, j: int| 0 <= i < xs.len() && 0 <= j < xs.len() && i != j && xs[i] == xs[j]
}

proof fn lemma_basis_product_vanishes(xs: Seq<int>, i: int, l: int, n: int)
    requires
        0 <= l < n,
        l != i,
    ensures
        basis_product(xs, i, xs[l], n) == 0,
    decreases n,
{
    if n - 1 != l {
        lemma_basis_product_vanishes(xs, i, l, n - 1);
        if n - 1 != i {
            assert(0 * (xs[l] - xs[n - 1]) == 0);
        }
    }
}

proof fn lemma_linear_factor(c: int, t: int)
    ensures
        poly_eval(seq![c, 1], t) == c + t,
{
    let cs = seq![c, 1int];
    let cf = |k: int| coeff(cs, k);
    vstd::arithmetic::power::lemma_pow0(t);
    vstd::arithmetic::power::lemma_pow1(t);
    assert(cf(0) == c);
    assert(cf(1) == 1);
    assert(eval_terms(cf, t, 0) == 0);
    assert(eval_terms(cf, t, 1) == c);
    assert(vstd::arithmetic::power::pow(t, 1) == t);
    assert(eval_terms(cf, t, 2) == eval_terms(cf, t, 1) + cf(1) * vstd::arithmetic::power::pow(
        t,
        1,
    ));
}

proof fn lemma_equal_mod_in_range(a: int, b: int, m: int)
    requires
        m > 0,
        0 <= a < m,
        0 <= b < m,
        (a - b) % m == 0,
    ensures
        a == b,
{
    lemma_mod_equivalence(a, b, m);
    lemma_small_mod(a as nat, m as nat);
    lemma_small_mod(b as nat, m as nat);
}

/// The `i`-th Lagrange basis polynomial over `x_values`, scaled by `y`: the
/// product of `x - x_j` over `j != i`, divided by its value at `x_i` (one
/// factor's inverse at a time). Fails with `DivisionByZero` exactly when
/// another point shares `x_i`.
fn lagrange_basis<F: Field>(y: F, i: usize, x_values: &[F]) -> (r: Result<Vec<F>, SumcheckError>)
    requires
        i < x_values@.len() < usize::MAX,
    ensures
        r is Err <==> exists|j: int|
            0 <= j < x_values@.len() && j != i && #[trigger] values(x_values@)[j] == values(
                x_values@,
            )[i as int],
        r is Err ==> r == Err::<Vec<F>, SumcheckError>(SumcheckError::DivisionByZero),
        r matches Ok(p) ==> {
            &&& p@.len() == x_values@.len()
            &&& forall|l: int|
                0 <= l < x_values@.len() ==> #[trigger] poly_eval(values(p@), values(x_values@)[l])
                    % F::modulus() == if l == i {
                    y.value()
                } else {
                    0
                }
        },
{
    let ghost xs = values(x_values@);
    let ghost m = F::modulus();
    let n = x_values.len();
    let zero = F::zero();
    let one = F::one();
    let mut numerator: Vec<F> = vec![one];
    let mut scale = y;
    let mut j: usize = 0;
    proof {
        F::lemma_modulus();
        vstd::arithmetic::power::lemma_pow0(xs[0]);
        F::lemma_value_range(&y);
        lemma_small_mod(1, m as nat);
        lemma_small_mod(y.value() as nat, m as nat);
        assert forall|l: int| 0 <= l < n implies #[trigger] poly_eval(values(numerator@), xs[l]) % m
            == basis_product(xs, i as int, xs[l], 0) % m by {
            assert(values(numerator@) =~= seq![1int]);
            assert(eval_terms(|k: int| coeff(seq![1int], k), xs[l], 0) == 0);
            vstd::arithmetic::power::lemma_pow0(xs[l]);
        }
    }
    while j < n
        invariant
            xs == values(x_values@),
            m == F::modulus(),
            m > 1,
            n == xs.len(),
            i < n < usize::MAX,
            j <= n,
            zero.value() == 0,
            one.value() == 1,
            numerator@.len() == if j <= i {
                j + 1
            } else {
                j as int
            },
            forall|l: int|
                0 <= l < n ==> #[trigger] poly_eval(values(numerator@), xs[l]) % m == basis_product(
                    xs,
                    i as int,
                    xs[l],
                    j as int,
                ) % m,
            (scale.value() * basis_product(xs, i as int, xs[i as int], j as int)) % m == y.value(),
            forall|q: int| 0 <= q < j && q != i ==> #[trigger] xs[q] != xs[i as int],
        decreases n - j,
    {
        if j != i {
            let neg = zero.sub(&x_values[j]);
            let factor = vec![neg, one];
            let ghost num_before = values(numerator@);
            proof {
                assert(values(factor@) =~= seq![neg.value(), 1int]);
            }
            numerator = multiply_polynomials(numerator, factor);
            proof {
                assert forall|l: int| 0 <= l < n implies #[trigger] poly_eval(
                    values(numerator@),
                    xs[l],
                ) % m == basis_product(xs, i as int, xs[l], j + 1) % m by {
                    let t = xs[l];
                    let e = poly_eval(num_before, t);
                    let b = basis_product(xs, i as int, t, j as int);
                    let q = neg.value() + t;
                    lemma_eval_multiplied::<F>(num_before, seq![neg.value(), 1int], t);
                    lemma_linear_factor(neg.value(), t);
                    lemma_add_mod_noop(0 - xs[j as int], t, m);
                    lemma_mod_twice(0 - xs[j as int], m);
                    F::lemma_value_range(&x_values@[l]);
                    lemma_small_mod(t as nat, m as nat);
                    lemma_add_mod_noop(neg.value(), t, m);
                    lemma_mul_mod_noop(e, q, m);
                    lemma_mul_mod_noop(b, t - xs[j as int], m);
                    assert(0 - xs[j as int] + t == t - xs[j as int]);
                }
            }
            let d = x_values[i].sub(&x_values[j]);
            match d.inverse() {
                None => {
                    proof {
                        F::lemma_value_range(&x_values@[i as int]);
                        F::lemma_value_range(&x_values@[j as int]);
                        lemma_equal_mod_in_range(xs[i as int], xs[j as int], m);
                    }
                    return Err(SumcheckError::DivisionByZero);
                },
                Some(inv) => {
                    let next = scale.mul(&inv);
                    proof {
                        let s = scale.value();
                        let iv = inv.value();
                        let f = xs[i as int] - xs[j as int];
                        let b = basis_product(xs, i as int, xs[i as int], j as int);
                        lemma_mul_mod_noop_left(s * iv, b * f, m);
                        assert((s * iv) * (b * f) == (s * b) * (iv * f)) by (nonlinear_arith);
                        lemma_mul_mod_noop(s * b, iv * f, m);
                        lemma_mul_mod_noop_right(iv, f, m);
                        assert(d.value() * iv == iv * d.value()) by (nonlinear_arith);
                        lemma_small_mod(1, m as nat);
                        F::lemma_value_range(&y);
                        lemma_small_mod(y.value() as nat, m as nat);
                        lemma_mod_twice(s * b, m);
                        assert(basis_product(xs, i as int, xs[i as int], j + 1) == b * f);
                        assert((y.value() * 1) % m == y.value());
                        lemma_small_mod(0, m as nat);
                        if xs[j as int] == xs[i as int] {
                            assert(d.value() == 0);
                        }
                    }
                    scale = next;
                },
            }
        }
        j = j + 1;
    }
    let basis = scalar_mul(scale, numerator);
    proof {
        assert forall|l: int| 0 <= l < n implies #[trigger] poly_eval(values(basis@), xs[l]) % m
            == if l == i {
            y.value()
        } else {
            0
        } by {
            let t = xs[l];
            let e = poly_eval(values(numerator@), t);
            let b = basis_product(xs, i as int, t, n as int);
            lemma_eval_scaled::<F>(scale.value(), values(numerator@), t);
            lemma_mul_mod_noop_right(scale.value(), e, m);
            lemma_mul_mod_noop_right(scale.value(), b, m);
            if l != i {
                lemma_basis_product_vanishes(xs, i as int, l, n as int);
                lemma_small_mod(0, m as nat);
            }
        }
    }
    Ok(basis)
}

/// What interpolating the points `(xs[i], ys[i])` gives: `InvalidInput`
/// when the sequences differ in length, `DivisionByZero` when two
/// x-coordinates are equal, and otherwise a polynomial with one coefficient
/// per point (one when there is none) that takes the value `ys[i]` at each
/// `xs[i]`.
pub open spec fn interpolation<F: Field>(
    xs: Seq<int>,
    ys: Seq<int>,
    r: Result<DenseUnivariatePoly<F>, SumcheckError>,
) -> bool {
    if xs.len() != ys.len() {
        r == Err::<DenseUnivariatePoly<F>, SumcheckError>(SumcheckError::InvalidInput)
    } else if has_duplicate(xs) {
        r == Err::<DenseUnivariatePoly<F>, SumcheckError>(SumcheckError::DivisionByZero)
    } else {
        match r {
            Ok(p) => {
                &&& p@.len() == if xs.len() == 0 {
                    1
                } else {
                    xs.len() as int
                }
                &&& forall|l: int|
                    0 <= l < xs.len() ==> #[trigger] poly_eval(p@, xs[l]) % F::modulus() == ys[l]
            },
            Err(_) => false,
        }
    }
}

/// The polynomial of degree below `k` through the `k` points
/// `(x_values[i], y_values[i])`, built as the sum of the scaled Lagrange basis
/// polynomials.
pub fn lagrange_interpolate<F: Field>(x_values: &[F], y_values: &[F]) -> (r: Result<
    DenseUnivariatePoly<F>,
    SumcheckError,
>)
    requires
        x_values@.len() < usize::MAX,
    ensures
        interpolation::<F>(values(x_values@), values(y_values@), r),
{
    if x_values.len() != y_values.len() {
        return Err(SumcheckError::InvalidInput);
    }
    let ghost xs = values(x_values@);
    let ghost ys = values(y_values@);
    let ghost m = F::modulus();
    let n = x_values.len();
    let mut final_poly: Vec<F> = vec![F::zero()];
    let mut i: usize = 0;
    proof {
        F::lemma_modulus();
        lemma_small_mod(0, m as nat);
        assert forall|l: int| 0 <= l < n implies #[trigger] poly_eval(values(final_poly@), xs[l])
            % m == 0 by {
            let cs = values(final_poly@);
            let cf = |k: int| coeff(cs, k);
            assert(cs =~= seq![0int]);
            assert(cf(0) == 0);
            assert(eval_terms(cf, xs[l], 0) == 0);
            assert(eval_terms(cf, xs[l], 1) == 0 + cf(0) * vstd::arithmetic::power::pow(xs[l], 0));
        }
    }
    while i < n
        invariant
            xs == values(x_values@),
            ys == values(y_values@),
            n == xs.len() == ys.len(),
            n < usize::MAX,
            m == F::modulus(),
            m > 1,
            i <= n,
            final_poly@.len() == if i == 0 {
                1
            } else {
                n as int
            },
            forall|l: int|
                0 <= l < n ==> #[trigger] poly_eval(values(final_poly@), xs[l]) % m == if l < i {
                    ys[l]
                } else {
                    0
                },
            forall|q: int, p: int|
                0 <= q < i && 0 <= p < n && p != q ==> #[trigger] xs[p] != #[trigger] xs[q],
        decreases n - i,
    {
        let basis = match lagrange_basis(y_values[i], i, x_values) {
            Ok(b) => b,
            Err(e) => {
                proof {
                    let j = choose|j: int|
                        0 <= j < n && j != i && #[trigger] xs[j] == xs[i as int];
                    assert(has_duplicate(xs));
                }
                return Err(e);
            },
        };
        let ghost before = values(final_poly@);
        let ghost added = values(basis@);
        final_poly = add_polynomials(final_poly, basis);
        proof {
            assert forall|l: int| 0 <= l < n implies #[trigger] poly_eval(
                values(final_poly@),
                xs[l],
            ) % m == if l < i + 1 {
                ys[l]
            } else {
                0
            } by {
                lemma_eval_sum::<F>(before, added, xs[l]);
                lemma_add_mod_noop(poly_eval(before, xs[l]), poly_eval(added, xs[l]), m);
                F::lemma_value_range(&y_values@[l]);
                lemma_small_mod(ys[l] as nat, m as nat);
                lemma_small_mod(0, m as nat);
                assert(poly_eval(added, xs[l]) % m == if l == i {
                    ys[l]
                } else {
                    0
                });
            }
        }
        i = i + 1;
    }
    proof {
        if has_duplicate(xs) {
            let (q, p) = choose|q: int, p: int|
                0 <= q < xs.len() && 0 <= p < xs.len() && q != p && xs[q] == xs[p];
            assert(xs[p] != xs[q]);
        }
    }
    Ok(DenseUnivariatePoly { coefficients: final_poly })
}

impl<F: Field> DenseUnivariatePoly<F> {
    /// The polynomial through the points `(x_values[i], y_values[i])`; see
    /// [`lagrange_interpolate`].
    pub fn lagrange_interpolate(x_values: &Vec<F>, y_values: &Vec<F>) -> (r: Result<
        Self,
        SumcheckError,
    >)
        requires
            x_values@.len() < usize::MAX,
        ensures
            interpolation::<F>(values(x_values@), values(y_values@), r),
    {
        lagrange_interpolate(x_values.as_slice(), y_values.as_slice())
    }
}

} // verus!
