//! Evaluation is a ring homomorphism: the value of a sum or product of
//! polynomials is the sum or product of their values, modulo `p`.

use vstd::prelude::*;
use vstd::arithmetic::div_mod::*;
use vstd::arithmetic::mul::*;
use vstd::arithmetic::power::*;

use crate::field::FieldElement;
use crate::polynomial::{
    all_in_field, coeff, conv_upto, eval_upto, lemma_eval_same_coeffs, lemma_eval_upto_beyond,
    lemma_strip_zeros, poly_add, poly_eval, poly_mul, poly_neg, strip_zeros, sum_coeffs,
};

verus! {

/// `Σ_{k<n} g(k) x^k` for an integer coefficient function `g`.
pub open spec fn series(g: spec_fn(int) -> int, x: int, n: nat) -> int
    decreases n,
{
    if n == 0 {
        0
    } else {
        series(g, x, (n - 1) as nat) + g(n - 1) * pow(x, (n - 1) as nat)
    }
}

/// The coefficients of a sequence as an integer function.
pub open spec fn coeff_fn(s: Seq<FieldElement>) -> spec_fn(int) -> int {
    |i: int| coeff(s, i)
}

proof fn lemma_series_eval(s: Seq<FieldElement>, x: int, n: nat)
    ensures
        series(coeff_fn(s), x, n) == eval_upto(s, x, n),
    decreases n,
{
    if n > 0 {
        lemma_series_eval(s, x, (n - 1) as nat);
    }
}

/// Series are additive in their coefficients.
proof fn lemma_series_add(f: spec_fn(int) -> int, g: spec_fn(int) -> int, h: spec_fn(int) -> int, x: int, n: nat)
    requires
        forall|k: int| 0 <= k < n ==> #[trigger] h(k) == f(k) + g(k),
    ensures
        series(h, x, n) == series(f, x, n) + series(g, x, n),
    decreases n,
{
    if n > 0 {
        lemma_series_add(f, g, h, x, (n - 1) as nat);
        lemma_mul_is_distributive_add_other_way(pow(x, (n - 1) as nat), f(n - 1), g(n - 1));
    }
}

/// Series with coefficients that agree agree.
proof fn lemma_series_ext(f: spec_fn(int) -> int, g: spec_fn(int) -> int, x: int, n: nat)
    requires
        forall|k: int| 0 <= k < n ==> #[trigger] f(k) == g(k),
    ensures
        series(f, x, n) == series(g, x, n),
    decreases n,
{
    if n > 0 {
        lemma_series_ext(f, g, x, (n - 1) as nat);
    }
}

/// Zero coefficients past `m` do not change a series.
proof fn lemma_series_extend(f: spec_fn(int) -> int, x: int, m: nat, n: nat)
    requires
        m <= n,
        forall|k: int| m <= k < n ==> #[trigger] f(k) == 0,
    ensures
        series(f, x, n) == series(f, x, m),
    decreases n,
{
    if n > m {
        lemma_series_extend(f, x, m, (n - 1) as nat);
        lemma_mul_basics(pow(x, (n - 1) as nat));
    }
}

/// Scaling the coefficients scales the series.
proof fn lemma_series_scale(f: spec_fn(int) -> int, g: spec_fn(int) -> int, c: int, x: int, n: nat)
    requires
        forall|k: int| 0 <= k < n ==> #[trigger] g(k) == c * f(k),
    ensures
        series(g, x, n) == c * series(f, x, n),
    decreases n,
{
    if n > 0 {
        lemma_series_scale(f, g, c, x, (n - 1) as nat);
        lemma_mul_is_associative(c, f(n - 1), pow(x, (n - 1) as nat));
        lemma_mul_is_distributive_add(c, series(f, x, (n - 1) as nat), f(n - 1) * pow(x, (n - 1) as nat));
    }
}

/// Shifting the coefficients up by `m` multiplies the series by `x^m`.
proof fn lemma_series_shift(b: Seq<FieldElement>, x: int, m: nat, n: nat)
    requires
        n >= m,
    ensures
        series(|k: int| coeff(b, k - m), x, n) == pow(x, m) * eval_upto(b, x, (n - m) as nat),
    decreases n,
{
    let g = |k: int| coeff(b, k - m);
    if n == m {
        lemma_series_extend(g, x, 0, n);
        lemma_mul_basics(pow(x, m));
    } else {
        lemma_series_shift(b, x, m, (n - 1) as nat);
        let j = (n - 1 - m) as nat;
        lemma_pow_adds(x, m, j);
        assert((n - 1) as nat == m + j);
        lemma_mul_is_associative(coeff(b, j as int), pow(x, m), pow(x, j));
        lemma_mul_is_commutative(coeff(b, j as int), pow(x, m));
        lemma_mul_is_associative(pow(x, m), coeff(b, j as int), pow(x, j));
        lemma_mul_is_distributive_add(pow(x, m), eval_upto(b, x, j), coeff(b, j as int) * pow(x, j));
    }
}

/// The series of the first `n` rows of the schoolbook product.
proof fn lemma_series_conv(a: Seq<FieldElement>, b: Seq<FieldElement>, x: int, n: nat, len: nat)
    requires
        n == 0 || len + 1 >= n + b.len(),
    ensures
        series(|k: int| conv_upto(a, b, n, k), x, len) == eval_upto(a, x, n) * poly_eval(b, x),
    decreases n,
{
    if n == 0 {
        lemma_series_extend(|k: int| conv_upto(a, b, 0, k), x, 0, len);
        lemma_mul_basics(poly_eval(b, x));
    } else {
        let m = (n - 1) as nat;
        lemma_series_conv(a, b, x, m, len);
        let f = |k: int| conv_upto(a, b, m, k);
        let g = |k: int| coeff(a, m as int) * coeff(b, k - m);
        let sh = |k: int| coeff(b, k - m);
        let h = |k: int| conv_upto(a, b, n, k);
        lemma_series_add(f, g, h, x, len);
        lemma_series_scale(sh, g, coeff(a, m as int), x, len);
        lemma_series_shift(b, x, m, len);
        lemma_eval_upto_beyond(b, x, (len - m) as nat);
        // eval_upto(a, n) * B == eval_upto(a, m) * B + a_m * x^m * B
        let bv = poly_eval(b, x);
        lemma_mul_is_distributive_add_other_way(bv, eval_upto(a, x, m), coeff(a, m as int) * pow(x, m));
        lemma_mul_is_associative(coeff(a, m as int), pow(x, m), bv);
    }
}

/// A sequence whose coefficients are congruent to `g` modulo `p` evaluates
/// congruently to the series of `g`.
proof fn lemma_eval_congruent(s: Seq<FieldElement>, g: spec_fn(int) -> int, x: int, n: nat, p: int)
    requires
        p > 0,
        n <= s.len(),
        forall|k: int| 0 <= k < n ==> (#[trigger] coeff(s, k)) % p == g(k) % p,
    ensures
        eval_upto(s, x, n) % p == series(g, x, n) % p,
    decreases n,
{
    if n > 0 {
        let m = (n - 1) as nat;
        lemma_eval_congruent(s, g, x, m, p);
        let px = pow(x, m);
        lemma_mul_mod_noop_left(coeff(s, m as int), px, p);
        lemma_mul_mod_noop_left(g(m as int), px, p);
        lemma_add_mod_noop(eval_upto(s, x, m), coeff(s, m as int) * px, p);
        lemma_add_mod_noop(series(g, x, m), g(m as int) * px, p);
    }
}

/// Evaluation turns polynomial products into products of values mod `p`.
pub proof fn lemma_eval_mul(a: Seq<FieldElement>, b: Seq<FieldElement>, x: int)
    requires
        a.len() > 0,
        b.len() > 0,
        a[0].field.p > 0,
    ensures
        poly_eval(poly_mul(a, b), x) % (a[0].field.p as int) == (poly_eval(a, x) * poly_eval(b, x))
            % (a[0].field.p as int),
{
    let f = a[0].field;
    let p = f.p as int;
    let len = (a.len() + b.len() - 1) as nat;
    let full = Seq::new(len, |k: int| f.element_of(conv_upto(a, b, a.len(), k)));
    lemma_strip_zeros(full);
    lemma_eval_same_coeffs(strip_zeros(full), full, x);
    let g = |k: int| conv_upto(a, b, a.len(), k);
    assert forall|k: int| 0 <= k < len implies (#[trigger] coeff(full, k)) % p == g(k) % p by {
        lemma_mod_twice(g(k), p);
    }
    lemma_eval_congruent(full, g, x, len, p);
    lemma_series_conv(a, b, x, a.len(), len);
}

/// Evaluation turns polynomial sums into sums of values mod `p`.
pub proof fn lemma_eval_add(a: Seq<FieldElement>, b: Seq<FieldElement>, x: int, p: int)
    requires
        p > 0,
        a.len() > 0 ==> a[0].field.p == p,
    ensures
        poly_eval(poly_add(a, b), x) % p == (poly_eval(a, x) + poly_eval(b, x)) % p,
{
    if a.len() == 0 {
        lemma_eval_upto_beyond(a, x, 0);
    } else if b.len() == 0 {
        lemma_eval_upto_beyond(b, x, 0);
    } else {
        let s = sum_coeffs(a, b);
        let len = s.len();
        lemma_strip_zeros(s);
        lemma_eval_same_coeffs(strip_zeros(s), s, x);
        let g = |k: int| coeff(a, k) + coeff(b, k);
        assert forall|k: int| 0 <= k < len implies (#[trigger] coeff(s, k)) % p == g(k) % p by {
            lemma_mod_twice(g(k), p);
        }
        lemma_eval_congruent(s, g, x, len, p);
        lemma_series_add(coeff_fn(a), coeff_fn(b), g, x, len);
        lemma_series_eval(a, x, len);
        lemma_series_eval(b, x, len);
        lemma_eval_upto_beyond(a, x, len);
        lemma_eval_upto_beyond(b, x, len);
    }
}

/// Evaluation turns negation into negation of the value mod `p`.
pub proof fn lemma_eval_neg(a: Seq<FieldElement>, x: int, p: int)
    requires
        p > 0,
        all_in_field(a, a[0].field) || a.len() == 0,
        a.len() > 0 ==> a[0].field.p == p,
    ensures
        poly_eval(poly_neg(a), x) % p == (-poly_eval(a, x)) % p,
{
    let m = a.map_values(|c: FieldElement| c.field.element_of(-c.value));
    let len = a.len();
    lemma_strip_zeros(m);
    lemma_eval_same_coeffs(strip_zeros(m), m, x);
    let g = |k: int| -coeff(a, k);
    assert forall|k: int| 0 <= k < len implies (#[trigger] coeff(m, k)) % p == g(k) % p by {
        assert(a[k].field == a[0].field);
        lemma_mod_twice(-a[k].value, p);
    }
    lemma_eval_congruent(m, g, x, len, p);
    lemma_series_scale(coeff_fn(a), g, -1, x, len);
    lemma_series_eval(a, x, len);
}

/// Setting a zero coefficient to `c` adds `c x^s` to the value.
pub proof fn lemma_eval_update(q: Seq<FieldElement>, s: int, c: FieldElement, x: int)
    requires
        0 <= s < q.len(),
        q[s].value == 0,
    ensures
        poly_eval(q.update(s, c), x) == poly_eval(q, x) + c.value * pow(x, s as nat),
{
    let u = q.update(s, c);
    let g = |k: int| if k == s { c.value as int } else { 0 };
    lemma_series_add(coeff_fn(q), g, coeff_fn(u), x, q.len());
    lemma_series_eval(q, x, q.len());
    lemma_series_eval(u, x, q.len());
    lemma_series_single(c.value as int, s, x, q.len());
}

/// A series with a single non-zero coefficient `c` at `s`.
proof fn lemma_series_single(c: int, s: int, x: int, n: nat)
    requires
        0 <= s < n,
    ensures
        series(|k: int| if k == s { c } else { 0 }, x, n) == c * pow(x, s as nat),
    decreases n,
{
    let g = |k: int| if k == s { c } else { 0 };
    if n > s + 1 {
        lemma_series_single(c, s, x, (n - 1) as nat);
        lemma_mul_basics(pow(x, (n - 1) as nat));
    } else {
        lemma_series_extend(g, x, 0, s as nat);
    }
}

/// `x^s` times `c`: the monomial with `s` zero coefficients below `c`.
pub proof fn lemma_eval_monomial(m: Seq<FieldElement>, s: nat, c: FieldElement, x: int)
    requires
        m.len() == s + 1,
        forall|k: int| 0 <= k < s ==> (#[trigger] m[k]).value == 0,
        m[s as int] == c,
    ensures
        poly_eval(m, x) == c.value * pow(x, s),
{
    let g = |k: int| if k == s { c.value as int } else { 0 };
    lemma_series_ext(coeff_fn(m), g, x, s + 1);
    lemma_series_eval(m, x, s + 1);
    lemma_series_single(c.value as int, s as int, x, s + 1);
}

/// The top coefficient of a product is the product of the top coefficients.
pub proof fn lemma_conv_top(a: Seq<FieldElement>, b: Seq<FieldElement>)
    requires
        a.len() > 0,
        b.len() > 0,
    ensures
        conv_upto(a, b, a.len(), a.len() + b.len() - 2) == coeff(a, a.len() - 1) * coeff(
            b,
            b.len() - 1,
        ),
{
    lemma_conv_top_rows(a, b, (a.len() - 1) as nat);
}

proof fn lemma_conv_top_rows(a: Seq<FieldElement>, b: Seq<FieldElement>, n: nat)
    requires
        n <= a.len() - 1,
        b.len() > 0,
    ensures
        conv_upto(a, b, n, a.len() + b.len() - 2) == 0,
    decreases n,
{
    if n > 0 {
        lemma_conv_top_rows(a, b, (n - 1) as nat);
        lemma_mul_basics(coeff(a, n - 1));
    }
}

} // verus!
